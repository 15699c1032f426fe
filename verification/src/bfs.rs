//! The marker-propagation search engine.
//!
//! A single run attaches an optional marker to every cell of a working
//! grid, seeds the start cell, propagates markers across primary-neighbour
//! edges until a full pass changes nothing, and projects the final markers
//! into an output grid. The per-edge marking function decides how a marker
//! travels: a result of `Some(v)` proposes the marker `v` for the target
//! cell, a result of `None` proposes no change.
//!
//! The engine relaxes to a fixed point, so the caller's marking function
//! carries an obligation: all `Some` proposals for one target cell must
//! agree, whatever the source. This is the engine's concrete form of the
//! usual monotonicity obligation on a marking function. With it the
//! number of cells a pass can still change is finite and the run
//! terminates; the rules a marking function naturally expresses (a marker
//! class per target state) have the property by construction.
//!
//! A successful run reports a final marking that is derivable from the
//! seeded start by marking-function steps ([`mark_derivable`]), settled
//! on every edge ([`marking_fixed`]) and seeded ([`start_seeded`]). For a
//! marking function whose proposals depend on the source marker, several
//! such markings can exist and the one reached can depend on the sweep
//! order - a function that proposes only out of unmarked sources shows
//! this - so the engine's promise is deliberately a description of the
//! reached marking, not a unique fixed point. A caller pins the result
//! down through the run's invariant, as both queries below do; their
//! results are proved equal from run to run
//! ([`lemma_reachable_deterministic`],
//! [`crate::diver::lemma_diver_moves_deterministic`]).

use vstd::prelude::*;

use crate::grid::Grid;
use crate::grid::MapExt;
use crate::util::EqCheck;
use crate::vec2::Vec2;
use crate::vec2::abs_diff_spec;
use crate::vec2::spec_neighbours;

verus! {

/// The ways a search run can fail before any marker is placed.
#[derive(Clone, Copy, Debug, PartialEq, Eq, Structural)]
pub enum Error {
    /// No start position was given and no cell of the map is standable.
    UnavailableStartingPosition,
    /// The given start position lies outside the map.
    StartingPosOutOfBounds,
}

/// Whether `p` addresses a cell of a `w` by `h` grid.
pub open spec fn in_dims(w: nat, h: nat, p: Vec2) -> bool {
    (p.x as nat) < w && (p.y as nat) < h
}

/// Whether `p` and `c` are orthogonally adjacent coordinates.
pub open spec fn adjacent(p: Vec2, c: Vec2) -> bool {
    (p.y == c.y && abs_diff_spec(p.x as int, c.x as int) == 1) || (p.x == c.x && abs_diff_spec(
        p.y as int,
        c.y as int,
    ) == 1)
}

/// A marking has one optional marker per grid cell.
pub open spec fn marking_dims<M>(m: Seq<Seq<Option<M>>>, w: nat, h: nat) -> bool {
    m.len() == h && forall|i: int| 0 <= i < h ==> (#[trigger] m[i]).len() == w
}

/// The marker a marking holds at `p`.
pub open spec fn mark_at<M>(m: Seq<Seq<Option<M>>>, p: Vec2) -> Option<M> {
    m[p.y as int][p.x as int]
}

/// The marking with the marker at `c` replaced by `Some(v)`.
pub open spec fn update_mark<M>(m: Seq<Seq<Option<M>>>, c: Vec2, v: M) -> Seq<Seq<Option<M>>> {
    m.update(c.y as int, m[c.y as int].update(c.x as int, Some(v)))
}

/// The marking of a `w` by `h` grid where only `start` is marked, with
/// `sm`.
pub open spec fn init_marking<M>(w: nat, h: nat, start: Vec2, sm: M) -> Seq<Seq<Option<M>>> {
    Seq::new(
        h,
        |y: int|
            Seq::new(
                w,
                |x: int|
                    if y == start.y && x == start.x {
                        Some(sm)
                    } else {
                        None
                    },
            ),
    )
}

/// The first coordinate in row-major order comes no later than the
/// second.
pub open spec fn rm_le(a: Vec2, b: Vec2) -> bool {
    a.y < b.y || (a.y == b.y && a.x <= b.x)
}

/// The start cell a run works from: the one given, if it lies on the
/// map, or else the first standable cell in row-major order.
pub open spec fn resolved_start<T>(data: &Grid<T>, start_pos: Option<Vec2>, s: Vec2) -> bool where
    Grid<T>: MapExt,
 {
    match start_pos {
        Some(s0) => s == s0 && in_dims(data.spec_width(), data.spec_height(), s0),
        None => in_dims(data.spec_width(), data.spec_height(), s) && data.spec_standable(s)
            && forall|q: Vec2|
            in_dims(data.spec_width(), data.spec_height(), q) && #[trigger] data.spec_standable(q)
                ==> rm_le(s, q),
    }
}

/// All `Some` proposals of the marking function for one target cell
/// agree, whatever the source cell and marker: the obligation that makes
/// the relaxation converge.
pub open spec fn proposals_agree<T, M, F: Fn(Vec2, Option<M>, Vec2, T) -> Option<M>>(
    marker: F,
) -> bool {
    forall|p1: Vec2, sm1: Option<M>, p2: Vec2, sm2: Option<M>, c: Vec2, d: T, v1: M, v2: M|
        #[trigger] call_ensures(marker, (p1, sm1, c, d), Some(v1)) && #[trigger] call_ensures(
            marker,
            (p2, sm2, c, d),
            Some(v2),
        ) ==> v1 == v2
}

/// Some source and source marker can make the marking function propose
/// `u` for the cell `e`.
pub open spec fn proposal_derived<T, M, F: Fn(Vec2, Option<M>, Vec2, T) -> Option<M>>(
    marker: F,
    data: &Grid<T>,
    e: Vec2,
    u: M,
) -> bool {
    exists|p2: Vec2, mm2: Option<M>|
        #[trigger] call_ensures(marker, (p2, mm2, e, data.cell(e)), Some(u))
}

/// Every marker placed so far is accounted for: the start cell may carry
/// the start marker, everything else marked carries a marker the marking
/// function can propose for that cell. While `fresh` holds the start cell
/// still carries the start marker; once overwritten its marker is a
/// proposal too.
pub open spec fn justified<T, M, F: Fn(Vec2, Option<M>, Vec2, T) -> Option<M>>(
    marker: F,
    data: &Grid<T>,
    start: Vec2,
    sm: M,
    fresh: bool,
    m: Seq<Seq<Option<M>>>,
) -> bool {
    &&& forall|e: Vec2|
        in_dims(data.spec_width(), data.spec_height(), e) && (#[trigger] mark_at(m, e)) is Some
            ==> ((e == start && mark_at(m, e) == Some(sm)) || proposal_derived(
            marker,
            data,
            e,
            mark_at(m, e)->0,
        ))
    &&& (fresh ==> mark_at(m, start) == Some(sm))
    &&& (!fresh ==> mark_at(m, start) is Some && proposal_derived(
        marker,
        data,
        start,
        mark_at(m, start)->0,
    ))
}

/// One edge is settled: the marking function's result across it is either
/// no proposal or the marker the target already has.
pub open spec fn edge_ok<T, M, F: Fn(Vec2, Option<M>, Vec2, T) -> Option<M>>(
    marker: F,
    data: &Grid<T>,
    m: Seq<Seq<Option<M>>>,
    p: Vec2,
    c: Vec2,
) -> bool {
    exists|res: Option<M>|
        #[trigger] call_ensures(marker, (p, mark_at(m, p), c, data.cell(c)), res) && (res is None
            || mark_at(m, c) == res)
}

/// No pass over the marking changes anything any more: every edge between
/// adjacent cells is settled.
pub open spec fn marking_fixed<T, M, F: Fn(Vec2, Option<M>, Vec2, T) -> Option<M>>(
    marker: F,
    data: &Grid<T>,
    m: Seq<Seq<Option<M>>>,
) -> bool {
    forall|p: Vec2, c: Vec2|
        in_dims(data.spec_width(), data.spec_height(), p) && in_dims(
            data.spec_width(),
            data.spec_height(),
            c,
        ) && adjacent(p, c) ==> #[trigger] edge_ok(marker, data, m, p, c)
}

/// The start marker's proposal for the cell `c` has been applied: if it
/// proposes something, `c` is marked.
pub open spec fn seed_ok<T, M, F: Fn(Vec2, Option<M>, Vec2, T) -> Option<M>>(
    marker: F,
    data: &Grid<T>,
    m: Seq<Seq<Option<M>>>,
    start: Vec2,
    sm: M,
    c: Vec2,
) -> bool {
    exists|res: Option<M>|
        #[trigger] call_ensures(marker, (start, Some(sm), c, data.cell(c)), res) && (res is Some
            ==> mark_at(m, c) is Some)
}

/// The start cell's own proposals have been applied to all of its
/// neighbours on the map.
pub open spec fn start_seeded<T, M, F: Fn(Vec2, Option<M>, Vec2, T) -> Option<M>>(
    marker: F,
    data: &Grid<T>,
    m: Seq<Seq<Option<M>>>,
    start: Vec2,
    sm: M,
) -> bool {
    forall|c: Vec2|
        in_dims(data.spec_width(), data.spec_height(), c) && #[trigger] adjacent(start, c)
            ==> seed_ok(marker, data, m, start, sm, c)
}

/// The facts the engine maintains of its working marking at all times.
pub open spec fn engine_state<T, M, F: Fn(Vec2, Option<M>, Vec2, T) -> Option<M>>(
    marker: F,
    data: &Grid<T>,
    start: Vec2,
    sm: M,
    inv: spec_fn(Seq<Seq<Option<M>>>) -> bool,
    fresh: bool,
    m: Seq<Seq<Option<M>>>,
) -> bool {
    &&& inv(m)
    &&& marking_dims(m, data.spec_width(), data.spec_height())
    &&& justified(marker, data, start, sm, fresh, m)
    &&& mark_at(m, start) is Some
}

/// One relaxation step: some adjacent pair lets the marking function
/// propose a marker for the target, and the marking records it.
pub open spec fn mark_step<T, M, F: Fn(Vec2, Option<M>, Vec2, T) -> Option<M>>(
    marker: F,
    data: &Grid<T>,
    m1: Seq<Seq<Option<M>>>,
    m2: Seq<Seq<Option<M>>>,
) -> bool {
    exists|p: Vec2, c: Vec2, v: M|
        {
            &&& in_dims(data.spec_width(), data.spec_height(), p)
            &&& in_dims(data.spec_width(), data.spec_height(), c)
            &&& adjacent(p, c)
            &&& #[trigger] call_ensures(marker, (p, mark_at(m1, p), c, data.cell(c)), Some(v))
            &&& m2 == update_mark(m1, c, v)
        }
}

/// The marking `m` arises from `m0` by a finite run of relaxation
/// steps: every marker it holds was derived, step by step, by the
/// marking function.
pub open spec fn mark_chain<T, M, F: Fn(Vec2, Option<M>, Vec2, T) -> Option<M>>(
    marker: F,
    data: &Grid<T>,
    chain: Seq<Seq<Seq<Option<M>>>>,
    m0: Seq<Seq<Option<M>>>,
    m: Seq<Seq<Option<M>>>,
) -> bool {
    &&& chain.len() >= 1
    &&& chain[0] == m0
    &&& chain.last() == m
    &&& forall|i: int|
        0 <= i < chain.len() - 1 ==> mark_step(marker, data, #[trigger] chain[i], chain[i + 1])
}

/// Some finite run of relaxation steps leads from `m0` to `m`.
pub open spec fn mark_derivable<T, M, F: Fn(Vec2, Option<M>, Vec2, T) -> Option<M>>(
    marker: F,
    data: &Grid<T>,
    m0: Seq<Seq<Option<M>>>,
    m: Seq<Seq<Option<M>>>,
) -> bool {
    exists|chain: Seq<Seq<Seq<Option<M>>>>| #[trigger] mark_chain(marker, data, chain, m0, m)
}

/// Every marking derives from itself, by the empty run.
proof fn lemma_derivable_refl<T, M, F: Fn(Vec2, Option<M>, Vec2, T) -> Option<M>>(
    marker: F,
    data: &Grid<T>,
    m0: Seq<Seq<Option<M>>>,
)
    ensures
        mark_derivable(marker, data, m0, m0),
{
    let chain = seq![m0];
    assert(chain[0] == m0);
    assert(chain.last() == m0);
    assert(mark_chain(marker, data, chain, m0, m0));
}

/// A derivable marking followed by one more step is derivable.
proof fn lemma_derivable_extend<T, M, F: Fn(Vec2, Option<M>, Vec2, T) -> Option<M>>(
    marker: F,
    data: &Grid<T>,
    m0: Seq<Seq<Option<M>>>,
    m1: Seq<Seq<Option<M>>>,
    m2: Seq<Seq<Option<M>>>,
)
    requires
        mark_derivable(marker, data, m0, m1),
        mark_step(marker, data, m1, m2),
    ensures
        mark_derivable(marker, data, m0, m2),
{
    let chain = choose|chain: Seq<Seq<Seq<Option<M>>>>|
        #[trigger] mark_chain(marker, data, chain, m0, m1);
    let ext = chain.push(m2);
    assert(ext[0] == chain[0]);
    assert(ext.last() == m2);
    assert forall|i: int|
        0 <= i < ext.len() - 1 implies mark_step(marker, data, #[trigger] ext[i], ext[i + 1]) by {
        if i < chain.len() - 1 {
            assert(ext[i] == chain[i] && ext[i + 1] == chain[i + 1]);
        } else {
            assert(ext[i] == chain.last() && ext[i + 1] == m2);
        }
    }
    assert(mark_chain(marker, data, ext, m0, m2));
}

/// Every cell of the output grid is the projection of that cell's final
/// marker.
pub open spec fn projected<M, O, G: Fn(Vec2, Option<M>) -> O>(
    output: G,
    m: Seq<Seq<Option<M>>>,
    out: &Grid<O>,
) -> bool {
    forall|p: Vec2|
        #[trigger] out.in_bounds(p) ==> call_ensures(output, (p, mark_at(m, p)), out.cell(p))
}

/// What a successful run guarantees: some final marking exists that the
/// caller's invariant admits, that is justified, seeded and fixed, whose
/// start cell is marked, and that the output grid projects.
pub open spec fn search_ok<
    T,
    M,
    O,
    F: Fn(Vec2, Option<M>, Vec2, T) -> Option<M>,
    G: Fn(Vec2, Option<M>) -> O,
>(
    marker: F,
    output: G,
    data: &Grid<T>,
    start: Vec2,
    sm: M,
    inv: spec_fn(Seq<Seq<Option<M>>>) -> bool,
    out: Grid<O>,
) -> bool {
    exists|m: Seq<Seq<Option<M>>>|
        {
            &&& #[trigger] inv(m)
            &&& marking_dims(m, data.spec_width(), data.spec_height())
            &&& justified_any(marker, data, start, sm, m)
            &&& marking_fixed(marker, data, m)
            &&& start_seeded(marker, data, m, start, sm)
            &&& mark_at(m, start) is Some
            &&& mark_derivable(
                marker,
                data,
                init_marking(data.spec_width(), data.spec_height(), start, sm),
                m,
            )
            &&& projected(output, m, &out)
        }
}

/// `justified` with the freshness of the start marker left open.
pub open spec fn justified_any<T, M, F: Fn(Vec2, Option<M>, Vec2, T) -> Option<M>>(
    marker: F,
    data: &Grid<T>,
    start: Vec2,
    sm: M,
    m: Seq<Seq<Option<M>>>,
) -> bool {
    justified(marker, data, start, sm, true, m) || justified(marker, data, start, sm, false, m)
}

/// The number of unmarked cells in one row.
pub open spec fn row_unmarked<M>(row: Seq<Option<M>>) -> int
    decreases row.len(),
{
    if row.len() == 0 {
        0
    } else {
        row_unmarked(row.drop_last()) + if row.last() is None {
            1int
        } else {
            0int
        }
    }
}

/// The number of unmarked cells in a whole marking.
pub open spec fn unmarked_count<M>(m: Seq<Seq<Option<M>>>) -> int
    decreases m.len(),
{
    if m.len() == 0 {
        0
    } else {
        unmarked_count(m.drop_last()) + row_unmarked(m.last())
    }
}

proof fn lemma_row_unmarked_nonneg<M>(row: Seq<Option<M>>)
    ensures
        row_unmarked(row) >= 0,
    decreases row.len(),
{
    if row.len() > 0 {
        lemma_row_unmarked_nonneg(row.drop_last());
    }
}

proof fn lemma_unmarked_nonneg<M>(m: Seq<Seq<Option<M>>>)
    ensures
        unmarked_count(m) >= 0,
    decreases m.len(),
{
    if m.len() > 0 {
        lemma_unmarked_nonneg(m.drop_last());
        lemma_row_unmarked_nonneg(m.last());
    }
}

proof fn lemma_row_unmarked_update<M>(row: Seq<Option<M>>, x: int, v: M)
    requires
        0 <= x < row.len(),
    ensures
        row_unmarked(row.update(x, Some(v))) == row_unmarked(row) - (if row[x] is None {
            1int
        } else {
            0int
        }),
    decreases row.len(),
{
    let upd = row.update(x, Some(v));
    if x == row.len() - 1 {
        assert(upd.drop_last() =~= row.drop_last());
        assert(upd.last() == Some(v));
    } else {
        assert(upd.drop_last() =~= row.drop_last().update(x, Some(v)));
        assert(upd.last() == row.last());
        lemma_row_unmarked_update(row.drop_last(), x, v);
    }
}

proof fn lemma_unmarked_update<M>(m: Seq<Seq<Option<M>>>, c: Vec2, v: M)
    requires
        0 <= (c.y as int) < m.len(),
        0 <= (c.x as int) < m[c.y as int].len(),
    ensures
        unmarked_count(update_mark(m, c, v)) == unmarked_count(m) - (if mark_at(m, c) is None {
            1int
        } else {
            0int
        }),
    decreases m.len(),
{
    let upd = update_mark(m, c, v);
    if c.y as int == m.len() - 1 {
        assert(upd.drop_last() =~= m.drop_last());
        assert(upd.last() =~= m.last().update(c.x as int, Some(v)));
        lemma_row_unmarked_update(m.last(), c.x as int, v);
    } else {
        assert(upd.drop_last() =~= update_mark(m.drop_last(), c, v));
        assert(upd.last() =~= m.last());
        lemma_unmarked_update(m.drop_last(), c, v);
    }
}

/// Membership in the unclipped primary-neighbour list is exactly
/// orthogonal adjacency.
pub proof fn lemma_neighbours_adjacent(p: Vec2)
    ensures
        forall|c: Vec2| #[trigger] spec_neighbours(p, None).contains(c) ==> adjacent(p, c),
        forall|c: Vec2| adjacent(p, c) ==> #[trigger] spec_neighbours(p, None).contains(c),
{
    let s = spec_neighbours(p, None);
    assert forall|c: Vec2| #[trigger] s.contains(c) implies adjacent(p, c) by {
        let i = choose|i: int| 0 <= i < s.len() && s[i] == c;
        assert(s[i] == c);
    }
    assert forall|c: Vec2| adjacent(p, c) implies #[trigger] s.contains(c) by {
        if c.y == p.y && c.x == p.x + 1 {
            assert(s[0] == c);
        } else if c.y == p.y && c.x + 1 == p.x {
            let i: int = if p.x < 255 { 1 } else { 0 };
            assert(s[i] == c);
        } else if c.x == p.x && c.y == p.y + 1 {
            let i: int = (if p.x < 255 { 1int } else { 0 }) + (if p.x > 0 { 1int } else { 0 });
            assert(s[i] == c);
        } else {
            let i: int = (if p.x < 255 { 1int } else { 0 }) + (if p.x > 0 { 1int } else { 0 }) + (
            if p.y < 255 { 1int } else { 0 });
            assert(s[i] == c);
        }
    }
}


/// What a single write changes and leaves alone in a marking.
pub proof fn lemma_update_mark_at<M>(m: Seq<Seq<Option<M>>>, c: Vec2, v: M, w: nat, h: nat)
    requires
        marking_dims(m, w, h),
        in_dims(w, h, c),
    ensures
        marking_dims(update_mark(m, c, v), w, h),
        mark_at(update_mark(m, c, v), c) == Some(v),
        forall|e: Vec2|
            in_dims(w, h, e) && e != c ==> mark_at(update_mark(m, c, v), e) == mark_at(m, e),
{
    let upd = update_mark(m, c, v);
    assert forall|e: Vec2| in_dims(w, h, e) && e != c implies mark_at(upd, e) == mark_at(m, e) by {
        if e.y == c.y && e.x == c.x {
            assert(e == (Vec2 { x: e.x, y: e.y }));
            assert(c == (Vec2 { x: c.x, y: c.y }));
            assert(false);
        }
    }
}

/// Adjacent coordinates are distinct.
pub proof fn lemma_adjacent_distinct(p: Vec2, c: Vec2)
    requires
        adjacent(p, c),
    ensures
        p != c,
{
}

/// A changing write through the marking function preserves the engine's
/// facts; the only marked cell it can overwrite is a still-fresh start.
proof fn lemma_write_step<T, M, F: Fn(Vec2, Option<M>, Vec2, T) -> Option<M>>(
    marker: F,
    data: &Grid<T>,
    start: Vec2,
    sm: M,
    inv: spec_fn(Seq<Seq<Option<M>>>) -> bool,
    fresh: bool,
    m: Seq<Seq<Option<M>>>,
    p: Vec2,
    c: Vec2,
    pm: Option<M>,
    v: M,
) where Grid<T>: MapExt
    requires
        proposals_agree(marker),
        forall|m2: Seq<Seq<Option<M>>>, p2: Vec2, c2: Vec2, v2: M|
            inv(m2) && marking_dims(m2, data.spec_width(), data.spec_height()) && in_dims(
                data.spec_width(),
                data.spec_height(),
                p2,
            ) && in_dims(data.spec_width(), data.spec_height(), c2) && adjacent(p2, c2)
                && #[trigger] call_ensures(
                marker,
                (p2, mark_at(m2, p2), c2, data.cell(c2)),
                Some(v2),
            ) ==> inv(update_mark(m2, c2, v2)),
        engine_state(marker, data, start, sm, inv, fresh, m),
        in_dims(data.spec_width(), data.spec_height(), start),
        in_dims(data.spec_width(), data.spec_height(), p),
        in_dims(data.spec_width(), data.spec_height(), c),
        adjacent(p, c),
        pm == mark_at(m, p),
        call_ensures(marker, (p, pm, c, data.cell(c)), Some(v)),
        mark_at(m, c) != Some(v),
    ensures
        mark_at(m, c) is Some ==> c == start && fresh && mark_at(m, c) == Some(sm),
        engine_state(
            marker,
            data,
            start,
            sm,
            inv,
            if mark_at(m, c) is Some {
                false
            } else {
                fresh
            },
            update_mark(m, c, v),
        ),
        unmarked_count(update_mark(m, c, v)) == unmarked_count(m) - (if mark_at(m, c) is None {
            1int
        } else {
            0int
        }),
        mark_at(update_mark(m, c, v), c) == Some(v),
        forall|e: Vec2|
            in_dims(data.spec_width(), data.spec_height(), e) && e != c ==> mark_at(
                update_mark(m, c, v),
                e,
            ) == mark_at(m, e),
        forall|e: Vec2|
            in_dims(data.spec_width(), data.spec_height(), e) && (#[trigger] mark_at(m, e)) is Some
                ==> mark_at(update_mark(m, c, v), e) is Some,
{
    let w = data.spec_width();
    let h = data.spec_height();
    let upd = update_mark(m, c, v);
    lemma_update_mark_at(m, c, v, w, h);
    lemma_unmarked_update(m, c, v);
    lemma_adjacent_distinct(p, c);

    // The proposal for c is derivable, with p as witness.
    assert(proposal_derived(marker, data, c, v));

    // A marked target other than a fresh start would contradict the
    // agreement of proposals.
    if mark_at(m, c) is Some {
        let u = mark_at(m, c)->0;
        assert(u != v);
        if !(c == start && mark_at(m, c) == Some(sm) && fresh) {
            if c == start && mark_at(m, c) == Some(sm) {
                // fresh is false: the start marker is also proposal-derived
                assert(proposal_derived(marker, data, start, mark_at(m, start)->0));
                let (p2, mm2) = choose|p2: Vec2, mm2: Option<M>|
                    call_ensures(marker, (p2, mm2, start, data.cell(start)), Some(u));
                assert(u == v);
            } else {
                assert(proposal_derived(marker, data, c, u));
                let (p2, mm2) = choose|p2: Vec2, mm2: Option<M>|
                    call_ensures(marker, (p2, mm2, c, data.cell(c)), Some(u));
                assert(u == v);
            }
            assert(false);
        }
    }

    let new_fresh = if mark_at(m, c) is Some {
        false
    } else {
        fresh
    };

    // The caller's invariant survives the write.
    assert(inv(upd));

    // Every marker in the new marking is justified.
    assert forall|e: Vec2|
        in_dims(w, h, e) && (#[trigger] mark_at(upd, e)) is Some implies ((e == start && mark_at(
        upd,
        e,
    ) == Some(sm)) || proposal_derived(marker, data, e, mark_at(upd, e)->0)) by {
        if e == c {
            assert(mark_at(upd, c) == Some(v));
        } else {
            assert(mark_at(upd, e) == mark_at(m, e));
        }
    }

    // The start cell is still marked, and its freshness is tracked.
    if c == start {
        assert(mark_at(m, start) is Some);
        assert(mark_at(m, c) is Some);
        assert(mark_at(upd, start) == Some(v));
        assert(!new_fresh);
        assert(proposal_derived(marker, data, start, v));
    } else {
        assert(mark_at(upd, start) == mark_at(m, start));
    }
}

/// The first standable cell of the map in row-major order, if any.
fn first_standable_pos<T: Copy>(data: &Grid<T>) -> (r: Option<Vec2>) where Grid<T>: MapExt
    requires
        data.wf(),
        data.ext_wf(),
    ensures
        match r {
            Some(p) => in_dims(data.spec_width(), data.spec_height(), p) && data.spec_standable(p)
                && forall|q: Vec2|
                in_dims(data.spec_width(), data.spec_height(), q) && #[trigger] data.spec_standable(
                    q,
                ) ==> rm_le(p, q),
            None => forall|q: Vec2|
                in_dims(data.spec_width(), data.spec_height(), q) ==> !(
                #[trigger] data.spec_standable(q)),
        },
{
    let w = data.width();
    let h = data.height();
    let mut y: u8 = 0;
    while y < h
        invariant
            data.wf(),
            data.ext_wf(),
            w == data.spec_width(),
            h == data.spec_height(),
            0 <= y <= h,
            forall|q: Vec2|
                in_dims(w as nat, h as nat, q) && #[trigger] data.spec_standable(q) ==> q.y >= y,
        decreases h - y,
    {
        let mut x: u8 = 0;
        while x < w
            invariant
                data.wf(),
                data.ext_wf(),
                w == data.spec_width(),
                h == data.spec_height(),
                0 <= y < h,
                0 <= x <= w,
                forall|q: Vec2|
                    in_dims(w as nat, h as nat, q) && #[trigger] data.spec_standable(q) ==> q.y > y
                        || (q.y == y && q.x >= x),
            decreases w - x,
        {
            let pos = Vec2 { x, y };
            if data.is_standable(pos) {
                return Some(pos);
            }
            x = x + 1;
        }
        y = y + 1;
    }
    None
}

/// The generic marker-propagation search, carrying a caller-supplied
/// invariant over the working marking so that the caller can reason about
/// the final one.
///
/// The caller supplies the grid under search, the start cell (or `None`
/// to pick the first standable cell), the marker seeded there, the
/// per-edge marking function and the projection into the output cells.
/// The ghost `inv` must hold of the initial marking and be preserved by
/// every marking-function write; the run then reports a final marking
/// satisfying `inv` that is justified, seeded and fixed.
#[verifier::loop_isolation(false)]
#[verifier::rlimit(100)]
pub fn bfs_with_invariant<T, M, O, F, G>(
    data: &Grid<T>,
    start_pos: Option<Vec2>,
    start_marker: M,
    marker: F,
    output: G,
    Ghost(inv): Ghost<spec_fn(Seq<Seq<Option<M>>>) -> bool>,
) -> (r: Result<Grid<O>, Error>) where
    T: Copy,
    M: Copy + EqCheck,
    F: Fn(Vec2, Option<M>, Vec2, T) -> Option<M>,
    G: Fn(Vec2, Option<M>) -> O,
    Grid<T>: MapExt,

    requires
        data.wf(),
        data.ext_wf(),
        forall|p: Vec2, sm: Option<M>, c: Vec2, d: T|
            #[trigger] call_requires(marker, (p, sm, c, d)),
        forall|p: Vec2, sm: Option<M>| #[trigger] call_requires(output, (p, sm)),
        proposals_agree(marker),
        forall|s: Vec2|
            #[trigger] resolved_start(data, start_pos, s) ==> inv(
                init_marking(data.spec_width(), data.spec_height(), s, start_marker),
            ),
        forall|m2: Seq<Seq<Option<M>>>, p2: Vec2, c2: Vec2, v2: M|
            inv(m2) && marking_dims(m2, data.spec_width(), data.spec_height()) && in_dims(
                data.spec_width(),
                data.spec_height(),
                p2,
            ) && in_dims(data.spec_width(), data.spec_height(), c2) && adjacent(p2, c2)
                && #[trigger] call_ensures(
                marker,
                (p2, mark_at(m2, p2), c2, data.cell(c2)),
                Some(v2),
            ) ==> inv(update_mark(m2, c2, v2)),
    ensures
        (start_pos matches Some(s0) && !in_dims(data.spec_width(), data.spec_height(), s0)) <==> r
            == Result::<Grid<O>, Error>::Err(Error::StartingPosOutOfBounds),
        (start_pos is None && !(exists|q: Vec2|
            in_dims(data.spec_width(), data.spec_height(), q) && #[trigger] data.spec_standable(
                q,
            ))) <==> r == Result::<Grid<O>, Error>::Err(Error::UnavailableStartingPosition),
        r matches Ok(out) ==> out.wf() && out.spec_width() == data.spec_width()
            && out.spec_height() == data.spec_height() && exists|s: Vec2|
            #[trigger] resolved_start(data, start_pos, s) && search_ok(
                marker,
                output,
                data,
                s,
                start_marker,
                inv,
                out,
            ),
{
    let w = data.width();
    let h = data.height();
    let ghost wn = data.spec_width();
    let ghost hn = data.spec_height();

    // Resolve the start cell, or fail.
    let start: Vec2 = match start_pos {
        Some(s) => {
            if !(s.x < w && s.y < h) {
                return Err(Error::StartingPosOutOfBounds);
            }
            s
        },
        None => {
            match first_standable_pos(data) {
                Some(p) => p,
                None => {
                    return Err(Error::UnavailableStartingPosition);
                },
            }
        },
    };
    proof {
        assert(resolved_start(data, start_pos, start));
        assert(in_dims(wn, hn, start));
    }

    // The working marking: everything unmarked but the start cell.
    let mut marked: Grid<Option<M>> = Grid::new(Vec2 { x: w, y: h }, None);
    let ghost blank = marked@;
    proof {
        assert forall|yi: int, xi: int| 0 <= yi < hn && 0 <= xi < wn implies blank[yi][xi]
            == None::<M> by {
            let p = Vec2 { x: xi as u8, y: yi as u8 };
            assert(marked.in_bounds(p));
            assert(marked.cell(p) == None::<M>);
        }
    }
    marked.set(start, Some(start_marker));
    let ghost mut fresh: bool = true;
    let ghost init = init_marking(wn, hn, start, start_marker);
    proof {
        assert(marked@ == blank.update(
            start.y as int,
            blank[start.y as int].update(start.x as int, Some(start_marker)),
        ));
        assert forall|yi: int| 0 <= yi < hn implies marked@[yi] =~= init[yi] by {
            assert(blank[yi].len() == wn);
        }
        assert(marked@ =~~= init_marking(wn, hn, start, start_marker));
        lemma_derivable_refl(marker, data, init);
        assert(inv(marked@));
        assert(mark_at(marked@, start) == Some(start_marker));
        assert(marking_dims(marked@, wn, hn));
        assert(justified(marker, data, start, start_marker, fresh, marked@));
        assert(engine_state(marker, data, start, start_marker, inv, fresh, marked@));
        lemma_unmarked_nonneg(marked@);
    }

    // Seed: apply the start marker's own proposals to its neighbours.
    let nbs = start.neighbours(None);
    proof {
        lemma_neighbours_adjacent(start);
    }
    let mut i: usize = 0;
    while i < nbs.len()
        invariant
            0 <= i <= nbs@.len(),
            engine_state(marker, data, start, start_marker, inv, fresh, marked@),
            mark_derivable(marker, data, init, marked@),
            fresh,
            marked.wf(),
            marked.spec_width() == wn,
            marked.spec_height() == hn,
            forall|k: int|
                0 <= k < i ==> (!in_dims(wn, hn, #[trigger] nbs@[k]) || seed_ok(
                    marker,
                    data,
                    marked@,
                    start,
                    start_marker,
                    nbs@[k],
                )),
        decreases nbs@.len() - i,
    {
        let c = nbs[i];
        proof {
            assert(nbs@[i as int] == c);
            assert(spec_neighbours(start, None).contains(c));
            assert(adjacent(start, c));
        }
        if c.x < w && c.y < h {
            let d = data.at(c);
            let res = marker(start, Some(start_marker), c, d);
            if let Some(v) = res {
                let cur = marked.at(c);
                let same = match cur {
                    Some(u) => v.eq_check(&u),
                    None => false,
                };
                if !same {
                    proof {
                        lemma_write_step(
                            marker,
                            data,
                            start,
                            start_marker,
                            inv,
                            fresh,
                            marked@,
                            start,
                            c,
                            Some(start_marker),
                            v,
                        );
                        lemma_adjacent_distinct(start, c);
                        assert(mark_at(marked@, c) == cur);
                        assert(cur is None);
                    }
                    let ghost before = marked@;
                    marked.set(c, Some(v));
                    proof {
                        assert(marked@ == update_mark(before, c, v));
                        assert(call_ensures(
                            marker,
                            (start, mark_at(before, start), c, data.cell(c)),
                            Some(v),
                        ));
                        assert(mark_step(marker, data, before, marked@));
                        lemma_derivable_extend(marker, data, init, before, marked@);
                        assert(engine_state(
                            marker,
                            data,
                            start,
                            start_marker,
                            inv,
                            fresh,
                            marked@,
                        ));
                        assert forall|k: int|
                            0 <= k < i && in_dims(wn, hn, #[trigger] nbs@[k]) implies seed_ok(
                            marker,
                            data,
                            marked@,
                            start,
                            start_marker,
                            nbs@[k],
                        ) by {
                            let c0 = nbs@[k];
                            let res0 = choose|res0: Option<M>|
                                call_ensures(
                                    marker,
                                    (start, Some(start_marker), c0, data.cell(c0)),
                                    res0,
                                ) && (res0 is Some ==> mark_at(before, c0) is Some);
                            assert(res0 is Some ==> mark_at(marked@, c0) is Some);
                        }
                        lemma_unmarked_nonneg(marked@);
                    }
                }
            }
            proof {
                assert(seed_ok(marker, data, marked@, start, start_marker, c));
            }
        }
        i = i + 1;
    }
    proof {
        assert forall|c: Vec2| in_dims(wn, hn, c) && #[trigger] adjacent(start, c) implies seed_ok(
            marker,
            data,
            marked@,
            start,
            start_marker,
            c,
        ) by {
            assert(spec_neighbours(start, None).contains(c));
            let k = choose|k: int|
                0 <= k < spec_neighbours(start, None).len() && spec_neighbours(start, None)[k]
                    == c;
            assert(nbs@[k] == c);
        }
        lemma_unmarked_nonneg(marked@);
    }

    // Relax to a fixed point: sweep all edges until a pass changes
    // nothing.
    let mut pass_changed = true;
    while pass_changed
        invariant
            engine_state(marker, data, start, start_marker, inv, fresh, marked@),
            mark_derivable(marker, data, init, marked@),
            marked.wf(),
            marked.spec_width() == wn,
            marked.spec_height() == hn,
            start_seeded(marker, data, marked@, start, start_marker),
            unmarked_count(marked@) >= 0,
            !pass_changed ==> marking_fixed(marker, data, marked@),
        decreases unmarked_count(marked@) + (if fresh {
            1int
        } else {
            0int
        }) + (if pass_changed {
            1int
        } else {
            0int
        }),
    {
        let ghost pass_start = marked@;
        let ghost fresh0 = fresh;
        let mut changed = false;
        let mut y: u8 = 0;
        while y < h
            invariant
                0 <= y <= h,
                engine_state(marker, data, start, start_marker, inv, fresh, marked@),
                mark_derivable(marker, data, init, marked@),
                marked.wf(),
                marked.spec_width() == wn,
                marked.spec_height() == hn,
                start_seeded(marker, data, marked@, start, start_marker),
                unmarked_count(marked@) >= 0,
                !changed ==> marked@ == pass_start && fresh == fresh0,
                changed ==> unmarked_count(marked@) + (if fresh {
                    1int
                } else {
                    0int
                }) < unmarked_count(pass_start) + (if fresh0 {
                    1int
                } else {
                    0int
                }),
                !changed ==> forall|p2: Vec2, c2: Vec2|
                    in_dims(wn, hn, p2) && in_dims(wn, hn, c2) && adjacent(p2, c2) && p2.y < y
                        ==> #[trigger] edge_ok(marker, data, marked@, p2, c2),
            decreases h - y,
        {
            let mut x: u8 = 0;
            while x < w
                invariant
                    0 <= y < h,
                    0 <= x <= w,
                    engine_state(marker, data, start, start_marker, inv, fresh, marked@),
                    mark_derivable(marker, data, init, marked@),
                    marked.wf(),
                    marked.spec_width() == wn,
                    marked.spec_height() == hn,
                    start_seeded(marker, data, marked@, start, start_marker),
                    unmarked_count(marked@) >= 0,
                    !changed ==> marked@ == pass_start && fresh == fresh0,
                    changed ==> unmarked_count(marked@) + (if fresh {
                        1int
                    } else {
                        0int
                    }) < unmarked_count(pass_start) + (if fresh0 {
                        1int
                    } else {
                        0int
                    }),
                    !changed ==> forall|p2: Vec2, c2: Vec2|
                        in_dims(wn, hn, p2) && in_dims(wn, hn, c2) && adjacent(p2, c2) && (p2.y < y
                            || (p2.y == y && p2.x < x)) ==> #[trigger] edge_ok(
                            marker,
                            data,
                            marked@,
                            p2,
                            c2,
                        ),
                decreases w - x,
            {
                let p = Vec2 { x, y };
                let pm = marked.at(p);
                let nbs_p = p.neighbours(None);
                proof {
                    lemma_neighbours_adjacent(p);
                }
                let mut k: usize = 0;
                while k < nbs_p.len()
                    invariant
                        0 <= k <= nbs_p@.len(),
                        engine_state(marker, data, start, start_marker, inv, fresh, marked@),
                        mark_derivable(marker, data, init, marked@),
                        marked.wf(),
                        marked.spec_width() == wn,
                        marked.spec_height() == hn,
                        start_seeded(marker, data, marked@, start, start_marker),
                        unmarked_count(marked@) >= 0,
                        pm == mark_at(marked@, p),
                        !changed ==> marked@ == pass_start && fresh == fresh0,
                        changed ==> unmarked_count(marked@) + (if fresh {
                            1int
                        } else {
                            0int
                        }) < unmarked_count(pass_start) + (if fresh0 {
                            1int
                        } else {
                            0int
                        }),
                        !changed ==> forall|p2: Vec2, c2: Vec2|
                            in_dims(wn, hn, p2) && in_dims(wn, hn, c2) && adjacent(p2, c2) && (
                            p2.y < y || (p2.y == y && p2.x < x)) ==> #[trigger] edge_ok(
                                marker,
                                data,
                                marked@,
                                p2,
                                c2,
                            ),
                        !changed ==> forall|k2: int|
                            0 <= k2 < k ==> (!in_dims(wn, hn, #[trigger] nbs_p@[k2]) || edge_ok(
                                marker,
                                data,
                                marked@,
                                p,
                                nbs_p@[k2],
                            )),
                    decreases nbs_p@.len() - k,
                {
                    let c = nbs_p[k];
                    proof {
                        assert(nbs_p@[k as int] == c);
                        assert(spec_neighbours(p, None).contains(c));
                        assert(adjacent(p, c));
                    }
                    if c.x < w && c.y < h {
                        let d = data.at(c);
                        let res = marker(p, pm, c, d);
                        match res {
                            Some(v) => {
                                let cur = marked.at(c);
                                let same = match cur {
                                    Some(u) => v.eq_check(&u),
                                    None => false,
                                };
                                if !same {
                                    proof {
                                        lemma_write_step(
                                            marker,
                                            data,
                                            start,
                                            start_marker,
                                            inv,
                                            fresh,
                                            marked@,
                                            p,
                                            c,
                                            pm,
                                            v,
                                        );
                                        lemma_adjacent_distinct(p, c);
                                    }
                                    let ghost before = marked@;
                                    let ghost fresh_before = fresh;
                                    marked.set(c, Some(v));
                                    proof {
                                        assert(marked@ == update_mark(before, c, v));
                                        assert(call_ensures(
                                            marker,
                                            (p, mark_at(before, p), c, data.cell(c)),
                                            Some(v),
                                        ));
                                        assert(mark_step(marker, data, before, marked@));
                                        lemma_derivable_extend(marker, data, init, before, marked@);
                                        if mark_at(before, c) is Some {
                                            fresh = false;
                                        }
                                        assert(engine_state(
                                            marker,
                                            data,
                                            start,
                                            start_marker,
                                            inv,
                                            fresh,
                                            marked@,
                                        ));
                                        lemma_unmarked_nonneg(marked@);
                                        assert forall|c0: Vec2|
                                            in_dims(wn, hn, c0) && #[trigger] adjacent(
                                                start,
                                                c0,
                                            ) implies seed_ok(
                                            marker,
                                            data,
                                            marked@,
                                            start,
                                            start_marker,
                                            c0,
                                        ) by {
                                            let res0 = choose|res0: Option<M>|
                                                call_ensures(
                                                    marker,
                                                    (start, Some(start_marker), c0, data.cell(c0)),
                                                    res0,
                                                ) && (res0 is Some ==> mark_at(before, c0)
                                                    is Some);
                                            assert(res0 is Some ==> mark_at(marked@, c0) is Some);
                                        }
                                        if mark_at(before, c) is None {
                                            assert(unmarked_count(marked@) == unmarked_count(
                                                before,
                                            ) - 1);
                                        } else {
                                            assert(c == start && fresh_before && !fresh);
                                            assert(unmarked_count(marked@) == unmarked_count(
                                                before,
                                            ));
                                        }
                                    }
                                    changed = true;
                                } else {
                                    proof {
                                        if !changed {
                                            assert(mark_at(marked@, c) == cur);
                                            assert(cur == Some(v));
                                            assert(edge_ok(marker, data, marked@, p, c));
                                        }
                                    }
                                }
                            },
                            None => {
                                proof {
                                    if !changed {
                                        assert(edge_ok(marker, data, marked@, p, c));
                                    }
                                }
                            },
                        }
                    }
                    k = k + 1;
                }
                proof {
                    if !changed {
                        assert forall|c2: Vec2|
                            in_dims(wn, hn, c2) && adjacent(p, c2) implies #[trigger] edge_ok(
                            marker,
                            data,
                            marked@,
                            p,
                            c2,
                        ) by {
                            assert(spec_neighbours(p, None).contains(c2));
                            let k2 = choose|k2: int|
                                0 <= k2 < spec_neighbours(p, None).len() && spec_neighbours(
                                    p,
                                    None,
                                )[k2] == c2;
                            assert(nbs_p@[k2] == c2);
                        }
                    }
                }
                x = x + 1;
            }
            y = y + 1;
        }
        if !changed {
            proof {
                assert forall|p2: Vec2, c2: Vec2|
                    in_dims(wn, hn, p2) && in_dims(wn, hn, c2) && adjacent(
                        p2,
                        c2,
                    ) implies #[trigger] edge_ok(marker, data, marked@, p2, c2) by {
                    assert(p2.y < h);
                }
                assert(marking_fixed(marker, data, marked@));
            }
        }
        pass_changed = changed;
    }

    // Project the final markers into the output grid.
    let mut rows: Vec<Vec<O>> = Vec::new();
    let mut yy: u8 = 0;
    while yy < h
        invariant
            0 <= yy <= h,
            rows@.len() == yy,
            forall|k: int| 0 <= k < yy ==> (#[trigger] rows@[k])@.len() == w,
            forall|p: Vec2|
                in_dims(wn, hn, p) && p.y < yy ==> call_ensures(
                    output,
                    (p, mark_at(marked@, p)),
                    #[trigger] rows@[p.y as int]@[p.x as int],
                ),
        decreases h - yy,
    {
        let mut row: Vec<O> = Vec::new();
        let mut xx: u8 = 0;
        while xx < w
            invariant
                0 <= yy < h,
                0 <= xx <= w,
                row@.len() == xx,
                forall|p: Vec2|
                    in_dims(wn, hn, p) && p.y == yy && p.x < xx ==> call_ensures(
                        output,
                        (p, mark_at(marked@, p)),
                        #[trigger] row@[p.x as int],
                    ),
            decreases w - xx,
        {
            let p = Vec2 { x: xx, y: yy };
            let mk = marked.at(p);
            let o = output(p, mk);
            row.push(o);
            xx = xx + 1;
        }
        rows.push(row);
        yy = yy + 1;
    }
    let out = Grid::from_rows_exact(rows);
    proof {
        assert(out.wf());
        assert(out.spec_height() == hn);
        assert(hn > 0);
        assert(out.spec_width() == wn);
        assert forall|p: Vec2| #[trigger] out.in_bounds(p) implies call_ensures(
            output,
            (p, mark_at(marked@, p)),
            out.cell(p),
        ) by {
            assert(out@[p.y as int] == rows@[p.y as int]@);
        }
        assert(projected(output, marked@, &out));
        if fresh {
            assert(justified(marker, data, start, start_marker, true, marked@));
        } else {
            assert(justified(marker, data, start, start_marker, false, marked@));
        }
        assert(justified_any(marker, data, start, start_marker, marked@));
        assert(mark_derivable(marker, data, init, marked@));
        assert(search_ok(marker, output, data, start, start_marker, inv, out));
        assert(resolved_start(data, start_pos, start));
    }
    Ok(out)
}


/// The generic marker-propagation search without a caller invariant: seed
/// the start cell, relax all edges to a fixed point, project the final
/// markers.
pub fn bfs<T, M, O, F, G>(
    data: &Grid<T>,
    start_pos: Option<Vec2>,
    start_marker: M,
    marker: F,
    output: G,
) -> (r: Result<Grid<O>, Error>) where
    T: Copy,
    M: Copy + EqCheck,
    F: Fn(Vec2, Option<M>, Vec2, T) -> Option<M>,
    G: Fn(Vec2, Option<M>) -> O,
    Grid<T>: MapExt,

    requires
        data.wf(),
        data.ext_wf(),
        forall|p: Vec2, sm: Option<M>, c: Vec2, d: T|
            #[trigger] call_requires(marker, (p, sm, c, d)),
        forall|p: Vec2, sm: Option<M>| #[trigger] call_requires(output, (p, sm)),
        proposals_agree(marker),
    ensures
        (start_pos matches Some(s0) && !in_dims(data.spec_width(), data.spec_height(), s0)) <==> r
            == Result::<Grid<O>, Error>::Err(Error::StartingPosOutOfBounds),
        (start_pos is None && !(exists|q: Vec2|
            in_dims(data.spec_width(), data.spec_height(), q) && #[trigger] data.spec_standable(
                q,
            ))) <==> r == Result::<Grid<O>, Error>::Err(Error::UnavailableStartingPosition),
        r matches Ok(out) ==> out.wf() && out.spec_width() == data.spec_width()
            && out.spec_height() == data.spec_height() && exists|s: Vec2|
            #[trigger] resolved_start(data, start_pos, s) && search_ok(
                marker,
                output,
                data,
                s,
                start_marker,
                |m: Seq<Seq<Option<M>>>| true,
                out,
            ),
{
    bfs_with_invariant(
        data,
        start_pos,
        start_marker,
        marker,
        output,
        Ghost(|m: Seq<Seq<Option<M>>>| true),
    )
}

/// Some in-grid cell is adjacent to `c` whenever the grid has more than
/// one cell.
pub proof fn lemma_exists_neighbour(w: nat, h: nat, c: Vec2)
    requires
        in_dims(w, h, c),
        w >= 2 || h >= 2,
        w <= 255,
        h <= 255,
    ensures
        exists|p: Vec2| in_dims(w, h, p) && #[trigger] adjacent(p, c),
{
    if w >= 2 {
        if (c.x as nat) + 1 < w {
            let p = Vec2 { x: (c.x + 1) as u8, y: c.y };
            assert(in_dims(w, h, p) && adjacent(p, c));
        } else {
            let p = Vec2 { x: (c.x - 1) as u8, y: c.y };
            assert(in_dims(w, h, p) && adjacent(p, c));
        }
    } else {
        if (c.y as nat) + 1 < h {
            let p = Vec2 { x: c.x, y: (c.y + 1) as u8 };
            assert(in_dims(w, h, p) && adjacent(p, c));
        } else {
            let p = Vec2 { x: c.x, y: (c.y - 1) as u8 };
            assert(in_dims(w, h, p) && adjacent(p, c));
        }
    }
}

/// The resolved start of a run is unique.
pub proof fn lemma_resolved_start_unique<T>(
    data: &Grid<T>,
    start_pos: Option<Vec2>,
    a: Vec2,
    b: Vec2,
) where Grid<T>: MapExt
    requires
        resolved_start(data, start_pos, a),
        resolved_start(data, start_pos, b),
    ensures
        a == b,
{
    match start_pos {
        Some(s0) => {},
        None => {
            assert(rm_le(a, b));
            assert(rm_le(b, a));
            assert(a == (Vec2 { x: a.x, y: a.y }));
            assert(b == (Vec2 { x: b.x, y: b.y }));
        },
    }
}

/// The cell holds an island tile: it is on the map and marked `true`.
pub open spec fn island_cell(data: &Grid<bool>, q: Vec2) -> bool {
    data.in_bounds(q) && data.cell(q) == true
}

/// A walk: a nonempty run of island cells, entered next to `start`, each
/// step between adjacent cells.
pub open spec fn walk_path(data: &Grid<bool>, start: Vec2, path: Seq<Vec2>) -> bool {
    &&& path.len() >= 1
    &&& adjacent(start, path[0])
    &&& forall|i: int| 0 <= i < path.len() ==> island_cell(data, #[trigger] path[i])
    &&& forall|i: int| 0 <= i < path.len() - 1 ==> adjacent(#[trigger] path[i], path[i + 1])
}

/// Walking from `start`, the island cell `q` can be reached: some path of
/// adjacent island cells connects the two.
pub open spec fn walk_reach(data: &Grid<bool>, start: Vec2, q: Vec2) -> bool {
    exists|path: Seq<Vec2>| #[trigger] walk_path(data, start, path) && path.last() == q
}

/// A walk extended by one adjacent island cell is still a walk.
proof fn lemma_walk_extend(data: &Grid<bool>, start: Vec2, w: Vec2, c: Vec2)
    requires
        walk_reach(data, start, w),
        adjacent(w, c),
        island_cell(data, c),
    ensures
        walk_reach(data, start, c),
{
    let path = choose|path: Seq<Vec2>| #[trigger] walk_path(data, start, path) && path.last() == w;
    let ext = path.push(c);
    assert(ext[0] == path[0]);
    assert(ext.last() == c);
    assert forall|i: int| 0 <= i < ext.len() implies island_cell(data, #[trigger] ext[i]) by {
        if i < path.len() {
            assert(ext[i] == path[i]);
        }
    }
    assert forall|i: int| 0 <= i < ext.len() - 1 implies adjacent(#[trigger] ext[i], ext[i + 1]) by {
        if i < path.len() - 1 {
            assert(ext[i] == path[i] && ext[i + 1] == path[i + 1]);
        } else {
            assert(ext[i] == path.last() && ext[i + 1] == c);
        }
    }
    assert(walk_path(data, start, ext));
}

/// In a fixed and seeded marking, every island cell connected to the
/// start carries a mark.
proof fn lemma_walk_marked<F: Fn(Vec2, Option<()>, Vec2, bool) -> Option<()>>(
    mk: F,
    data: &Grid<bool>,
    start: Vec2,
    m: Seq<Seq<Option<()>>>,
    path: Seq<Vec2>,
)
    requires
        data.wf(),
        in_dims(data.spec_width(), data.spec_height(), start),
        forall|a: (Vec2, Option<()>, Vec2, bool), r: Option<()>|
            #[trigger] call_ensures(mk, a, r) ==> r == (if a.1 is Some && a.3 {
                Some(())
            } else {
                None::<()>
            }),
        marking_dims(m, data.spec_width(), data.spec_height()),
        marking_fixed(mk, data, m),
        start_seeded(mk, data, m, start, ()),
        walk_path(data, start, path),
    ensures
        mark_at(m, path.last()) is Some,
    decreases path.len(),
{
    let q = path.last();
    assert(island_cell(data, q));
    let wn = data.spec_width();
    let hn = data.spec_height();
    assert(in_dims(wn, hn, q));
    if path.len() == 1 {
        assert(q == path[0]);
        assert(adjacent(start, q));
        assert(seed_ok(mk, data, m, start, (), q));
        let res = choose|res: Option<()>|
            #[trigger] call_ensures(mk, (start, Some(()), q, data.cell(q)), res) && (res is Some
                ==> mark_at(m, q) is Some);
        assert(res == Some(()));
        assert(mark_at(m, q) is Some);
    } else {
        let prev_path = path.drop_last();
        assert(prev_path[0] == path[0]);
        assert forall|i: int|
            0 <= i < prev_path.len() implies island_cell(data, #[trigger] prev_path[i]) by {
            assert(prev_path[i] == path[i]);
        }
        assert forall|i: int|
            0 <= i < prev_path.len() - 1 implies adjacent(
            #[trigger] prev_path[i],
            prev_path[i + 1],
        ) by {
            assert(prev_path[i] == path[i] && prev_path[i + 1] == path[i + 1]);
        }
        assert(walk_path(data, start, prev_path));
        lemma_walk_marked(mk, data, start, m, prev_path);
        let w = prev_path.last();
        assert(w == path[path.len() - 2]);
        assert(adjacent(w, q));
        assert(in_dims(wn, hn, w));
        assert(edge_ok(mk, data, m, w, q));
        let res = choose|res: Option<()>|
            #[trigger] call_ensures(mk, (w, mark_at(m, w), q, data.cell(q)), res) && (res is None
                || mark_at(m, q) == res);
        assert(res == Some(()));
        assert(mark_at(m, q) == Some(()));
    }
}

/// Find the positions that can be reached with the normal move set from
/// the provided starting position, or from the first standable cell when
/// none is given.
///
/// The result marks a cell `true` exactly when it is the start cell or an
/// island cell that a path of adjacent island cells connects to the
/// start: the marking function propagates a mark out of a marked source
/// onto an island neighbour, and nowhere else.
pub fn reachable_positions(data: &Grid<bool>, start_pos: Option<Vec2>) -> (r: Result<
    Grid<bool>,
    Error,
>)
    requires
        data.wf(),
    ensures
        (start_pos matches Some(s0) && !in_dims(data.spec_width(), data.spec_height(), s0)) <==> r
            == Result::<Grid<bool>, Error>::Err(Error::StartingPosOutOfBounds),
        (start_pos is None && !(exists|q: Vec2|
            in_dims(data.spec_width(), data.spec_height(), q) && #[trigger] data.spec_standable(
                q,
            ))) <==> r == Result::<Grid<bool>, Error>::Err(Error::UnavailableStartingPosition),
        r matches Ok(out) ==> out.wf() && out.spec_width() == data.spec_width()
            && out.spec_height() == data.spec_height() && exists|s: Vec2|
            #[trigger] resolved_start(data, start_pos, s) && forall|c: Vec2|
                #[trigger] out.in_bounds(c) ==> out.cell(c) == (c == s || walk_reach(data, s, c)),
{
    let ghost wn = data.spec_width();
    let ghost hn = data.spec_height();
    let mk = |pp: Vec2, sm: Option<()>, cc: Vec2, d: bool| -> (res: Option<()>)
        ensures
            res == (if sm is Some && d {
                Some(())
            } else {
                None::<()>
            }),
        {
            if sm.is_some() && d {
                Some(())
            } else {
                None
            }
        };
    let proj = |pp: Vec2, sm: Option<()>| -> (res: bool)
        ensures
            res == (sm is Some),
        { sm.is_some() };
    let ghost sound = |m: Seq<Seq<Option<()>>>|
        forall|e: Vec2|
            in_dims(wn, hn, e) && (#[trigger] mark_at(m, e)) is Some ==> forall|s: Vec2|
                #[trigger] resolved_start(data, start_pos, s) ==> (e == s || walk_reach(
                    data,
                    s,
                    e,
                ));
    proof {
        // the marking function never disagrees with itself
        assert forall|p1: Vec2, sm1: Option<()>, p2: Vec2, sm2: Option<()>, c: Vec2, d: bool, v1:
            (), v2: ()|
            #[trigger] call_ensures(mk, (p1, sm1, c, d), Some(v1)) && #[trigger] call_ensures(
                mk,
                (p2, sm2, c, d),
                Some(v2),
            ) implies v1 == v2 by {}
        assert(proposals_agree(mk));
        // soundness holds of any initial marking: only the start is
        // marked
        assert forall|s2: Vec2| #[trigger] resolved_start(data, start_pos, s2) implies sound(
            init_marking(wn, hn, s2, ()),
        ) by {
            let init = init_marking(wn, hn, s2, ());
            assert forall|e: Vec2|
                in_dims(wn, hn, e) && (#[trigger] mark_at(init, e)) is Some implies forall|s: Vec2|
                #[trigger] resolved_start(data, start_pos, s) ==> (e == s || walk_reach(
                    data,
                    s,
                    e,
                )) by {
                assert(e.y as int == s2.y && e.x as int == s2.x);
                assert(e == (Vec2 { x: e.x, y: e.y }));
                assert(s2 == (Vec2 { x: s2.x, y: s2.y }));
                assert(e == s2);
                assert forall|s: Vec2|
                    #[trigger] resolved_start(data, start_pos, s) implies (e == s || walk_reach(
                    data,
                    s,
                    e,
                )) by {
                    lemma_resolved_start_unique(data, start_pos, s, s2);
                }
            }
        }
        // soundness survives every write: a mark only travels out of a
        // marked source, so the walk extends along with it
        assert forall|m2: Seq<Seq<Option<()>>>, p2: Vec2, c2: Vec2, v2: ()|
            sound(m2) && marking_dims(m2, wn, hn) && in_dims(wn, hn, p2) && in_dims(wn, hn, c2)
                && adjacent(p2, c2) && #[trigger] call_ensures(
                mk,
                (p2, mark_at(m2, p2), c2, data.cell(c2)),
                Some(v2),
            ) implies sound(update_mark(m2, c2, v2)) by {
            lemma_update_mark_at(m2, c2, v2, wn, hn);
            assert(mark_at(m2, p2) is Some);
            assert(data.cell(c2) == true);
            assert(island_cell(data, c2));
            let upd = update_mark(m2, c2, v2);
            assert forall|e: Vec2|
                in_dims(wn, hn, e) && (#[trigger] mark_at(upd, e)) is Some implies forall|s: Vec2|
                #[trigger] resolved_start(data, start_pos, s) ==> (e == s || walk_reach(
                    data,
                    s,
                    e,
                )) by {
                if e == c2 {
                    assert forall|s: Vec2|
                        #[trigger] resolved_start(data, start_pos, s) implies (e == s
                        || walk_reach(data, s, e)) by {
                        if p2 == s {
                            let unit_path = seq![c2];
                            assert(unit_path[0] == c2);
                            assert(unit_path.last() == c2);
                            assert(walk_path(data, s, unit_path));
                            assert(walk_reach(data, s, c2));
                        } else {
                            assert(walk_reach(data, s, p2));
                            lemma_walk_extend(data, s, p2, c2);
                        }
                    }
                } else {
                    assert(mark_at(upd, e) == mark_at(m2, e));
                }
            }
        }
    }
    let r = bfs_with_invariant(data, start_pos, (), mk, proj, Ghost(sound));
    match r {
        Ok(out) => {
            proof {
                let s = choose|s: Vec2|
                    #[trigger] resolved_start(data, start_pos, s) && search_ok(
                        mk,
                        proj,
                        data,
                        s,
                        (),
                        sound,
                        out,
                    );
                let m = choose|m: Seq<Seq<Option<()>>>|
                    {
                        &&& #[trigger] sound(m)
                        &&& marking_dims(m, wn, hn)
                        &&& justified_any(mk, data, s, (), m)
                        &&& marking_fixed(mk, data, m)
                        &&& start_seeded(mk, data, m, s, (), )
                        &&& mark_at(m, s) is Some
                        &&& mark_derivable(mk, data, init_marking(wn, hn, s, ()), m)
                        &&& projected(proj, m, &out)
                    };
                assert forall|c: Vec2| #[trigger] out.in_bounds(c) implies out.cell(c) == (c == s
                    || walk_reach(data, s, c)) by {
                    assert(in_dims(wn, hn, c));
                    assert(call_ensures(proj, (c, mark_at(m, c)), out.cell(c)));
                    assert(out.cell(c) == (mark_at(m, c) is Some));
                    if c == s {
                        assert(mark_at(m, c) is Some);
                    } else if walk_reach(data, s, c) {
                        let path = choose|path: Seq<Vec2>|
                            #[trigger] walk_path(data, s, path) && path.last() == c;
                        lemma_walk_marked(mk, data, s, m, path);
                        assert(mark_at(m, c) is Some);
                    } else {
                        if mark_at(m, c) is Some {
                            assert(c == s || walk_reach(data, s, c));
                            assert(false);
                        }
                    }
                }
            }
            Ok(out)
        },
        Err(e) => Err(e),
    }
}

/// Running the reachability query twice on the same inputs yields the
/// same grid: any two results meeting its contract agree cell for cell.
pub proof fn lemma_reachable_deterministic(
    data: &Grid<bool>,
    start_pos: Option<Vec2>,
    s1: Vec2,
    s2: Vec2,
    out1: &Grid<bool>,
    out2: &Grid<bool>,
)
    requires
        out1.wf(),
        out2.wf(),
        out1.spec_width() == data.spec_width(),
        out1.spec_height() == data.spec_height(),
        out2.spec_width() == data.spec_width(),
        out2.spec_height() == data.spec_height(),
        resolved_start(data, start_pos, s1),
        resolved_start(data, start_pos, s2),
        forall|c: Vec2|
            #[trigger] out1.in_bounds(c) ==> out1.cell(c) == (c == s1 || walk_reach(data, s1, c)),
        forall|c: Vec2|
            #[trigger] out2.in_bounds(c) ==> out2.cell(c) == (c == s2 || walk_reach(data, s2, c)),
    ensures
        out1@ == out2@,
{
    lemma_resolved_start_unique(data, start_pos, s1, s2);
    let wn = data.spec_width();
    let hn = data.spec_height();
    assert forall|yi: int| 0 <= yi < hn implies out1@[yi] =~= out2@[yi] by {
        assert(out1@[yi].len() == wn);
        assert(out2@[yi].len() == wn);
        assert forall|xi: int| 0 <= xi < wn implies out1@[yi][xi] == out2@[yi][xi] by {
            let p = Vec2 { x: xi as u8, y: yi as u8 };
            assert(out1.in_bounds(p));
            assert(out2.in_bounds(p));
            assert(out1@[yi][xi] == out1.cell(p));
            assert(out2@[yi][xi] == out2.cell(p));
        }
    }
    assert(out1@ =~~= out2@);
}

} // verus!
