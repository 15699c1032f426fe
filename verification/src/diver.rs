//! The amphibious move rules: swimming through flooded and gone tiles.
//!
//! An amphibious adventurer dives into the water next to the tile they
//! stand on, swims through flooded or gone tiles in primary directions,
//! and surfaces on a flooded tile anywhere along the way or on the first
//! dry tile after the water. They cannot simply step onto an adjacent dry
//! tile: a move must pass through water.

use vstd::prelude::*;

use crate::bfs::Error;
use crate::bfs::adjacent;
use crate::bfs::bfs_with_invariant;
use crate::bfs::edge_ok;
use crate::bfs::in_dims;
use crate::bfs::justified_any;
use crate::bfs::mark_at;
use crate::bfs::marking_dims;
use crate::bfs::marking_fixed;
use crate::bfs::projected;
use crate::bfs::resolved_start;
use crate::bfs::search_ok;
use crate::bfs::seed_ok;
use crate::bfs::start_seeded;
use crate::bfs::update_mark;
use crate::full::Full;
use crate::grid::Grid;
use crate::island_tile::IslandTile;
use crate::island_tile::IslandTileState;
use crate::util::EqCheck;
use crate::vec2::Vec2;
use crate::vec2::rm_lt;

verus! {

/// The markers a dive propagates over the map.
#[derive(Clone, Copy, Debug, PartialEq, Eq, Structural)]
pub enum DiveMarker {
    /// The diver may surface here and also keep swimming.
    EndPos,
    /// The diver may surface here, but the tile is dry, so the swim ends.
    EndPosNoSwimThrough,
    /// The starting tile: the diver may enter the water from here but not
    /// end here without moving.
    StartPos,
    /// The tile is gone: the diver may swim through but not surface.
    SwimThroughOnly,
}

impl EqCheck for DiveMarker {
    fn eq_check(&self, other: &Self) -> (r: bool)
        ensures
            r == (*self == *other),
    {
        *self == *other
    }
}

/// The cell holds a tile the diver can swim through: flooded or gone.
pub open spec fn watery_cell(map: &Full, q: Vec2) -> bool {
    map.in_bounds(q) && match map.cell(q) {
        Some(t) => t.spec_state() == IslandTileState::Flooded || t.spec_state()
            == IslandTileState::Gone,
        None => false,
    }
}

/// The cell holds a dry tile.
pub open spec fn dry_cell(map: &Full, q: Vec2) -> bool {
    map.in_bounds(q) && match map.cell(q) {
        Some(t) => t.spec_state() == IslandTileState::Dry,
        None => false,
    }
}

/// The cell holds a flooded tile.
pub open spec fn flooded_cell(map: &Full, q: Vec2) -> bool {
    map.in_bounds(q) && match map.cell(q) {
        Some(t) => t.spec_state() == IslandTileState::Flooded,
        None => false,
    }
}

/// The cell holds a gone tile.
pub open spec fn gone_cell(map: &Full, q: Vec2) -> bool {
    map.in_bounds(q) && match map.cell(q) {
        Some(t) => t.spec_state() == IslandTileState::Gone,
        None => false,
    }
}

/// The marker a watery tile is reached with: flooded tiles can be
/// surfaced on, gone tiles only swum through.
pub open spec fn watery_class(map: &Full, q: Vec2) -> DiveMarker {
    if flooded_cell(map, q) {
        DiveMarker::EndPos
    } else {
        DiveMarker::SwimThroughOnly
    }
}

/// A swim: a nonempty run of watery cells, entered next to `start`, each
/// step between adjacent cells.
pub open spec fn water_path(map: &Full, start: Vec2, path: Seq<Vec2>) -> bool {
    &&& path.len() >= 1
    &&& adjacent(start, path[0])
    &&& forall|i: int| 0 <= i < path.len() ==> watery_cell(map, #[trigger] path[i])
    &&& forall|i: int| 0 <= i < path.len() - 1 ==> adjacent(#[trigger] path[i], path[i + 1])
}

/// The diver, starting at `start`, can swim to the watery cell `q`.
pub open spec fn swim_reach(map: &Full, start: Vec2, q: Vec2) -> bool {
    exists|path: Seq<Vec2>| #[trigger] water_path(map, start, path) && path.last() == q
}

/// A legal destination of the dive: a flooded tile the diver can swim to,
/// or a dry tile right next to the water the diver can swim to.
pub open spec fn diver_dest(map: &Full, start: Vec2, q: Vec2) -> bool {
    (flooded_cell(map, q) && swim_reach(map, start, q)) || (dry_cell(map, q) && exists|w: Vec2|
        #[trigger] swim_reach(map, start, w) && adjacent(w, q))
}

/// How a marker travels across one edge: only water-capable markers
/// travel, flooded and gone targets take their watery class, and a dry
/// target ends the swim - unless it would be the very first step from the
/// start.
pub open spec fn spec_dive_mark(sm: Option<DiveMarker>, d: Option<IslandTile>) -> Option<
    DiveMarker,
> {
    match (sm, d) {
        (Some(w), Some(tile)) => {
            if w == DiveMarker::EndPosNoSwimThrough {
                None
            } else {
                match tile.spec_state() {
                    IslandTileState::Dry => if w == DiveMarker::StartPos {
                        None
                    } else {
                        Some(DiveMarker::EndPosNoSwimThrough)
                    },
                    IslandTileState::Flooded => Some(DiveMarker::EndPos),
                    IslandTileState::Gone => Some(DiveMarker::SwimThroughOnly),
                }
            }
        },
        _ => None,
    }
}

/// What each marker means when it stands on a cell.
pub open spec fn dive_marked_ok(map: &Full, start: Vec2, e: Vec2, v: DiveMarker) -> bool {
    match v {
        DiveMarker::StartPos => e == start,
        DiveMarker::EndPos => flooded_cell(map, e) && swim_reach(map, start, e),
        DiveMarker::SwimThroughOnly => gone_cell(map, e) && swim_reach(map, start, e),
        DiveMarker::EndPosNoSwimThrough => dry_cell(map, e) && exists|w: Vec2|
            #[trigger] swim_reach(map, start, w) && adjacent(w, e),
    }
}

/// A swim extended by one adjacent watery cell is still a swim.
proof fn lemma_swim_extend(map: &Full, start: Vec2, w: Vec2, c: Vec2)
    requires
        swim_reach(map, start, w),
        adjacent(w, c),
        watery_cell(map, c),
    ensures
        swim_reach(map, start, c),
{
    let path = choose|path: Seq<Vec2>| #[trigger] water_path(map, start, path) && path.last() == w;
    let ext = path.push(c);
    assert(ext[0] == path[0]);
    assert(ext.last() == c);
    assert forall|i: int| 0 <= i < ext.len() implies watery_cell(map, #[trigger] ext[i]) by {
        if i < path.len() {
            assert(ext[i] == path[i]);
        }
    }
    assert forall|i: int| 0 <= i < ext.len() - 1 implies adjacent(#[trigger] ext[i], ext[i + 1]) by {
        if i < path.len() - 1 {
            assert(ext[i] == path[i] && ext[i + 1] == path[i + 1]);
        } else {
            assert(ext[i] == path.last() && ext[i + 1] == c);
        }
    }
    assert(water_path(map, start, ext));
}

/// In a fixed, seeded and sound marking, every watery cell the diver can
/// swim to carries exactly its watery class.
proof fn lemma_swim_marked<F: Fn(Vec2, Option<DiveMarker>, Vec2, Option<IslandTile>) -> Option<
    DiveMarker,
>>(
    mk: F,
    map: &Full,
    start: Vec2,
    m: Seq<Seq<Option<DiveMarker>>>,
    path: Seq<Vec2>,
)
    requires
        map.wf(),
        in_dims(map.spec_width(), map.spec_height(), start),
        forall|a: (Vec2, Option<DiveMarker>, Vec2, Option<IslandTile>), r: Option<DiveMarker>|
            #[trigger] call_ensures(mk, a, r) ==> r == spec_dive_mark(a.1, a.3),
        marking_dims(m, map.spec_width(), map.spec_height()),
        forall|e: Vec2|
            in_dims(map.spec_width(), map.spec_height(), e) && (#[trigger] mark_at(m, e)) is Some
                ==> dive_marked_ok(map, start, e, mark_at(m, e)->0),
        marking_fixed(mk, map, m),
        start_seeded(mk, map, m, start, DiveMarker::StartPos),
        water_path(map, start, path),
    ensures
        mark_at(m, path.last()) == Some(watery_class(map, path.last())),
    decreases path.len(),
{
    let q = path.last();
    assert(watery_cell(map, q));
    let wn = map.spec_width();
    let hn = map.spec_height();
    assert(in_dims(wn, hn, q));
    if path.len() == 1 {
        assert(q == path[0]);
        assert(adjacent(start, q));
        assert(seed_ok(mk, map, m, start, DiveMarker::StartPos, q));
        let res = choose|res: Option<DiveMarker>|
            #[trigger] call_ensures(mk, (start, Some(DiveMarker::StartPos), q, map.cell(q)), res)
                && (res is Some ==> mark_at(m, q) is Some);
        assert(res == spec_dive_mark(Some(DiveMarker::StartPos), map.cell(q)));
        assert(res is Some);
        assert(mark_at(m, q) is Some);
        let v = mark_at(m, q)->0;
        assert(dive_marked_ok(map, start, q, v));
        // q is adjacent to the start, so it is not the start itself
        crate::bfs::lemma_adjacent_distinct(start, q);
        assert(v != DiveMarker::StartPos);
        assert(v == watery_class(map, q));
    } else {
        let prev_path = path.drop_last();
        assert(prev_path[0] == path[0]);
        assert forall|i: int|
            0 <= i < prev_path.len() implies watery_cell(map, #[trigger] prev_path[i]) by {
            assert(prev_path[i] == path[i]);
        }
        assert forall|i: int|
            0 <= i < prev_path.len() - 1 implies adjacent(
            #[trigger] prev_path[i],
            prev_path[i + 1],
        ) by {
            assert(prev_path[i] == path[i] && prev_path[i + 1] == path[i + 1]);
        }
        assert(water_path(map, start, prev_path));
        lemma_swim_marked(mk, map, start, m, prev_path);
        let w = prev_path.last();
        assert(w == path[path.len() - 2]);
        assert(adjacent(w, q));
        assert(mark_at(m, w) == Some(watery_class(map, w)));
        assert(in_dims(wn, hn, w));
        assert(edge_ok(mk, map, m, w, q));
        let res = choose|res: Option<DiveMarker>|
            #[trigger] call_ensures(mk, (w, mark_at(m, w), q, map.cell(q)), res) && (res is None
                || mark_at(m, q) == res);
        assert(res == spec_dive_mark(mark_at(m, w), map.cell(q)));
        assert(res == Some(watery_class(map, q)));
        assert(mark_at(m, q) == Some(watery_class(map, q)));
    }
}

/// The diving move set on the map: all positions the diver standing at
/// `pos` can swim to and stand on, in row-major order.
#[verifier::loop_isolation(false)]
#[verifier::rlimit(60)]
pub fn diver_special_moves(map: &Full, pos: Vec2) -> (r: Vec<Vec2>)
    requires
        map.wf(),
        map.in_bounds(pos),
    ensures
        forall|i: int, j: int| 0 <= i < j < r@.len() ==> rm_lt(#[trigger] r@[i], #[trigger] r@[j]),
        forall|q: Vec2| #[trigger] r@.contains(q) <==> diver_dest(map, pos, q),
{
    let ghost wn = map.spec_width();
    let ghost hn = map.spec_height();
    let mk = |p: Vec2, sm: Option<DiveMarker>, c: Vec2, d: Option<IslandTile>| -> (res: Option<
        DiveMarker,
    >)
        ensures
            res == spec_dive_mark(sm, d),
        {
            match (sm, d) {
                (Some(w), Some(tile)) => {
                    if w == DiveMarker::EndPosNoSwimThrough {
                        None
                    } else {
                        match tile.state() {
                            IslandTileState::Dry => if w == DiveMarker::StartPos {
                                None
                            } else {
                                Some(DiveMarker::EndPosNoSwimThrough)
                            },
                            IslandTileState::Flooded => Some(DiveMarker::EndPos),
                            IslandTileState::Gone => Some(DiveMarker::SwimThroughOnly),
                        }
                    }
                },
                _ => None,
            }
        };
    let proj = |p: Vec2, sm: Option<DiveMarker>| -> (res: bool)
        ensures
            res == (sm == Some(DiveMarker::EndPos) || sm == Some(DiveMarker::EndPosNoSwimThrough)),
        {
            match sm {
                Some(DiveMarker::EndPos) => true,
                Some(DiveMarker::EndPosNoSwimThrough) => true,
                _ => false,
            }
        };
    let ghost sound = |m: Seq<Seq<Option<DiveMarker>>>|
        forall|e: Vec2|
            in_dims(wn, hn, e) && (#[trigger] mark_at(m, e)) is Some ==> dive_marked_ok(
                map,
                pos,
                e,
                mark_at(m, e)->0,
            );
    proof {
        // proposals agree: the marker a cell receives depends on its tile
        // alone
        assert forall|p1: Vec2, sm1: Option<DiveMarker>, p2: Vec2, sm2: Option<DiveMarker>, c:
            Vec2, d: Option<IslandTile>, v1: DiveMarker, v2: DiveMarker|
            #[trigger] call_ensures(mk, (p1, sm1, c, d), Some(v1)) && #[trigger] call_ensures(
                mk,
                (p2, sm2, c, d),
                Some(v2),
            ) implies v1 == v2 by {}
        // soundness holds initially: only the start is marked, as the
        // start
        assert forall|s: Vec2|
            #[trigger] resolved_start(map, Some(pos), s) implies sound(
            crate::bfs::init_marking(wn, hn, s, DiveMarker::StartPos),
        ) by {
            let init = crate::bfs::init_marking(wn, hn, s, DiveMarker::StartPos);
            assert forall|e: Vec2|
                in_dims(wn, hn, e) && (#[trigger] mark_at(init, e)) is Some implies dive_marked_ok(
                map,
                pos,
                e,
                mark_at(init, e)->0,
            ) by {
                assert(e.y as int == s.y && e.x as int == s.x);
                assert(e == (Vec2 { x: e.x, y: e.y }));
                assert(s == (Vec2 { x: s.x, y: s.y }));
                assert(e == s && s == pos);
                assert(mark_at(init, e) == Some(DiveMarker::StartPos));
            }
        }
        // soundness survives every write: a marker only travels out of a
        // justified source
        assert forall|m2: Seq<Seq<Option<DiveMarker>>>, p2: Vec2, c2: Vec2, v2: DiveMarker|
            sound(m2) && marking_dims(m2, wn, hn) && in_dims(wn, hn, p2) && in_dims(wn, hn, c2)
                && adjacent(p2, c2) && #[trigger] call_ensures(
                mk,
                (p2, mark_at(m2, p2), c2, map.cell(c2)),
                Some(v2),
            ) implies sound(update_mark(m2, c2, v2)) by {
            crate::bfs::lemma_update_mark_at(m2, c2, v2, wn, hn);
            let upd = update_mark(m2, c2, v2);
            assert(Some(v2) == spec_dive_mark(mark_at(m2, p2), map.cell(c2)));
            let w0 = mark_at(m2, p2)->0;
            assert(mark_at(m2, p2) is Some);
            assert(dive_marked_ok(map, pos, p2, w0));
            assert forall|e: Vec2|
                in_dims(wn, hn, e) && (#[trigger] mark_at(upd, e)) is Some implies dive_marked_ok(
                map,
                pos,
                e,
                mark_at(upd, e)->0,
            ) by {
                if e == c2 {
                    assert(mark_at(upd, c2) == Some(v2));
                    if w0 == DiveMarker::StartPos {
                        assert(p2 == pos);
                        assert(water_path(map, pos, seq![c2])) by {
                            assert(seq![c2][0] == c2);
                            assert(watery_cell(map, c2) || dry_cell(map, c2));
                        }
                        if v2 == DiveMarker::EndPos || v2 == DiveMarker::SwimThroughOnly {
                            assert(watery_cell(map, c2));
                            assert(seq![c2].last() == c2);
                            assert(swim_reach(map, pos, c2));
                        }
                        assert(v2 != DiveMarker::EndPosNoSwimThrough);
                    } else {
                        assert(w0 == DiveMarker::EndPos || w0 == DiveMarker::SwimThroughOnly);
                        assert(swim_reach(map, pos, p2));
                        if v2 == DiveMarker::EndPos || v2 == DiveMarker::SwimThroughOnly {
                            lemma_swim_extend(map, pos, p2, c2);
                        }
                    }
                } else {
                    assert(mark_at(upd, e) == mark_at(m2, e));
                }
            }
        }
    }
    let result = bfs_with_invariant(
        map,
        Some(pos),
        DiveMarker::StartPos,
        mk,
        proj,
        Ghost(sound),
    );
    proof {
        if result is Err {
            let e = result->Err_0;
            if e == Error::StartingPosOutOfBounds {
                assert(result == Result::<Grid<bool>, Error>::Err(Error::StartingPosOutOfBounds));
            } else {
                assert(e == Error::UnavailableStartingPosition);
                assert(result == Result::<Grid<bool>, Error>::Err(
                    Error::UnavailableStartingPosition,
                ));
            }
            assert(false);
        }
    }
    // the start position lies on the map, so the run cannot fail
    let out: Grid<bool> = match result {
        Ok(out) => out,
        Err(_) => {
            proof {
                assert(false);
            }
            return Vec::new();
        },
    };
    proof {
        let s = choose|s: Vec2|
            #[trigger] resolved_start(map, Some(pos), s) && search_ok(
                mk,
                proj,
                map,
                s,
                DiveMarker::StartPos,
                sound,
                out,
            );
        assert(s == pos);
        let m = choose|m: Seq<Seq<Option<DiveMarker>>>|
            {
                &&& #[trigger] sound(m)
                &&& marking_dims(m, wn, hn)
                &&& justified_any(mk, map, pos, DiveMarker::StartPos, m)
                &&& marking_fixed(mk, map, m)
                &&& start_seeded(mk, map, m, pos, DiveMarker::StartPos)
                &&& mark_at(m, pos) is Some
                &&& crate::bfs::mark_derivable(
                    mk,
                    map,
                    crate::bfs::init_marking(wn, hn, pos, DiveMarker::StartPos),
                    m,
                )
                &&& projected(proj, m, &out)
            };
        assert forall|q: Vec2| #[trigger] out.in_bounds(q) implies out.cell(q) == diver_dest(
            map,
            pos,
            q,
        ) by {
            assert(call_ensures(proj, (q, mark_at(m, q)), out.cell(q)));
            assert(out.cell(q) == (mark_at(m, q) == Some(DiveMarker::EndPos) || mark_at(m, q)
                == Some(DiveMarker::EndPosNoSwimThrough)));
            if mark_at(m, q) == Some(DiveMarker::EndPos) || mark_at(m, q) == Some(
                DiveMarker::EndPosNoSwimThrough,
            ) {
                assert(in_dims(wn, hn, q));
                assert(dive_marked_ok(map, pos, q, mark_at(m, q)->0));
                assert(diver_dest(map, pos, q));
            }
            if diver_dest(map, pos, q) {
                if flooded_cell(map, q) && swim_reach(map, pos, q) {
                    let path = choose|path: Seq<Vec2>|
                        #[trigger] water_path(map, pos, path) && path.last() == q;
                    lemma_swim_marked(mk, map, pos, m, path);
                    assert(mark_at(m, q) == Some(DiveMarker::EndPos));
                } else {
                    let w = choose|w: Vec2|
                        #[trigger] swim_reach(map, pos, w) && adjacent(w, q);
                    let path = choose|path: Seq<Vec2>|
                        #[trigger] water_path(map, pos, path) && path.last() == w;
                    lemma_swim_marked(mk, map, pos, m, path);
                    assert(mark_at(m, w) == Some(watery_class(map, w)));
                    assert(in_dims(wn, hn, w));
                    assert(in_dims(wn, hn, q));
                    assert(edge_ok(mk, map, m, w, q));
                    let res = choose|res: Option<DiveMarker>|
                        #[trigger] call_ensures(mk, (w, mark_at(m, w), q, map.cell(q)), res) && (
                        res is None || mark_at(m, q) == res);
                    assert(res == spec_dive_mark(mark_at(m, w), map.cell(q)));
                    assert(res == Some(DiveMarker::EndPosNoSwimThrough));
                    assert(mark_at(m, q) == Some(DiveMarker::EndPosNoSwimThrough));
                }
            }
        }
        // a destination is always on the map
        assert forall|q: Vec2| #[trigger] diver_dest(map, pos, q) implies out.in_bounds(q) by {}
    }
    // Collect the destinations in row-major order.
    let w = out.width();
    let h = out.height();
    let mut r: Vec<Vec2> = Vec::new();
    let mut y: u8 = 0;
    while y < h
        invariant
            0 <= y <= h,
            forall|i: int, j: int|
                0 <= i < j < r@.len() ==> rm_lt(#[trigger] r@[i], #[trigger] r@[j]),
            forall|i: int| 0 <= i < r@.len() ==> (#[trigger] r@[i]).y < y,
            forall|q: Vec2|
                #[trigger] r@.contains(q) <==> (diver_dest(map, pos, q) && q.y < y),
        decreases h - y,
    {
        let mut x: u8 = 0;
        while x < w
            invariant
                0 <= y < h,
                0 <= x <= w,
                forall|i: int, j: int|
                    0 <= i < j < r@.len() ==> rm_lt(#[trigger] r@[i], #[trigger] r@[j]),
                forall|i: int|
                    0 <= i < r@.len() ==> (#[trigger] r@[i]).y < y || ((r@[i]).y == y && (
                    r@[i]).x < x),
                forall|q: Vec2|
                    #[trigger] r@.contains(q) <==> (diver_dest(map, pos, q) && (q.y < y || (q.y
                        == y && q.x < x))),
            decreases w - x,
        {
            let q = Vec2 { x, y };
            proof {
                assert(out.in_bounds(q));
            }
            if out.at(q) {
                proof {
                    assert(out.cell(q));
                    assert(diver_dest(map, pos, q));
                }
                let ghost old_r = r@;
                r.push(q);
                proof {
                    assert forall|qq: Vec2| #[trigger] r@.contains(qq) implies (diver_dest(
                        map,
                        pos,
                        qq,
                    ) && (qq.y < y || (qq.y == y && qq.x < x + 1))) by {
                        let i = choose|i: int| 0 <= i < r@.len() && r@[i] == qq;
                        if i < old_r.len() {
                            assert(old_r[i] == qq);
                            assert(old_r.contains(qq));
                        } else {
                            assert(qq == q);
                        }
                    }
                    assert forall|qq: Vec2|
                        diver_dest(map, pos, qq) && (qq.y < y || (qq.y == y && qq.x < x
                            + 1)) implies #[trigger] r@.contains(qq) by {
                        if qq.y < y || (qq.y == y && qq.x < x) {
                            assert(old_r.contains(qq));
                            let i = choose|i: int| 0 <= i < old_r.len() && old_r[i] == qq;
                            assert(r@[i] == qq);
                        } else {
                            assert(qq.x == x && qq.y == y);
                            assert(qq == (Vec2 { x: qq.x, y: qq.y }));
                            assert(r@[r@.len() - 1] == qq);
                        }
                    }
                }
            } else {
                proof {
                    assert(!out.cell(q));
                    assert(!diver_dest(map, pos, q));
                    assert forall|qq: Vec2|
                        diver_dest(map, pos, qq) && (qq.y < y || (qq.y == y && qq.x < x
                            + 1)) implies #[trigger] r@.contains(qq) by {
                        if !(qq.y < y || (qq.y == y && qq.x < x)) {
                            assert(qq.x == x && qq.y == y);
                            assert(qq == (Vec2 { x: qq.x, y: qq.y }));
                            assert(out.in_bounds(qq));
                            assert(out.cell(qq) == diver_dest(map, pos, qq));
                            assert(false);
                        }
                    }
                }
            }
            x = x + 1;
        }
        y = y + 1;
    }
    proof {
        assert forall|q: Vec2| #[trigger] r@.contains(q) implies diver_dest(map, pos, q) by {}
        assert forall|q: Vec2| diver_dest(map, pos, q) implies #[trigger] r@.contains(q) by {
            assert(out.in_bounds(q));
            assert(q.y < h);
        }
    }
    r
}


/// Running the dive query twice on the same inputs yields the same move
/// list: any two results meeting its contract are equal.
pub proof fn lemma_diver_moves_deterministic(map: &Full, pos: Vec2, r1: Seq<Vec2>, r2: Seq<Vec2>)
    requires
        forall|i: int, j: int| 0 <= i < j < r1.len() ==> rm_lt(#[trigger] r1[i], #[trigger] r1[j]),
        forall|i: int, j: int| 0 <= i < j < r2.len() ==> rm_lt(#[trigger] r2[i], #[trigger] r2[j]),
        forall|q: Vec2| #[trigger] r1.contains(q) <==> diver_dest(map, pos, q),
        forall|q: Vec2| #[trigger] r2.contains(q) <==> diver_dest(map, pos, q),
    ensures
        r1 == r2,
{
    crate::vec2::lemma_rm_sorted_unique(r1, r2);
}

} // verus!
