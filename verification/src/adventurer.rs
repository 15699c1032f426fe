//! A positioned adventurer and the movement, drain and trade rules of the
//! six kinds.
//!
//! The kinds form a closed set, so the adventurer is one tagged value
//! dispatching on its [`AdventurerType`]; the kind-specific extra state is
//! a single banked-bonus flag, used by the engineer for its second drain
//! and by the navigator for its second push.

use vstd::prelude::*;

use crate::adventurer_type::AdventurerType;
use crate::diver::diver_dest;
use crate::diver::diver_special_moves;
use crate::diver::flooded_cell;
use crate::vec2::rm_lt;
use crate::full::Full;
use crate::grid::MapExt;
use crate::grid::is_limit_rect;
use crate::grid::lemma_is_the_limit_rect;
use crate::grid::the_limit_rect;
use crate::positionable::Positionable;
use crate::vec2::Vec2;
use crate::vec2::spec_diagonal_neighbours;
use crate::vec2::spec_neighbours;

verus! {

/// A positioned game actor of one of the six kinds.
pub struct Adventurer {
    /// The kind, deciding which rules below apply.
    pub kind: AdventurerType,
    /// The coordinate the adventurer currently stands on.
    pub pos: Vec2,
    /// Whether a bonus action is banked: a second drain for the engineer,
    /// a second push for the navigator. Always `false` for other kinds.
    pub bonus: bool,
}

/// The predicate a cell must meet to be moved onto.
pub open spec fn standable_pred(map: &Full) -> spec_fn(Vec2) -> bool {
    |q: Vec2| map.spec_standable(q)
}

/// The predicate a cell must meet to be drained.
pub open spec fn flooded_pred(map: &Full) -> spec_fn(Vec2) -> bool {
    |q: Vec2| flooded_cell(map, q)
}

/// The normal movement set from `pos`: the primary neighbours within the
/// island's bounding rectangle that can be stood on.
pub open spec fn spec_moves(map: &Full, pos: Vec2) -> Seq<Vec2> {
    spec_neighbours(pos, Some(the_limit_rect(map))).filter(standable_pred(map))
}

/// The diagonal movement set from `pos`, the explorer's speciality.
pub open spec fn spec_diagonal_moves(map: &Full, pos: Vec2) -> Seq<Vec2> {
    spec_diagonal_neighbours(pos, Some(the_limit_rect(map))).filter(standable_pred(map))
}

/// The drain set from `pos`: the primary neighbours within the island's
/// bounding rectangle, and the cell stood on, that hold a flooded tile.
///
/// Draining turns a flooded tile dry again, so only flooded tiles are
/// offered, for every kind alike; dry tiles have nothing to drain and
/// gone tiles are beyond saving.
pub open spec fn spec_drains(map: &Full, pos: Vec2) -> Seq<Vec2> {
    (spec_neighbours(pos, Some(the_limit_rect(map))) + seq![pos]).filter(flooded_pred(map))
}

/// Keep the candidates a unit may stand on.
fn keep_standable(map: &Full, cands: Vec<Vec2>) -> (r: Vec<Vec2>)
    requires
        map.wf(),
    ensures
        r@ == cands@.filter(standable_pred(map)),
{
    let mut out: Vec<Vec2> = Vec::new();
    proof {
        reveal_with_fuel(Seq::filter, 2);
        assert(cands@.take(0int).filter(standable_pred(map)) =~= Seq::<Vec2>::empty());
    }
    let mut i: usize = 0;
    while i < cands.len()
        invariant
            map.wf(),
            0 <= i <= cands@.len(),
            out@ == cands@.take(i as int).filter(standable_pred(map)),
        decreases cands@.len() - i,
    {
        let q = cands[i];
        proof {
            assert(cands@.take(i + 1).drop_last() =~= cands@.take(i as int));
            assert(cands@.take(i + 1).last() == q);
        }
        if map.is_standable(q) {
            out.push(q);
        }
        proof {
            reveal_with_fuel(Seq::filter, 2);
            assert(standable_pred(map)(q) == map.spec_standable(q));
            assert(out@ =~= cands@.take(i + 1).filter(standable_pred(map)));
        }
        i = i + 1;
    }
    proof {
        assert(cands@.take(cands@.len() as int) =~= cands@);
    }
    out
}

/// Keep the candidates that hold a flooded tile.
fn keep_flooded(map: &Full, cands: Vec<Vec2>) -> (r: Vec<Vec2>)
    requires
        map.wf(),
    ensures
        r@ == cands@.filter(flooded_pred(map)),
{
    let mut out: Vec<Vec2> = Vec::new();
    proof {
        reveal_with_fuel(Seq::filter, 2);
        assert(cands@.take(0int).filter(flooded_pred(map)) =~= Seq::<Vec2>::empty());
    }
    let mut i: usize = 0;
    while i < cands.len()
        invariant
            map.wf(),
            0 <= i <= cands@.len(),
            out@ == cands@.take(i as int).filter(flooded_pred(map)),
        decreases cands@.len() - i,
    {
        let q = cands[i];
        proof {
            assert(cands@.take(i + 1).drop_last() =~= cands@.take(i as int));
            assert(cands@.take(i + 1).last() == q);
        }
        let keep = match map.get(q) {
            Some(Some(tile)) => {
                match tile.state() {
                    crate::island_tile::IslandTileState::Flooded => true,
                    _ => false,
                }
            },
            _ => false,
        };
        proof {
            assert(keep == flooded_cell(map, q));
        }
        if keep {
            out.push(q);
        }
        proof {
            reveal_with_fuel(Seq::filter, 2);
            assert(flooded_pred(map)(q) == flooded_cell(map, q));
            assert(out@ =~= cands@.take(i + 1).filter(flooded_pred(map)));
        }
        i = i + 1;
    }
    proof {
        assert(cands@.take(cands@.len() as int) =~= cands@);
    }
    out
}

impl Adventurer {
    /// A new adventurer of the given kind at the given position, with no
    /// bonus banked.
    pub fn new(kind: AdventurerType, pos: Vec2) -> (r: Adventurer)
        ensures
            r == (Adventurer { kind, pos, bonus: false }),
    {
        Adventurer { kind, pos, bonus: false }
    }

    /// Whether the adventurer can still do something this turn, or can
    /// only end it.
    pub fn can_act(&self, act_points: u8) -> (r: bool)
        ensures
            r == (act_points != 0),
    {
        act_points != 0
    }

    /// The normal movement set, no matter the action state.
    pub fn info_moves(&self, map: &Full) -> (r: Vec<Vec2>)
        requires
            map.wf(),
        ensures
            r@ == spec_moves(map, self.pos),
    {
        let limit = map.limit_rect();
        proof {
            assert(is_limit_rect(map, limit));
            lemma_is_the_limit_rect(map, limit);
        }
        let cands = self.pos.neighbours(Some(limit));
        keep_standable(map, cands)
    }

    /// The normal movement set, if action points are left; empty
    /// otherwise.
    pub fn moves(&self, map: &Full, act_points: u8) -> (r: Vec<Vec2>)
        requires
            map.wf(),
        ensures
            act_points != 0 ==> r@ == spec_moves(map, self.pos),
            act_points == 0 ==> r@ == Seq::<Vec2>::empty(),
    {
        if act_points != 0 {
            self.info_moves(map)
        } else {
            let r = Vec::new();
            proof {
                assert(r@ =~= Seq::<Vec2>::empty());
            }
            r
        }
    }

    /// The special movement set of the adventurer's kind, no matter the
    /// action state. The plain kinds have none; the explorer moves
    /// diagonally, the pilot flies to any standable tile, the diver swims.
    pub fn info_special_moves(&self, map: &Full) -> (r: Vec<Vec2>)
        requires
            map.wf(),
            self.kind == AdventurerType::Diver ==> map.in_bounds(self.pos),
        ensures
            self.kind == AdventurerType::Courier || self.kind == AdventurerType::Engineer
                || self.kind == AdventurerType::Navigator ==> r@ == Seq::<Vec2>::empty(),
            self.kind == AdventurerType::Explorer ==> r@ == spec_diagonal_moves(map, self.pos),
            self.kind == AdventurerType::Pilot ==> (forall|i: int, j: int|
                0 <= i < j < r@.len() ==> rm_lt(#[trigger] r@[i], #[trigger] r@[j])) && (forall|
                q: Vec2,
            |
                #[trigger] r@.contains(q) <==> (map.spec_standable(q) && q != self.pos)),
            self.kind == AdventurerType::Diver ==> (forall|i: int, j: int|
                0 <= i < j < r@.len() ==> rm_lt(#[trigger] r@[i], #[trigger] r@[j])) && (forall|
                q: Vec2,
            | #[trigger] r@.contains(q) <==> diver_dest(map, self.pos, q)),
    {
        match self.kind {
            AdventurerType::Explorer => {
                let limit = map.limit_rect();
                proof {
                    assert(is_limit_rect(map, limit));
                    lemma_is_the_limit_rect(map, limit);
                }
                let cands = self.pos.diagonal_neighbours(Some(limit));
                keep_standable(map, cands)
            },
            AdventurerType::Pilot => self.pilot_special_moves(map),
            AdventurerType::Diver => diver_special_moves(map, self.pos),
            _ => {
                let r = Vec::new();
                proof {
                    assert(r@ =~= Seq::<Vec2>::empty());
                }
                r
            },
        }
    }

    /// The pilot's flight set: every standable cell except the one stood
    /// on, in row-major order.
    fn pilot_special_moves(&self, map: &Full) -> (r: Vec<Vec2>)
        requires
            map.wf(),
        ensures
            forall|i: int, j: int|
                0 <= i < j < r@.len() ==> rm_lt(#[trigger] r@[i], #[trigger] r@[j]),
            forall|q: Vec2|
                #[trigger] r@.contains(q) <==> (map.spec_standable(q) && q != self.pos),
    {
        let w = map.width();
        let h = map.height();
        let mut r: Vec<Vec2> = Vec::new();
        let mut y: u8 = 0;
        while y < h
            invariant
                map.wf(),
                w == map.spec_width(),
                h == map.spec_height(),
                0 <= y <= h,
                forall|i: int, j: int|
                    0 <= i < j < r@.len() ==> rm_lt(#[trigger] r@[i], #[trigger] r@[j]),
                forall|i: int| 0 <= i < r@.len() ==> (#[trigger] r@[i]).y < y,
                forall|q: Vec2|
                    #[trigger] r@.contains(q) <==> (map.spec_standable(q) && q != self.pos && q.y
                        < y),
            decreases h - y,
        {
            let mut x: u8 = 0;
            while x < w
                invariant
                    map.wf(),
                    w == map.spec_width(),
                    h == map.spec_height(),
                    0 <= y < h,
                    0 <= x <= w,
                    forall|i: int, j: int|
                        0 <= i < j < r@.len() ==> rm_lt(#[trigger] r@[i], #[trigger] r@[j]),
                    forall|i: int|
                        0 <= i < r@.len() ==> (#[trigger] r@[i]).y < y || ((r@[i]).y == y && (
                        r@[i]).x < x),
                    forall|q: Vec2|
                        #[trigger] r@.contains(q) <==> (map.spec_standable(q) && q != self.pos
                            && (q.y < y || (q.y == y && q.x < x))),
                decreases w - x,
            {
                let q = Vec2 { x, y };
                let take_it = map.is_standable(q) && !(q.x == self.pos.x && q.y == self.pos.y);
                proof {
                    assert(q == (Vec2 { x: q.x, y: q.y }));
                    assert(self.pos == (Vec2 { x: self.pos.x, y: self.pos.y }));
                    assert(take_it == (map.spec_standable(q) && q != self.pos));
                }
                if take_it {
                    let ghost old_r = r@;
                    r.push(q);
                    proof {
                        assert forall|qq: Vec2| #[trigger] r@.contains(qq) implies (
                        map.spec_standable(qq) && qq != self.pos && (qq.y < y || (qq.y == y
                            && qq.x < x + 1))) by {
                            let i = choose|i: int| 0 <= i < r@.len() && r@[i] == qq;
                            if i < old_r.len() {
                                assert(old_r[i] == qq);
                                assert(old_r.contains(qq));
                            } else {
                                assert(qq == q);
                            }
                        }
                        assert forall|qq: Vec2|
                            map.spec_standable(qq) && qq != self.pos && (qq.y < y || (qq.y == y
                                && qq.x < x + 1)) implies #[trigger] r@.contains(qq) by {
                            if qq.y < y || (qq.y == y && qq.x < x) {
                                assert(old_r.contains(qq));
                                let i = choose|i: int| 0 <= i < old_r.len() && old_r[i] == qq;
                                assert(r@[i] == qq);
                            } else {
                                assert(qq.x == x && qq.y == y);
                                assert(qq == (Vec2 { x: qq.x, y: qq.y }));
                                assert(r@[r@.len() - 1] == qq);
                            }
                        }
                    }
                } else {
                    proof {
                        assert forall|qq: Vec2|
                            map.spec_standable(qq) && qq != self.pos && (qq.y < y || (qq.y == y
                                && qq.x < x + 1)) implies #[trigger] r@.contains(qq) by {
                            if !(qq.y < y || (qq.y == y && qq.x < x)) {
                                assert(qq.x == x && qq.y == y);
                                assert(qq == (Vec2 { x: qq.x, y: qq.y }));
                                assert(false);
                            }
                        }
                    }
                }
                x = x + 1;
            }
            y = y + 1;
        }
        proof {
            assert forall|q: Vec2|
                map.spec_standable(q) && q != self.pos implies #[trigger] r@.contains(q) by {
                assert(map.in_bounds(q));
                assert(q.y < h);
            }
        }
        r
    }

    /// The special movement set, if action points are left; empty
    /// otherwise. Only the dive needs the position to lie on the map, and
    /// only when there are points to spend it with.
    pub fn special_moves(&self, map: &Full, act_points: u8) -> (r: Vec<Vec2>)
        requires
            map.wf(),
            act_points != 0 && self.kind == AdventurerType::Diver ==> map.in_bounds(self.pos),
        ensures
            act_points == 0 ==> r@ == Seq::<Vec2>::empty(),
            act_points != 0 ==> {
                &&& self.kind == AdventurerType::Courier || self.kind == AdventurerType::Engineer
                    || self.kind == AdventurerType::Navigator ==> r@ == Seq::<Vec2>::empty()
                &&& self.kind == AdventurerType::Explorer ==> r@ == spec_diagonal_moves(
                    map,
                    self.pos,
                )
                &&& self.kind == AdventurerType::Pilot ==> (forall|i: int, j: int|
                    0 <= i < j < r@.len() ==> rm_lt(#[trigger] r@[i], #[trigger] r@[j])) && (
                forall|q: Vec2|
                    #[trigger] r@.contains(q) <==> (map.spec_standable(q) && q != self.pos))
                &&& self.kind == AdventurerType::Diver ==> (forall|i: int, j: int|
                    0 <= i < j < r@.len() ==> rm_lt(#[trigger] r@[i], #[trigger] r@[j])) && (
                forall|q: Vec2| #[trigger] r@.contains(q) <==> diver_dest(map, self.pos, q))
            },
    {
        if act_points != 0 {
            self.info_special_moves(map)
        } else {
            let r = Vec::new();
            proof {
                assert(r@ =~= Seq::<Vec2>::empty());
            }
            r
        }
    }

    /// The positions the adventurer can drain from where they stand, no
    /// matter the action state.
    pub fn info_drains(&self, map: &Full) -> (r: Vec<Vec2>)
        requires
            map.wf(),
        ensures
            r@ == spec_drains(map, self.pos),
    {
        let limit = map.limit_rect();
        proof {
            assert(is_limit_rect(map, limit));
            lemma_is_the_limit_rect(map, limit);
        }
        let mut cands = self.pos.neighbours(Some(limit));
        cands.push(self.pos);
        proof {
            assert(cands@ =~= spec_neighbours(self.pos, Some(the_limit_rect(map))) + seq![
                self.pos,
            ]);
        }
        keep_flooded(map, cands)
    }

    /// The positions the adventurer can drain. The engineer may also
    /// drain with zero points left while a second drain is banked.
    pub fn drains(&self, map: &Full, act_points: u8) -> (r: Vec<Vec2>)
        requires
            map.wf(),
        ensures
            (act_points != 0 || (self.kind == AdventurerType::Engineer && self.bonus)) ==> r@
                == spec_drains(map, self.pos),
            !(act_points != 0 || (self.kind == AdventurerType::Engineer && self.bonus)) ==> r@
                == Seq::<Vec2>::empty(),
    {
        let gate = match self.kind {
            AdventurerType::Engineer => act_points != 0 || self.bonus,
            _ => act_points != 0,
        };
        if gate {
            self.info_drains(map)
        } else {
            let r = Vec::new();
            proof {
                assert(r@ =~= Seq::<Vec2>::empty());
            }
            r
        }
    }

    /// The hook called when the adventurer moves: a banked bonus action
    /// is forfeited by moving.
    pub fn on_move(&mut self)
        ensures
            final(self).kind == old(self).kind,
            final(self).pos == old(self).pos,
            final(self).bonus == if old(self).kind == AdventurerType::Engineer || old(self).kind
                == AdventurerType::Navigator {
                false
            } else {
                old(self).bonus
            },
    {
        match self.kind {
            AdventurerType::Engineer => {
                self.bonus = false;
            },
            AdventurerType::Navigator => {
                self.bonus = false;
            },
            _ => {},
        }
    }

    /// The hook called when the adventurer drains a tile. By default it
    /// costs one action point; the engineer banks a second drain with the
    /// first and pays nothing for the banked one.
    pub fn on_drain(&mut self, act_points: &mut u8)
        requires
            old(self).kind == AdventurerType::Engineer && old(self).bonus || *old(act_points) > 0,
        ensures
            final(self).kind == old(self).kind,
            final(self).pos == old(self).pos,
            old(self).kind != AdventurerType::Engineer ==> *final(act_points) == *old(act_points)
                - 1 && final(self).bonus == old(self).bonus,
            old(self).kind == AdventurerType::Engineer && old(self).bonus ==> *final(act_points)
                == *old(act_points) && final(self).bonus == false,
            old(self).kind == AdventurerType::Engineer && !old(self).bonus ==> *final(act_points)
                == *old(act_points) - 1 && final(self).bonus == true,
    {
        match self.kind {
            AdventurerType::Engineer => {
                if self.bonus {
                    self.bonus = false;
                } else {
                    *act_points = *act_points - 1;
                    self.bonus = true;
                }
            },
            _ => {
                *act_points = *act_points - 1;
            },
        }
    }

    /// Whether the adventurer may move another one: only the navigator
    /// can, with a point left or a second push banked.
    pub fn can_move_other(&self, act_points: u8) -> (r: bool)
        ensures
            r == (self.kind == AdventurerType::Navigator && (act_points != 0 || self.bonus)),
    {
        match self.kind {
            AdventurerType::Navigator => act_points != 0 || self.bonus,
            _ => false,
        }
    }

    /// The hook called when the navigator moves another adventurer:
    /// either an action point is spent and a second push banked, or the
    /// banked push is consumed.
    pub fn on_move_other(&mut self, act_points: &mut u8)
        requires
            old(self).kind == AdventurerType::Navigator,
            old(self).bonus || *old(act_points) > 0,
        ensures
            final(self).kind == old(self).kind,
            final(self).pos == old(self).pos,
            old(self).bonus ==> *final(act_points) == *old(act_points) && final(self).bonus
                == false,
            !old(self).bonus ==> *final(act_points) == *old(act_points) - 1 && final(self).bonus
                == true,
    {
        if self.bonus {
            self.bonus = false;
        } else {
            *act_points = *act_points - 1;
            self.bonus = true;
        }
    }

    /// Whether the adventurer can trade cards with the other one: only
    /// with points left, and only when standing together - except for the
    /// courier, who can trade with anyone anywhere.
    pub fn can_trade_with<P: Positionable>(&self, other: &P, act_points: u8) -> (r: bool)
        ensures
            r == (act_points != 0 && (self.kind == AdventurerType::Courier || other.spec_pos()
                == self.pos)),
    {
        if act_points != 0 {
            self.info_can_trade_with(other)
        } else {
            false
        }
    }

    /// Whether a trade is possible at all, no matter the action state.
    pub fn info_can_trade_with<P: Positionable>(&self, other: &P) -> (r: bool)
        ensures
            r == (self.kind == AdventurerType::Courier || other.spec_pos() == self.pos),
    {
        match self.kind {
            AdventurerType::Courier => true,
            _ => {
                let op = other.pos();
                op.x == self.pos.x && op.y == self.pos.y
            },
        }
    }
}

impl Positionable for Adventurer {
    open spec fn spec_pos(&self) -> Vec2 {
        self.pos
    }

    fn pos(&self) -> (r: Vec2) {
        self.pos
    }

    fn set_pos(&mut self, pos: Vec2) {
        self.pos = pos;
    }
}

} // verus!
