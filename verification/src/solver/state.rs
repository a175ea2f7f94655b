//! Mutable search state during backtracking.
//!
//! Encapsulates all fields that change as placements are applied and undone.

use crate::base::bitset::BitSet;
use crate::domain::placement::Placement;
use vstd::prelude::*;

verus! {

/// Mutable state during backtracking search.
///
/// - `covered`: which board cells are currently occupied.
/// - `remaining`: per piece type, how many instances are still unplaced.
/// - `covered_count`: cells covered, counted per placement.
/// - `covered_black`: checkerboard-black cells covered, counted per placement.
/// - `has_center_mark`: whether some applied placement has its mark on the center.
/// - `center_mark_type_remaining`: number of piece types that still have
///   instances and could land a mark on the center region.
/// - `result`: stack of applied placement indices, in apply order.
#[derive(Debug)]
pub struct SearchState {
    pub covered: BitSet,
    pub remaining: Vec<u16>,
    pub covered_count: u16,
    pub covered_black: u16,
    pub has_center_mark: bool,
    pub center_mark_type_remaining: u16,
    pub result: Vec<usize>,
}

/// Mathematical model of a [`SearchState`].
#[verifier::ext_equal]
pub struct SearchModel {
    pub covered: Set<int>,
    pub remaining: Seq<u16>,
    pub covered_count: int,
    pub covered_black: int,
    pub has_center_mark: bool,
    pub center_mark_type_remaining: int,
    pub result: Seq<usize>,
}

impl View for SearchState {
    type V = SearchModel;

    open spec fn view(&self) -> SearchModel {
        SearchModel {
            covered: self.covered@,
            remaining: self.remaining@,
            covered_count: self.covered_count as int,
            covered_black: self.covered_black as int,
            has_center_mark: self.has_center_mark,
            center_mark_type_remaining: self.center_mark_type_remaining as int,
            result: self.result@,
        }
    }
}

/// Token returned by [`SearchState::apply_placement`] and consumed by
/// [`SearchState::undo_placement`]: the state values that cannot be
/// recovered from the placement alone.
#[derive(Debug, Clone, Copy)]
pub struct PlacementUndo {
    pub prev_has_center_mark: bool,
    pub center_mark_type_drop: bool,
}

impl SearchModel {
    /// The state with no placement applied.
    pub open spec fn initial(type_counts: Seq<u16>, center_mark_type_remaining: int) -> SearchModel {
        SearchModel {
            covered: Set::empty(),
            remaining: type_counts,
            covered_count: 0,
            covered_black: 0,
            has_center_mark: false,
            center_mark_type_remaining,
            result: Seq::empty(),
        }
    }

    /// Every counter lies in the range of its `u16` field.
    pub open spec fn in_range(self) -> bool {
        &&& 0 <= self.covered_count <= u16::MAX
        &&& 0 <= self.covered_black <= u16::MAX
        &&& 0 <= self.center_mark_type_remaining <= u16::MAX
    }

    /// `pl` may be applied: its type has an instance left, its cells are free,
    /// and no counter leaves its range.
    pub open spec fn can_apply(self, pl: Placement, center_mark_type_drop: bool) -> bool {
        &&& (pl.type_idx as int) < self.remaining.len()
        &&& self.remaining[pl.type_idx as int] > 0
        &&& self.covered.disjoint(pl.bits@)
        &&& self.covered_count + pl.cell_indices@.len() <= u16::MAX
        &&& self.covered_black + pl.b_count <= u16::MAX
        &&& center_mark_type_drop ==> self.center_mark_type_remaining > 0
    }

    /// The state after applying `pl` as placement number `index`.
    pub open spec fn after_apply(
        self,
        pl: Placement,
        index: usize,
        center_mark_type_drop: bool,
    ) -> SearchModel {
        SearchModel {
            covered: self.covered.union(pl.bits@),
            remaining: self.remaining.update(
                pl.type_idx as int,
                (self.remaining[pl.type_idx as int] - 1) as u16,
            ),
            covered_count: self.covered_count + pl.cell_indices@.len(),
            covered_black: self.covered_black + pl.b_count,
            has_center_mark: self.has_center_mark || pl.mark_on_center,
            center_mark_type_remaining: self.center_mark_type_remaining - if center_mark_type_drop {
                1int
            } else {
                0int
            },
            result: self.result.push(index),
        }
    }

    /// `pl` may be undone with `undo`: no counter leaves its range.
    pub open spec fn can_undo(self, pl: Placement, undo: PlacementUndo) -> bool {
        &&& (pl.type_idx as int) < self.remaining.len()
        &&& self.remaining[pl.type_idx as int] < u16::MAX
        &&& self.covered_count >= pl.cell_indices@.len()
        &&& self.covered_black >= pl.b_count
        &&& undo.center_mark_type_drop ==> self.center_mark_type_remaining < u16::MAX
        &&& self.result.len() > 0
    }

    /// The state after undoing `pl` with `undo`.
    pub open spec fn after_undo(self, pl: Placement, undo: PlacementUndo) -> SearchModel {
        SearchModel {
            covered: self.covered.difference(pl.bits@),
            remaining: self.remaining.update(
                pl.type_idx as int,
                (self.remaining[pl.type_idx as int] + 1) as u16,
            ),
            covered_count: self.covered_count - pl.cell_indices@.len(),
            covered_black: self.covered_black - pl.b_count,
            has_center_mark: undo.prev_has_center_mark,
            center_mark_type_remaining: self.center_mark_type_remaining + if undo.center_mark_type_drop {
                1int
            } else {
                0int
            },
            result: self.result.drop_last(),
        }
    }
}

/// Undoing a placement with the token its application returned restores
/// the state exactly as it was before the placement was applied.
pub proof fn lemma_undo_inverts_apply(
    s: SearchModel,
    pl: Placement,
    index: usize,
    center_mark_type_drop: bool,
)
    requires
        s.in_range(),
        s.can_apply(pl, center_mark_type_drop),
    ensures
        ({
            let undo = PlacementUndo {
                prev_has_center_mark: s.has_center_mark,
                center_mark_type_drop,
            };
            let t = s.after_apply(pl, index, center_mark_type_drop);
            &&& t.can_undo(pl, undo)
            &&& t.after_undo(pl, undo) == s
        }),
{
    let undo = PlacementUndo { prev_has_center_mark: s.has_center_mark, center_mark_type_drop };
    let t = s.after_apply(pl, index, center_mark_type_drop);
    let u = t.after_undo(pl, undo);
    assert(u.covered =~= s.covered);
    assert(u.remaining =~= s.remaining);
    assert(u.result =~= s.result);
    assert(t.can_undo(pl, undo));
    assert(u.covered_count == s.covered_count);
    assert(u.covered_black == s.covered_black);
    assert(u.has_center_mark == s.has_center_mark);
    assert(u.center_mark_type_remaining == s.center_mark_type_remaining);
    assert(u =~= s);
}

impl SearchState {
    /// Creates an empty state: no cells covered, `type_counts[i]` instances
    /// of each type remaining.
    pub fn new(type_counts: Vec<u16>, center_mark_type_remaining: u16) -> (s: Self)
        ensures
            s@ == SearchModel::initial(type_counts@, center_mark_type_remaining as int),
    {
        Self {
            covered: BitSet::new(),
            remaining: type_counts,
            covered_count: 0,
            covered_black: 0,
            has_center_mark: false,
            center_mark_type_remaining,
            result: Vec::with_capacity(64),
        }
    }

    /// Resets the state to "no placements applied".
    pub fn reset(&mut self, type_counts: &[u16], center_mark_type_remaining: u16)
        ensures
            final(self)@ == SearchModel::initial(type_counts@, center_mark_type_remaining as int),
    {
        self.remaining.clear();
        let mut i: usize = 0;
        while i < type_counts.len()
            invariant
                i <= type_counts@.len(),
                self.remaining@ == type_counts@.take(i as int),
            decreases type_counts@.len() - i,
        {
            self.remaining.push(type_counts[i]);
            i = i + 1;
            proof {
                assert(self.remaining@ =~= type_counts@.take(i as int));
            }
        }
        proof {
            assert(type_counts@.take(i as int) =~= type_counts@);
        }
        self.covered.reset();
        self.covered_count = 0;
        self.covered_black = 0;
        self.has_center_mark = false;
        self.center_mark_type_remaining = center_mark_type_remaining;
        self.result.clear();
        proof {
            assert(self@ =~= SearchModel::initial(type_counts@, center_mark_type_remaining as int));
        }
    }

    /// Returns `true` if no piece type with a remaining instance can satisfy
    /// the center-mark constraint and none has satisfied it yet.
    pub fn center_mark_unreachable(&self) -> (r: bool)
        ensures
            r == (!self.has_center_mark && self.center_mark_type_remaining == 0),
    {
        !self.has_center_mark && self.center_mark_type_remaining == 0
    }

    /// Returns `true` if `target_count` cells are covered.
    pub fn is_fully_covered(&self, target_count: u16) -> (r: bool)
        ensures
            r == (self.covered_count == target_count),
    {
        self.covered_count == target_count
    }

    /// Applies a placement: marks its cells covered, decrements the remaining
    /// count for its type, updates parity and center-mark state, and pushes
    /// `placement_index` onto the result stack.
    pub fn apply_placement(
        &mut self,
        pl: &Placement,
        placement_index: usize,
        center_mark_type_drop: bool,
    ) -> (undo: PlacementUndo)
        requires
            old(self)@.can_apply(*pl, center_mark_type_drop),
        ensures
            final(self)@ == old(self)@.after_apply(*pl, placement_index, center_mark_type_drop),
            undo == (PlacementUndo {
                prev_has_center_mark: old(self).has_center_mark,
                center_mark_type_drop,
            }),
    {
        let prev_has_center_mark = self.has_center_mark;
        self.covered.apply(&pl.bits);
        let t = pl.type_idx as usize;
        let r = self.remaining[t];
        self.remaining[t] = r - 1;
        self.covered_count = self.covered_count + pl.cell_indices.len() as u16;
        self.covered_black = self.covered_black + pl.b_count as u16;
        if pl.mark_on_center {
            self.has_center_mark = true;
        }
        if center_mark_type_drop {
            self.center_mark_type_remaining = self.center_mark_type_remaining - 1;
        }
        self.result.push(placement_index);
        PlacementUndo { prev_has_center_mark, center_mark_type_drop }
    }

    /// Undoes the most recent `apply_placement` call.
    pub fn undo_placement(&mut self, pl: &Placement, undo: PlacementUndo)
        requires
            old(self)@.can_undo(*pl, undo),
        ensures
            final(self)@ == old(self)@.after_undo(*pl, undo),
    {
        self.result.pop();
        if undo.center_mark_type_drop {
            self.center_mark_type_remaining = self.center_mark_type_remaining + 1;
        }
        self.has_center_mark = undo.prev_has_center_mark;
        self.covered_black = self.covered_black - pl.b_count as u16;
        self.covered_count = self.covered_count - pl.cell_indices.len() as u16;
        let t = pl.type_idx as usize;
        let r = self.remaining[t];
        self.remaining[t] = r + 1;
        self.covered.clear_bits(&pl.bits);
        proof {
            assert(self.result@ =~= old(self).result@.drop_last());
        }
    }
}

} // verus!
