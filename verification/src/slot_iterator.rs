//! Walking a slot in steps of a fixed length.

use crate::slot::Slot;
use crate::time::{DateTime, Duration};
use vstd::prelude::*;

verus! {

/// How many steps of `step` seconds it takes to walk `seconds` seconds,
/// a shorter last step included.
pub open spec fn step_count(seconds: int, step: int) -> int {
    if seconds <= 0 || step <= 0 {
        0
    } else {
        (seconds + step - 1) / step
    }
}

/// `pieces` cuts `slot` into steps of `step` seconds each, earliest first:
/// piece `k` starts `k` steps into the slot and ends one step later, or
/// with the slot where that comes first.
pub open spec fn is_tiling(pieces: Seq<Slot>, slot: Slot, step: int) -> bool {
    &&& pieces.len() == step_count(slot.seconds(), step)
    &&& forall|k: int|
        0 <= k < pieces.len() ==> (#[trigger] pieces[k]).start@ == slot.start@ + k * step
            && pieces[k].end@ == vstd::math::min(slot.start@ + (k + 1) * step, slot.end@)
}

/// Piece `k` of `slot` cut into steps of `step` seconds.
pub open spec fn tile(slot: Slot, step: int, k: int) -> Slot {
    Slot {
        start: DateTime::at_second(slot.start@ + k * step),
        end: DateTime::at_second(vstd::math::min(slot.start@ + (k + 1) * step, slot.end@)),
    }
}

/// The pieces of `slot` cut into steps of `step` seconds, earliest first.
pub open spec fn tiles(slot: Slot, step: int) -> Seq<Slot> {
    Seq::new(step_count(slot.seconds(), step) as nat, |k: int| tile(slot, step, k))
}

/// A list that cuts `slot` into steps of `step` is the list of its tiles.
pub proof fn lemma_tiling_is_tiles(pieces: Seq<Slot>, slot: Slot, step: int)
    requires
        is_tiling(pieces, slot, step),
    ensures
        pieces == tiles(slot, step),
{
    let t = tiles(slot, step);
    assert(pieces.len() == t.len());
    assert forall|k: int| 0 <= k < pieces.len() implies pieces[k] == t[k] by {
        let p = pieces[k];
        DateTime::lemma_at_second_of_view(p.start);
        DateTime::lemma_at_second_of_view(p.end);
    }
    assert(pieces =~= t);
}

/// With a positive step, `k` steps reach the end of `n` seconds and `k - 1`
/// do not exactly when `k` is the step count.
pub proof fn lemma_step_count(n: int, step: int, k: int)
    by (nonlinear_arith)
    requires
        step > 0,
        n > 0,
        (k - 1) * step < n <= k * step,
    ensures
        step_count(n, step) == k,
{
    let q = (n + step - 1) / step;
    assert(q * step <= n + step - 1 < (q + 1) * step) by {
        vstd::arithmetic::div_mod::lemma_fundamental_div_mod(n + step - 1, step);
        vstd::arithmetic::div_mod::lemma_mod_bound(n + step - 1, step);
    }
    if q < k {
        assert((q + 1) * step <= k * step);
        assert((q + 1) * step <= (k - 1) * step);
    }
    if q > k {
        assert((k + 1) * step <= q * step);
    }
}

/// Walks a slot from its start in steps of a fixed positive length. The
/// last step is cut short where the slot ends before it does.
#[derive(Debug, Clone, Copy)]
pub struct SlotIterator {
    slot: Slot,
    pointer: DateTime,
    interval: Duration,
}

impl SlotIterator {
    #[verifier::type_invariant]
    spec fn inv(self) -> bool {
        &&& self.interval@ > 0
        &&& self.slot.start@ <= self.pointer@
        &&& self.pointer@ <= self.slot.end@ || self.pointer@ == self.slot.start@
    }

    /// The slot that is walked.
    pub closed spec fn slot(self) -> Slot {
        self.slot
    }

    /// Where the next step starts.
    pub closed spec fn pointer(self) -> int {
        self.pointer@
    }

    /// The length of a step, in seconds.
    pub closed spec fn interval(self) -> int {
        self.interval@
    }

    /// The steps still to come.
    pub open spec fn remaining(self) -> int {
        step_count(self.slot().end@ - self.pointer(), self.interval())
    }

    /// An iterator over `slot` in steps of one day.
    pub fn initialize(slot: Slot) -> (r: SlotIterator)
        ensures
            r.slot() == slot,
            r.pointer() == slot.start@,
            r.interval() == 86_400,
    {
        SlotIterator { slot, pointer: slot.start, interval: Duration::days(1) }
    }

    /// An iterator over `slot` in steps of `interval_duration`, which has to
    /// be positive: with steps of no length the walk would never end.
    pub fn new(slot: Slot, interval_duration: Duration) -> (r: SlotIterator)
        requires
            interval_duration@ > 0,
        ensures
            r.slot() == slot,
            r.pointer() == slot.start@,
            r.interval() == interval_duration@,
    {
        SlotIterator { slot, pointer: slot.start, interval: interval_duration }
    }

    /// How many steps are still to come.
    pub fn interval_count(&self) -> (r: usize)
        requires
            self.remaining() <= usize::MAX,
        ensures
            r == self.remaining(),
    {
        proof {
            use_type_invariant(self);
        }
        let pointer: i64 = self.pointer.timestamp();
        let end: i64 = self.slot.end.timestamp();
        let step: i64 = self.interval.num_seconds();
        if pointer >= end {
            0
        } else {
            let count: i64 = (end - pointer + step - 1) / step;
            proof {
                assert(0 <= count) by (nonlinear_arith)
                    requires
                        count == (end - pointer + step - 1) / (step as int),
                        end - pointer + step - 1 >= 0,
                        step > 0,
                ;
            }
            count as usize
        }
    }

    /// The next step, if the end of the slot has not been reached: it
    /// starts where the one before ended and is `interval` long, or ends
    /// with the slot.
    pub fn next(&mut self) -> (r: Option<Slot>)
        ensures
            final(self).slot() == old(self).slot(),
            final(self).interval() == old(self).interval(),
            old(self).interval() > 0,
            old(self).pointer() >= old(self).slot().end@ ==> r is None && final(self).pointer()
                == old(self).pointer(),
            old(self).pointer() < old(self).slot().end@ ==> r is Some && r->0.start@ == old(
                self,
            ).pointer() && r->0.end@ == vstd::math::min(
                old(self).pointer() + old(self).interval(),
                old(self).slot().end@,
            ) && final(self).pointer() == r->0.end@,
    {
        proof {
            use_type_invariant(&*self);
        }
        let pointer: i64 = self.pointer.timestamp();
        let end: i64 = self.slot.end.timestamp();
        let step: i64 = self.interval.num_seconds();
        if pointer >= end {
            return None;
        }
        let next_pointer = if end - pointer <= step {
            self.slot.end
        } else {
            DateTime::at(pointer + step)
        };
        let slot = Slot { start: self.pointer, end: next_pointer };
        self.pointer = next_pointer;
        Some(slot)
    }
}

impl Slot {
    /// Cuts the slot into pieces of `step` each, earliest first; the last
    /// piece is shorter where the length of the slot is no multiple of
    /// `step`. An empty slot has no pieces.
    pub fn divide(&self, step: Duration) -> (r: Vec<Slot>)
        requires
            step@ > 0,
        ensures
            r@ == tiles(*self, step@),
            is_tiling(r@, *self, step@),
    {
        let mut pieces: Vec<Slot> = Vec::new();
        let mut walker = SlotIterator::new(*self, step);
        let ghost start = self.start@;
        let ghost end = self.end@;
        let ghost width = step@;
        if !(self.start.timestamp() < self.end.timestamp()) {
            proof {
                lemma_tiling_is_tiles(pieces@, *self, step@);
            }
            return pieces;
        }
        proof {
            assert(0 * width == 0) by (nonlinear_arith);
        }
        loop
            invariant
                walker.slot() == *self,
                walker.interval() == width,
                width > 0,
                start == self.start@,
                end == self.end@,
                start < end,
                walker.pointer() == vstd::math::min(start + pieces@.len() * width, end),
                pieces@.len() > 0 ==> start + (pieces@.len() - 1) * width < end,
                forall|k: int|
                    0 <= k < pieces@.len() ==> (#[trigger] pieces@[k]).start@ == start + k * width
                        && pieces@[k].end@ == vstd::math::min(start + (k + 1) * width, end),
            ensures
                walker.pointer() >= end,
                start + pieces@.len() * width >= end,
                pieces@.len() > 0 ==> start + (pieces@.len() - 1) * width < end,
                forall|k: int|
                    0 <= k < pieces@.len() ==> (#[trigger] pieces@[k]).start@ == start + k * width
                        && pieces@[k].end@ == vstd::math::min(start + (k + 1) * width, end),
            decreases end - walker.pointer(),
        {
            let ghost n = pieces@.len() as int;
            match walker.next() {
                Some(piece) => {
                    proof {
                        assert((n + 1) * width == n * width + width) by (nonlinear_arith);
                        assert(start + n * width < end);
                    }
                    pieces.push(piece);
                },
                None => {
                    break ;
                },
            }
        }
        proof {
            let n = pieces@.len() as int;
            assert(n > 0) by {
                if n == 0 {
                    assert(0 * width == 0) by (nonlinear_arith);
                }
            }
            lemma_step_count(end - start, width, n);
            lemma_tiling_is_tiles(pieces@, *self, step@);
        }
        pieces
    }

    /// Cuts the slot into pieces of one hour each; the last one is shorter
    /// where the slot does not end a whole number of hours after it starts.
    pub fn divide_into_1h_slots(&self) -> (r: Vec<Slot>)
        ensures
            r@ == tiles(*self, 3_600),
            is_tiling(r@, *self, 3_600),
    {
        self.divide(Duration::hours(1))
    }
}

} // verus!
