//! Half-open intervals of time and their algebra.

use crate::time::DateTime;
use vstd::prelude::*;

verus! {

/// The interval that starts at `start` and ends just before `end`.
///
/// A slot is *well formed* when it is not empty, that is when `start` is
/// earlier than `end`. The operations below are defined on every pair of
/// instants and say what they do with an empty one.
#[derive(Debug, Clone, Copy, PartialEq, Eq, Structural, PartialOrd, Ord, Hash)]
pub struct Slot {
    pub start: DateTime,
    pub end: DateTime,
}

impl Slot {
    /// The slot holds at least one instant.
    pub open spec fn wf(self) -> bool {
        self.start@ < self.end@
    }

    /// The instant `t` lies in the slot.
    pub open spec fn covers(self, t: int) -> bool {
        self.start@ <= t < self.end@
    }

    /// The length in seconds; zero for an empty slot.
    pub open spec fn seconds(self) -> int {
        if self.start@ < self.end@ {
            self.end@ - self.start@
        } else {
            0
        }
    }

    /// The length in whole hours; zero for an empty slot.
    pub open spec fn hours(self) -> int {
        self.seconds() / 3_600
    }

    /// Both ends fall on a full hour.
    pub open spec fn is_hour_aligned(self) -> bool {
        self.start@ % 3_600 == 0 && self.end@ % 3_600 == 0
    }

    /// Every instant of `other` lies between the ends of this slot.
    pub open spec fn contains(self, other: Slot) -> bool {
        self.start@ <= other.start@ && other.end@ <= self.end@
    }

    /// The two slots have an instant in common.
    pub open spec fn intersects(self, other: Slot) -> bool {
        vstd::math::max(self.start@, other.start@) < vstd::math::min(self.end@, other.end@)
    }

    /// This slot neither ends by the time `other` starts nor starts after
    /// `other` has ended.
    pub open spec fn conflicts_with(self, other: Slot) -> bool {
        !((self.start@ < other.start@ && self.end@ <= other.start@) || (self.start@ >= other.end@
            && self.end@ > other.end@))
    }

    /// The two slots are well formed and overlap or touch end to end.
    pub open spec fn touches(self, other: Slot) -> bool {
        self.wf() && other.wf() && self.start@ <= other.end@ && other.start@ <= self.end@
    }

    /// What is left of this slot once `other` is cut out of it, earliest
    /// piece first: the slot itself where the two share no instant, else the
    /// part before `other`, if any, and the part after it, if any.
    pub open spec fn minus(self, other: Slot) -> Seq<Slot> {
        if !self.intersects(other) {
            seq![self]
        } else {
            let left = if self.start@ < other.start@ {
                seq![Slot { start: self.start, end: other.start }]
            } else {
                Seq::<Slot>::empty()
            };
            let right = if other.end@ < self.end@ {
                seq![Slot { start: other.end, end: self.end }]
            } else {
                Seq::<Slot>::empty()
            };
            left + right
        }
    }

    /// The instants the two slots share, where there are any.
    pub open spec fn intersection(self, other: Slot) -> Option<Slot> {
        if self.intersects(other) {
            Some(
                Slot {
                    start: if self.start@ >= other.start@ {
                        self.start
                    } else {
                        other.start
                    },
                    end: if self.end@ <= other.end@ {
                        self.end
                    } else {
                        other.end
                    },
                },
            )
        } else {
            None
        }
    }

    /// The single slot that covers both, where they overlap or touch.
    pub open spec fn merged(self, other: Slot) -> Option<Slot> {
        if self.touches(other) {
            Some(
                Slot {
                    start: if self.start@ <= other.start@ {
                        self.start
                    } else {
                        other.start
                    },
                    end: if self.end@ >= other.end@ {
                        self.end
                    } else {
                        other.end
                    },
                },
            )
        } else {
            None
        }
    }

    /// Two slots with the same ends are the same value.
    pub proof fn lemma_same_ends(a: Slot, b: Slot)
        requires
            a.start@ == b.start@,
            a.end@ == b.end@,
        ensures
            a == b,
    {
        DateTime::lemma_view_injective(a.start, b.start);
        DateTime::lemma_view_injective(a.end, b.end);
    }

    /// The pieces of `a.minus(b)` are well formed, lie in order with a gap
    /// between them, and cover exactly the instants of `a` that `b` does not.
    pub proof fn lemma_minus(a: Slot, b: Slot)
        requires
            a.wf(),
        ensures
            a.minus(b).len() <= 2,
            forall|i: int| 0 <= i < a.minus(b).len() ==> (#[trigger] a.minus(b)[i]).wf(),
            forall|i: int|
                0 <= i < a.minus(b).len() ==> a.contains(#[trigger] a.minus(b)[i]) && !a.minus(
                    b,
                )[i].intersects(b),
            a.minus(b).len() == 2 ==> a.minus(b)[0].end@ < a.minus(b)[1].start@,
            forall|t: int|
                (exists|i: int| 0 <= i < a.minus(b).len() && (#[trigger] a.minus(b)[i]).covers(t))
                    <==> (a.covers(t) && !b.covers(t)),
    {
        let m = a.minus(b);
        assert forall|t: int|
            (exists|i: int| 0 <= i < m.len() && (#[trigger] m[i]).covers(t)) <==> (a.covers(t)
                && !b.covers(t)) by {
            if a.covers(t) && !b.covers(t) {
                if !a.intersects(b) {
                    assert(m[0].covers(t));
                } else if t < b.start@ {
                    assert(m[0].covers(t));
                } else {
                    assert(m[m.len() - 1].covers(t));
                }
            }
        }
    }

    /// The slot from `start` to `end`.
    pub fn new(start: DateTime, end: DateTime) -> (r: Slot)
        ensures
            r.start == start,
            r.end == end,
    {
        Slot { start, end }
    }

    /// The length in whole hours; zero for an empty slot.
    pub fn duration_as_hours(&self) -> (r: usize)
        ensures
            r == self.hours(),
    {
        let start: i64 = self.start.timestamp();
        let end: i64 = self.end.timestamp();
        if start < end {
            let hours: i64 = (end - start) / 3_600;
            hours as usize
        } else {
            0
        }
    }

    /// Whether both ends fall on a full hour.
    pub fn is_on_the_hour(&self) -> (r: bool)
        ensures
            r == self.is_hour_aligned(),
    {
        self.start.is_on_the_hour() && self.end.is_on_the_hour()
    }

    /// Whether this slot neither ends by the time `other_slot` starts nor
    /// starts after it has ended. For a well-formed slot this is whether its
    /// span meets that of `other_slot`.
    pub fn is_conflicts_with(&self, other_slot: &Slot) -> (r: bool)
        ensures
            r == self.conflicts_with(*other_slot),
            self.wf() ==> r == (self.start@ < other_slot.end@ && other_slot.start@ < self.end@),
    {
        let start: i64 = self.start.timestamp();
        let end: i64 = self.end.timestamp();
        let other_start: i64 = other_slot.start.timestamp();
        let other_end: i64 = other_slot.end.timestamp();
        !((start < other_start && end <= other_start) || (start >= other_end && end > other_end))
    }

    /// Whether `other` starts no earlier and ends no later than this slot.
    pub fn is_contains_slot(&self, other: &Slot) -> (r: bool)
        ensures
            r == self.contains(*other),
    {
        other.start.timestamp() >= self.start.timestamp() && other.end.timestamp()
            <= self.end.timestamp()
    }

    /// Whether the two slots have an instant in common.
    pub fn is_intersect_with_slot(&self, other: &Slot) -> (r: bool)
        ensures
            r == self.intersects(*other),
            r == (exists|t: int| self.covers(t) && other.covers(t)),
    {
        let start: i64 = if self.start.timestamp() >= other.start.timestamp() {
            self.start.timestamp()
        } else {
            other.start.timestamp()
        };
        let end: i64 = if self.end.timestamp() <= other.end.timestamp() {
            self.end.timestamp()
        } else {
            other.end.timestamp()
        };
        proof {
            if start < end {
                assert(self.covers(start as int) && other.covers(start as int));
            }
        }
        start < end
    }

    /// Whether the instant `t` lies in the slot.
    pub fn is_covering(&self, t: DateTime) -> (r: bool)
        ensures
            r == self.covers(t@),
    {
        self.start.timestamp() <= t.timestamp() && t.timestamp() < self.end.timestamp()
    }

    /// What is left of this slot once `rhs` is cut out of it, earliest piece
    /// first. Where the two share no instant that is the slot itself; where
    /// `rhs` covers it, nothing; where `rhs` lies inside it, the part before
    /// and the part after; else the one part that `rhs` leaves.
    pub fn sub(self, rhs: Slot) -> (r: Vec<Slot>)
        ensures
            r@ == self.minus(rhs),
    {
        let mut result: Vec<Slot> = Vec::new();
        if !self.is_intersect_with_slot(&rhs) {
            result.push(self);
            assert(result@ =~= self.minus(rhs));
            return result;
        }
        if self.start.timestamp() < rhs.start.timestamp() {
            result.push(Slot { start: self.start, end: rhs.start });
        }
        if rhs.end.timestamp() < self.end.timestamp() {
            result.push(Slot { start: rhs.end, end: self.end });
        }
        assert(result@ =~= self.minus(rhs));
        result
    }

    /// The single slot that covers both, where the two are well formed and
    /// overlap or touch end to end; `None` where a gap lies between them.
    pub fn add(self, other: Slot) -> (r: Option<Slot>)
        ensures
            r == self.merged(other),
    {
        let start: i64 = self.start.timestamp();
        let end: i64 = self.end.timestamp();
        let other_start: i64 = other.start.timestamp();
        let other_end: i64 = other.end.timestamp();
        if start < end && other_start < other_end && start <= other_end && other_start <= end {
            Some(
                Slot {
                    start: if start <= other_start {
                        self.start
                    } else {
                        other.start
                    },
                    end: if end >= other_end {
                        self.end
                    } else {
                        other.end
                    },
                },
            )
        } else {
            None
        }
    }

    /// The instants the two slots share, where there are any.
    pub fn intersect(&self, other: &Slot) -> (r: Option<Slot>)
        ensures
            r == self.intersection(*other),
    {
        if self.is_intersect_with_slot(other) {
            Some(
                Slot {
                    start: if self.start.timestamp() >= other.start.timestamp() {
                        self.start
                    } else {
                        other.start
                    },
                    end: if self.end.timestamp() <= other.end.timestamp() {
                        self.end
                    } else {
                        other.end
                    },
                },
            )
        } else {
            None
        }
    }
}

} // verus!
