//! Ordered sets of disjoint slots.
//!
//! A [`Timeline`] stands for a set of instants. It keeps that set as the
//! shortest possible list of slots: in order, none empty, and with a gap
//! between any two neighbours. Such a list is *well formed*, and there is
//! exactly one well-formed list for every set it can stand for
//! ([`lemma_slots_unique`]). The operations are therefore specified by the
//! instants that the result covers.

use crate::algebra::lemma_total_within_span;
use crate::slot::Slot;
use crate::slot_iterator::tiles;
use crate::time::{DateTime, Duration};
use vstd::prelude::*;

verus! {

/// The slots are in order, none is empty, and each ends before the next
/// one starts: no two overlap or touch.
pub open spec fn slots_wf(s: Seq<Slot>) -> bool {
    &&& forall|i: int| 0 <= i < s.len() ==> (#[trigger] s[i]).wf()
    &&& forall|i: int, j: int|
        0 <= i < j < s.len() ==> (#[trigger] s[i]).end@ < (#[trigger] s[j]).start@
}

/// Some slot of `s` holds the instant `t`.
pub open spec fn slots_cover(s: Seq<Slot>, t: int) -> bool {
    exists|i: int| 0 <= i < s.len() && (#[trigger] s[i]).covers(t)
}

/// Every slot of `s` starts and ends on a full hour.
pub open spec fn slots_aligned(s: Seq<Slot>) -> bool {
    forall|i: int| 0 <= i < s.len() ==> (#[trigger] s[i]).is_hour_aligned()
}

/// The lengths of the slots of `s`, in seconds, added up.
pub open spec fn total_seconds(s: Seq<Slot>) -> int
    decreases s.len(),
{
    if s.len() == 0 {
        0
    } else {
        total_seconds(s.drop_last()) + s.last().seconds()
    }
}

/// The lengths of the slots of `s`, each in whole hours, added up.
pub open spec fn total_hours(s: Seq<Slot>) -> int
    decreases s.len(),
{
    if s.len() == 0 {
        0
    } else {
        total_hours(s.drop_last()) + s.last().hours()
    }
}

/// How many slots of `s` hold the instant `t`.
pub open spec fn cover_count(s: Seq<Slot>, t: int) -> int
    decreases s.len(),
{
    if s.len() == 0 {
        0
    } else {
        cover_count(s.drop_last(), t) + if s.last().covers(t) {
            1int
        } else {
            0int
        }
    }
}

/// Adding a slot at the end adds the instants it holds.
pub proof fn lemma_cover_push(s: Seq<Slot>, x: Slot)
    ensures
        forall|t: int| #[trigger] slots_cover(s.push(x), t) <==> slots_cover(s, t) || x.covers(t),
{
    let p = s.push(x);
    assert forall|t: int| #[trigger] slots_cover(p, t) <==> slots_cover(s, t) || x.covers(t) by {
        if slots_cover(s, t) {
            let i = choose|i: int| 0 <= i < s.len() && (#[trigger] s[i]).covers(t);
            assert(p[i].covers(t));
        }
        if x.covers(t) {
            assert(p[s.len() as int].covers(t));
        }
        if slots_cover(p, t) {
            let i = choose|i: int| 0 <= i < p.len() && (#[trigger] p[i]).covers(t);
            if i < s.len() {
                assert(s[i].covers(t));
            }
        }
    }
}

/// One more slot of a list adds the instants it holds to those of the
/// slots before it.
pub proof fn lemma_cover_take(s: Seq<Slot>, i: int)
    requires
        0 <= i < s.len(),
    ensures
        forall|t: int| #[trigger]
            slots_cover(s.take(i + 1), t) <==> slots_cover(s.take(i), t) || s[i].covers(t),
        s.take(i + 1) == s.take(i).push(s[i]),
{
    assert(s.take(i + 1) =~= s.take(i).push(s[i]));
    lemma_cover_push(s.take(i), s[i]);
}

/// Two lists one after the other cover what either covers; the whole is
/// well formed where both are and the first ends before the second starts.
pub proof fn lemma_concat(a: Seq<Slot>, b: Seq<Slot>)
    ensures
        forall|t: int| #[trigger] slots_cover(a + b, t) <==> slots_cover(a, t) || slots_cover(b, t),
        slots_wf(a) && slots_wf(b) && (a.len() > 0 && b.len() > 0 ==> a.last().end@
            < b[0].start@) ==> slots_wf(a + b),
        slots_aligned(a) && slots_aligned(b) ==> slots_aligned(a + b),
{
    let c = a + b;
    assert forall|t: int| #[trigger] slots_cover(c, t) <==> slots_cover(a, t) || slots_cover(
        b,
        t,
    ) by {
        if slots_cover(a, t) {
            let i = choose|i: int| 0 <= i < a.len() && (#[trigger] a[i]).covers(t);
            assert(c[i].covers(t));
        }
        if slots_cover(b, t) {
            let i = choose|i: int| 0 <= i < b.len() && (#[trigger] b[i]).covers(t);
            assert(c[a.len() + i].covers(t));
        }
        if slots_cover(c, t) {
            let i = choose|i: int| 0 <= i < c.len() && (#[trigger] c[i]).covers(t);
            if i < a.len() {
                assert(a[i].covers(t));
            } else {
                assert(b[i - a.len()].covers(t));
            }
        }
    }
    if slots_wf(a) && slots_wf(b) && (a.len() > 0 && b.len() > 0 ==> a.last().end@
        < b[0].start@) {
        assert forall|i: int, j: int| 0 <= i < j < c.len() implies (#[trigger] c[i]).end@ < (
        #[trigger] c[j]).start@ by {
            if i < a.len() && j >= a.len() {
                let k = j - a.len();
                assert(c[j] == b[k]);
                assert(a[i].end@ <= a.last().end@);
                assert(b[0].start@ <= b[k].start@) by {
                    if k > 0 {
                        assert(b[0].end@ < b[k].start@);
                    }
                }
            } else if j < a.len() {
                assert(a[i].end@ < a[j].start@);
            } else {
                assert(b[i - a.len()].end@ < b[j - a.len()].start@);
            }
        }
        assert forall|i: int| 0 <= i < c.len() implies (#[trigger] c[i]).wf() by {
            if i < a.len() {
                assert(a[i].wf());
            } else {
                assert(b[i - a.len()].wf());
            }
        }
    }
    if slots_aligned(a) && slots_aligned(b) {
        assert forall|i: int| 0 <= i < c.len() implies (#[trigger] c[i]).is_hour_aligned() by {
            if i < a.len() {
                assert(a[i].is_hour_aligned());
            } else {
                assert(b[i - a.len()].is_hour_aligned());
            }
        }
    }
}

/// What is left of every slot of `s` once `slot` is cut out of it, in the
/// order of `s`.
pub open spec fn slots_minus(s: Seq<Slot>, slot: Slot) -> Seq<Slot>
    decreases s.len(),
{
    if s.len() == 0 {
        Seq::<Slot>::empty()
    } else {
        slots_minus(s.drop_last(), slot) + s.last().minus(slot)
    }
}

/// Cutting `slot` out of every slot of a list leaves the instants of the
/// list that `slot` does not hold, keeps a well-formed list well formed,
/// and moves no end off the full hour.
pub proof fn lemma_slots_minus(s: Seq<Slot>, slot: Slot)
    ensures
        forall|t: int| #[trigger]
            slots_cover(slots_minus(s, slot), t) <==> slots_cover(s, t) && !slot.covers(t),
        slots_wf(s) ==> slots_wf(slots_minus(s, slot)),
        slots_wf(s) && s.len() > 0 && slots_minus(s, slot).len() > 0 ==> slots_minus(
            s,
            slot,
        ).last().end@ <= s.last().end@,
        slots_aligned(s) && slot.is_hour_aligned() ==> slots_aligned(slots_minus(s, slot)),
    decreases s.len(),
{
    if s.len() == 0 {
        assert forall|t: int| !slots_cover(s, t) by {}
        assert forall|t: int| !slots_cover(slots_minus(s, slot), t) by {}
    } else {
        let init = s.drop_last();
        let x = s.last();
        let before = slots_minus(init, slot);
        let added = x.minus(slot);
        lemma_slots_minus(init, slot);
        lemma_concat(before, added);
        assert(s =~= init.push(x));
        lemma_cover_push(init, x);
        assert forall|t: int| #[trigger] slots_cover(added, t) <==> x.covers(t) && !slot.covers(
            t,
        ) by {
            if x.wf() {
                Slot::lemma_minus(x, slot);
            } else {
                if slots_cover(added, t) {
                    let i = choose|i: int| 0 <= i < added.len() && (#[trigger] added[i]).covers(t);
                    assert(added[0].covers(t));
                }
            }
        }
        assert forall|t: int| #[trigger]
            slots_cover(before + added, t) <==> slots_cover(s, t) && !slot.covers(t) by {
            assert(slots_cover(before, t) <==> slots_cover(init, t) && !slot.covers(t));
            assert(slots_cover(added, t) <==> x.covers(t) && !slot.covers(t));
            assert(slots_cover(init.push(x), t) <==> slots_cover(init, t) || x.covers(t));
        }
        if slots_wf(s) {
            assert(x == s[s.len() - 1]);
            assert(x.wf());
            Slot::lemma_minus(x, slot);
            assert(slots_wf(init)) by {
                assert forall|i: int, j: int| 0 <= i < j < init.len() implies (
                #[trigger] init[i]).end@ < (#[trigger] init[j]).start@ by {
                    assert(s[i].end@ < s[j].start@);
                }
                assert forall|i: int| 0 <= i < init.len() implies (#[trigger] init[i]).wf() by {
                    assert(s[i].wf());
                }
            }
            assert(slots_wf(added));
            if before.len() > 0 && added.len() > 0 {
                assert(init.len() > 0);
                assert(init.last() == s[s.len() - 2]);
                assert(s[s.len() - 2].end@ < s[s.len() - 1].start@);
                assert(x.contains(added[0]));
            }
            if added.len() > 0 {
                assert(x.contains(added[added.len() - 1]));
                assert((before + added).last() == added[added.len() - 1]);
            } else if before.len() > 0 {
                assert(before + added =~= before);
                assert(init.last() == s[s.len() - 2]);
                assert(s[s.len() - 2].end@ < s[s.len() - 1].start@);
            }
        }
        if slots_aligned(s) && slot.is_hour_aligned() {
            assert(x == s[s.len() - 1]);
            assert(x.is_hour_aligned());
            assert(slots_aligned(init)) by {
                assert forall|i: int| 0 <= i < init.len() implies (
                #[trigger] init[i]).is_hour_aligned() by {
                    assert(s[i].is_hour_aligned());
                }
            }
            assert(slots_aligned(added));
        }
    }
}

/// What is left of every slot of `s` once each slot of `cuts` has been cut
/// out of it, one after the other.
pub open spec fn slots_minus_all(s: Seq<Slot>, cuts: Seq<Slot>) -> Seq<Slot>
    decreases cuts.len(),
{
    if cuts.len() == 0 {
        s
    } else {
        slots_minus(slots_minus_all(s, cuts.drop_last()), cuts.last())
    }
}

/// `done` is the well-formed list that covers `src` and `slot` together.
pub open spec fn insert_done(src: Seq<Slot>, slot: Slot, done: Seq<Slot>) -> bool {
    &&& slots_wf(done)
    &&& forall|t: int| #[trigger] slots_cover(done, t) <==> slots_cover(src, t) || slot.covers(t)
    &&& slots_aligned(src) && slot.is_hour_aligned() ==> slots_aligned(done)
}

/// What holds while `slot` is being inserted into `src`, once the first
/// `i` slots of `src` have been looked at: `out` holds what is settled,
/// `cur` is `slot` grown by every stored slot that it met, and `placed`
/// says whether `cur` went into `out` already.
pub open spec fn insert_inv(
    src: Seq<Slot>,
    i: int,
    slot: Slot,
    out: Seq<Slot>,
    cur: Slot,
    placed: bool,
) -> bool {
    &&& 0 <= i <= src.len()
    &&& slots_wf(src)
    &&& slot.wf()
    &&& cur.wf()
    &&& slots_wf(out)
    &&& forall|k: int, j: int|
        0 <= k < out.len() && i <= j < src.len() ==> (#[trigger] out[k]).end@ < (
        #[trigger] src[j]).start@
    &&& !placed ==> forall|k: int| 0 <= k < out.len() ==> (#[trigger] out[k]).end@ < cur.start@
    &&& forall|t: int|
        #![trigger slots_cover(out, t)]
        (slots_cover(out, t) || (!placed && cur.covers(t))) <==> (slots_cover(src.take(i), t)
            || slot.covers(t))
    &&& slots_aligned(src) && slot.is_hour_aligned() ==> slots_aligned(out)
        && cur.is_hour_aligned()
}

#[verifier::spinoff_prover]
proof fn lemma_insert_keep(
    src: Seq<Slot>,
    i: int,
    slot: Slot,
    out: Seq<Slot>,
    cur: Slot,
    placed: bool,
)
    requires
        insert_inv(src, i, slot, out, cur, placed),
        i < src.len(),
        placed || src[i].end@ < cur.start@,
    ensures
        insert_inv(src, i + 1, slot, out.push(src[i]), cur, placed),
{
    let x = src[i];
    let next = out.push(x);
    assert(x.wf());
    lemma_cover_take(src, i);
    lemma_cover_push(out, x);
    lemma_concat(out, seq![x]);
    assert(next =~= out + seq![x]);
    assert(out.len() > 0 ==> out.last().end@ < src[i].start@);
    assert(slots_wf(seq![x]));
    assert forall|k: int, j: int| 0 <= k < next.len() && i + 1 <= j < src.len() implies (
    #[trigger] next[k]).end@ < (#[trigger] src[j]).start@ by {
        if k == out.len() {
            assert(src[i].end@ < src[j].start@);
        } else {
            assert(out[k].end@ < src[j].start@);
        }
    }
    assert forall|t: int|
        #![trigger slots_cover(next, t)]
        (slots_cover(next, t) || (!placed && cur.covers(t))) <==> (slots_cover(src.take(i + 1), t)
            || slot.covers(t)) by {
        assert((slots_cover(out, t) || (!placed && cur.covers(t))) <==> (slots_cover(
            src.take(i),
            t,
        ) || slot.covers(t)));
    }
    if slots_aligned(src) && slot.is_hour_aligned() {
        assert(x.is_hour_aligned());
        assert(slots_aligned(seq![x]));
    }
    if !placed {
        assert forall|k: int| 0 <= k < next.len() implies (#[trigger] next[k]).end@
            < cur.start@ by {
            if k < out.len() {
                assert(out[k].end@ < cur.start@);
            }
        }
    }
}

#[verifier::spinoff_prover]
proof fn lemma_insert_place(src: Seq<Slot>, i: int, slot: Slot, out: Seq<Slot>, cur: Slot)
    requires
        insert_inv(src, i, slot, out, cur, false),
        i < src.len(),
        cur.end@ < src[i].start@,
    ensures
        insert_inv(src, i + 1, slot, out.push(cur).push(src[i]), cur, true),
{
    let x = src[i];
    let two = seq![cur, x];
    let next = out.push(cur).push(x);
    assert(x.wf());
    assert(next =~= out + two);
    assert(slots_wf(two));
    lemma_cover_take(src, i);
    lemma_concat(out, two);
    assert(out.len() > 0 ==> out.last().end@ < cur.start@);
    assert forall|t: int| #[trigger] slots_cover(two, t) <==> cur.covers(t) || x.covers(t) by {
        if cur.covers(t) {
            assert(two[0].covers(t));
        }
        if x.covers(t) {
            assert(two[1].covers(t));
        }
    }
    assert forall|k: int, j: int| 0 <= k < next.len() && i + 1 <= j < src.len() implies (
    #[trigger] next[k]).end@ < (#[trigger] src[j]).start@ by {
        assert(src[i].end@ < src[j].start@);
        if k < out.len() {
            assert(out[k].end@ < src[j].start@);
        }
    }
    assert forall|t: int|
        #![trigger slots_cover(next, t)]
        slots_cover(next, t) <==> (slots_cover(src.take(i + 1), t) || slot.covers(t)) by {
        assert((slots_cover(out, t) || cur.covers(t)) <==> (slots_cover(src.take(i), t)
            || slot.covers(t)));
        assert(slots_cover(two, t) <==> cur.covers(t) || x.covers(t));
    }
    if slots_aligned(src) && slot.is_hour_aligned() {
        assert(x.is_hour_aligned());
        assert(slots_aligned(two));
    }
}

#[verifier::spinoff_prover]
proof fn lemma_insert_merge(src: Seq<Slot>, i: int, slot: Slot, out: Seq<Slot>, cur: Slot)
    requires
        insert_inv(src, i, slot, out, cur, false),
        i < src.len(),
        !(src[i].end@ < cur.start@),
        !(cur.end@ < src[i].start@),
    ensures
        cur.merged(src[i]) is Some,
        insert_inv(src, i + 1, slot, out, cur.merged(src[i])->0, false),
{
    let x = src[i];
    assert(x.wf());
    let grown = cur.merged(x)->0;
    lemma_cover_take(src, i);
    assert forall|t: int|
        #![trigger slots_cover(out, t)]
        (slots_cover(out, t) || grown.covers(t)) <==> (slots_cover(src.take(i + 1), t)
            || slot.covers(t)) by {
        assert((slots_cover(out, t) || cur.covers(t)) <==> (slots_cover(src.take(i), t)
            || slot.covers(t)));
        assert(grown.covers(t) <==> cur.covers(t) || x.covers(t));
    }
    assert forall|k: int| 0 <= k < out.len() implies (#[trigger] out[k]).end@ < grown.start@ by {
        assert(out[k].end@ < src[i].start@);
        assert(out[k].end@ < cur.start@);
    }
    assert forall|k: int, j: int| 0 <= k < out.len() && i + 1 <= j < src.len() implies (
    #[trigger] out[k]).end@ < (#[trigger] src[j]).start@ by {
        assert(out[k].end@ < src[j].start@);
    }
    if slots_aligned(src) && slot.is_hour_aligned() {
        assert(x.is_hour_aligned());
    }
}

#[verifier::spinoff_prover]
proof fn lemma_insert_finish(src: Seq<Slot>, slot: Slot, out: Seq<Slot>, cur: Slot, placed: bool)
    requires
        insert_inv(src, src.len() as int, slot, out, cur, placed),
    ensures
        placed ==> insert_done(src, slot, out),
        !placed ==> insert_done(src, slot, out.push(cur)),
{
    assert(src.take(src.len() as int) =~= src);
    if !placed {
        let done = out.push(cur);
        lemma_cover_push(out, cur);
        lemma_concat(out, seq![cur]);
        assert(done =~= out + seq![cur]);
        assert(slots_wf(seq![cur]));
        assert(out.len() > 0 ==> out.last().end@ < cur.start@);
        assert forall|t: int| #[trigger]
            slots_cover(done, t) <==> slots_cover(src, t) || slot.covers(t) by {
            assert((slots_cover(out, t) || cur.covers(t)) <==> (slots_cover(
                src.take(src.len() as int),
                t,
            ) || slot.covers(t)));
        }
        if slots_aligned(src) && slot.is_hour_aligned() {
            assert(slots_aligned(seq![cur]));
        }
    } else {
        assert forall|t: int| #[trigger]
            slots_cover(out, t) <==> slots_cover(src, t) || slot.covers(t) by {
            assert((slots_cover(out, t) || (!placed && cur.covers(t))) <==> (slots_cover(
                src.take(src.len() as int),
                t,
            ) || slot.covers(t)));
        }
    }
}

/// The slots of `s` walked in steps of `step` seconds: the pieces of the
/// first slot, then those of the second, and so on.
pub open spec fn walk(s: Seq<Slot>, step: int) -> Seq<Slot>
    decreases s.len(),
{
    if s.len() == 0 {
        Seq::<Slot>::empty()
    } else {
        walk(s.drop_last(), step) + tiles(s.last(), step)
    }
}

/// Walks every slot of `slots` in steps of `step`.
pub fn walk_slots(slots: &Vec<Slot>, step: Duration) -> (r: Vec<Slot>)
    requires
        step@ > 0,
    ensures
        r@ == walk(slots@, step@),
{
    let mut out: Vec<Slot> = Vec::new();
    let mut i: usize = 0;
    proof {
        assert(slots@.take(0) =~= Seq::<Slot>::empty());
    }
    while i < slots.len()
        invariant
            i <= slots.len(),
            step@ > 0,
            out@ == walk(slots@.take(i as int), step@),
        decreases slots.len() - i,
    {
        let mut pieces = slots[i].divide(step);
        proof {
            let now = slots@.take(i + 1);
            assert(now.drop_last() =~= slots@.take(i as int));
            assert(now.last() == slots@[i as int]);
        }
        out.append(&mut pieces);
        i += 1;
    }
    assert(slots@.take(i as int) =~= slots@);
    out
}

/// An ordered set of disjoint slots.
#[derive(Debug, PartialEq, Eq)]
pub struct Timeline {
    pub slots: Vec<Slot>,
}

impl View for Timeline {
    type V = Seq<Slot>;

    open spec fn view(&self) -> Seq<Slot> {
        self.slots@
    }
}

impl Clone for Timeline {
    fn clone(&self) -> (r: Self)
        ensures
            r@ == self@,
    {
        Timeline { slots: self.slots.clone() }
    }
}

impl Timeline {
    /// The slots are in order, none is empty, and no two overlap or touch.
    pub open spec fn wf(&self) -> bool {
        slots_wf(self@)
    }

    /// Some slot of the timeline holds the instant `t`.
    #[verifier::inline]
    pub open spec fn covers(&self, t: int) -> bool {
        slots_cover(self@, t)
    }

    /// Every slot starts and ends on a full hour.
    pub open spec fn is_hour_aligned(&self) -> bool {
        slots_aligned(self@)
    }

    /// The timeline that covers nothing.
    pub fn new() -> (r: Timeline)
        ensures
            r@ == Seq::<Slot>::empty(),
            r.wf(),
    {
        Timeline { slots: Vec::new() }
    }

    /// The timeline of the one slot from `start` to `end`; the empty
    /// timeline where `start` is not earlier than `end`.
    pub fn initialize(start: DateTime, end: DateTime) -> (r: Timeline)
        ensures
            r@ == if start@ < end@ {
                seq![Slot { start, end }]
            } else {
                Seq::<Slot>::empty()
            },
            r.wf(),
            forall|t: int| #[trigger] r.covers(t) <==> start@ <= t < end@,
    {
        let mut slots: Vec<Slot> = Vec::new();
        if start.timestamp() < end.timestamp() {
            slots.push(Slot { start, end });
            assert(slots@ =~= seq![Slot { start, end }]);
            assert forall|t: int| start@ <= t < end@ implies slots_cover(slots@, t) by {
                assert(slots@[0].covers(t));
            }
        }
        Timeline { slots }
    }

    /// Whether the timeline covers nothing.
    pub fn is_empty(&self) -> (r: bool)
        ensures
            r == (self@.len() == 0),
    {
        self.slots.len() == 0
    }

    /// Whether some slot of the timeline holds the instant `t`.
    pub fn is_covering(&self, t: DateTime) -> (r: bool)
        ensures
            r == self.covers(t@),
    {
        let mut i: usize = 0;
        while i < self.slots.len()
            invariant
                i <= self.slots.len(),
                forall|k: int| 0 <= k < i ==> !(#[trigger] self@[k]).covers(t@),
            decreases self.slots.len() - i,
        {
            if self.slots[i].is_covering(t) {
                return true;
            }
            i += 1;
        }
        false
    }

    /// The slot at position `index`, counted from 0 at the earliest.
    pub fn get_slot(&self, index: usize) -> (r: Option<Slot>)
        ensures
            r == if index < self@.len() {
                Some(self@[index as int])
            } else {
                None
            },
    {
        if index < self.slots.len() {
            Some(self.slots[index])
        } else {
            None
        }
    }

    /// Takes the instants of `slot` out of the timeline: every stored slot
    /// that shares an instant with `slot` gives way to what is left of it.
    pub fn remove(&mut self, slot: Slot)
        ensures
            final(self)@ == slots_minus(old(self)@, slot),
            old(self).wf() ==> final(self).wf(),
            forall|t: int| #[trigger] final(self).covers(t) <==> old(self).covers(t) && !slot.covers(t),
            old(self).is_hour_aligned() && slot.is_hour_aligned() ==> final(self).is_hour_aligned(),
    {
        let mut out: Vec<Slot> = Vec::new();
        let mut i: usize = 0;
        proof {
            assert(self@.take(0) =~= Seq::<Slot>::empty());
        }
        while i < self.slots.len()
            invariant
                i <= self.slots.len(),
                *self == *old(self),
                out@ == slots_minus(self@.take(i as int), slot),
            decreases self.slots.len() - i,
        {
            let mut pieces = self.slots[i].sub(slot);
            proof {
                let now = self@.take(i + 1);
                assert(now.drop_last() =~= self@.take(i as int));
                assert(now.last() == self@[i as int]);
            }
            out.append(&mut pieces);
            i += 1;
        }
        proof {
            assert(self@.take(i as int) =~= self@);
            lemma_slots_minus(self@, slot);
        }
        self.slots = out;
    }

    /// Adds the instants of `slot` to the timeline: `slot` is merged with
    /// every stored slot that it overlaps or touches, and the result is
    /// stored in their place. An empty `slot` changes nothing.
    pub fn insert(&mut self, slot: Slot)
        requires
            old(self).wf(),
        ensures
            final(self).wf(),
            forall|t: int| #[trigger] final(self).covers(t) <==> old(self).covers(t) || slot.covers(t),
            old(self).is_hour_aligned() && slot.is_hour_aligned() ==> final(self).is_hour_aligned(),
    {
        if slot.start.timestamp() >= slot.end.timestamp() {
            return ;
        }
        let mut out: Vec<Slot> = Vec::new();
        let mut cur = slot;
        let mut placed = false;
        let mut i: usize = 0;
        proof {
            assert(self@.take(0) =~= Seq::<Slot>::empty());
        }
        while i < self.slots.len()
            invariant
                i <= self.slots.len(),
                *self == *old(self),
                insert_inv(self@, i as int, slot, out@, cur, placed),
            decreases self.slots.len() - i,
        {
            let x = self.slots[i];
            if placed || x.end.timestamp() < cur.start.timestamp() {
                proof {
                    lemma_insert_keep(self@, i as int, slot, out@, cur, placed);
                }
                out.push(x);
            } else if cur.end.timestamp() < x.start.timestamp() {
                proof {
                    lemma_insert_place(self@, i as int, slot, out@, cur);
                }
                out.push(cur);
                out.push(x);
                placed = true;
            } else {
                let merged_slot = Slot {
                    start: if cur.start.timestamp() <= x.start.timestamp() {
                        cur.start
                    } else {
                        x.start
                    },
                    end: if cur.end.timestamp() >= x.end.timestamp() {
                        cur.end
                    } else {
                        x.end
                    },
                };
                proof {
                    lemma_insert_merge(self@, i as int, slot, out@, cur);
                    assert(cur.merged(x) == Some(merged_slot));
                }
                cur = merged_slot;
            }
            i += 1;
        }
        proof {
            lemma_insert_finish(self@, slot, out@, cur, placed);
        }
        if !placed {
            out.push(cur);
        }
        self.slots = out;
    }

    /// Takes the instants of every slot of `slots` out of the timeline.
    pub fn remove_slots(&mut self, slots: Vec<Slot>)
        ensures
            final(self)@ == slots_minus_all(old(self)@, slots@),
            old(self).wf() ==> final(self).wf(),
            forall|t: int| #[trigger] final(self).covers(t) <==> old(self).covers(t) && !slots_cover(slots@, t),
            old(self).is_hour_aligned() && slots_aligned(slots@) ==> final(self).is_hour_aligned(),
    {
        let mut i: usize = 0;
        while i < slots.len()
            invariant
                i <= slots.len(),
                old(self).wf() ==> self.wf(),
                self@ == slots_minus_all(old(self)@, slots@.take(i as int)),
                forall|t: int| #[trigger]
                    self.covers(t) <==> old(self).covers(t) && !slots_cover(slots@.take(i as int), t),
                old(self).is_hour_aligned() && slots_aligned(slots@) ==> self.is_hour_aligned(),
            decreases slots.len() - i,
        {
            proof {
                lemma_cover_take(slots@, i as int);
                if slots_aligned(slots@) {
                    assert(slots@[i as int].is_hour_aligned());
                }
            }
            let ghost mid = *self;
            self.remove(slots[i]);
            proof {
                let now = slots@.take(i + 1);
                assert(now.drop_last() =~= slots@.take(i as int));
                assert(now.last() == slots@[i as int]);
                assert forall|t: int| #[trigger]
                    self.covers(t) <==> old(self).covers(t) && !slots_cover(
                        slots@.take(i + 1),
                        t,
                    ) by {
                    assert(mid.covers(t) <==> old(self).covers(t) && !slots_cover(
                        slots@.take(i as int),
                        t,
                    ));
                }
            }
            i += 1;
        }
        assert(slots@.take(i as int) =~= slots@);
    }

    /// The timeline of the instants that this one or `other` covers.
    pub fn union(&self, other: &Timeline) -> (r: Timeline)
        requires
            self.wf(),
        ensures
            r.wf(),
            forall|t: int| #[trigger] r.covers(t) <==> self.covers(t) || other.covers(t),
            self.is_hour_aligned() && other.is_hour_aligned() ==> r.is_hour_aligned(),
    {
        let mut result = self.clone();
        let mut i: usize = 0;
        while i < other.slots.len()
            invariant
                i <= other.slots.len(),
                result.wf(),
                forall|t: int| #[trigger]
                    result.covers(t) <==> self.covers(t) || slots_cover(other@.take(i as int), t),
                self.is_hour_aligned() && other.is_hour_aligned() ==> result.is_hour_aligned(),
            decreases other.slots.len() - i,
        {
            proof {
                lemma_cover_take(other@, i as int);
                if other.is_hour_aligned() {
                    assert(other@[i as int].is_hour_aligned());
                }
            }
            let ghost mid = result;
            result.insert(other.slots[i]);
            proof {
                assert forall|t: int| #[trigger]
                    result.covers(t) <==> self.covers(t) || slots_cover(other@.take(i + 1), t) by {
                    assert(mid.covers(t) <==> self.covers(t) || slots_cover(
                        other@.take(i as int),
                        t,
                    ));
                }
            }
            i += 1;
        }
        assert(other@.take(i as int) =~= other@);
        result
    }

    /// The timeline of the instants that this one covers and `other` does not.
    pub fn difference(&self, other: &Timeline) -> (r: Timeline)
        requires
            self.wf(),
        ensures
            r.wf(),
            forall|t: int| #[trigger] r.covers(t) <==> self.covers(t) && !other.covers(t),
            self.is_hour_aligned() && other.is_hour_aligned() ==> r.is_hour_aligned(),
    {
        let mut result = self.clone();
        result.remove_slots(other.slots.clone());
        result
    }

    /// The timeline of the instants that both this one and `other` cover.
    pub fn intersect(&self, other: &Timeline) -> (r: Timeline)
        requires
            self.wf(),
        ensures
            r.wf(),
            forall|t: int| #[trigger] r.covers(t) <==> self.covers(t) && other.covers(t),
            self.is_hour_aligned() && other.is_hour_aligned() ==> r.is_hour_aligned(),
    {
        let outside = self.difference(other);
        self.difference(&outside)
    }

    /// The lengths of the slots, each in whole hours, added up.
    pub fn total_hours(&self) -> (r: usize)
        requires
            self.wf(),
        ensures
            r == total_hours(self@),
    {
        let mut sum: usize = 0;
        let mut i: usize = 0;
        while i < self.slots.len()
            invariant
                i <= self.slots.len(),
                self.wf(),
                sum == total_hours(self@.take(i as int)),
                i > 0 ==> 3_600 * sum <= self@[i - 1].end@ - self@[0].start@,
                i == 0 ==> sum == 0,
            decreases self.slots.len() - i,
        {
            let x = self.slots[i];
            let first: i64 = self.slots[0].start.timestamp();
            let last: i64 = x.end.timestamp();
            let hours = x.duration_as_hours();
            proof {
                let before = self@.take(i as int);
                let now = self@.take(i + 1);
                assert(now.drop_last() =~= before);
                assert(now.last() == x);
                assert(x.wf());
                assert(slots_wf(now)) by {
                    assert forall|a: int, b: int| 0 <= a < b < now.len() implies (
                    #[trigger] now[a]).end@ < (#[trigger] now[b]).start@ by {
                        assert(self@[a].end@ < self@[b].start@);
                    }
                    assert forall|a: int| 0 <= a < now.len() implies (#[trigger] now[a]).wf() by {
                        assert(self@[a].wf());
                    }
                }
                lemma_total_within_span(now);
                assert(now[0] == self@[0]);
            }
            sum = sum + hours;
            i += 1;
        }
        assert(self@.take(i as int) =~= self@);
        sum
    }

    /// Walks every slot, earliest first, in steps of `duration`: the pieces
    /// of the first slot, then those of the second, and so on. The last
    /// piece of a slot is shorter where `duration` does not divide its
    /// length.
    pub fn iter_by(&self, duration: Duration) -> (r: Vec<Slot>)
        requires
            duration@ > 0,
        ensures
            r@ == walk(self@, duration@),
    {
        walk_slots(&self.slots, duration)
    }
}

} // verus!
