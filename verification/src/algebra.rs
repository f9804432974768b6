//! What holds of slots and timelines as sets of instants.
//!
//! The operations of [`crate::timeline::Timeline`] are specified by the
//! instants that their result covers. This module shows that such a
//! contract leaves no freedom: a well-formed list of slots is determined by
//! what it covers, and so is its total length.

use crate::slot::Slot;
use crate::timeline::{cover_count, slots_aligned, slots_cover, slots_wf, total_hours, total_seconds};
use vstd::prelude::*;

verus! {

/// The instants of `slot` that are earlier than `x`, counted.
pub open spec fn slot_seconds_before(slot: Slot, x: int) -> int {
    if !slot.wf() || x <= slot.start@ {
        0
    } else if x >= slot.end@ {
        slot.end@ - slot.start@
    } else {
        x - slot.start@
    }
}

/// The instants earlier than `x` in the slots of `s`, counted slot by slot.
pub open spec fn seconds_before(s: Seq<Slot>, x: int) -> int
    decreases s.len(),
{
    if s.len() == 0 {
        0
    } else {
        seconds_before(s.drop_last(), x) + slot_seconds_before(s.last(), x)
    }
}

/// `a` covers what `b` or `c` covers, and no instant lies in both.
pub open spec fn is_partition(a: Seq<Slot>, b: Seq<Slot>, c: Seq<Slot>) -> bool {
    forall|t: int|
        #![trigger slots_cover(a, t)]
        (slots_cover(a, t) <==> slots_cover(b, t) || slots_cover(c, t)) && !(slots_cover(b, t)
            && slots_cover(c, t))
}

/// `a` and `b` cover the same instants.
pub open spec fn same_cover(a: Seq<Slot>, b: Seq<Slot>) -> bool {
    forall|t: int| #![trigger slots_cover(a, t)] slots_cover(a, t) <==> slots_cover(b, t)
}

/// A well-formed list covers no instant before its first slot starts, and
/// every slot after the first starts later than the first one ends.
proof fn lemma_first_is_earliest(s: Seq<Slot>, t: int)
    requires
        slots_wf(s),
        slots_cover(s, t),
    ensures
        s.len() > 0,
        s[0].start@ <= t,
        !s[0].covers(t) ==> s[0].end@ < t && slots_cover(s.drop_first(), t),
{
    let i = choose|i: int| 0 <= i < s.len() && (#[trigger] s[i]).covers(t);
    if i > 0 {
        assert(s[0].end@ < s[i].start@);
        assert(s[0].wf());
        assert(s.drop_first()[i - 1] == s[i]);
        assert(s.drop_first()[i - 1].covers(t));
    }
}

/// What the rest of a well-formed list covers: what the list covers from
/// the end of its first slot on.
proof fn lemma_drop_first_cover(s: Seq<Slot>)
    requires
        slots_wf(s),
        s.len() > 0,
    ensures
        slots_wf(s.drop_first()),
        forall|t: int| #[trigger]
            slots_cover(s.drop_first(), t) <==> slots_cover(s, t) && t >= s[0].end@,
{
    let r = s.drop_first();
    assert forall|i: int, j: int| 0 <= i < j < r.len() implies (#[trigger] r[i]).end@ < (
    #[trigger] r[j]).start@ by {
        assert(s[i + 1].end@ < s[j + 1].start@);
    }
    assert forall|i: int| 0 <= i < r.len() implies (#[trigger] r[i]).wf() by {
        assert(s[i + 1].wf());
    }
    assert forall|t: int| #[trigger]
        slots_cover(r, t) <==> slots_cover(s, t) && t >= s[0].end@ by {
        if slots_cover(r, t) {
            let i = choose|i: int| 0 <= i < r.len() && (#[trigger] r[i]).covers(t);
            assert(s[i + 1].covers(t));
            assert(s[0].end@ < s[i + 1].start@);
        }
        if slots_cover(s, t) && t >= s[0].end@ {
            lemma_first_is_earliest(s, t);
        }
    }
}

/// A well-formed list of slots is determined by the instants it covers.
#[verifier::spinoff_prover]
pub proof fn lemma_slots_unique(a: Seq<Slot>, b: Seq<Slot>)
    requires
        slots_wf(a),
        slots_wf(b),
        same_cover(a, b),
    ensures
        a == b,
    decreases a.len(),
{
    if a.len() == 0 {
        if b.len() > 0 {
            assert(b[0].wf());
            assert(b[0].covers(b[0].start@));
            assert(slots_cover(b, b[0].start@));
            assert(slots_cover(a, b[0].start@));
        }
        assert(a =~= b);
    } else {
        assert(a[0].wf());
        assert(a[0].covers(a[0].start@));
        assert(slots_cover(a, a[0].start@));
        assert(slots_cover(b, a[0].start@));
        lemma_first_is_earliest(b, a[0].start@);
        assert(b[0].wf());
        assert(b[0].covers(b[0].start@));
        assert(slots_cover(b, b[0].start@));
        assert(slots_cover(a, b[0].start@));
        lemma_first_is_earliest(a, b[0].start@);
        assert(a[0].start@ == b[0].start@);
        if a[0].end@ < b[0].end@ {
            let t = a[0].end@;
            assert(b[0].covers(t));
            assert(slots_cover(b, t));
            assert(slots_cover(a, t));
            lemma_first_is_earliest(a, t);
            assert(false);
        }
        if b[0].end@ < a[0].end@ {
            let t = b[0].end@;
            assert(a[0].covers(t));
            assert(slots_cover(a, t));
            assert(slots_cover(b, t));
            lemma_first_is_earliest(b, t);
            assert(false);
        }
        Slot::lemma_same_ends(a[0], b[0]);
        lemma_drop_first_cover(a);
        lemma_drop_first_cover(b);
        let ra = a.drop_first();
        let rb = b.drop_first();
        assert forall|t: int| #![trigger slots_cover(ra, t)] slots_cover(ra, t) <==> slots_cover(
            rb,
            t,
        ) by {
            assert(slots_cover(a, t) <==> slots_cover(b, t));
        }
        lemma_slots_unique(ra, rb);
        assert(a =~= seq![a[0]] + ra);
        assert(b =~= seq![b[0]] + rb);
    }
}

/// One instant more adds as many seconds as there are slots that hold it.
pub proof fn lemma_seconds_before_step(s: Seq<Slot>, x: int)
    ensures
        seconds_before(s, x + 1) == seconds_before(s, x) + cover_count(s, x),
    decreases s.len(),
{
    if s.len() > 0 {
        lemma_seconds_before_step(s.drop_last(), x);
    }
}

/// In a well-formed list at most one slot holds a given instant.
pub proof fn lemma_cover_count(s: Seq<Slot>, t: int)
    requires
        slots_wf(s),
    ensures
        cover_count(s, t) == if slots_cover(s, t) {
            1int
        } else {
            0int
        },
    decreases s.len(),
{
    if s.len() > 0 {
        let init = s.drop_last();
        assert forall|i: int, j: int| 0 <= i < j < init.len() implies (#[trigger] init[i]).end@ < (
        #[trigger] init[j]).start@ by {
            assert(s[i].end@ < s[j].start@);
        }
        assert forall|i: int| 0 <= i < init.len() implies (#[trigger] init[i]).wf() by {
            assert(s[i].wf());
        }
        lemma_cover_count(init, t);
        if slots_cover(init, t) {
            let i = choose|i: int| 0 <= i < init.len() && (#[trigger] init[i]).covers(t);
            assert(s[i].covers(t));
            assert(s[i].end@ < s[s.len() - 1].start@);
            assert(!s.last().covers(t));
        } else if s.last().covers(t) {
            assert(s[s.len() - 1].covers(t));
        } else if slots_cover(s, t) {
            let i = choose|i: int| 0 <= i < s.len() && (#[trigger] s[i]).covers(t);
            assert(init[i].covers(t));
        }
    }
}

/// No slot of `s` starts before `lo` or ends after `hi`.
pub open spec fn slots_within(s: Seq<Slot>, lo: int, hi: int) -> bool {
    forall|i: int| 0 <= i < s.len() ==> lo <= (#[trigger] s[i]).start@ && s[i].end@ <= hi
}

/// Counted up to a point that no slot reaches, the seconds are none;
/// counted up to a point that every slot lies before, they are all.
pub proof fn lemma_seconds_before_bounds(s: Seq<Slot>, lo: int, hi: int)
    requires
        slots_within(s, lo, hi),
    ensures
        seconds_before(s, lo) == 0,
        seconds_before(s, hi) == total_seconds(s),
    decreases s.len(),
{
    if s.len() > 0 {
        let init = s.drop_last();
        assert forall|i: int| 0 <= i < init.len() implies lo <= (#[trigger] init[i]).start@
            && init[i].end@ <= hi by {
            assert(lo <= s[i].start@ && s[i].end@ <= hi);
        }
        lemma_seconds_before_bounds(init, lo, hi);
        assert(lo <= s[s.len() - 1].start@ && s[s.len() - 1].end@ <= hi);
    }
}

/// The start of the first slot, or 0 for an empty list.
pub open spec fn first_start(s: Seq<Slot>) -> int {
    if s.len() == 0 {
        0
    } else {
        s[0].start@
    }
}

/// The end of the last slot, or 0 for an empty list.
pub open spec fn last_end(s: Seq<Slot>) -> int {
    if s.len() == 0 {
        0
    } else {
        s.last().end@
    }
}

/// The slots of a well-formed list lie between the start of its first and
/// the end of its last.
pub proof fn lemma_wf_within(s: Seq<Slot>, lo: int, hi: int)
    requires
        slots_wf(s),
        lo <= first_start(s) || s.len() == 0,
        last_end(s) <= hi || s.len() == 0,
    ensures
        slots_within(s, lo, hi),
{
    assert forall|i: int| 0 <= i < s.len() implies lo <= (#[trigger] s[i]).start@ && s[i].end@
        <= hi by {
        assert(s[i].wf());
        if i > 0 {
            assert(s[0].end@ < s[i].start@);
            assert(s[0].wf());
        }
        if i < s.len() - 1 {
            assert(s[i].end@ < s[s.len() - 1].start@);
            assert(s[s.len() - 1].wf());
        }
    }
}

/// Where `a` is split into `b` and `c`, the seconds of `a` between two
/// points are those of `b` and those of `c` together.
#[verifier::spinoff_prover]
proof fn lemma_partition_between(a: Seq<Slot>, b: Seq<Slot>, c: Seq<Slot>, lo: int, x: int)
    requires
        slots_wf(a),
        slots_wf(b),
        slots_wf(c),
        is_partition(a, b, c),
        lo <= x,
    ensures
        seconds_before(a, x) - seconds_before(a, lo) == (seconds_before(b, x) - seconds_before(
            b,
            lo,
        )) + (seconds_before(c, x) - seconds_before(c, lo)),
    decreases x - lo,
{
    if lo < x {
        let t = x - 1;
        lemma_partition_between(a, b, c, lo, t);
        lemma_seconds_before_step(a, t);
        lemma_seconds_before_step(b, t);
        lemma_seconds_before_step(c, t);
        lemma_cover_count(a, t);
        lemma_cover_count(b, t);
        lemma_cover_count(c, t);
        assert((slots_cover(a, t) <==> slots_cover(b, t) || slots_cover(c, t)) && !(slots_cover(
            b,
            t,
        ) && slots_cover(c, t)));
    }
}

/// Where a well-formed list is split into two, its length is the sum of
/// theirs.
pub proof fn lemma_partition_total(a: Seq<Slot>, b: Seq<Slot>, c: Seq<Slot>)
    requires
        slots_wf(a),
        slots_wf(b),
        slots_wf(c),
        is_partition(a, b, c),
    ensures
        total_seconds(a) == total_seconds(b) + total_seconds(c),
{
    let lo = vstd::math::min(
        first_start(a),
        vstd::math::min(first_start(b), first_start(c)),
    );
    let hi = vstd::math::max(
        vstd::math::max(last_end(a), vstd::math::max(last_end(b), last_end(c))),
        lo,
    );
    lemma_wf_within(a, lo, hi);
    lemma_wf_within(b, lo, hi);
    lemma_wf_within(c, lo, hi);
    lemma_seconds_before_bounds(a, lo, hi);
    lemma_seconds_before_bounds(b, lo, hi);
    lemma_seconds_before_bounds(c, lo, hi);
    lemma_partition_between(a, b, c, lo, hi);
}

/// A well-formed list is no longer than the span from the start of its
/// first slot to the end of its last.
pub proof fn lemma_total_within_span(s: Seq<Slot>)
    requires
        slots_wf(s),
    ensures
        0 <= total_seconds(s) <= last_end(s) - first_start(s),
        0 <= total_hours(s),
        3_600 * total_hours(s) <= total_seconds(s),
    decreases s.len(),
{
    if s.len() > 0 {
        let init = s.drop_last();
        assert forall|i: int, j: int| 0 <= i < j < init.len() implies (#[trigger] init[i]).end@ < (
        #[trigger] init[j]).start@ by {
            assert(s[i].end@ < s[j].start@);
        }
        assert forall|i: int| 0 <= i < init.len() implies (#[trigger] init[i]).wf() by {
            assert(s[i].wf());
        }
        lemma_total_within_span(init);
        assert(s[s.len() - 1].wf());
        if init.len() > 0 {
            assert(init.last() == s[s.len() - 2]);
            assert(s[s.len() - 2].end@ < s[s.len() - 1].start@);
            assert(init[0] == s[0]);
        }
    }
}

/// Where every slot starts and ends on a full hour, the hours added up
/// are the seconds added up.
pub proof fn lemma_aligned_total(s: Seq<Slot>)
    requires
        slots_aligned(s),
    ensures
        total_seconds(s) == 3_600 * total_hours(s),
    decreases s.len(),
{
    if s.len() > 0 {
        let init = s.drop_last();
        assert forall|i: int| 0 <= i < init.len() implies (#[trigger] init[i]).is_hour_aligned() by {
            assert(s[i].is_hour_aligned());
        }
        lemma_aligned_total(init);
        assert(s[s.len() - 1].is_hour_aligned());
    }
}

/// Cutting `b` out of `a` and keeping what the two share splits `a`: every
/// instant of `a` lies in exactly one of the pieces, and no other instant
/// lies in any.
pub proof fn lemma_minus_and_intersection_split(a: Slot, b: Slot, t: int)
    requires
        a.wf(),
    ensures
        cover_count(a.minus(b), t) + cover_count(intersection_list(a, b), t) == if a.covers(t) {
            1int
        } else {
            0int
        },
{
    Slot::lemma_minus(a, b);
    let m = a.minus(b);
    let c = intersection_list(a, b);
    assert(slots_wf(m));
    lemma_cover_count(m, t);
    assert(slots_wf(c));
    lemma_cover_count(c, t);
    if slots_cover(c, t) {
        let i = choose|i: int| 0 <= i < c.len() && (#[trigger] c[i]).covers(t);
        assert(c[0].covers(t));
    }
    if a.covers(t) && b.covers(t) {
        assert(c[0].covers(t));
    }
}

/// What two slots share, as a list of one slot or none.
pub open spec fn intersection_list(a: Slot, b: Slot) -> Seq<Slot> {
    match a.intersection(b) {
        Some(c) => seq![c],
        None => Seq::<Slot>::empty(),
    }
}

/// The well-formed list that covers what is left of `a` without `b`
/// together with what `a` and `b` share is `a` itself.
pub proof fn lemma_minus_union_intersection(a: Slot, b: Slot, u: Seq<Slot>)
    requires
        a.wf(),
        slots_wf(u),
        forall|t: int| #[trigger]
            slots_cover(u, t) <==> slots_cover(a.minus(b), t) || slots_cover(
                intersection_list(a, b),
                t,
            ),
    ensures
        u == seq![a],
{
    Slot::lemma_minus(a, b);
    let one = seq![a];
    let c = intersection_list(a, b);
    assert(slots_wf(one));
    assert forall|t: int| #![trigger slots_cover(u, t)] slots_cover(u, t) <==> slots_cover(
        one,
        t,
    ) by {
        if slots_cover(c, t) {
            let i = choose|i: int| 0 <= i < c.len() && (#[trigger] c[i]).covers(t);
            assert(c[0].covers(t));
        }
        if a.covers(t) && b.covers(t) {
            assert(c[0].covers(t));
        }
        if a.covers(t) {
            assert(one[0].covers(t));
        }
        if slots_cover(one, t) {
            let i = choose|i: int| 0 <= i < one.len() && (#[trigger] one[i]).covers(t);
            assert(one[0].covers(t));
        }
    }
    lemma_slots_unique(u, one);
}

/// Taking a slot out of a timeline shortens it by what the two share: with
/// `removed` the timeline without `slot` and `common` the part of it inside
/// `slot`, the hours of `removed` are those of `timeline` less those of
/// `common`.
pub proof fn lemma_remove_total_hours(
    timeline: Seq<Slot>,
    slot: Slot,
    removed: Seq<Slot>,
    common: Seq<Slot>,
)
    requires
        slots_wf(timeline),
        slots_wf(removed),
        slots_wf(common),
        slots_aligned(timeline),
        slots_aligned(removed),
        slots_aligned(common),
        forall|t: int| #[trigger]
            slots_cover(removed, t) <==> slots_cover(timeline, t) && !slot.covers(t),
        forall|t: int| #[trigger]
            slots_cover(common, t) <==> slots_cover(timeline, t) && slot.covers(t),
    ensures
        total_hours(removed) == total_hours(timeline) - total_hours(common),
        total_seconds(removed) == total_seconds(timeline) - total_seconds(common),
{
    assert forall|t: int|
        #![trigger slots_cover(timeline, t)]
        (slots_cover(timeline, t) <==> slots_cover(removed, t) || slots_cover(common, t)) && !(
        slots_cover(removed, t) && slots_cover(common, t)) by {
        assert(slots_cover(removed, t) <==> slots_cover(timeline, t) && !slot.covers(t));
        assert(slots_cover(common, t) <==> slots_cover(timeline, t) && slot.covers(t));
    }
    lemma_partition_total(timeline, removed, common);
    lemma_aligned_total(timeline);
    lemma_aligned_total(removed);
    lemma_aligned_total(common);
}

} // verus!
