//! Cutting a timeline into the windows of a repetition.
//!
//! A repetition lays windows of equal length over time: days, weeks, or
//! strides of so many hours or days that start with the timeline. A window
//! is *live* when the repetition selects it and the timeline reaches into
//! it. A goal that repeats is placed once, or so many times, within every
//! live window.

use crate::algebra::{first_start, lemma_wf_within};
use crate::filter::TimeFilter;
use crate::repetition::Repetition;
use crate::slot::Slot;
use crate::time::{weekday_of_day, weekday_on, DateTime, Day, MAX_DAY, MAX_TIMESTAMP};
use crate::timeline::{slots_cover, slots_wf, Timeline};
use vstd::prelude::*;

verus! {

/// The length in seconds of the windows of a repetition.
pub open spec fn stride_of(repetition: Repetition) -> int {
    match repetition {
        Repetition::HOURLY => 3_600,
        Repetition::WEEKLY(_) => 604_800,
        Repetition::EveryXdays(n) => n * 86_400,
        Repetition::EveryXhours(n) => n * 3_600,
        _ => 86_400,
    }
}

/// The instant at which window 0 of a repetition starts, for a timeline
/// that starts at `start`: the epoch for windows that are days, the Monday
/// before the epoch for weeks, and `start` for strides.
pub open spec fn anchor_of(repetition: Repetition, start: int) -> int {
    match repetition {
        Repetition::HOURLY => start,
        Repetition::EveryXdays(_) => start,
        Repetition::EveryXhours(_) => start,
        Repetition::WEEKLY(_) => -259_200,
        _ => 0,
    }
}

/// How many times a goal is placed within one window.
pub open spec fn copies_of(repetition: Repetition) -> int {
    match repetition {
        Repetition::DAILY(n) => n as int,
        Repetition::WEEKLY(n) => n as int,
        _ => 1,
    }
}

/// Whether the repetition has a use for window `k`. Where the windows are
/// days, `k` is the number of the day.
pub open spec fn selects(repetition: Repetition, k: int) -> bool {
    match repetition {
        Repetition::WEEKDAYS => !weekday_of_day(k).is_weekend(),
        Repetition::WEEKENDS => weekday_of_day(k).is_weekend(),
        Repetition::MONDAYS => weekday_of_day(k) == Day::Mon,
        Repetition::TUESDAYS => weekday_of_day(k) == Day::Tue,
        Repetition::WEDNESDAYS => weekday_of_day(k) == Day::Wed,
        Repetition::THURSDAYS => weekday_of_day(k) == Day::Thu,
        Repetition::FRIDAYS => weekday_of_day(k) == Day::Fri,
        Repetition::SATURDAYS => weekday_of_day(k) == Day::Sat,
        Repetition::SUNDAYS => weekday_of_day(k) == Day::Sun,
        _ => true,
    }
}

/// The window that holds the instant `t`, for a timeline that starts at
/// `start`.
pub open spec fn window_of(repetition: Repetition, start: int, t: int) -> int {
    (t - anchor_of(repetition, start)) / stride_of(repetition)
}

/// The repetition selects window `k` and the timeline reaches into it.
pub open spec fn is_live(timeline: Seq<Slot>, repetition: Repetition, k: int) -> bool {
    selects(repetition, k) && exists|t: int| #[trigger]
        slots_cover(timeline, t) && window_of(repetition, first_start(timeline), t) == k
}

/// `clip` is the part of `timeline` within window `k`.
pub open spec fn is_window_clip(
    clip: Seq<Slot>,
    timeline: Seq<Slot>,
    repetition: Repetition,
    k: int,
) -> bool {
    &&& slots_wf(clip)
    &&& forall|t: int| #[trigger]
        slots_cover(clip, t) <==> slots_cover(timeline, t) && window_of(
            repetition,
            first_start(timeline),
            t,
        ) == k
}

/// `windows` are the parts of `timeline` within its live windows, which
/// are the windows `ks`, in order.
pub open spec fn is_split(
    windows: Seq<Timeline>,
    ks: Seq<int>,
    timeline: Seq<Slot>,
    repetition: Repetition,
) -> bool {
    &&& windows.len() == ks.len()
    &&& forall|i: int, j: int| 0 <= i < j < ks.len() ==> ks[i] < ks[j]
    &&& forall|i: int| 0 <= i < ks.len() ==> is_live(timeline, repetition, #[trigger] ks[i])
    &&& forall|k: int| #[trigger] is_live(timeline, repetition, k) ==> ks.contains(k)
    &&& forall|i: int|
        0 <= i < windows.len() ==> is_window_clip(
            (#[trigger] windows[i])@,
            timeline,
            repetition,
            ks[i],
        )
}

/// With windows of length `stride` from `anchor` on, the instant `t` lies
/// in window `k` exactly when it lies between the start of window `k` and
/// that of the next.
pub proof fn lemma_window(t: int, anchor: int, stride: int, k: int)
    by (nonlinear_arith)
    requires
        stride > 0,
    ensures
        (t - anchor) / stride == k <==> anchor + k * stride <= t < anchor + (k + 1) * stride,
{
    let q = (t - anchor) / stride;
    assert(q * stride <= t - anchor < (q + 1) * stride) by {
        vstd::arithmetic::div_mod::lemma_fundamental_div_mod(t - anchor, stride);
        vstd::arithmetic::div_mod::lemma_mod_bound(t - anchor, stride);
    }
    if anchor + k * stride <= t < anchor + (k + 1) * stride {
        if q < k {
            assert((q + 1) * stride <= k * stride);
        }
        if q > k {
            assert((k + 1) * stride <= q * stride);
        }
    }
}

/// Whether the repetition has a use for window `k`.
fn is_selected(repetition: Repetition, k: i64) -> (r: bool)
    requires
        -MAX_DAY <= k <= MAX_DAY,
    ensures
        r == selects(repetition, k as int),
{
    match repetition {
        Repetition::WEEKDAYS => !weekday_on(k).is_weekend_day(),
        Repetition::WEEKENDS => weekday_on(k).is_weekend_day(),
        Repetition::MONDAYS => weekday_on(k) == Day::Mon,
        Repetition::TUESDAYS => weekday_on(k) == Day::Tue,
        Repetition::WEDNESDAYS => weekday_on(k) == Day::Wed,
        Repetition::THURSDAYS => weekday_on(k) == Day::Thu,
        Repetition::FRIDAYS => weekday_on(k) == Day::Fri,
        Repetition::SATURDAYS => weekday_on(k) == Day::Sat,
        Repetition::SUNDAYS => weekday_on(k) == Day::Sun,
        _ => true,
    }
}

/// How many times a goal is placed within one window.
pub fn copies(repetition: Repetition) -> (r: usize)
    ensures
        r == copies_of(repetition),
{
    match repetition {
        Repetition::DAILY(n) => n,
        Repetition::WEEKLY(n) => n,
        _ => 1,
    }
}

/// The length of the windows of a repetition, where it is positive and
/// no longer than the representable range of time; `None` where the
/// windows have no length or are longer than that.
fn stride_within(repetition: Repetition) -> (r: Option<i64>)
    ensures
        r matches Some(stride) ==> stride == stride_of(repetition) && 3_600 <= stride
            <= 207_360_000_000_000,
        r is None ==> stride_of(repetition) <= 0 || stride_of(repetition) > 2 * MAX_TIMESTAMP,
        r is None ==> repetition is EveryXdays || repetition is EveryXhours,
{
    let (count, unit): (usize, i64) = match repetition {
        Repetition::HOURLY => (1, 3_600),
        Repetition::WEEKLY(_) => (1, 604_800),
        Repetition::EveryXdays(n) => (n, 86_400),
        Repetition::EveryXhours(n) => (n, 3_600),
        _ => (1, 86_400),
    };
    if count == 0 || count > 2_400_000_000 {
        return None;
    }
    Some((count as i64) * unit)
}

/// The parts of `timeline` within the live windows of `repetition`,
/// earliest first. A window that the timeline does not reach into, or that
/// the repetition has no use for, gives no part.
pub fn split_by(timeline: &Timeline, repetition: Repetition) -> (r: Vec<Timeline>)
    requires
        timeline.wf(),
    ensures
        stride_of(repetition) > 0 ==> exists|ks: Seq<int>| is_split(r@, ks, timeline@, repetition),
        stride_of(repetition) <= 0 ==> r@.len() == 0,
        forall|i: int| 0 <= i < r@.len() ==> (#[trigger] r@[i]).wf(),
{
    let mut out: Vec<Timeline> = Vec::new();
    if timeline.slots.len() == 0 {
        proof {
            let none = Seq::<int>::empty();
            assert forall|k: int| !#[trigger] is_live(timeline@, repetition, k) by {}
            assert(is_split(out@, none, timeline@, repetition));
        }
        return out;
    }
    let first: DateTime = timeline.slots[0].start;
    let last: DateTime = timeline.slots[timeline.slots.len() - 1].end;
    let lo: i64 = first.timestamp();
    let hi: i64 = last.timestamp();
    proof {
        lemma_wf_within(timeline@, lo as int, hi as int);
        assert(timeline@[0].wf());
        assert(timeline@[timeline@.len() - 1].wf());
        if timeline@.len() > 1 {
            assert(timeline@[0].end@ < timeline@[timeline@.len() - 1].start@);
        }
        assert forall|t: int| #[trigger] slots_cover(timeline@, t) implies lo <= t < hi by {
            let i = choose|i: int| 0 <= i < timeline@.len() && (#[trigger] timeline@[i]).covers(t);
            assert(lo <= timeline@[i].start@ && timeline@[i].end@ <= hi);
        }
    }
    let ghost start = first_start(timeline@);
    let ghost anchor = anchor_of(repetition, start);
    let ghost width = stride_of(repetition);
    let stride: i64 = match stride_within(repetition) {
        Some(stride) => stride,
        None => {
            if let Repetition::EveryXdays(0) = repetition {
                return out;
            }
            if let Repetition::EveryXhours(0) = repetition {
                return out;
            }
            // One window of a stride holds the whole timeline.
            out.push(timeline.clone());
            proof {
                lemma_one_window(timeline@, repetition, lo as int, hi as int);
                assert(out@[0]@ == timeline@);
                let only = seq![0int];
                assert(only[0] == 0);
                assert forall|k: int| #[trigger]
                    is_live(timeline@, repetition, k) implies only.contains(k) by {
                    assert(k == 0);
                }
                assert(is_split(out@, only, timeline@, repetition));
            }
            return out;
        },
    };
    // The window that holds the first instant of the timeline.
    let (first_window, first_window_start): (i64, i64) = match repetition {
        Repetition::HOURLY => (0, lo),
        Repetition::EveryXdays(_) => (0, lo),
        Repetition::EveryXhours(_) => (0, lo),
        Repetition::WEEKLY(_) => {
            let k: i64 = (lo + 259_200 + 4_320_000_518_400) / 604_800 - 7_142_858;
            (k, k * 604_800 - 259_200)
        },
        _ => {
            let k: i64 = first.day_number();
            (k, k * 86_400)
        },
    };
    let by_day: bool = match repetition {
        Repetition::HOURLY => false,
        Repetition::EveryXdays(_) => false,
        Repetition::EveryXhours(_) => false,
        Repetition::WEEKLY(_) => false,
        _ => true,
    };
    proof {
        assert(0 * width == 0) by (nonlinear_arith);
        assert(first_window_start == anchor + first_window * width);
    }
    let mut k: i64 = first_window;
    let mut window_start: i64 = first_window_start;
    let ghost mut ks: Seq<int> = Seq::empty();
    let ghost mut true_start: int = first_window_start as int;
    while window_start < hi
        invariant
            timeline.wf(),
            timeline@.len() > 0,
            lo == first_start(timeline@),
            start == lo,
            anchor == anchor_of(repetition, start),
            width == stride_of(repetition),
            stride == width,
            3_600 <= stride <= 207_360_000_000_000,
            -MAX_TIMESTAMP <= lo < hi <= MAX_TIMESTAMP,
            forall|t: int| #[trigger] slots_cover(timeline@, t) ==> lo <= t < hi,
            true_start == anchor + k * width,
            window_start == vstd::math::min(true_start, hi as int),
            lo - stride < first_window_start <= lo,
            first_window_start <= true_start,
            first_window <= k,
            (k - first_window) * 3_600 <= true_start - first_window_start,
            -MAX_DAY <= first_window <= MAX_DAY,
            by_day ==> stride == 86_400 && anchor == 0,
            !by_day ==> forall|other: int| selects(repetition, other),
            out@.len() == ks.len(),
            forall|i: int, j: int| 0 <= i < j < ks.len() ==> ks[i] < ks[j],
            forall|i: int| 0 <= i < ks.len() ==> #[trigger] ks[i] < k,
            forall|i: int| 0 <= i < ks.len() ==> is_live(timeline@, repetition, #[trigger] ks[i]),
            forall|other: int|
                other < k && #[trigger] is_live(timeline@, repetition, other) ==> ks.contains(other),
            forall|i: int|
                0 <= i < out@.len() ==> is_window_clip(
                    (#[trigger] out@[i])@,
                    timeline@,
                    repetition,
                    ks[i],
                ),
            forall|i: int| 0 <= i < out@.len() ==> (#[trigger] out@[i]).wf(),
        decreases hi - window_start,
    {
        let window_end: i64 = window_start + stride;
        let from: i64 = if window_start < lo {
            lo
        } else {
            window_start
        };
        let to: i64 = if window_end > hi {
            hi
        } else {
            window_end
        };
        let window = Timeline::initialize(DateTime::at(from), DateTime::at(to));
        let clip = timeline.intersect(&window);
        let selected = if by_day {
            proof {
                assert(width == 86_400 && anchor == 0);
                assert(true_start == k * 86_400);
                assert(true_start < hi);
            }
            is_selected(repetition, k)
        } else {
            true
        };
        proof {
            assert((k + 1) * width == k * width + width) by (nonlinear_arith);
            assert forall|t: int| #[trigger]
                slots_cover(clip@, t) <==> slots_cover(timeline@, t) && window_of(
                    repetition,
                    start,
                    t,
                ) == k by {
                lemma_window(t, anchor, width, k as int);
                assert(slots_cover(window@, t) <==> from <= t < to);
            }
        }
        if selected && !clip.is_empty() {
            proof {
                assert(clip@[0].wf());
                assert(clip@[0].covers(clip@[0].start@));
                assert(slots_cover(clip@, clip@[0].start@));
                assert(is_live(timeline@, repetition, k as int));
                let grown = ks.push(k as int);
                assert forall|other: int|
                    other < k + 1 && #[trigger] is_live(
                        timeline@,
                        repetition,
                        other,
                    ) implies grown.contains(other) by {
                    if other == k {
                        assert(grown[ks.len() as int] == k);
                    } else {
                        assert(ks.contains(other));
                        let i = choose|i: int| 0 <= i < ks.len() && ks[i] == other;
                        assert(grown[i] == other);
                    }
                }
                ks = grown;
            }
            out.push(clip);
        } else {
            proof {
                assert forall|other: int|
                    other < k + 1 && #[trigger] is_live(
                        timeline@,
                        repetition,
                        other,
                    ) implies ks.contains(other) by {
                    if other == k {
                        let t = choose|t: int| #[trigger]
                            slots_cover(timeline@, t) && window_of(repetition, start, t) == k;
                        assert(slots_cover(clip@, t));
                        let i = choose|i: int| 0 <= i < clip@.len() && (#[trigger] clip@[i]).covers(t);
                        assert(false);
                    }
                }
            }
        }
        window_start = to;
        k += 1;
        proof {
            true_start = true_start + stride;
        }
    }
    proof {
        assert forall|other: int| #[trigger]
            is_live(timeline@, repetition, other) implies ks.contains(other) by {
            let t = choose|t: int| #[trigger]
                slots_cover(timeline@, t) && window_of(repetition, start, t) == other;
            lemma_window(t, anchor, width, other);
            if other >= k {
                assert(anchor + other * width >= anchor + k * width) by (nonlinear_arith)
                    requires
                        other >= k,
                        width > 0,
                ;
            }
        }
        assert(is_split(out@, ks, timeline@, repetition));
    }
    out
}

/// Where the windows are strides longer than all representable time, the
/// timeline lies in window 0, which is live.
proof fn lemma_one_window(timeline: Seq<Slot>, repetition: Repetition, lo: int, hi: int)
    requires
        slots_wf(timeline),
        timeline.len() > 0,
        lo == first_start(timeline),
        -MAX_TIMESTAMP <= lo < hi <= MAX_TIMESTAMP,
        forall|t: int| #[trigger] slots_cover(timeline, t) ==> lo <= t < hi,
        repetition is EveryXdays || repetition is EveryXhours,
        stride_of(repetition) > 2 * MAX_TIMESTAMP,
    ensures
        is_live(timeline, repetition, 0),
        forall|k: int| #[trigger] is_live(timeline, repetition, k) ==> k == 0,
        is_window_clip(timeline, timeline, repetition, 0),
{
    let width = stride_of(repetition);
    assert(0 * width == 0 && (0 + 1) * width == width) by (nonlinear_arith);
    assert forall|t: int| #[trigger] slots_cover(timeline, t) implies window_of(
        repetition,
        lo,
        t,
    ) == 0 by {
        lemma_window(t, lo, width, 0);
    }
    assert(timeline[0].wf());
    assert(timeline[0].covers(lo));
    assert(slots_cover(timeline, lo));
    assert forall|k: int| #[trigger] is_live(timeline, repetition, k) implies k == 0 by {
        let t = choose|t: int| #[trigger]
            slots_cover(timeline, t) && window_of(repetition, first_start(timeline), t) == k;
    }
}

/// Gives out the parts of a span of time in which a goal is to be placed:
/// the span is narrowed by the filters of the goal and cut into the windows
/// of its repetition. A goal that does not repeat has one part, which is
/// all that the filters leave.
#[derive(Debug, PartialEq, Eq)]
pub struct TimeSlotsIterator {
    timeline: Timeline,
    repetition: Option<Repetition>,
    filters: Option<TimeFilter>,
    windows: Vec<Timeline>,
    position: usize,
    given: usize,
}

impl TimeSlotsIterator {
    #[verifier::type_invariant]
    spec fn inv(self) -> bool {
        &&& self.position <= self.windows@.len()
        &&& forall|i: int| 0 <= i < self.windows@.len() ==> (#[trigger] self.windows@[i]).wf()
    }

    /// What the filters leave of the span.
    pub closed spec fn timeline(self) -> Timeline {
        self.timeline
    }

    /// The repetition that cuts the span.
    pub closed spec fn repetition(self) -> Option<Repetition> {
        self.repetition
    }

    /// The filters that narrow the span.
    pub closed spec fn filters(self) -> Option<TimeFilter> {
        self.filters
    }

    /// The parts that are given out, each as often as the repetition says.
    pub closed spec fn windows(self) -> Seq<Timeline> {
        self.windows@
    }

    /// How many parts are done with.
    pub closed spec fn position(self) -> int {
        self.position as int
    }

    /// How many times the part at the position has been given out.
    pub closed spec fn given(self) -> int {
        self.given as int
    }

    /// How many times each part is given out.
    pub open spec fn times(self) -> int {
        match self.repetition() {
            Some(repetition) => copies_of(repetition),
            None => 1,
        }
    }

    /// An iterator over the span from `start` to `end`, narrowed by
    /// `filters` and cut by `repetition`.
    pub fn new(
        start: DateTime,
        end: DateTime,
        repetition: Option<Repetition>,
        filters: Option<TimeFilter>,
    ) -> (r: TimeSlotsIterator)
        ensures
            r.repetition() == repetition,
            r.filters() == filters,
            r.timeline().wf(),
            forall|t: int| #[trigger]
                r.timeline().covers(t) <==> start@ <= t < end@ && (filters matches Some(f)
                    ==> f.allows(t)),
            r.position() == 0,
            r.given() == 0,
            forall|i: int| 0 <= i < r.windows().len() ==> (#[trigger] r.windows()[i]).wf(),
            repetition is None ==> r.windows().len() == 1 && r.windows()[0]@ == r.timeline()@,
            repetition matches Some(rep) ==> (stride_of(rep) > 0 ==> exists|ks: Seq<int>|
                is_split(r.windows(), ks, r.timeline()@, rep)) && (stride_of(rep) <= 0
                ==> r.windows().len() == 0),
    {
        let mut timeline = Timeline::initialize(start, end);
        timeline.apply_filter(&filters);
        let windows = match repetition {
            Some(rep) => split_by(&timeline, rep),
            None => {
                let mut whole: Vec<Timeline> = Vec::new();
                whole.push(timeline.clone());
                whole
            },
        };
        let ghost parts = windows@;
        let ghost narrowed = timeline@;
        let r = TimeSlotsIterator { timeline, repetition, filters, windows, position: 0, given: 0 };
        proof {
            assert(r.windows() == parts);
            assert(r.timeline()@ == narrowed);
            if let Some(rep) = repetition {
                if stride_of(rep) > 0 {
                    let ks = choose|ks: Seq<int>| is_split(parts, ks, narrowed, rep);
                    assert(is_split(r.windows(), ks, r.timeline()@, rep));
                }
            }
        }
        r
    }

    /// What the filters leave of the span.
    pub fn filtered_timeline(&self) -> (r: &Timeline)
        ensures
            *r == self.timeline(),
    {
        &self.timeline
    }

    /// The next part, or `None` when every part has been given out as often
    /// as the repetition says.
    ///
    /// The part at the position is given out once more where it has not
    /// been given out as often as the repetition says. Else the position
    /// moves on by one part, which is given out for the first time. There
    /// is no next part where the position is behind the last part, or
    /// moves there, or where the repetition gives parts out no times at
    /// all.
    pub fn next(&mut self) -> (r: Option<Timeline>)
        ensures
            final(self).windows() == old(self).windows(),
            final(self).timeline() == old(self).timeline(),
            final(self).repetition() == old(self).repetition(),
            final(self).filters() == old(self).filters(),
            r matches Some(part) ==> part@ == old(self).windows()[final(self).position()]@
                && part.wf(),
            old(self).position() >= old(self).windows().len() ==> {
                &&& r is None
                &&& final(self).position() == old(self).position()
                &&& final(self).given() == old(self).given()
            },
            old(self).position() < old(self).windows().len() ==> {
                if old(self).times() <= 0 {
                    &&& r is None
                    &&& final(self).position() == old(self).windows().len()
                    &&& final(self).given() == old(self).given()
                } else if old(self).given() < old(self).times() {
                    &&& r is Some
                    &&& final(self).position() == old(self).position()
                    &&& final(self).given() == old(self).given() + 1
                } else if old(self).position() + 1 < old(self).windows().len() {
                    &&& r is Some
                    &&& final(self).position() == old(self).position() + 1
                    &&& final(self).given() == 1
                } else {
                    &&& r is None
                    &&& final(self).position() == old(self).windows().len()
                    &&& final(self).given() == 0
                }
            },
    {
        proof {
            use_type_invariant(&*self);
        }
        let times: usize = match self.repetition {
            Some(repetition) => copies(repetition),
            None => 1,
        };
        if self.position >= self.windows.len() {
            return None;
        }
        if times == 0 {
            self.position = self.windows.len();
            return None;
        }
        if self.given >= times {
            self.position = self.position + 1;
            self.given = 0;
            if self.position >= self.windows.len() {
                return None;
            }
        }
        self.given = self.given + 1;
        Some(self.windows[self.position].clone())
    }
}

} // verus!
