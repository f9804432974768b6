//! Narrowing a timeline to the hours of the day, the days of the week and
//! the dates that a goal allows.
//!
//! A filter is applied in three steps, in this order: the time of day, the
//! days of the week, the excluded slots. Each step keeps a timeline well
//! formed and is specified by the instants that are left.

use crate::algebra::{first_start, lemma_slots_unique, lemma_wf_within};
use crate::slot::Slot;
use crate::time::{day_of, hour_of, weekday_of, weekday_on, DateTime, Day, MAX_DAY};
use crate::timeline::{slots_aligned, slots_cover, slots_minus_all, slots_wf, Timeline};
use vstd::prelude::*;

verus! {

/// When a goal may be worked on.
#[derive(Debug, Clone, PartialEq, Eq)]
pub struct TimeFilter {
    /// The hour of the day, 0 to 24, before which the work has to end.
    pub before_time: Option<usize>,
    /// The hour of the day, 0 to 24, from which on the work may start.
    pub after_time: Option<usize>,
    /// The days of the week on which the work may be done.
    pub on_days: Option<Vec<Day>>,
    /// Slots in which no work may be done.
    pub not_on: Option<Vec<Slot>>,
}

/// The hour from which on work may start: 0 where none is given.
pub open spec fn after_hour(after_time: Option<usize>) -> int {
    match after_time {
        Some(hour) => hour as int,
        None => 0,
    }
}

/// The hour before which work has to end: 24 where none is given.
pub open spec fn before_hour(before_time: Option<usize>) -> int {
    match before_time {
        Some(hour) => hour as int,
        None => 24,
    }
}

/// Whether the daily window wraps over midnight: its end is not later than
/// its start.
pub open spec fn window_wraps(before_time: Option<usize>, after_time: Option<usize>) -> bool {
    before_hour(before_time) <= after_hour(after_time)
}

/// Whether work may be done in the hour `hour` of a day. A window that
/// wraps over midnight runs from `after_time` to the end of the day and
/// from the start of the day to `before_time`.
pub open spec fn hour_allowed(hour: int, before_time: Option<usize>, after_time: Option<usize>) -> bool {
    let after = after_hour(after_time);
    let before = before_hour(before_time);
    if before <= after {
        hour >= after || hour < before
    } else {
        after <= hour < before
    }
}

/// Whether the time of day lets the instant `t` pass: its hour of the day
/// lies in the daily window.
pub open spec fn timing_keeps(t: int, before_time: Option<usize>, after_time: Option<usize>) -> bool {
    hour_allowed(hour_of(t), before_time, after_time)
}

/// `output` is `input` narrowed to the daily window.
pub open spec fn is_timing_of(
    input: Seq<Slot>,
    before_time: Option<usize>,
    after_time: Option<usize>,
    output: Seq<Slot>,
) -> bool {
    &&& slots_wf(output)
    &&& forall|t: int| #[trigger]
        slots_cover(output, t) <==> slots_cover(input, t) && timing_keeps(t, before_time, after_time)
}

/// `output` is `input` narrowed to the days of the week in `days`.
pub open spec fn is_on_days_of(input: Seq<Slot>, days: Seq<Day>, output: Seq<Slot>) -> bool {
    &&& slots_wf(output)
    &&& forall|t: int| #[trigger]
        slots_cover(output, t) <==> slots_cover(input, t) && days.contains(weekday_of(t))
}

/// `output` is `input` without the instants that a slot of `excluded` holds.
pub open spec fn is_not_on_of(input: Seq<Slot>, excluded: Seq<Slot>, output: Seq<Slot>) -> bool {
    &&& slots_wf(output)
    &&& forall|t: int| #[trigger]
        slots_cover(output, t) <==> slots_cover(input, t) && !slots_cover(excluded, t)
}

impl TimeFilter {
    /// Whether the filter lets the instant `t` pass.
    pub open spec fn allows(&self, t: int) -> bool {
        &&& timing_keeps(t, self.before_time, self.after_time)
        &&& self.on_days matches Some(days) ==> days@.contains(weekday_of(t))
        &&& self.not_on matches Some(excluded) ==> !slots_cover(excluded@, t)
    }

    /// Every excluded slot starts and ends on a full hour.
    pub open spec fn is_hour_aligned(&self) -> bool {
        self.not_on matches Some(excluded) ==> slots_aligned(excluded@)
    }
}

/// The slot from the hour `from_hour` to the hour `to_hour` of the day
/// numbered `day`.
fn day_window(day: i64, from_hour: u8, to_hour: u8) -> (r: Slot)
    requires
        -MAX_DAY <= day < MAX_DAY,
        from_hour <= to_hour <= 24,
    ensures
        r.start@ == day * 86_400 + from_hour * 3_600,
        r.end@ == day * 86_400 + to_hour * 3_600,
        r.is_hour_aligned(),
        forall|t: int| #[trigger] r.covers(t) <==> day_of(t) == day && from_hour <= hour_of(t) < to_hour,
{
    let base: i64 = day * 86_400;
    let start = DateTime::at(base + (from_hour as i64) * 3_600);
    let end = DateTime::at(base + (to_hour as i64) * 3_600);
    let r = Slot { start, end };
    proof {
        assert forall|t: int| #[trigger] r.covers(t) <==> day_of(t) == day && from_hour <= hour_of(t)
            < to_hour by {
            lemma_day_and_hour(t);
        }
    }
    r
}

/// An instant lies in its day at its hour.
pub proof fn lemma_day_and_hour(t: int)
    ensures
        day_of(t) * 86_400 + hour_of(t) * 3_600 <= t < day_of(t) * 86_400 + hour_of(t) * 3_600
            + 3_600,
        0 <= hour_of(t) < 24,
{
}

/// The least of `hour` and 24.
fn clamp_hour(hour: usize) -> (r: u8)
    ensures
        r == if hour > 24 {
            24
        } else {
            hour as int
        },
{
    if hour > 24 {
        24
    } else {
        hour as u8
    }
}

/// The numbers of the first and the last day that a timeline reaches into.
fn day_range(timeline: &Timeline) -> (r: (i64, i64))
    requires
        timeline.wf(),
        timeline@.len() > 0,
    ensures
        -MAX_DAY <= r.0 <= r.1 < MAX_DAY,
        r.0 == day_of(first_start(timeline@)),
        forall|t: int| timeline.covers(t) ==> r.0 <= #[trigger] day_of(t) <= r.1,
{
    let first = timeline.slots[0].start;
    let last = timeline.slots[timeline.slots.len() - 1].end;
    let first_secs: i64 = first.timestamp();
    let last_secs: i64 = last.timestamp();
    proof {
        lemma_wf_within(timeline@, first@, last@);
        assert(timeline@[0].wf());
        assert(timeline@[timeline@.len() - 1].wf());
        if timeline@.len() > 1 {
            assert(timeline@[0].end@ < timeline@[timeline@.len() - 1].start@);
        }
    }
    let first_day: i64 = first.day_number();
    let last_day: i64 = DateTime::at(last_secs - 1).day_number();
    proof {
        assert forall|t: int| timeline.covers(t) implies first_day <= #[trigger] day_of(t)
            <= last_day by {
            let i = choose|i: int| 0 <= i < timeline@.len() && (#[trigger] timeline@[i]).covers(t);
            assert(first@ <= timeline@[i].start@ && timeline@[i].end@ <= last@);
        }
    }
    (first_day, last_day)
}

/// Narrows `timeline` to the daily window from `after_time`, or midnight,
/// to `before_time`, or the next midnight. Where `before_time` is not later
/// than `after_time` the window wraps over midnight: on every day it runs
/// from `after_time` to the end of the day and from the start of the day
/// to `before_time`.
pub fn filter_timing(timeline: &Timeline, before_time: Option<usize>, after_time: Option<usize>) -> (r:
    Timeline)
    requires
        timeline.wf(),
    ensures
        is_timing_of(timeline@, before_time, after_time, r@),
        timeline.is_hour_aligned() ==> r.is_hour_aligned(),
{
    let mut result = timeline.clone();
    if timeline.slots.len() == 0 {
        return result;
    }
    let after: usize = match after_time {
        Some(hour) => hour,
        None => 0,
    };
    let before: usize = match before_time {
        Some(hour) => hour,
        None => 24,
    };
    let wraps = before <= after;
    let from = clamp_hour(after);
    let to = clamp_hour(before);
    let (first_day, last_day) = day_range(timeline);
    let mut day: i64 = first_day;
    while day <= last_day
        invariant
            first_day <= day <= last_day + 1,
            -MAX_DAY <= first_day <= last_day < MAX_DAY,
            timeline.wf(),
            result.wf(),
            after == after_hour(after_time),
            before == before_hour(before_time),
            wraps == (before <= after),
            from == if after > 24 {
                24
            } else {
                after as int
            },
            to == if before > 24 {
                24
            } else {
                before as int
            },
            forall|t: int| timeline.covers(t) ==> first_day <= #[trigger] day_of(t) <= last_day,
            forall|t: int| #[trigger]
                result.covers(t) <==> timeline.covers(t) && (day_of(t) < day ==> timing_keeps(t, before_time, after_time)),
            timeline.is_hour_aligned() ==> result.is_hour_aligned(),
        decreases last_day + 1 - day,
    {
        let ghost mid = result;
        let (shut_from, shut_to, open_to): (u8, u8, u8) = if wraps {
            if to < from {
                (to, from, 24)
            } else {
                (0, 0, 24)
            }
        } else {
            (0, from, to)
        };
        let early = day_window(day, shut_from, shut_to);
        let late = day_window(day, open_to, 24);
        result.remove(early);
        let ghost half = result;
        result.remove(late);
        proof {
            assert forall|t: int| #[trigger]
                result.covers(t) <==> timeline.covers(t) && (day_of(t) < day + 1 ==> timing_keeps(t, before_time, after_time)) by {
                lemma_day_and_hour(t);
                assert(mid.covers(t) <==> timeline.covers(t) && (day_of(t) < day ==> timing_keeps(t, before_time, after_time)));
                assert(half.covers(t) <==> mid.covers(t) && !early.covers(t));
                assert(early.covers(t) <==> day_of(t) == day && shut_from <= hour_of(t) < shut_to);
                assert(late.covers(t) <==> day_of(t) == day && open_to <= hour_of(t) < 24);
            }
        }
        day += 1;
    }
    proof {
        assert forall|t: int| #[trigger]
            slots_cover(result@, t) <==> slots_cover(timeline@, t) && timing_keeps(t, before_time, after_time) by {
            assert(result.covers(t) <==> timeline.covers(t) && (day_of(t) < day ==> timing_keeps(t, before_time, after_time)));
        }
    }
    result
}

/// Whether `day` is one of `days`.
fn is_one_of(days: &Vec<Day>, day: Day) -> (r: bool)
    ensures
        r == days@.contains(day),
{
    let mut i: usize = 0;
    while i < days.len()
        invariant
            i <= days.len(),
            forall|k: int| 0 <= k < i ==> days@[k] != day,
        decreases days.len() - i,
    {
        if days[i] == day {
            return true;
        }
        i += 1;
    }
    false
}

/// Narrows `timeline` to the days of the week in `days`: every day is cut
/// out at midnight, and the days that are not in `days` are dropped.
pub fn filter_on_days(timeline: &Timeline, days: &Vec<Day>) -> (r: Timeline)
    requires
        timeline.wf(),
    ensures
        is_on_days_of(timeline@, days@, r@),
        timeline.is_hour_aligned() ==> r.is_hour_aligned(),
{
    let mut result = timeline.clone();
    if timeline.slots.len() == 0 {
        return result;
    }
    let (first_day, last_day) = day_range(timeline);
    let mut day: i64 = first_day;
    while day <= last_day
        invariant
            first_day <= day <= last_day + 1,
            -MAX_DAY <= first_day <= last_day < MAX_DAY,
            timeline.wf(),
            result.wf(),
            forall|t: int| timeline.covers(t) ==> first_day <= #[trigger] day_of(t) <= last_day,
            forall|t: int| #[trigger]
                result.covers(t) <==> timeline.covers(t) && (day_of(t) < day ==> days@.contains(
                    weekday_of(t),
                )),
            timeline.is_hour_aligned() ==> result.is_hour_aligned(),
        decreases last_day + 1 - day,
    {
        let ghost mid = result;
        if !is_one_of(days, weekday_on(day)) {
            let window = day_window(day, 0, 24);
            result.remove(window);
            proof {
                assert forall|t: int| #[trigger]
                    result.covers(t) <==> timeline.covers(t) && (day_of(t) < day + 1
                        ==> days@.contains(weekday_of(t))) by {
                    lemma_day_and_hour(t);
                    assert(mid.covers(t) <==> timeline.covers(t) && (day_of(t) < day
                        ==> days@.contains(weekday_of(t))));
                    assert(window.covers(t) <==> day_of(t) == day && 0 <= hour_of(t) < 24);
                }
            }
        } else {
            proof {
                assert forall|t: int| #[trigger]
                    result.covers(t) <==> timeline.covers(t) && (day_of(t) < day + 1
                        ==> days@.contains(weekday_of(t))) by {
                    assert(mid.covers(t) <==> timeline.covers(t) && (day_of(t) < day
                        ==> days@.contains(weekday_of(t))));
                }
            }
        }
        day += 1;
    }
    proof {
        assert forall|t: int| #[trigger]
            slots_cover(result@, t) <==> slots_cover(timeline@, t) && days@.contains(
                weekday_of(t),
            ) by {
            assert(result.covers(t) <==> timeline.covers(t) && (day_of(t) < day ==> days@.contains(
                weekday_of(t),
            )));
        }
    }
    result
}

/// Takes the instants of every slot of `slots` out of `timeline`.
pub fn filter_not_on(timeline: &Timeline, slots: &Vec<Slot>) -> (r: Timeline)
    ensures
        r@ == slots_minus_all(timeline@, slots@),
        timeline.wf() ==> is_not_on_of(timeline@, slots@, r@),
        timeline.is_hour_aligned() && slots_aligned(slots@) ==> r.is_hour_aligned(),
{
    let mut result = timeline.clone();
    let excluded = slots.clone();
    assert(excluded@ =~= slots@);
    result.remove_slots(excluded);
    result
}

/// Applies `filter` to `timeline`: first the time of day, then the days of
/// the week, then the excluded slots. What is left are the instants of
/// `timeline` that the filter allows.
pub fn apply_filter(timeline: &Timeline, filter: &TimeFilter) -> (r: Timeline)
    requires
        timeline.wf(),
    ensures
        r.wf(),
        forall|t: int| #[trigger]
            r.covers(t) <==> timeline.covers(t) && filter.allows(t),
        timeline.is_hour_aligned() && filter.is_hour_aligned() ==> r.is_hour_aligned(),
{
    let timed = filter_timing(timeline, filter.before_time, filter.after_time);
    let on_days = match &filter.on_days {
        Some(days) => filter_on_days(&timed, days),
        None => timed.clone(),
    };
    let result = match &filter.not_on {
        Some(excluded) => filter_not_on(&on_days, excluded),
        None => on_days.clone(),
    };
    proof {
        let first_day = day_of(first_start(timeline@));
        assert forall|t: int| #[trigger]
            result.covers(t) <==> timeline.covers(t) && filter.allows(t) by {
            assert(slots_cover(timed@, t) <==> slots_cover(timeline@, t) && timing_keeps(t, filter.before_time, filter.after_time));
            assert(slots_cover(on_days@, t) <==> slots_cover(timed@, t) && (filter.on_days matches Some(
                days,
            ) ==> days@.contains(weekday_of(t))));
            assert(slots_cover(result@, t) <==> slots_cover(on_days@, t) && (filter.not_on matches Some(
                excluded,
            ) ==> !slots_cover(excluded@, t)));
        }
    }
    result
}

impl Timeline {
    /// Narrows the timeline to what `filter` allows; without a filter the
    /// timeline stays as it is.
    pub fn apply_filter(&mut self, filter: &Option<TimeFilter>)
        requires
            old(self).wf(),
        ensures
            final(self).wf(),
            forall|t: int| #[trigger]
                final(self).covers(t) <==> old(self).covers(t) && (filter matches Some(f)
                    ==> f.allows(t)),
            filter is None ==> final(self)@ == old(self)@,
            old(self).is_hour_aligned() && (filter matches Some(f) ==> f.is_hour_aligned())
                ==> final(self).is_hour_aligned(),
    {
        if self.slots.len() == 0 {
            assert forall|t: int| !old(self).covers(t) by {}
            return ;
        }
        if let Some(filter) = filter {
            let filtered = self::apply_filter(self, filter);
            *self = filtered;
        }
    }
}

/// With a daily window that does not wrap over midnight, the time of day
/// and the days of the week can be applied in either order: the two results
/// are the same timeline.
pub proof fn lemma_timing_and_on_days_commute(
    timeline: Seq<Slot>,
    before_time: Option<usize>,
    after_time: Option<usize>,
    days: Seq<Day>,
    timed: Seq<Slot>,
    timed_then_days: Seq<Slot>,
    on_days: Seq<Slot>,
    on_days_then_timed: Seq<Slot>,
)
    requires
        !window_wraps(before_time, after_time),
        is_timing_of(timeline, before_time, after_time, timed),
        is_on_days_of(timed, days, timed_then_days),
        is_on_days_of(timeline, days, on_days),
        is_timing_of(on_days, before_time, after_time, on_days_then_timed),
    ensures
        timed_then_days == on_days_then_timed,
{
    assert forall|t: int|
        #![trigger slots_cover(timed_then_days, t)]
        slots_cover(timed_then_days, t) <==> slots_cover(on_days_then_timed, t) by {
        assert(slots_cover(timed, t) <==> slots_cover(timeline, t) && timing_keeps(t, before_time, after_time));
        assert(slots_cover(on_days, t) <==> slots_cover(timeline, t) && days.contains(
            weekday_of(t),
        ));
        assert(slots_cover(timed_then_days, t) <==> slots_cover(timed, t) && days.contains(
            weekday_of(t),
        ));
        assert(slots_cover(on_days_then_timed, t) <==> slots_cover(on_days, t) && timing_keeps(t, before_time, after_time));
    }
    lemma_slots_unique(timed_then_days, on_days_then_timed);
}

} // verus!
