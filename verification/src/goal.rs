//! Goals, and the activities that a goal asks for.

use crate::activity::{Activity, ActivityType, Status};
use crate::budget::BudgetConfig;
use crate::filter::TimeFilter;
use crate::repetition::Repetition;
use crate::slot::Slot;
use crate::time::{is_hour_aligned, DateTime};
use crate::time_slot_iterator::{copies, copies_of, is_split, split_by, stride_of};
use crate::timeline::{slots_cover, slots_wf, Timeline};
use vstd::prelude::*;
use vstd::string::StringExecFns;

verus! {

/// Something that a user wants to spend time on.
#[derive(Debug, Clone, PartialEq, Eq)]
pub struct Goal {
    /// Every goal has an id of its own.
    pub id: String,
    pub title: String,
    /// The hours to spend, in every window of the repetition.
    pub min_duration: usize,
    pub repetition: Option<Repetition>,
    /// The earliest start of the work.
    pub start: Option<DateTime>,
    /// The latest end of the work.
    pub deadline: Option<DateTime>,
    pub filters: Option<TimeFilter>,
    /// The ids of the goals below this one.
    pub children: Option<Vec<String>>,
    /// The limits that make this goal a budget for the goals below it.
    pub budget_config: Option<BudgetConfig>,
    /// The ids of the goals after which this one is to be placed.
    pub after_goals: Option<Vec<String>>,
}

/// Why no schedule could be made.
#[derive(Debug, Clone, PartialEq, Eq)]
pub enum SchedulerError {
    /// What was handed in breaks a rule; the text says which.
    InvalidInput(String),
    /// The goal with this id cannot be worked on: it is to end before it
    /// starts, or the limits of its budget contradict each other.
    InvalidGoal(String),
}

/// A copy of `ids`.
pub fn copy_of_ids(ids: &Vec<String>) -> (r: Vec<String>)
    ensures
        r@ == ids@,
{
    let mut copy: Vec<String> = Vec::new();
    let mut i: usize = 0;
    while i < ids.len()
        invariant
            i <= ids.len(),
            copy@ == ids@.take(i as int),
        decreases ids.len() - i,
    {
        copy.push(ids[i].clone());
        assert(ids@.take(i + 1) =~= ids@.take(i as int).push(ids@[i as int]));
        i += 1;
    }
    assert(ids@.take(i as int) =~= ids@);
    copy
}

impl Goal {
    /// The span from `start` to `end` is no span for work on this goal:
    /// the goal is to end before it starts.
    pub open spec fn is_upside_down(&self) -> bool {
        self.start matches Some(start) && self.deadline matches Some(deadline) && deadline@
            < start@
    }

    /// Every instant that the goal names falls on a full hour: its start,
    /// its deadline, and the ends of the slots that its filter shuts out.
    pub open spec fn is_on_the_hour(&self) -> bool {
        &&& self.start matches Some(start) ==> is_hour_aligned(start@)
        &&& self.deadline matches Some(deadline) ==> is_hour_aligned(deadline@)
        &&& self.filters matches Some(filter) ==> filter.is_hour_aligned()
    }

    /// The goal cannot be worked on: it is to end before it starts, or the
    /// limits of its budget contradict each other.
    pub open spec fn is_invalid(&self) -> bool {
        self.is_upside_down() || (self.budget_config matches Some(config)
            && config.is_inconsistent())
    }

    /// The first instant at which the goal may be worked on in a calendar
    /// that starts at `calendar_start`.
    pub open spec fn first_instant(&self, calendar_start: DateTime) -> int {
        match self.start {
            Some(start) => vstd::math::max(start@, calendar_start@),
            None => calendar_start@,
        }
    }

    /// The instant by which the work on the goal has to end in a calendar
    /// that ends at `calendar_end`.
    pub open spec fn last_instant(&self, calendar_end: DateTime) -> int {
        match self.deadline {
            Some(deadline) => vstd::math::min(deadline@, calendar_end@),
            None => calendar_end@,
        }
    }

    /// The goal may be worked on at the instant `t` of a calendar from
    /// `calendar_start` to `calendar_end`.
    pub open spec fn may_use(&self, calendar_start: DateTime, calendar_end: DateTime, t: int) -> bool {
        &&& self.first_instant(calendar_start) <= t < self.last_instant(calendar_end)
        &&& self.filters matches Some(filter) ==> filter.allows(t)
    }

    /// The ids of the goals after which this one is to be placed.
    pub open spec fn predecessors(&self) -> Seq<String> {
        match self.after_goals {
            Some(ids) => ids@,
            None => Seq::<String>::empty(),
        }
    }

    /// `activity` asks for the hours of this goal within `window`.
    pub open spec fn is_asked_by(&self, activity: Activity, window: Timeline) -> bool {
        &&& activity.goal_id == self.id
        &&& activity.title == self.title
        &&& activity.activity_type == ActivityType::SimpleGoal
        &&& activity.duration_left == self.min_duration
        &&& activity.status == Status::ReadyToSchedule
        &&& activity.candidate_windows@ == window@
        &&& activity.overlay@ == window@
        &&& activity.claims@.len() == 0
        &&& activity.after_goals@ == self.predecessors()
    }

    /// `activities` ask for the hours of this goal within each of
    /// `windows`, in order, `times` times for every window.
    pub open spec fn is_expansion(
        &self,
        activities: Seq<Activity>,
        windows: Seq<Timeline>,
        times: int,
    ) -> bool
        decreases windows.len(),
    {
        if windows.len() == 0 {
            activities.len() == 0
        } else {
            &&& 0 <= times <= activities.len()
            &&& self.is_expansion(
                activities.take(activities.len() - times),
                windows.drop_last(),
                times,
            )
            &&& forall|j: int|
                activities.len() - times <= j < activities.len() ==> self.is_asked_by(
                    #[trigger] activities[j],
                    windows.last(),
                )
        }
    }

    /// A goal with the id `id` and nothing else.
    pub fn new(id: &str) -> (r: Goal)
        ensures
            r.id@ == id@,
            r.title@ == "Test"@,
            r.min_duration == 0,
            r.repetition is None,
            r.start is None,
            r.deadline is None,
            r.filters is None,
            r.children is None,
            r.budget_config is None,
            r.after_goals is None,
    {
        Goal {
            id: String::from_str(id),
            title: String::from_str("Test"),
            min_duration: 0,
            repetition: None,
            start: None,
            deadline: None,
            filters: None,
            children: None,
            budget_config: None,
            after_goals: None,
        }
    }

    /// The goal with `duration` hours to spend.
    pub fn duration(self, duration: usize) -> (r: Goal)
        ensures
            r == (Goal { min_duration: duration, ..self }),
    {
        let mut goal = self;
        goal.min_duration = duration;
        goal
    }

    /// The goal with the repetition `repetition`.
    pub fn repetition(self, repetition: Repetition) -> (r: Goal)
        ensures
            r == (Goal { repetition: Some(repetition), ..self }),
    {
        let mut goal = self;
        goal.repetition = Some(repetition);
        goal
    }

    /// The goal with the earliest start `start`.
    pub fn start(self, start: DateTime) -> (r: Goal)
        ensures
            r == (Goal { start: Some(start), ..self }),
    {
        let mut goal = self;
        goal.start = Some(start);
        goal
    }

    /// The goal with the latest end `deadline`.
    pub fn deadline(self, deadline: DateTime) -> (r: Goal)
        ensures
            r == (Goal { deadline: Some(deadline), ..self }),
    {
        let mut goal = self;
        goal.deadline = Some(deadline);
        goal
    }

    /// `windows` are the parts in which the goal is asked for in a calendar
    /// from `calendar_start` to `calendar_end`: `timeline` is the span in
    /// which the goal may be worked on, and `windows` are its parts within
    /// the live windows of the repetition, or `timeline` alone where the
    /// goal does not repeat.
    pub open spec fn has_windows(
        &self,
        windows: Seq<Timeline>,
        timeline: Seq<Slot>,
        calendar_start: DateTime,
        calendar_end: DateTime,
    ) -> bool {
        &&& slots_wf(timeline)
        &&& forall|t: int| #[trigger]
            slots_cover(timeline, t) <==> self.may_use(calendar_start, calendar_end, t)
        &&& match self.repetition {
            None => windows.len() == 1 && windows[0]@ == timeline,
            Some(repetition) => if stride_of(repetition) > 0 {
                exists|ks: Seq<int>| is_split(windows, ks, timeline, repetition)
            } else {
                windows.len() == 0
            },
        }
    }

    /// How many times the goal is asked for within one window.
    pub open spec fn times(&self) -> int {
        match self.repetition {
            Some(repetition) => copies_of(repetition),
            None => 1,
        }
    }

    /// Whether every instant that the goal names falls on a full hour.
    pub fn keeps_to_the_hour(&self) -> (r: bool)
        ensures
            r == self.is_on_the_hour(),
    {
        let start = match self.start {
            Some(start) => start.is_on_the_hour(),
            None => true,
        };
        let deadline = match self.deadline {
            Some(deadline) => deadline.is_on_the_hour(),
            None => true,
        };
        let shut_out = match &self.filters {
            Some(filter) => match &filter.not_on {
                Some(excluded) => {
                    let mut all = true;
                    let mut k: usize = 0;
                    while k < excluded.len()
                        invariant
                            k <= excluded@.len(),
                            all == forall|i: int|
                                0 <= i < k ==> (#[trigger] excluded@[i]).is_hour_aligned(),
                        decreases excluded@.len() - k,
                    {
                        if !excluded[k].is_on_the_hour() {
                            all = false;
                        }
                        k += 1;
                    }
                    all
                },
                None => true,
            },
            None => true,
        };
        start && deadline && shut_out
    }

    /// Whether the goal cannot be worked on.
    pub fn is_refused(&self) -> (r: bool)
        ensures
            r == self.is_invalid(),
    {
        let upside_down = match (self.start, self.deadline) {
            (Some(start), Some(deadline)) => deadline.is_before(start),
            _ => false,
        };
        let contradicts = match &self.budget_config {
            Some(config) => config.has_contradiction(),
            None => false,
        };
        upside_down || contradicts
    }

    /// The activities that ask for the hours of the goal in a calendar from
    /// `calendar_start` to `calendar_end`.
    ///
    /// The span in which the goal may be worked on runs from the later of
    /// the two starts to the earlier of the two ends. It is narrowed by the
    /// filters of the goal and cut into the windows of its repetition; for
    /// every window the goal is asked for once, or as many times as the
    /// repetition says. A goal that does not repeat is asked for once,
    /// within all that the filters leave. A goal that cannot be worked on
    /// is refused.
    pub fn generate_tasks(&self, calendar_start: DateTime, calendar_end: DateTime) -> (r: Result<
        Vec<Activity>,
        SchedulerError,
    >)
        ensures
            r is Err <==> self.is_invalid(),
            r matches Err(error) ==> error matches SchedulerError::InvalidGoal(id) && id@
                == self.id@,
            r matches Ok(activities) ==> {
                &&& forall|j: int|
                    0 <= j < activities@.len() ==> (#[trigger] activities@[j]).candidate_windows.wf()
                &&& exists|windows: Seq<Timeline>, timeline: Seq<Slot>|
                    {
                        &&& self.has_windows(windows, timeline, calendar_start, calendar_end)
                        &&& self.is_expansion(activities@, windows, self.times())
                    }
            },
    {
        if self.is_refused() {
            return Err(SchedulerError::InvalidGoal(self.id.clone()));
        }
        let mut activities: Vec<Activity> = Vec::new();
        let first = match self.start {
            Some(start) => if start.is_before(calendar_start) {
                calendar_start
            } else {
                start
            },
            None => calendar_start,
        };
        let last = match self.deadline {
            Some(deadline) => if deadline.is_before(calendar_end) {
                deadline
            } else {
                calendar_end
            },
            None => calendar_end,
        };
        let mut timeline = Timeline::initialize(first, last);
        timeline.apply_filter(&self.filters);
        proof {
            assert forall|t: int| #[trigger]
                slots_cover(timeline@, t) <==> self.may_use(calendar_start, calendar_end, t) by {}
        }
        let windows: Vec<Timeline> = match self.repetition {
            Some(repetition) => split_by(&timeline, repetition),
            None => {
                let mut whole: Vec<Timeline> = Vec::new();
                whole.push(timeline.clone());
                whole
            },
        };
        let times: usize = match self.repetition {
            Some(repetition) => copies(repetition),
            None => 1,
        };
        proof {
            assert(self.has_windows(windows@, timeline@, calendar_start, calendar_end));
            assert(windows@.take(0) =~= Seq::<Timeline>::empty());
        }
        let mut w: usize = 0;
        while w < windows.len()
            invariant
                w <= windows.len(),
                times == self.times(),
                self.is_expansion(activities@, windows@.take(w as int), times as int),
                forall|i: int| 0 <= i < windows@.len() ==> (#[trigger] windows@[i]).wf(),
                forall|j: int|
                    0 <= j < activities@.len() ==> (#[trigger] activities@[j]).candidate_windows.wf(),
            decreases windows.len() - w,
        {
            let ghost base = activities@;
            let mut c: usize = 0;
            while c < times
                invariant
                    c <= times,
                    w < windows.len(),
                    windows@[w as int].wf(),
                    activities@.len() == base.len() + c,
                    activities@.take(base.len() as int) == base,
                    forall|j: int|
                        base.len() <= j < activities@.len() ==> self.is_asked_by(
                            #[trigger] activities@[j],
                            windows@[w as int],
                        ),
                    forall|j: int|
                        0 <= j < activities@.len() ==> (
                        #[trigger] activities@[j]).candidate_windows.wf(),
                decreases times - c,
            {
                let after_goals = match &self.after_goals {
                    Some(ids) => copy_of_ids(ids),
                    None => Vec::new(),
                };
                let activity = Activity::new(
                    self.id.clone(),
                    self.title.clone(),
                    ActivityType::SimpleGoal,
                    self.min_duration,
                    windows[w].clone(),
                    after_goals,
                );
                let ghost before = activities@;
                activities.push(activity);
                proof {
                    assert(activities@.take(base.len() as int) =~= before.take(base.len() as int));
                }
                c += 1;
            }
            proof {
                let upto = windows@.take(w + 1);
                assert(upto.drop_last() =~= windows@.take(w as int));
                assert(upto.last() == windows@[w as int]);
                assert(activities@.take(activities@.len() - times) == base);
            }
            w += 1;
        }
        proof {
            assert(windows@.take(w as int) =~= windows@);
        }
        Ok(activities)
    }
}

} // verus!
