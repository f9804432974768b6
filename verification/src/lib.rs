//! A calendar scheduler: goals with durations, repetitions, deadlines and
//! time-of-day filters are placed on an hour grid.
//!
//! A run goes through these steps, each in a module of its own:
//!
//! - [`time`], [`slot`], [`timeline`], [`slot_iterator`]: instants, spans
//!   of time, and sorted lists of spans that neither overlap nor touch;
//!   [`algebra`] holds what is proved of them.
//! - [`filter`], [`repetition`], [`time_slot_iterator`]: the hours of the
//!   day and the days on which a goal may be worked on, and the windows of
//!   its repetition.
//! - [`goal`], [`goal_order`], [`budget`], [`budgeting`]: goals, the order
//!   in which they are taken, and the budgets of goals over the goals below
//!   them.
//! - [`calendar`], [`reservation`], [`activity`]: the hour grid, taking
//!   hours on it within the budgets, and the activities that ask for hours.
//! - [`placer`], [`activity_placer`], [`rounds`]: choosing the next
//!   activity and its hours, and placing round by round.
//! - [`final_tasks`], [`scheduler`]: the calendar as lists of tasks, and
//!   the run from what is handed in to what is handed back.
//! - [`accounting`], [`determined`], [`repeatable`]: what is proved of
//!   placing and of a run: hours and budgets add up, and the same input
//!   gives the same schedule.
//! - [`task`], [`task_placer`], [`preprocessor`]: tasks with hour slots of
//!   their own and their placing, and counting the tasks of goals.

pub mod accounting;
pub mod activity;
pub mod activity_placer;
pub mod algebra;
pub mod budget;
pub mod budgeting;
pub mod calendar;
pub mod determined;
pub mod filter;
pub mod final_tasks;
pub mod goal;
pub mod goal_order;
pub mod placer;
pub mod preprocessor;
pub mod repeatable;
pub mod repetition;
pub mod reservation;
pub mod rounds;
pub mod scheduler;
pub mod slot;
pub mod slot_iterator;
pub mod task;
pub mod task_placer;
pub mod time;
pub mod time_slot_iterator;
pub mod timeline;
