//! Schedules: dates that follow one another at a frequency, each adjusted to
//! a calendar.

use vstd::prelude::*;
use crate::algebra::{
    add_years_spec, adjust_after, checked_add_years, force_adjust, lemma_add_years_in_range,
    lemma_adjust_after_progress, moves_dates,
};
use crate::calendar::Calendar;
use crate::conventions::{AdjustRule, Frequency};
use crate::date::{
    add_days_spec, add_months_spec, day_numbers, in_range, lemma_add_months_in_range, Date,
    MAX_DAYS,
};
use crate::error::DateError;

verus! {

/// A schedule: how often it has a date, and the calendar and rule by which
/// its dates are adjusted. It borrows its calendar.
#[derive(Copy, Clone, Debug, PartialEq, Eq)]
pub struct Schedule<'a> {
    pub frequency: Frequency,
    pub calendar: Option<&'a Calendar>,
    pub adjust_rule: Option<AdjustRule>,
}

/// The day one step of `frequency` after day `n`, before any adjustment:
/// so many days, or so many months or one year on, on the last day of the
/// month where the month is too short. `Once` stays where it is. `None` where
/// the day cannot be represented.
pub open spec fn step_spec(n: int, frequency: Frequency) -> Option<int> {
    match frequency {
        Frequency::Daily => add_days_spec(n, 1),
        Frequency::Weekly => add_days_spec(n, 7),
        Frequency::Biweekly => add_days_spec(n, 14),
        Frequency::EveryFourthWeek => add_days_spec(n, 28),
        Frequency::Monthly => add_months_spec(n, 1),
        Frequency::Bimonthly => add_months_spec(n, 2),
        Frequency::Quarterly => add_months_spec(n, 3),
        Frequency::EveryFourthMonth => add_months_spec(n, 4),
        Frequency::Semiannual => add_months_spec(n, 6),
        Frequency::Annual => add_years_spec(n, 1),
        Frequency::Once => Some(n),
    }
}

/// The date one step of `frequency` after `anchor_date`, not adjusted.
pub fn schedule_next(anchor_date: &Date, frequency: Frequency) -> (r: Option<Date>)
    ensures
        match r {
            Some(d) => step_spec(anchor_date@, frequency) == Some(d@),
            None => step_spec(anchor_date@, frequency) is None,
        },
{
    match frequency {
        Frequency::Daily => anchor_date.checked_add_days(1),
        Frequency::Weekly => anchor_date.checked_add_days(7),
        Frequency::Biweekly => anchor_date.checked_add_days(14),
        Frequency::EveryFourthWeek => anchor_date.checked_add_days(28),
        Frequency::Monthly => anchor_date.checked_add_months(1),
        Frequency::Bimonthly => anchor_date.checked_add_months(2),
        Frequency::Quarterly => anchor_date.checked_add_months(3),
        Frequency::EveryFourthMonth => anchor_date.checked_add_months(4),
        Frequency::Semiannual => anchor_date.checked_add_months(6),
        Frequency::Annual => checked_add_years(anchor_date, 1),
        Frequency::Once => Some(*anchor_date),
    }
}

impl<'a> Schedule<'a> {
    /// The date of the schedule that follows day `anchor`: the step from
    /// `anchor` adjusted, or, where that does not lie after `anchor`, what a
    /// search from the step on gives. `None` where the step or the search
    /// gives no day.
    pub open spec fn next_adjusted_spec(&self, anchor: int) -> Option<int> {
        match step_spec(anchor, self.frequency) {
            None => None,
            Some(raw) => adjust_after(anchor, raw, self.calendar, self.adjust_rule),
        }
    }

    /// The dates of the schedule after day `anchor` and before day `end`,
    /// each the one that follows the one before. `None` where one of them, or
    /// the one that ends the list, cannot be found.
    pub open spec fn dates_before(&self, anchor: int, end: int) -> Option<Seq<int>>
        decreases end - anchor,
    {
        match self.next_adjusted_spec(anchor) {
            None => None,
            Some(next) => if anchor < next < end {
                match self.dates_before(next, end) {
                    None => None,
                    Some(rest) => Some(seq![next] + rest),
                }
            } else {
                Some(Seq::empty())
            },
        }
    }

    /// What `generate` gives for the days `start` and `end`.
    pub open spec fn generate_spec(&self, start: int, end: int) -> Result<Seq<int>, DateError> {
        if end <= start {
            Err(DateError::InvalidRange)
        } else {
            match self.dates_before(start, end) {
                Some(dates) => Ok(dates),
                None => Err(DateError::DateOutOfRange),
            }
        }
    }

    /// A schedule of the frequency, calendar and rule given.
    pub fn new(
        frequency: Frequency,
        opt_calendar: Option<&'a Calendar>,
        opt_adjust_rule: Option<AdjustRule>,
    ) -> (r: Self)
        ensures
            r.frequency == frequency,
            r.calendar == opt_calendar,
            r.adjust_rule == opt_adjust_rule,
    {
        Self { frequency, calendar: opt_calendar, adjust_rule: opt_adjust_rule }
    }

    /// A cursor over the dates of the schedule that follow `anchor`.
    pub fn iter(&'a self, anchor: Date) -> (r: ScheduleIterator<'a>)
        ensures
            r.schedule() == *self,
            r.anchor() == anchor,
    {
        ScheduleIterator { schedule: self, anchor }
    }

    /// The dates of the schedule after `anchor_date` and before `end_date`,
    /// in their order.
    ///
    /// Fails with `InvalidRange` unless `end_date` lies after `anchor_date`,
    /// and with `DateOutOfRange` where a date of the schedule, or the one
    /// that ends it, cannot be found.
    pub fn generate(&'a self, anchor_date: &Date, end_date: &Date) -> (r: Result<
        Vec<Date>,
        DateError,
    >)
        ensures
            match r {
                Ok(dates) => self.generate_spec(anchor_date@, end_date@) == Ok::<
                    Seq<int>,
                    DateError,
                >(day_numbers(dates@)),
                Err(e) => self.generate_spec(anchor_date@, end_date@) == Err::<Seq<int>, DateError>(
                    e,
                ),
            },
            r matches Ok(dates) ==> {
                &&& forall|i: int, j: int|
                    0 <= i < j < dates.len() ==> (#[trigger] dates[i])@ < (#[trigger] dates[j])@
                &&& forall|i: int|
                    0 <= i < dates.len() ==> anchor_date@ < (#[trigger] dates[i])@ && dates[i]@
                        < end_date@
                &&& forall|i: int|
                    0 <= i < dates.len() ==> (self.calendar matches Some(c) ==> (moves_dates(
                        self.adjust_rule,
                    ) ==> c.is_business((#[trigger] dates[i])@)))
            },
    {
        let start = anchor_date.num_days_from_ce();
        let end = end_date.num_days_from_ce();
        if end <= start {
            return Err(DateError::InvalidRange);
        }
        let mut res: Vec<Date> = Vec::new();
        let mut iter = self.iter(*anchor_date);
        loop
            invariant
                start == anchor_date@,
                end == end_date@,
                iter.schedule() == *self,
                start <= iter.anchor()@ < end,
                in_range(iter.anchor()@),
                forall|i: int|
                    0 <= i < res.len() ==> start < (#[trigger] res[i])@ && res[i]@
                        <= iter.anchor()@,
                forall|i: int, j: int|
                    0 <= i < j < res.len() ==> (#[trigger] res[i])@ < (#[trigger] res[j])@,
                forall|i: int|
                    0 <= i < res.len() ==> (self.calendar matches Some(c) ==> (moves_dates(
                        self.adjust_rule,
                    ) ==> c.is_business((#[trigger] res[i])@))),
                match self.dates_before(iter.anchor()@, end as int) {
                    Some(rest) => self.dates_before(start as int, end as int) == Some(
                        day_numbers(res@) + rest,
                    ),
                    None => self.dates_before(start as int, end as int) is None,
                },
            decreases end - iter.anchor()@,
        {
            let ghost before = day_numbers(res@);
            let ghost anchor = iter.anchor()@;
            let next = iter.next()?;
            if next.num_days_from_ce() >= end {
                assert(before + Seq::<int>::empty() =~= before);
                return Ok(res);
            }
            proof {
                lemma_next_adjusted(*self, anchor);
            }
            res.push(next);
            proof {
                let rest = match self.dates_before(next@, end as int) {
                    Some(rest) => rest,
                    None => Seq::empty(),
                };
                assert(day_numbers(res@) =~= before.push(next@));
                assert(day_numbers(res@) + rest =~= before + (seq![next@] + rest));
            }
        }
    }
}

/// The date of a schedule that follows a day lies after that day and can be
/// represented, and it is a business day where the schedule has a calendar
/// and a rule that moves dates.
pub proof fn lemma_next_adjusted(schedule: Schedule, anchor: int)
    requires
        in_range(anchor),
    ensures
        schedule.next_adjusted_spec(anchor) matches Some(next) ==> {
            &&& anchor < next <= MAX_DAYS
            &&& (schedule.calendar matches Some(c) ==> (moves_dates(schedule.adjust_rule)
                ==> c.is_business(next)))
        },
{
    if let Some(raw) = step_spec(anchor, schedule.frequency) {
        lemma_step_in_range(anchor, schedule.frequency);
        lemma_adjust_after_progress(anchor, raw, schedule.calendar, schedule.adjust_rule);
    }
}

/// A step from a day that can be represented gives one that can be, if it
/// gives any.
pub proof fn lemma_step_in_range(n: int, frequency: Frequency)
    requires
        in_range(n),
    ensures
        step_spec(n, frequency) matches Some(raw) ==> in_range(raw),
{
    lemma_add_years_in_range(n, 1);
    lemma_add_months_in_range(n, 1);
    lemma_add_months_in_range(n, 2);
    lemma_add_months_in_range(n, 3);
    lemma_add_months_in_range(n, 4);
    lemma_add_months_in_range(n, 6);
}

/// The date of the schedule that follows `anchor`: the step from `anchor`,
/// adjusted, and moved on until it lies after `anchor`.
///
/// Fails with `DateOutOfRange` where the step or an adjustment leaves the
/// dates that can be represented.
pub fn schedule_next_adjusted(schedule: &Schedule, anchor: Date) -> (r: Result<Date, DateError>)
    ensures
        match r {
            Ok(d) => schedule.next_adjusted_spec(anchor@) == Some(d@) && d@ > anchor@,
            Err(e) => e == DateError::DateOutOfRange && schedule.next_adjusted_spec(anchor@)
                is None,
        },
{
    match schedule_next(&anchor, schedule.frequency) {
        None => Err(DateError::DateOutOfRange),
        Some(next) => force_adjust(&anchor, &next, schedule.calendar, schedule.adjust_rule),
    }
}

/// A cursor over the dates of a schedule: the schedule and the date that the
/// next date follows.
#[derive(Debug, Copy, Clone, PartialEq, Eq)]
pub struct ScheduleIterator<'a> {
    schedule: &'a Schedule<'a>,
    anchor: Date,
}

impl<'a> ScheduleIterator<'a> {
    /// The schedule that the cursor walks.
    pub closed spec fn schedule(&self) -> Schedule<'a> {
        *self.schedule
    }

    /// The date that the next date follows.
    pub closed spec fn anchor(&self) -> Date {
        self.anchor
    }

    /// A cursor over the dates of `schedule` that follow `anchor`.
    pub fn new(schedule: &'a Schedule<'a>, anchor: Date) -> (r: Self)
        ensures
            r.schedule() == *schedule,
            r.anchor() == anchor,
    {
        Self { schedule, anchor }
    }

    /// Gives the next date of the schedule and moves on to it. On failure
    /// the cursor stays where it is.
    pub fn next(&mut self) -> (r: Result<Date, DateError>)
        ensures
            final(self).schedule() == old(self).schedule(),
            match r {
                Ok(d) => old(self).schedule().next_adjusted_spec(old(self).anchor()@) == Some(d@)
                    && d@ > old(self).anchor()@ && final(self).anchor() == d,
                Err(e) => e == DateError::DateOutOfRange && old(self).schedule().next_adjusted_spec(
                    old(self).anchor()@,
                ) is None && final(self).anchor() == old(self).anchor(),
            },
    {
        let res = schedule_iterator_next(self.schedule, self.anchor)?;
        self.anchor = res;
        Ok(res)
    }
}

/// The date that a cursor gives next.
fn schedule_iterator_next(schedule: &Schedule, anchor: Date) -> (r: Result<Date, DateError>)
    ensures
        match r {
            Ok(d) => schedule.next_adjusted_spec(anchor@) == Some(d@) && d@ > anchor@,
            Err(e) => e == DateError::DateOutOfRange && schedule.next_adjusted_spec(anchor@)
                is None,
        },
{
    schedule_next_adjusted(schedule, anchor)
}

} // verus!
