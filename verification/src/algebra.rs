//! Business days, adjustment of dates, and day counts.
//!
//! Nothing here changes a calendar or a date: each function computes a new
//! value from what it is given. The spec functions work on day numbers, the
//! views of the dates.

use vstd::prelude::*;
use crate::calendar::Calendar;
use crate::conventions::{AdjustRule, DayCount};
use crate::date::{
    add_days_spec, day_number, day_numbers, day_of, days_in_month, days_in_year, in_range, is_leap,
    lemma_civil_exists, lemma_day_in_year, lemma_days_before_month, lemma_month_is_interval,
    lemma_valid_in_range, lemma_year_of_grows, month_of, year_of, Date, MAX_DAYS, MAX_YEAR,
    MIN_DAYS, MIN_YEAR,
};
use crate::error::DateError;

verus! {

/// Whether `date` is a business day of `calendar`.
pub fn is_business_day(date: &Date, calendar: &Calendar) -> (r: bool)
    ensures
        r == calendar.is_business(date@),
        r == !(calendar.weekend@.contains(date.weekday_spec()) || calendar.holidays@.contains(
            date@,
        )),
        in_range(date@),
{
    if calendar.weekend.contains(date.weekday()) {
        false
    } else if calendar.holidays.contains(date) {
        false
    } else {
        true
    }
}

/// Whether `m` is the first business day after day `n`.
pub open spec fn is_next_business_day(cal: &Calendar, n: int, m: int) -> bool {
    &&& n < m <= MAX_DAYS
    &&& cal.is_business(m)
    &&& forall|k: int| n < k < m ==> !cal.is_business(k)
}

/// Whether `m` is the last business day before day `n`.
pub open spec fn is_previous_business_day(cal: &Calendar, n: int, m: int) -> bool {
    &&& MIN_DAYS <= m < n
    &&& cal.is_business(m)
    &&& forall|k: int| m < k < n ==> !cal.is_business(k)
}

/// The first business day after day `n`, if there is one among the dates
/// that can be represented.
pub open spec fn next_business_day(cal: &Calendar, n: int) -> Option<int> {
    if exists|m: int| is_next_business_day(cal, n, m) {
        Some(choose|m: int| is_next_business_day(cal, n, m))
    } else {
        None
    }
}

/// The last business day before day `n`, if there is one among the dates
/// that can be represented.
pub open spec fn previous_business_day(cal: &Calendar, n: int) -> Option<int> {
    if exists|m: int| is_previous_business_day(cal, n, m) {
        Some(choose|m: int| is_previous_business_day(cal, n, m))
    } else {
        None
    }
}

/// There is one first business day after `n` at most.
pub proof fn lemma_next_business_day_is(cal: &Calendar, n: int, m: int)
    requires
        is_next_business_day(cal, n, m),
    ensures
        next_business_day(cal, n) == Some(m),
{
    let c = choose|c: int| is_next_business_day(cal, n, c);
    assert(is_next_business_day(cal, n, c));
    assert(c == m) by {
        if c < m {
            assert(!cal.is_business(c));
        } else if m < c {
            assert(!cal.is_business(m));
        }
    }
}

/// There is one last business day before `n` at most.
pub proof fn lemma_previous_business_day_is(cal: &Calendar, n: int, m: int)
    requires
        is_previous_business_day(cal, n, m),
    ensures
        previous_business_day(cal, n) == Some(m),
{
    let c = choose|c: int| is_previous_business_day(cal, n, c);
    assert(is_previous_business_day(cal, n, c));
    assert(c == m) by {
        if c < m {
            assert(!cal.is_business(m));
        } else if m < c {
            assert(!cal.is_business(c));
        }
    }
}

/// Searches forward, a day at a time, for the first business day after
/// `date`.
pub fn add_adjust(date: &Date, calendar: &Calendar) -> (r: Result<Date, DateError>)
    ensures
        match r {
            Ok(d) => next_business_day(calendar, date@) == Some(d@),
            Err(e) => e == DateError::DateOutOfRange && next_business_day(calendar, date@) is None,
        },
{
    let mut t: u64 = 1;
    loop
        invariant
            1 <= t <= MAX_DAYS - MIN_DAYS + 1,
            forall|k: int| date@ < k < date@ + t ==> !calendar.is_business(k),
        decreases MAX_DAYS - MIN_DAYS + 1 - t,
    {
        match date.checked_add_days(t) {
            None => {
                assert forall|m: int| !is_next_business_day(calendar, date@, m) by {
                    if date@ < m <= MAX_DAYS {
                        assert(!calendar.is_business(m));
                    }
                }
                return Err(DateError::DateOutOfRange);
            },
            Some(adj_date) => {
                if is_business_day(&adj_date, calendar) {
                    proof {
                        lemma_next_business_day_is(calendar, date@, adj_date@);
                    }
                    return Ok(adj_date);
                }
                t += 1;
            },
        }
    }
}

/// Searches backward, a day at a time, for the last business day before
/// `date`.
pub fn sub_adjust(date: &Date, calendar: &Calendar) -> (r: Result<Date, DateError>)
    ensures
        match r {
            Ok(d) => previous_business_day(calendar, date@) == Some(d@),
            Err(e) => e == DateError::DateOutOfRange && previous_business_day(calendar, date@)
                is None,
        },
{
    let mut t: u64 = 1;
    loop
        invariant
            1 <= t <= MAX_DAYS - MIN_DAYS + 1,
            forall|k: int| date@ - t < k < date@ ==> !calendar.is_business(k),
        decreases MAX_DAYS - MIN_DAYS + 1 - t,
    {
        match date.checked_sub_days(t) {
            None => {
                assert forall|m: int| !is_previous_business_day(calendar, date@, m) by {
                    if MIN_DAYS <= m < date@ {
                        assert(!calendar.is_business(m));
                    }
                }
                return Err(DateError::DateOutOfRange);
            },
            Some(adj_date) => {
                if is_business_day(&adj_date, calendar) {
                    proof {
                        lemma_previous_business_day_is(calendar, date@, adj_date@);
                    }
                    return Ok(adj_date);
                }
                t += 1;
            },
        }
    }
}

/// The day that `adjust` moves day `n` to, or `None` where the search that
/// the rule asks for finds no business day among the dates that can be
/// represented.
///
/// Without a calendar, and on a business day, every rule leaves the day
/// where it is.
pub open spec fn adjust_spec(n: int, cal: Option<&Calendar>, rule: Option<AdjustRule>) -> Option<
    int,
> {
    match cal {
        None => Some(n),
        Some(c) => if c.is_business(n) {
            Some(n)
        } else {
            match rule {
                None => Some(n),
                Some(AdjustRule::Unadjusted) => Some(n),
                Some(AdjustRule::Following) => next_business_day(c, n),
                Some(AdjustRule::Preceding) => previous_business_day(c, n),
                Some(AdjustRule::ModFollowing) => match next_business_day(c, n) {
                    None => None,
                    Some(f) => if month_of(f) != month_of(n) {
                        previous_business_day(c, n)
                    } else {
                        Some(f)
                    },
                },
                Some(AdjustRule::ModPreceding) => match previous_business_day(c, n) {
                    None => None,
                    Some(p) => if month_of(p) != month_of(n) {
                        next_business_day(c, n)
                    } else {
                        Some(p)
                    },
                },
                Some(AdjustRule::HalfMonthModFollowing) => match next_business_day(c, n) {
                    None => None,
                    Some(f) => if month_of(f) != month_of(n) || (day_of(n) <= 15 && day_of(f)
                        > 15) {
                        previous_business_day(c, n)
                    } else {
                        Some(f)
                    },
                },
                Some(AdjustRule::Nearest) => match (
                    next_business_day(c, n),
                    previous_business_day(c, n),
                ) {
                    (Some(f), Some(p)) => if f - n <= n - p {
                        Some(f)
                    } else {
                        Some(p)
                    },
                    _ => None,
                },
            }
        },
    }
}

/// Whether `rule` moves dates that are no business days.
pub open spec fn moves_dates(rule: Option<AdjustRule>) -> bool {
    rule is Some && rule != Some(AdjustRule::Unadjusted)
}

/// Moves `date` to a business day of the calendar by the rule given. The
/// date comes back unchanged if there is no calendar, if it is a business
/// day, or if the rule is missing or `Unadjusted`.
///
/// Fails with `DateOutOfRange` where a search that the rule asks for finds no
/// business day among the dates that can be represented.
pub fn adjust(date: &Date, opt_calendar: Option<&Calendar>, adjust_rule: Option<AdjustRule>) -> (r:
    Result<Date, DateError>)
    ensures
        match r {
            Ok(d) => adjust_spec(date@, opt_calendar, adjust_rule) == Some(d@),
            Err(e) => e == DateError::DateOutOfRange && adjust_spec(
                date@,
                opt_calendar,
                adjust_rule,
            ) is None,
        },
        opt_calendar is Some ==> in_range(date@),
        opt_calendar is None ==> r == Ok::<Date, DateError>(*date),
        opt_calendar matches Some(c) && c.is_business(date@) ==> r == Ok::<Date, DateError>(*date),
        opt_calendar matches Some(c) ==> (r matches Ok(d) ==> {
            &&& moves_dates(adjust_rule) ==> c.is_business(d@)
            &&& adjust_rule == Some(AdjustRule::Following) ==> d@ >= date@
            &&& adjust_rule == Some(AdjustRule::Preceding) ==> d@ <= date@
            &&& adjust_rule == Some(AdjustRule::ModFollowing) && !leaves_month_both_ways(c, date@)
                ==> month_of(d@) == month_of(date@)
            &&& adjust_rule == Some(AdjustRule::Nearest) && !c.is_business(date@)
                && next_business_day(c, date@)->0 - date@ == date@ - previous_business_day(
                c,
                date@,
            )->0 ==> Some(d@) == next_business_day(c, date@)
        }),
{
    let calendar = match opt_calendar {
        None => {
            return Ok(*date);
        },
        Some(c) => c,
    };
    if is_business_day(date, calendar) {
        return Ok(*date);
    }
    proof {
        lemma_following(date@, calendar);
        lemma_preceding(date@, calendar);
        if moves_dates(adjust_rule) {
            lemma_adjust_gives_business_day(date@, calendar, adjust_rule);
        }
    }
    match adjust_rule {
        None => Ok(*date),
        Some(AdjustRule::Unadjusted) => Ok(*date),
        Some(AdjustRule::Following) => add_adjust(date, calendar),
        Some(AdjustRule::ModFollowing) => {
            let adj_date = add_adjust(date, calendar)?;
            if adj_date.month() != date.month() {
                sub_adjust(date, calendar)
            } else {
                Ok(adj_date)
            }
        },
        Some(AdjustRule::Preceding) => sub_adjust(date, calendar),
        Some(AdjustRule::ModPreceding) => {
            let adj_date = sub_adjust(date, calendar)?;
            if adj_date.month() != date.month() {
                add_adjust(date, calendar)
            } else {
                Ok(adj_date)
            }
        },
        Some(AdjustRule::HalfMonthModFollowing) => {
            let adj_date = add_adjust(date, calendar)?;
            if adj_date.month() != date.month() {
                sub_adjust(date, calendar)
            } else if date.day() <= 15 && adj_date.day() > 15 {
                sub_adjust(date, calendar)
            } else {
                Ok(adj_date)
            }
        },
        Some(AdjustRule::Nearest) => {
            let follow_date = add_adjust(date, calendar)?;
            let prec_date = sub_adjust(date, calendar)?;
            if follow_date.days_since(date) <= date.days_since(&prec_date) {
                Ok(follow_date)
            } else {
                Ok(prec_date)
            }
        },
    }
}

/// Where a business day follows day `n`, there is a first one.
pub proof fn lemma_next_business_day_exists(cal: &Calendar, n: int, m: int)
    requires
        n < m <= MAX_DAYS,
        cal.is_business(m),
    ensures
        next_business_day(cal, n) matches Some(f) && f <= m,
    decreases m - n,
{
    if forall|k: int| n < k < m ==> !cal.is_business(k) {
        lemma_next_business_day_is(cal, n, m);
    } else {
        let k = choose|k: int| n < k < m && cal.is_business(k);
        lemma_next_business_day_exists(cal, n, k);
    }
}

/// Where a business day comes before day `n`, there is a last one.
pub proof fn lemma_previous_business_day_exists(cal: &Calendar, n: int, m: int)
    requires
        MIN_DAYS <= m < n,
        cal.is_business(m),
    ensures
        previous_business_day(cal, n) matches Some(p) && p >= m,
    decreases n - m,
{
    if forall|k: int| m < k < n ==> !cal.is_business(k) {
        lemma_previous_business_day_is(cal, n, m);
    } else {
        let k = choose|k: int| m < k < n && cal.is_business(k);
        lemma_previous_business_day_exists(cal, n, k);
    }
}

/// A business day is left where it is, whatever the rule.
pub proof fn lemma_adjust_keeps_business_day(n: int, cal: &Calendar, rule: Option<AdjustRule>)
    requires
        cal.is_business(n),
    ensures
        adjust_spec(n, Some(cal), rule) == Some(n),
{
}

/// Without a calendar every day is left where it is, whatever the rule.
pub proof fn lemma_adjust_without_calendar(n: int, rule: Option<AdjustRule>)
    ensures
        adjust_spec(n, None, rule) == Some(n),
{
}

/// `Following` gives the first business day that is not before the day, and
/// fails only where no business day is left up to the last date.
pub proof fn lemma_following(n: int, cal: &Calendar)
    requires
        in_range(n),
    ensures
        match adjust_spec(n, Some(cal), Some(AdjustRule::Following)) {
            Some(f) => {
                &&& n <= f <= MAX_DAYS
                &&& cal.is_business(f)
                &&& forall|k: int| n <= k < f ==> !cal.is_business(k)
            },
            None => forall|k: int| n <= k <= MAX_DAYS ==> !cal.is_business(k),
        },
{
    if !cal.is_business(n) {
        match next_business_day(cal, n) {
            Some(f) => {
                assert(is_next_business_day(cal, n, f));
            },
            None => {
                assert forall|k: int| n <= k <= MAX_DAYS implies !cal.is_business(k) by {
                    if n < k && cal.is_business(k) {
                        lemma_next_business_day_exists(cal, n, k);
                    }
                }
            },
        }
    }
}

/// `Preceding` gives the last business day that is not after the day, and
/// fails only where no business day is left down to the first date.
pub proof fn lemma_preceding(n: int, cal: &Calendar)
    requires
        in_range(n),
    ensures
        match adjust_spec(n, Some(cal), Some(AdjustRule::Preceding)) {
            Some(p) => {
                &&& MIN_DAYS <= p <= n
                &&& cal.is_business(p)
                &&& forall|k: int| p < k <= n ==> !cal.is_business(k)
            },
            None => forall|k: int| MIN_DAYS <= k <= n ==> !cal.is_business(k),
        },
{
    if !cal.is_business(n) {
        match previous_business_day(cal, n) {
            Some(p) => {
                assert(is_previous_business_day(cal, n, p));
            },
            None => {
                assert forall|k: int| MIN_DAYS <= k <= n implies !cal.is_business(k) by {
                    if k < n && cal.is_business(k) {
                        lemma_previous_business_day_exists(cal, n, k);
                    }
                }
            },
        }
    }
}

/// A rule that moves dates gives a business day wherever it gives a day, and
/// that day is one that can be represented.
pub proof fn lemma_adjust_gives_business_day(n: int, cal: &Calendar, rule: Option<AdjustRule>)
    requires
        in_range(n),
        moves_dates(rule),
    ensures
        adjust_spec(n, Some(cal), rule) matches Some(r) ==> cal.is_business(r) && in_range(r),
{
    if !cal.is_business(n) {
        if let Some(f) = next_business_day(cal, n) {
            assert(is_next_business_day(cal, n, f));
        }
        if let Some(p) = previous_business_day(cal, n) {
            assert(is_previous_business_day(cal, n, p));
        }
    }
}

/// Whatever the calendar and the rule, the day that `adjust` gives is one
/// that can be represented.
pub proof fn lemma_adjust_in_range(n: int, cal: Option<&Calendar>, rule: Option<AdjustRule>)
    requires
        in_range(n),
    ensures
        adjust_spec(n, cal, rule) matches Some(r) ==> in_range(r),
{
    if let Some(c) = cal {
        if moves_dates(rule) {
            lemma_adjust_gives_business_day(n, c, rule);
        }
    }
}

/// Whether day `n` is no business day and both its first business day after
/// it and its last one before it lie in a month of another number than its
/// own.
pub open spec fn leaves_month_both_ways(cal: &Calendar, n: int) -> bool {
    &&& !cal.is_business(n)
    &&& next_business_day(cal, n) matches Some(f) && month_of(f) != month_of(n)
    &&& previous_business_day(cal, n) matches Some(p) && month_of(p) != month_of(n)
}

/// `ModFollowing` gives no day of a month of another number than the day's
/// own, unless the business days on both sides of the day lie in such
/// months.
pub proof fn lemma_mod_following_keeps_month(n: int, cal: &Calendar)
    requires
        !leaves_month_both_ways(cal, n),
    ensures
        adjust_spec(n, Some(cal), Some(AdjustRule::ModFollowing)) matches Some(r) ==> month_of(r)
            == month_of(n),
{
}

/// `ModPreceding` gives no day of a month of another number than the day's
/// own, unless the business days on both sides of the day lie in such
/// months.
pub proof fn lemma_mod_preceding_keeps_month(n: int, cal: &Calendar)
    requires
        !leaves_month_both_ways(cal, n),
    ensures
        adjust_spec(n, Some(cal), Some(AdjustRule::ModPreceding)) matches Some(r) ==> month_of(r)
            == month_of(n),
{
}

/// A day whose month has a business day does not leave the month both ways;
/// the business day next to it on that side lies in its month and year.
pub proof fn lemma_business_day_in_month(n: int, cal: &Calendar, b: int)
    requires
        in_range(n),
        in_range(b),
        cal.is_business(b),
        year_of(b) == year_of(n),
        month_of(b) == month_of(n),
    ensures
        !leaves_month_both_ways(cal, n),
        n < b ==> (next_business_day(cal, n) matches Some(f) && year_of(f) == year_of(n)
            && month_of(f) == month_of(n)),
        b < n ==> (previous_business_day(cal, n) matches Some(p) && year_of(p) == year_of(n)
            && month_of(p) == month_of(n)),
{
    if n < b {
        lemma_next_business_day_exists(cal, n, b);
        let f = next_business_day(cal, n)->0;
        assert(is_next_business_day(cal, n, f));
        lemma_month_is_interval(n, f, b);
    } else if b < n {
        lemma_previous_business_day_exists(cal, n, b);
        let p = previous_business_day(cal, n)->0;
        assert(is_previous_business_day(cal, n, p));
        lemma_month_is_interval(b, p, n);
    }
}

/// Where the business days on both sides of a day are as near, `Nearest`
/// gives the one after it.
pub proof fn lemma_nearest_tie(n: int, cal: &Calendar, f: int, p: int)
    requires
        !cal.is_business(n),
        next_business_day(cal, n) == Some(f),
        previous_business_day(cal, n) == Some(p),
        f - n == n - p,
    ensures
        adjust_spec(n, Some(cal), Some(AdjustRule::Nearest)) == Some(f),
{
}

/// Whether adjusting day `k` ends a search for a day after `anchor`: it
/// gives a day after `anchor`, or no day at all.
pub open spec fn ends_search(
    anchor: int,
    k: int,
    cal: Option<&Calendar>,
    rule: Option<AdjustRule>,
) -> bool {
    match adjust_spec(k, cal, rule) {
        Some(a) => a > anchor,
        None => true,
    }
}

/// Whether `k` is the first day from `from` on whose adjustment ends a
/// search for a day after `anchor`.
pub open spec fn is_first_ending(
    anchor: int,
    from: int,
    k: int,
    cal: Option<&Calendar>,
    rule: Option<AdjustRule>,
) -> bool {
    &&& from <= k <= MAX_DAYS
    &&& ends_search(anchor, k, cal, rule)
    &&& forall|j: int| from <= j < k ==> !ends_search(anchor, j, cal, rule)
}

/// The adjusted day after `anchor` that a search from day `from` on gives:
/// the adjustment of the first day, from `from` on, that is adjusted to a day
/// after `anchor`. `None` where an adjustment on the way gives no day, or
/// where no day is left to try.
pub open spec fn adjust_after(
    anchor: int,
    from: int,
    cal: Option<&Calendar>,
    rule: Option<AdjustRule>,
) -> Option<int> {
    if exists|k: int| is_first_ending(anchor, from, k, cal, rule) {
        adjust_spec(choose|k: int| is_first_ending(anchor, from, k, cal, rule), cal, rule)
    } else {
        None
    }
}

/// There is one first day that ends the search at most.
pub proof fn lemma_adjust_after_is(
    anchor: int,
    from: int,
    k: int,
    cal: Option<&Calendar>,
    rule: Option<AdjustRule>,
)
    requires
        is_first_ending(anchor, from, k, cal, rule),
    ensures
        adjust_after(anchor, from, cal, rule) == adjust_spec(k, cal, rule),
{
    let c = choose|c: int| is_first_ending(anchor, from, c, cal, rule);
    assert(is_first_ending(anchor, from, c, cal, rule));
    assert(c == k) by {
        if c < k {
            assert(!ends_search(anchor, c, cal, rule));
        } else if k < c {
            assert(!ends_search(anchor, k, cal, rule));
        }
    }
}

/// The search makes progress: the day it gives lies after `anchor`. It can
/// be represented, and under a rule that moves dates it is a business day.
pub proof fn lemma_adjust_after_progress(
    anchor: int,
    from: int,
    cal: Option<&Calendar>,
    rule: Option<AdjustRule>,
)
    requires
        MIN_DAYS <= from,
    ensures
        adjust_after(anchor, from, cal, rule) matches Some(a) ==> {
            &&& a > anchor
            &&& in_range(a)
            &&& (cal matches Some(c) ==> (moves_dates(rule) ==> c.is_business(a)))
        },
{
    if exists|k: int| is_first_ending(anchor, from, k, cal, rule) {
        let k = choose|k: int| is_first_ending(anchor, from, k, cal, rule);
        lemma_adjust_in_range(k, cal, rule);
        if let Some(c) = cal {
            if moves_dates(rule) {
                lemma_adjust_gives_business_day(k, c, rule);
            }
        }
    }
}

/// Adjusts `next_date`; where that gives no date after `anchor_date`, goes on
/// from `next_date` a day at a time until the adjusted date lies after
/// `anchor_date`.
///
/// Fails with `DateOutOfRange` where an adjustment fails or the days run
/// out.
pub fn force_adjust(
    anchor_date: &Date,
    next_date: &Date,
    opt_calendar: Option<&Calendar>,
    opt_adjust_rule: Option<AdjustRule>,
) -> (r: Result<Date, DateError>)
    ensures
        match r {
            Ok(d) => adjust_after(anchor_date@, next_date@, opt_calendar, opt_adjust_rule) == Some(
                d@,
            ) && d@ > anchor_date@,
            Err(e) => e == DateError::DateOutOfRange && adjust_after(
                anchor_date@,
                next_date@,
                opt_calendar,
                opt_adjust_rule,
            ) is None,
        },
{
    let anchor = anchor_date.num_days_from_ce();
    let first = next_date.num_days_from_ce();
    let mut dayi: u64 = 0;
    loop
        invariant
            0 <= dayi <= MAX_DAYS - MIN_DAYS + 1,
            anchor == anchor_date@,
            first == next_date@,
            in_range(first as int),
            forall|j: int|
                first <= j < first + dayi ==> !ends_search(
                    anchor as int,
                    j,
                    opt_calendar,
                    opt_adjust_rule,
                ),
        decreases MAX_DAYS - MIN_DAYS + 1 - dayi,
    {
        let raw = match next_date.checked_add_days(dayi) {
            Some(raw) => raw,
            None => {
                assert forall|k: int|
                    !is_first_ending(
                        anchor as int,
                        first as int,
                        k,
                        opt_calendar,
                        opt_adjust_rule,
                    ) by {
                    if first <= k <= MAX_DAYS {
                        assert(!ends_search(anchor as int, k, opt_calendar, opt_adjust_rule));
                    }
                }
                return Err(DateError::DateOutOfRange);
            },
        };
        proof {
            if ends_search(anchor as int, raw@, opt_calendar, opt_adjust_rule) {
                lemma_adjust_after_is(
                    anchor as int,
                    first as int,
                    raw@,
                    opt_calendar,
                    opt_adjust_rule,
                );
            }
        }
        let res = adjust(&raw, opt_calendar, opt_adjust_rule)?;
        if res.num_days_from_ce() > anchor {
            return Ok(res);
        }
        dayi += 1;
    }
}

/// Between a business day and the next one, a rule that moves dates sends
/// a day to one of the two.
proof fn lemma_adjust_between(prev: int, k: int, f: int, cal: &Calendar, rule: Option<AdjustRule>)
    requires
        in_range(prev),
        cal.is_business(prev),
        is_next_business_day(cal, prev, f),
        prev < k <= f,
        moves_dates(rule),
    ensures
        adjust_spec(k, Some(cal), rule) == Some(f) || adjust_spec(k, Some(cal), rule) == Some(prev),
        k == f ==> adjust_spec(k, Some(cal), rule) == Some(f),
{
    if k < f {
        lemma_next_business_day_is(cal, k, f);
        lemma_previous_business_day_is(cal, k, prev);
    }
}

/// A search that has come to day `k` without an end finds the next business
/// day `f`.
proof fn lemma_search_finds_next(
    prev: int,
    k: int,
    f: int,
    cal: &Calendar,
    rule: Option<AdjustRule>,
)
    requires
        in_range(prev),
        cal.is_business(prev),
        is_next_business_day(cal, prev, f),
        prev < k <= f,
        moves_dates(rule),
        forall|j: int| prev + 1 <= j < k ==> !ends_search(prev, j, Some(cal), rule),
    ensures
        adjust_after(prev, prev + 1, Some(cal), rule) == Some(f),
    decreases f - k,
{
    lemma_adjust_between(prev, k, f, cal, rule);
    if ends_search(prev, k, Some(cal), rule) {
        lemma_adjust_after_is(prev, prev + 1, k, Some(cal), rule);
    } else {
        lemma_search_finds_next(prev, k + 1, f, cal, rule);
    }
}

/// From a business day on, under a rule that moves dates, the search for an
/// adjusted day after it finds the next business day, and fails only where
/// there is none.
pub proof fn lemma_adjust_after_business_day(prev: int, cal: &Calendar, rule: Option<AdjustRule>)
    requires
        in_range(prev),
        cal.is_business(prev),
        moves_dates(rule),
    ensures
        adjust_after(prev, prev + 1, Some(cal), rule) == next_business_day(cal, prev),
{
    match next_business_day(cal, prev) {
        Some(f) => {
            assert(is_next_business_day(cal, prev, f));
            lemma_search_finds_next(prev, prev + 1, f, cal, rule);
        },
        None => {
            let from = prev + 1;
            if exists|k: int| is_first_ending(prev, from, k, Some(cal), rule) {
                let k = choose|k: int| is_first_ending(prev, from, k, Some(cal), rule);
                lemma_adjust_gives_business_day(k, cal, rule);
                if let Some(a) = adjust_spec(k, Some(cal), rule) {
                    lemma_next_business_day_exists(cal, prev, a);
                }
            }
        },
    }
}

/// Under a rule that leaves dates where they are, the search for an adjusted
/// day after a day finds the day after it.
pub proof fn lemma_adjust_after_unadjusted(
    prev: int,
    cal: Option<&Calendar>,
    rule: Option<AdjustRule>,
)
    requires
        in_range(prev),
        cal is None || !moves_dates(rule),
    ensures
        adjust_after(prev, prev + 1, cal, rule) == add_days_spec(prev, 1),
{
    let from = prev + 1;
    if prev < MAX_DAYS {
        assert(is_first_ending(prev, from, from, cal, rule));
        lemma_adjust_after_is(prev, from, from, cal, rule);
    } else {
        assert forall|k: int| !is_first_ending(prev, from, k, cal, rule) by {}
    }
}

/// The business days that follow day `prev`, each the adjusted day that a
/// search from the day after the one before gives, up to the first that is
/// not before `end`. `None` where a search gives no day.
pub open spec fn business_days_after(
    prev: int,
    end: int,
    cal: &Calendar,
    rule: Option<AdjustRule>,
) -> Option<Seq<int>>
    decreases end - prev,
{
    if prev >= end {
        Some(Seq::empty())
    } else {
        match adjust_after(prev, prev + 1, Some(cal), rule) {
            None => None,
            Some(next) => if next >= end {
                Some(seq![next])
            } else if next > prev {
                match business_days_after(next, end, cal, rule) {
                    None => None,
                    Some(rest) => Some(seq![next] + rest),
                }
            } else {
                None
            },
        }
    }
}

/// The rule that stands for a missing one where dates are adjusted to a
/// calendar: `Following`.
pub open spec fn or_following(rule: Option<AdjustRule>) -> Option<AdjustRule> {
    if rule is None {
        Some(AdjustRule::Following)
    } else {
        rule
    }
}

/// The days of the business day schedule from day `start` to day `end`: the
/// adjusted start, then the days that follow it up to the adjusted end.
pub open spec fn bus_day_schedule_spec(
    start: int,
    end: int,
    cal: &Calendar,
    rule: Option<AdjustRule>,
) -> Option<Seq<int>> {
    let rule = or_following(rule);
    match (adjust_spec(start, Some(cal), rule), adjust_spec(end, Some(cal), rule)) {
        (Some(s), Some(e)) => match business_days_after(s, e, cal, rule) {
            Some(rest) => Some(seq![s] + rest),
            None => None,
        },
        _ => None,
    }
}

/// Whether a business day schedule under `rule` stops on day `d`: on every
/// day if the rule leaves dates where they are, else on business days.
pub open spec fn is_stop(cal: &Calendar, rule: Option<AdjustRule>, d: int) -> bool {
    moves_dates(rule) ==> cal.is_business(d)
}

/// Whether `days` holds, in rising order, the stops after day `lo` up to day
/// `hi`, and nothing else.
pub open spec fn lists_stops(
    days: Seq<int>,
    lo: int,
    hi: int,
    cal: &Calendar,
    rule: Option<AdjustRule>,
) -> bool {
    &&& forall|i: int, j: int| 0 <= i < j < days.len() ==> days[i] < days[j]
    &&& forall|i: int|
        0 <= i < days.len() ==> lo < #[trigger] days[i] <= hi && is_stop(cal, rule, days[i])
    &&& forall|d: int| lo < d <= hi && #[trigger] is_stop(cal, rule, d) ==> days.contains(d)
}

/// From one stop to a later one the walk never fails, and it gives every
/// stop between them and the later one itself, in rising order.
pub proof fn lemma_business_days_after(
    prev: int,
    end: int,
    cal: &Calendar,
    rule: Option<AdjustRule>,
)
    requires
        in_range(prev),
        in_range(end),
        is_stop(cal, rule, prev),
        is_stop(cal, rule, end),
    ensures
        business_days_after(prev, end, cal, rule) matches Some(rest) && lists_stops(
            rest,
            prev,
            end,
            cal,
            rule,
        ),
        prev < end ==> business_days_after(prev, end, cal, rule)->0.last() == end,
    decreases end - prev,
{
    if prev < end {
        if moves_dates(rule) {
            lemma_adjust_after_business_day(prev, cal, rule);
            lemma_next_business_day_exists(cal, prev, end);
            let f = next_business_day(cal, prev)->0;
            assert(is_next_business_day(cal, prev, f));
        } else {
            lemma_adjust_after_unadjusted(prev, Some(cal), rule);
        }
        let next = adjust_after(prev, prev + 1, Some(cal), rule)->0;
        assert(prev < next <= end && is_stop(cal, rule, next));
        assert(forall|d: int| prev < d < next ==> !is_stop(cal, rule, d));
        if next >= end {
            let days = seq![next];
            assert(days[0] == next);
            assert(lists_stops(days, prev, end, cal, rule));
        } else {
            lemma_business_days_after(next, end, cal, rule);
            let rest = business_days_after(next, end, cal, rule)->0;
            let days = seq![next] + rest;
            assert(days[0] == next);
            assert forall|i: int| 1 <= i < days.len() implies days[i] == rest[i - 1] by {}
            assert forall|d: int|
                prev < d <= end && #[trigger] is_stop(cal, rule, d) implies days.contains(d) by {
                if d == next {
                    assert(days[0] == d);
                } else {
                    assert(rest.contains(d));
                    let i = choose|i: int| 0 <= i < rest.len() && rest[i] == d;
                    assert(days[i + 1] == d);
                }
            }
            assert(lists_stops(days, prev, end, cal, rule));
            assert(days.last() == rest.last());
        }
    } else {
        assert(lists_stops(Seq::<int>::empty(), prev, end, cal, rule));
    }
}

/// A business day schedule fails only where the adjustment of its start or
/// of its end fails. It begins with the adjusted start. Where the adjusted
/// end is not before the adjusted start, it ends with the adjusted end and
/// holds every stop between the two; else it holds the adjusted start only.
pub proof fn lemma_bus_day_schedule(start: int, end: int, cal: &Calendar, rule: Option<AdjustRule>)
    requires
        in_range(start),
        in_range(end),
    ensures
        match (
            adjust_spec(start, Some(cal), or_following(rule)),
            adjust_spec(end, Some(cal), or_following(rule)),
        ) {
            (Some(s), Some(e)) => {
                &&& bus_day_schedule_spec(start, end, cal, rule) matches Some(days)
                &&& days.len() >= 1
                &&& days[0] == s
                &&& lists_stops(days.drop_first(), s, e, cal, or_following(rule))
                &&& s <= e ==> days.last() == e
                &&& s >= e ==> days == seq![s]
            },
            _ => bus_day_schedule_spec(start, end, cal, rule) is None,
        },
{
    let rule = or_following(rule);
    if let (Some(s), Some(e)) = (
        adjust_spec(start, Some(cal), rule),
        adjust_spec(end, Some(cal), rule),
    ) {
        lemma_adjust_in_range(start, Some(cal), rule);
        lemma_adjust_in_range(end, Some(cal), rule);
        if moves_dates(rule) {
            lemma_adjust_gives_business_day(start, cal, rule);
            lemma_adjust_gives_business_day(end, cal, rule);
        }
        if s <= e {
            lemma_business_days_after(s, e, cal, rule);
        }
        let rest = business_days_after(s, e, cal, rule)->0;
        let days = seq![s] + rest;
        assert(days[0] == s);
        assert(days.drop_first() =~= rest);
        if s >= e {
            assert(rest =~= Seq::<int>::empty());
            assert(days =~= seq![s]);
            assert(lists_stops(rest, s, e, cal, rule));
        } else {
            assert(days.last() == rest.last());
        }
    }
}

/// The schedule of business days between two dates. Both dates are adjusted
/// to the calendar first, by `Following` if no rule is given, and both are
/// in the schedule.
///
/// Fails with `DateOutOfRange` where an adjustment finds no business day.
pub fn bus_day_schedule(
    start_date: &Date,
    end_date: &Date,
    calendar: &Calendar,
    adjust_rule: Option<AdjustRule>,
) -> (r: Result<Vec<Date>, DateError>)
    ensures
        match r {
            Ok(v) => bus_day_schedule_spec(start_date@, end_date@, calendar, adjust_rule) == Some(
                day_numbers(v@),
            ) && 1 <= v.len() <= MAX_DAYS - MIN_DAYS + 1,
            Err(e) => e == DateError::DateOutOfRange && bus_day_schedule_spec(
                start_date@,
                end_date@,
                calendar,
                adjust_rule,
            ) is None,
        },
        r is Ok <==> (adjust_spec(start_date@, Some(calendar), or_following(adjust_rule)) is Some
            && adjust_spec(end_date@, Some(calendar), or_following(adjust_rule)) is Some),
{
    let rule = match adjust_rule {
        None => Some(AdjustRule::Following),
        Some(r) => Some(r),
    };
    let new_start = adjust(start_date, Some(calendar), rule)?;
    let new_end = adjust(end_date, Some(calendar), rule)?;
    proof {
        lemma_bus_day_schedule(start_date@, end_date@, calendar, adjust_rule);
    }
    let first = new_start.num_days_from_ce();
    let last = new_end.num_days_from_ce();
    let mut schedule: Vec<Date> = Vec::new();
    schedule.push(new_start);
    let mut previous_bus_day = new_start;
    let ghost whole = business_days_after(first as int, last as int, calendar, rule);
    while previous_bus_day.num_days_from_ce() < last
        invariant
            rule == or_following(adjust_rule),
            bus_day_schedule_spec(start_date@, end_date@, calendar, adjust_rule) is Some,
            adjust_spec(start_date@, Some(calendar), rule) == Some(first as int),
            adjust_spec(end_date@, Some(calendar), rule) == Some(last as int),
            first == new_start@,
            last == new_end@,
            in_range(first as int),
            in_range(previous_bus_day@),
            whole == business_days_after(first as int, last as int, calendar, rule),
            schedule.len() >= 1,
            schedule[0] == new_start,
            first <= previous_bus_day@,
            schedule.len() <= previous_bus_day@ - first + 1,
            match business_days_after(previous_bus_day@, last as int, calendar, rule) {
                Some(rest) => whole == Some(day_numbers(schedule@).drop_first() + rest),
                None => whole is None,
            },
        decreases MAX_DAYS - previous_bus_day@,
    {
        let ghost before = day_numbers(schedule@);
        let next_day = match previous_bus_day.checked_add_days(1) {
            Some(d) => d,
            None => {
                proof {
                    let anchor = previous_bus_day@;
                    let from = anchor + 1;
                    assert forall|k: int|
                        !is_first_ending(anchor, from, k, Some(calendar), rule) by {}
                    assert(adjust_after(anchor, from, Some(calendar), rule) is None);
                    assert(business_days_after(anchor, last as int, calendar, rule) is None);
                }
                return Err(DateError::DateOutOfRange);
            },
        };
        let forced = force_adjust(&previous_bus_day, &next_day, Some(calendar), rule);
        proof {
            let anchor = previous_bus_day@;
            let from = anchor + 1;
            assert(from == next_day@);
            if forced is Err {
                assert(adjust_after(anchor, from, Some(calendar), rule) is None);
                assert(business_days_after(anchor, last as int, calendar, rule) is None);
            }
        }
        let next_bus_day = forced?;
        proof {
            lemma_adjust_after_progress(
                previous_bus_day@,
                previous_bus_day@ + 1,
                Some(calendar),
                rule,
            );
        }
        schedule.push(next_bus_day);
        proof {
            let after = day_numbers(schedule@);
            assert(after =~= before.push(next_bus_day@));
            let rest = match business_days_after(next_bus_day@, last as int, calendar, rule) {
                Some(rest) => rest,
                None => Seq::empty(),
            };
            assert(after.drop_first() + rest =~= before.drop_first() + (seq![next_bus_day@]
                + rest));
            assert(after.drop_first() + Seq::<int>::empty() =~= before.drop_first()
                + seq![next_bus_day@]);
        }
        previous_bus_day = next_bus_day;
    }
    proof {
        let got = day_numbers(schedule@);
        assert(got =~= seq![first as int] + got.drop_first());
        assert(got.drop_first() + Seq::<int>::empty() =~= got.drop_first());
    }
    Ok(schedule)
}

/// The number of business days from the start date to the end date, the
/// first counted and the last not: one less than the length of the business
/// day schedule between them.
pub fn business_days_between(
    start_date: &Date,
    end_date: &Date,
    calendar: &Calendar,
    adjust_rule: Option<AdjustRule>,
) -> (r: Result<u64, DateError>)
    ensures
        match r {
            Ok(n) => bus_day_schedule_spec(
                start_date@,
                end_date@,
                calendar,
                adjust_rule,
            ) matches Some(s) && n == s.len() - 1 && n <= MAX_DAYS - MIN_DAYS,
            Err(e) => e == DateError::DateOutOfRange && bus_day_schedule_spec(
                start_date@,
                end_date@,
                calendar,
                adjust_rule,
            ) is None,
        },
{
    let schedule = bus_day_schedule(start_date, end_date, calendar, adjust_rule)?;
    Ok((schedule.len() - 1) as u64)
}

/// The day number of the date `years` years after day `n`: the same month
/// and day where the new year has that day, else the month's last day, as
/// for February 29. `None` where the new year cannot be represented.
pub open spec fn add_years_spec(n: int, years: int) -> Option<int> {
    let y = year_of(n) + years;
    let m = month_of(n);
    let d = if day_of(n) <= days_in_month(y, m) {
        day_of(n)
    } else {
        days_in_month(y, m)
    };
    if MIN_YEAR <= y <= MAX_YEAR {
        Some(day_number(y, m, d))
    } else {
        None
    }
}

/// Where adding years gives a day, it is one that can be represented.
pub proof fn lemma_add_years_in_range(n: int, years: int)
    requires
        in_range(n),
    ensures
        add_years_spec(n, years) matches Some(r) ==> in_range(r),
{
    lemma_civil_exists(n);
    let y = year_of(n) + years;
    let m = month_of(n);
    let d = if day_of(n) <= days_in_month(y, m) {
        day_of(n)
    } else {
        days_in_month(y, m)
    };
    if MIN_YEAR <= y <= MAX_YEAR {
        lemma_valid_in_range(y, m, d);
    }
}

/// The date `years_to_add` years after `date`, on the same day of the same
/// month; February 29 becomes February 28 where the new year is no leap
/// year. `None` if the new year cannot be represented.
pub fn checked_add_years(date: &Date, years_to_add: i32) -> (r: Option<Date>)
    ensures
        match r {
            Some(d) => add_years_spec(date@, years_to_add as int) == Some(d@),
            None => add_years_spec(date@, years_to_add as int) is None,
        },
{
    let (current_year, current_month, current_day) = date.ymd();
    let new_year = match current_year.checked_add(years_to_add) {
        Some(y) => y,
        None => {
            return None;
        },
    };
    match Date::from_ymd_opt(new_year, current_month, current_day) {
        Some(d) => Some(d),
        None => Date::from_ymd_opt(new_year, current_month, 28),
    }
}

/// Whether `year` is a leap year among the years that can be represented.
pub fn is_leap_year(year: i32) -> (r: bool)
    ensures
        r == (MIN_YEAR <= year <= MAX_YEAR && is_leap(year as int)),
{
    Date::from_ymd_opt(year, 2, 29).is_some()
}

/// A fraction of a year, as a quotient of two whole numbers.
#[derive(PartialEq, Eq, Copy, Clone, Debug, Hash, Structural)]
pub struct Fraction {
    pub numerator: i64,
    pub denominator: i64,
}

/// The days from day `s` to day `e` where every month counts for 30 days
/// and every year for 360. With `clamp`, a 31st counts as a 30th.
pub open spec fn thirty_360_days(s: int, e: int, clamp: bool) -> int {
    let d1 = if clamp && day_of(s) == 31 {
        30
    } else {
        day_of(s)
    };
    let d2 = if clamp && day_of(e) == 31 {
        30
    } else {
        day_of(e)
    };
    360 * (year_of(e) - year_of(s)) + 30 * (month_of(e) - month_of(s)) + (d2 - d1)
}

/// Numerator and denominator of the years from day `lo` to a later day `hi`
/// where every day counts for one part of the year it lies in: the days
/// between them over the length of their year where they share one; else
/// the whole years between, the rest of the first year over its length, and
/// the part of the last year over its length, brought to one denominator.
pub open spec fn act_act_isda(lo: int, hi: int) -> (int, int) {
    let y1 = year_of(lo);
    let y2 = year_of(hi);
    if y1 == y2 {
        (hi - lo, days_in_year(y1))
    } else {
        let b1 = days_in_year(y1);
        let b2 = days_in_year(y2);
        let d1 = day_number(y1 + 1, 1, 1) - lo;
        let d2 = hi - day_number(y2, 1, 1);
        ((y2 - y1 - 1) * b1 * b2 + d1 * b2 + d2 * b1, b1 * b2)
    }
}

/// The distance between two days.
pub open spec fn abs_diff(a: int, b: int) -> int {
    if a <= b {
        b - a
    } else {
        a - b
    }
}

/// Numerator and denominator of the day count fraction between two days,
/// taken as they are.
///
/// `Act360` and `Act365` divide the distance of the days by 360 and 365.
/// `ActActISDA` counts from the earlier day to the later one. `D30360Euro`
/// takes a 31st for a 30th on both days; `D30365` has the same numerator
/// without that and divides by 365. `Bd252` divides the business days
/// between the days by 252 and needs a calendar.
pub open spec fn fraction_between(
    s: int,
    e: int,
    daycount: DayCount,
    cal: Option<&Calendar>,
    rule: Option<AdjustRule>,
) -> Result<(int, int), DateError> {
    match daycount {
        DayCount::Act360 => Ok((abs_diff(s, e), 360)),
        DayCount::Act365 => Ok((abs_diff(s, e), 365)),
        DayCount::ActActISDA => if s <= e {
            Ok(act_act_isda(s, e))
        } else {
            Ok(act_act_isda(e, s))
        },
        DayCount::D30360Euro => Ok((thirty_360_days(s, e, true), 360)),
        DayCount::D30365 => Ok((thirty_360_days(s, e, false), 365)),
        DayCount::Bd252 => match cal {
            None => Err(DateError::MissingCalendar),
            Some(c) => match bus_day_schedule_spec(s, e, c, rule) {
                Some(days) => Ok((days.len() - 1, 252)),
                None => Err(DateError::DateOutOfRange),
            },
        },
    }
}

/// Numerator and denominator of the day count fraction between two days.
/// With a calendar both days are adjusted first, by `Following` if no rule
/// is given; without one they are taken as they are.
pub open spec fn day_count_fraction_spec(
    start: int,
    end: int,
    daycount: DayCount,
    cal: Option<&Calendar>,
    rule: Option<AdjustRule>,
) -> Result<(int, int), DateError> {
    let rule = if cal is Some {
        or_following(rule)
    } else {
        rule
    };
    match (adjust_spec(start, cal, rule), adjust_spec(end, cal, rule)) {
        (Some(s), Some(e)) => fraction_between(s, e, daycount, cal, rule),
        _ => Err(DateError::DateOutOfRange),
    }
}

/// The fraction of a year from `lo` to `hi` under `ActActISDA`.
fn act_act_fraction(lo: &Date, hi: &Date) -> (r: Fraction)
    requires
        lo@ <= hi@,
    ensures
        (r.numerator as int, r.denominator as int) == act_act_isda(lo@, hi@),
        r.denominator > 0,
{
    let start_year = lo.year();
    let end_year = hi.year();
    let base1: i64 = if is_leap_year(start_year) {
        366
    } else {
        365
    };
    if start_year == end_year {
        return Fraction { numerator: hi.days_since(lo), denominator: base1 };
    }
    let base2: i64 = if is_leap_year(end_year) {
        366
    } else {
        365
    };
    proof {
        lemma_year_of_grows(lo@, hi@);
        lemma_day_in_year(lo@);
        lemma_day_in_year(hi@);
        lemma_days_before_month(year_of(lo@) + 1);
        lemma_days_before_month(year_of(hi@));
    }
    let next_new_year = Date::from_ymd_opt(start_year + 1, 1, 1).unwrap();
    let new_year = Date::from_ymd_opt(end_year, 1, 1).unwrap();
    let years: i64 = (end_year - start_year - 1) as i64;
    let days1: i64 = next_new_year.days_since(lo);
    let days2: i64 = hi.days_since(&new_year);
    assert(0 <= years * base1 <= 600_000 * 366 && 0 <= (years * base1) * base2 <= 600_000 * 366
        * 366 && 0 <= days1 * base2 <= 366 * 366 && 0 <= days2 * base1 <= 366 * 366 && base1
        * base2 <= 366 * 366) by (nonlinear_arith)
        requires
            0 <= years <= 600_000,
            365 <= base1 <= 366,
            365 <= base2 <= 366,
            0 <= days1 <= 366,
            0 <= days2 <= 366,
    ;
    Fraction {
        numerator: years * base1 * base2 + days1 * base2 + days2 * base1,
        denominator: base1 * base2,
    }
}

/// The days between two dates on the 30/360 scale.
fn thirty_360(start: &Date, end: &Date, clamp: bool) -> (r: i64)
    ensures
        r == thirty_360_days(start@, end@, clamp),
{
    let (start_year, start_month, start_day) = start.ymd();
    let (end_year, end_month, end_day) = end.ymd();
    let day1: i64 = if clamp && start_day == 31 {
        30
    } else {
        start_day as i64
    };
    let day2: i64 = if clamp && end_day == 31 {
        30
    } else {
        end_day as i64
    };
    360 * (end_year as i64 - start_year as i64) + 30 * (end_month as i64 - start_month as i64) + (
    day2 - day1)
}

/// The day count fraction between two dates as they are, without any
/// adjustment of the two; `calendar` and `adjust_rule` serve `Bd252` only.
///
/// Fails with `MissingCalendar` for `Bd252` without a calendar, and with
/// `DateOutOfRange` where the business days cannot be counted.
pub fn fraction_of_dates(
    start: &Date,
    end: &Date,
    daycount: DayCount,
    calendar: Option<&Calendar>,
    adjust_rule: Option<AdjustRule>,
) -> (r: Result<Fraction, DateError>)
    ensures
        match r {
            Ok(f) => fraction_between(start@, end@, daycount, calendar, adjust_rule) == Ok::<
                (int, int),
                DateError,
            >((f.numerator as int, f.denominator as int)) && f.denominator > 0,
            Err(e) => fraction_between(start@, end@, daycount, calendar, adjust_rule) == Err::<
                (int, int),
                DateError,
            >(e),
        },
{
    let signed = end.days_since(start);
    let delta: i64 = if signed < 0 {
        -signed
    } else {
        signed
    };
    assert(delta == abs_diff(start@, end@));
    match daycount {
        DayCount::Act360 => Ok(Fraction { numerator: delta, denominator: 360 }),
        DayCount::Act365 => Ok(Fraction { numerator: delta, denominator: 365 }),
        DayCount::ActActISDA => {
            let f = if signed < 0 {
                act_act_fraction(end, start)
            } else {
                act_act_fraction(start, end)
            };
            Ok(f)
        },
        DayCount::D30360Euro => {
            let days = thirty_360(start, end, true);
            Ok(Fraction { numerator: days, denominator: 360 })
        },
        DayCount::D30365 => {
            let days = thirty_360(start, end, false);
            Ok(Fraction { numerator: days, denominator: 365 })
        },
        DayCount::Bd252 => business_day_fraction(start, end, calendar, adjust_rule),
    }
}

/// The business days between two dates over 252.
fn business_day_fraction(
    start: &Date,
    end: &Date,
    calendar: Option<&Calendar>,
    adjust_rule: Option<AdjustRule>,
) -> (r: Result<Fraction, DateError>)
    ensures
        match r {
            Ok(f) => fraction_between(start@, end@, DayCount::Bd252, calendar, adjust_rule) == Ok::<
                (int, int),
                DateError,
            >((f.numerator as int, f.denominator as int)) && f.denominator > 0,
            Err(e) => fraction_between(start@, end@, DayCount::Bd252, calendar, adjust_rule)
                == Err::<(int, int), DateError>(e),
        },
{
    match calendar {
        None => Err(DateError::MissingCalendar),
        Some(c) => match business_days_between(start, end, c, adjust_rule) {
            Ok(days) => Ok(Fraction { numerator: days as i64, denominator: 252 }),
            Err(e) => Err(e),
        },
    }
}

/// The day count fraction between two dates under a convention, as an exact
/// quotient.
///
/// Without a calendar the dates are taken as they are. With a calendar both
/// are adjusted first, by `Following` if no rule is given.
///
/// Fails with `MissingCalendar` for `Bd252` without a calendar, and with
/// `DateOutOfRange` where an adjustment finds no business day.
pub fn day_count_fraction(
    start_date: &Date,
    end_date: &Date,
    daycount: DayCount,
    calendar: Option<&Calendar>,
    adjust_rule: Option<AdjustRule>,
) -> (r: Result<Fraction, DateError>)
    ensures
        match r {
            Ok(f) => day_count_fraction_spec(
                start_date@,
                end_date@,
                daycount,
                calendar,
                adjust_rule,
            ) == Ok::<(int, int), DateError>((f.numerator as int, f.denominator as int))
                && f.denominator > 0,
            Err(e) => day_count_fraction_spec(
                start_date@,
                end_date@,
                daycount,
                calendar,
                adjust_rule,
            ) == Err::<(int, int), DateError>(e),
        },
        daycount == DayCount::ActActISDA && start_date@ == end_date@ ==> (r matches Ok(f)
            ==> f.numerator == 0),
        daycount == DayCount::Bd252 && calendar is None ==> r == Err::<Fraction, DateError>(
            DateError::MissingCalendar,
        ),
{
    let some_adjust_rule = match (calendar, adjust_rule) {
        (Some(_), None) => Some(AdjustRule::Following),
        _ => adjust_rule,
    };
    let start_adjusted = adjust(start_date, calendar, some_adjust_rule)?;
    let end_adjusted = adjust(end_date, calendar, some_adjust_rule)?;
    fraction_of_dates(&start_adjusted, &end_adjusted, daycount, calendar, some_adjust_rule)
}

/// Under `ActActISDA` the fraction from a day to itself is zero.
pub proof fn lemma_act_act_of_no_days(n: int, cal: Option<&Calendar>, rule: Option<AdjustRule>)
    ensures
        day_count_fraction_spec(n, n, DayCount::ActActISDA, cal, rule) matches Ok(f) ==> f.0 == 0
            && f.1 > 0,
{
}

/// Under `Act360`, `Act365` and `ActActISDA` the fraction between two days
/// is the same whichever of them comes first.
pub proof fn lemma_fraction_either_way(s: int, e: int, daycount: DayCount)
    requires
        daycount == DayCount::Act360 || daycount == DayCount::Act365 || daycount
            == DayCount::ActActISDA,
    ensures
        fraction_between(s, e, daycount, None, None) == fraction_between(
            e,
            s,
            daycount,
            None,
            None,
        ),
{
}

/// To adjust a date twice is to adjust it once.
pub proof fn lemma_adjust_twice(n: int, cal: Option<&Calendar>, rule: Option<AdjustRule>)
    requires
        in_range(n),
    ensures
        adjust_spec(n, cal, rule) matches Some(a) ==> adjust_spec(a, cal, rule) == Some(a),
{
    if let Some(c) = cal {
        if moves_dates(rule) {
            lemma_adjust_gives_business_day(n, c, rule);
        }
    }
}

} // verus!
