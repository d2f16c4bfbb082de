// The U.S. federal holiday calendar and the payment dates of a Treasury note.
// National Holidays: https://www.law.cornell.edu/uscode/text/5/6103
// NY Federal Reserve published calendar: https://www.frbservices.org/about/holiday-schedules.

use chrono::{Datelike, NaiveDate};
use findates::algebra::{adjust, checked_add_years, day_count_fraction};
use findates::calendar::{Calendar, DateSet, WeekdaySet};
use findates::conventions::{AdjustRule, DayCount, Frequency};
use findates::date::{Date, Weekday};
use findates::schedule::Schedule;
use std::collections::HashSet;

fn ymd(year: i32, month: u32, day: u32) -> Date {
    Date::from_ymd_opt(year, month, day).unwrap()
}

fn from_naive(date: NaiveDate) -> Date {
    ymd(date.year(), date.month(), date.day())
}

// A holiday on a fixed day of the year: that day of ten years from the first
// on, each moved to the nearest business day. The schedule steps from year
// to year and has the years after the first; the first is put before them.
fn yearly_holidays(first: Date, calendar: &Calendar) -> Vec<Date> {
    let schedule: Schedule = Schedule::new(Frequency::Annual, None, None);
    let following = schedule.generate(&first, &checked_add_years(&first, 10).unwrap()).unwrap();
    let mut days = vec![first];
    days.extend(following);
    days.into_iter()
        .map(|x| adjust(&x, Some(calendar), Some(AdjustRule::Nearest)).unwrap())
        .collect()
}

// A holiday on the n-th weekday of a month.
fn floating_holidays(month: u32, weekday: chrono::Weekday, n: u8, calendar: &Calendar) -> Vec<Date> {
    (2023..=2033)
        .map(|x| NaiveDate::from_weekday_of_month_opt(x, month, weekday, n).unwrap())
        .map(|x| adjust(&from_naive(x), Some(calendar), Some(AdjustRule::Nearest)).unwrap())
        .collect()
}

// The calendar that the other tests use.
fn calendar_setup() -> Calendar {
    // Empty Calendar
    let mut ny_fed_calendar: Calendar = Calendar::new();

    // Adding weekends
    let weekend: WeekdaySet = WeekdaySet::from_days(&[Weekday::Sat, Weekday::Sun]);
    ny_fed_calendar.add_weekends(&weekend);

    // All holiday dates for the next ten years
    let new_years = yearly_holidays(ymd(2023, 1, 1), &ny_fed_calendar);
    let indep_days = yearly_holidays(ymd(2023, 7, 4), &ny_fed_calendar);
    let christmas_days = yearly_holidays(ymd(2023, 12, 25), &ny_fed_calendar);
    let veterans_days = yearly_holidays(ymd(2023, 11, 11), &ny_fed_calendar);
    let juneteenth_days = yearly_holidays(ymd(2023, 6, 19), &ny_fed_calendar);
    let thanksgiving_days = floating_holidays(11, chrono::Weekday::Thu, 4, &ny_fed_calendar);
    let labor_days = floating_holidays(9, chrono::Weekday::Mon, 1, &ny_fed_calendar);
    let columbus_days = floating_holidays(10, chrono::Weekday::Mon, 2, &ny_fed_calendar);
    let mlkjr_days = floating_holidays(1, chrono::Weekday::Mon, 3, &ny_fed_calendar);
    let washington_days = floating_holidays(2, chrono::Weekday::Mon, 3, &ny_fed_calendar);

    // Memorial day
    fn last_monday_of_may(year: i32) -> NaiveDate {
        let may_31st = NaiveDate::from_ymd_opt(year, 5, 31).unwrap();
        let delta = may_31st.weekday().num_days_from_monday();
        return may_31st - chrono::Duration::days(delta as i64);
    }
    let memorial_days: Vec<Date> = (2023..=2033)
        .map(|x| last_monday_of_may(x))
        .map(|x| adjust(&from_naive(x), Some(&ny_fed_calendar), Some(AdjustRule::Nearest)).unwrap())
        .collect();

    // Adding all Holidays to the calendar
    let all_holidays: Vec<Date> = [
        new_years,
        christmas_days,
        indep_days,
        veterans_days,
        juneteenth_days,
        thanksgiving_days,
        labor_days,
        columbus_days,
        mlkjr_days,
        washington_days,
        memorial_days,
    ]
    .concat();
    ny_fed_calendar.add_holidays(&DateSet::from_dates(&all_holidays));

    return ny_fed_calendar;
}

// Payment dates for the 10 year U.S. Treasury Note
// https://www.treasurydirect.gov/instit/annceresult/press/preanre/2023/A_20230802_2.pdf
fn payment_schedule_setup(calendar: &Calendar) -> (Vec<Date>, Vec<f64>, Vec<Date>) {
    // Issue and maturity date
    let issue_date = ymd(2023, 8, 15);
    let maturity_date = ymd(2033, 8, 15);

    // Coupon dates: the schedule has the dates after the issue and before
    // the maturity; the two ends are put beside them.
    let coupon_schedule = Schedule::new(Frequency::Semiannual, None, None);
    let coupon_dates = coupon_schedule.generate(&issue_date, &maturity_date);
    let mut coupon_dates_list: Vec<Date> = vec![issue_date];
    coupon_dates_list.extend(coupon_dates.unwrap());
    coupon_dates_list.push(maturity_date);

    // Calculate day count fractions
    let mut dcfs: Vec<f64> = vec![];
    for i in 0..(coupon_dates_list.len() - 1) {
        let dcf = day_count_fraction(
            coupon_dates_list.get(i).unwrap(),
            coupon_dates_list.get(i + 1).unwrap(),
            DayCount::D30360Euro,
            None,
            None,
        )
        .unwrap();
        dcfs.push(dcf.numerator as f64 / dcf.denominator as f64);
    }

    // Adjust for actual settlement dates
    let settlement_dates: Vec<Date> = coupon_dates_list
        .clone()
        .into_iter()
        .map(|x| adjust(&x, Some(&calendar), Some(AdjustRule::Following)).unwrap())
        .collect();

    return (coupon_dates_list, dcfs, settlement_dates);
}

// Compare the generated Holidays with the list on the Federal Reserve site
#[test]
fn holiday_test() {
    // These dates have already been modified according to the asterisks in the link.
    let dates_str = [
        "02/1/2023", "01/1/2024", "01/1/2025", "01/1/2026", "01/1/2027",
        "16/1/2023", "15/1/2024", "20/1/2025", "19/1/2026", "18/1/2027",
        "20/2/2023", "19/2/2024", "17/2/2025", "16/2/2026", "15/2/2027",
        "29/5/2023", "27/5/2024", "26/5/2025", "25/5/2026", "31/5/2027",
        "19/6/2023", "19/6/2024", "19/6/2025", "19/6/2026", "18/6/2027",
        "04/7/2023", "04/7/2024", "04/7/2025", "03/7/2026", "05/7/2027",
        "04/9/2023", "02/9/2024", "01/9/2025", "07/9/2026", "06/9/2027",
        "09/10/2023", "14/10/2024", "13/10/2025", "12/10/2026", "11/10/2027",
        "10/11/2023", "11/11/2024", "11/11/2025", "11/11/2026", "11/11/2027",
        "23/11/2023", "28/11/2024", "27/11/2025", "26/11/2026", "25/11/2027",
        "25/12/2023", "25/12/2024", "25/12/2025", "25/12/2026", "24/12/2027",
    ];

    let expected_dates: HashSet<Date> = dates_str
        .into_iter()
        .map(|x| from_naive(NaiveDate::parse_from_str(x, "%d/%m/%Y").unwrap()))
        .collect();

    let built_calendar = calendar_setup();
    let holidays_until_27: HashSet<Date> = built_calendar
        .holidays
        .clone()
        .to_vec()
        .into_iter()
        .filter(|x| *x < ymd(2027, 12, 31))
        .collect();

    assert_eq!(expected_dates, holidays_until_27);
}

#[test]
fn day_count_fractions_test() {
    // U.S. Calendar again
    let built_calendar = calendar_setup();
    // Ouputs for the Treasury Note test
    let (_, coupon_fractions, _) = payment_schedule_setup(&built_calendar);

    // As per the the Treasury Note details, it will pay coupons semi-annualy
    // always considering a half year, i.e. the 30/360 convention. This essentially
    // means that all of the fractions should be 0.5. It is a 10 year note, so
    // there are 20 half years from the issue to the maturity.
    let expected = vec![0.5; 20];
    assert_eq!(expected, coupon_fractions);
}

#[test]
fn settlement_dates_test() {
    // U.S. Calendar again
    let built_calendar = calendar_setup();
    // Ouputs for the Treasury Note test
    let (_, _, settlement_dates) = payment_schedule_setup(&built_calendar);

    // The payment dates of CUSIP 91282CHT1

    let dates_str = [
        "2023-08-15", "2024-02-15", " 2024-08-15", " 2025-02-18", " 2025-08-15", " 2026-02-17",
        " 2026-08-17", " 2027-02-16", " 2027-08-16", " 2028-02-15", " 2028-08-15", " 2029-02-15",
        " 2029-08-15", " 2030-02-15", " 2030-08-15", " 2031-02-18", " 2031-08-15", " 2032-02-17",
        " 2032-08-16", " 2033-02-15", " 2033-08-15",
    ];

    let expected_dates: Vec<Date> = dates_str
        .into_iter()
        .map(|x| from_naive(NaiveDate::parse_from_str(x, "%Y-%m-%d").unwrap()))
        .collect();

    assert_eq!(expected_dates, settlement_dates);
}
