use chrono::{Datelike, Months, NaiveDate};
use findates::date::{Date, Weekday, MAX_DAYS, MAX_YEAR, MIN_DAYS, MIN_YEAR};

fn ymd(year: i32, month: u32, day: u32) -> Date {
    Date::from_ymd_opt(year, month, day).unwrap()
}

fn leap(year: i64) -> bool {
    year.rem_euclid(4) == 0 && (year.rem_euclid(100) != 0 || year.rem_euclid(400) == 0)
}

fn days_in_month(year: i64, month: i64) -> i64 {
    match month {
        2 => {
            if leap(year) {
                29
            } else {
                28
            }
        }
        4 | 6 | 9 | 11 => 30,
        _ => 31,
    }
}

// The day number as the library's contracts state it.
fn day_number(year: i64, month: i64, day: i64) -> i64 {
    let before_year = 365 * (year - 1) + (year - 1).div_euclid(4) - (year - 1).div_euclid(100)
        + (year - 1).div_euclid(400);
    let before_month: i64 = (1..month).map(|m| days_in_month(year, m)).sum();
    before_year + before_month + day
}

fn weekday_of(days: i64) -> Weekday {
    match (days - 1).rem_euclid(7) {
        0 => Weekday::Mon,
        1 => Weekday::Tue,
        2 => Weekday::Wed,
        3 => Weekday::Thu,
        4 => Weekday::Fri,
        5 => Weekday::Sat,
        _ => Weekday::Sun,
    }
}

fn sample_years() -> Vec<i32> {
    vec![
        MIN_YEAR, MIN_YEAR + 1, -100_000, -401, -400, -399, -101, -100, -99, -5, -4, -3, -1, 0, 1,
        2, 3, 4, 5, 99, 100, 101, 399, 400, 401, 1582, 1600, 1699, 1700, 1899, 1900, 1901, 1970,
        1999, 2000, 2001, 2023, 2024, 2025, 2100, 2400, 100_000, MAX_YEAR - 1, MAX_YEAR,
    ]
}

#[test]
fn range_of_dates_test() {
    assert_eq!(NaiveDate::MIN.num_days_from_ce(), MIN_DAYS);
    assert_eq!(NaiveDate::MAX.num_days_from_ce(), MAX_DAYS);
    assert_eq!(NaiveDate::MIN.year(), MIN_YEAR);
    assert_eq!(NaiveDate::MAX.year(), MAX_YEAR);
    assert_eq!(ymd(MIN_YEAR, 1, 1).num_days_from_ce(), MIN_DAYS);
    assert_eq!(ymd(MAX_YEAR, 12, 31).num_days_from_ce(), MAX_DAYS);
    assert_eq!(Date::from_num_days_from_ce_opt(MIN_DAYS).unwrap().ymd(), (MIN_YEAR, 1, 1));
    assert_eq!(Date::from_num_days_from_ce_opt(MAX_DAYS).unwrap().ymd(), (MAX_YEAR, 12, 31));
    assert_eq!(Date::from_num_days_from_ce_opt(MIN_DAYS - 1), None);
    assert_eq!(Date::from_num_days_from_ce_opt(MAX_DAYS + 1), None);
    assert_eq!(Date::from_num_days_from_ce_opt(i32::MAX), None);
    assert_eq!(Date::from_num_days_from_ce_opt(i32::MIN), None);
    assert_eq!(Date::from_ymd_opt(MIN_YEAR - 1, 12, 31), None);
    assert_eq!(Date::from_ymd_opt(MAX_YEAR + 1, 1, 1), None);
}

#[test]
fn day_numbers_test() {
    assert_eq!(ymd(1, 1, 1).num_days_from_ce(), 1);
    assert_eq!(ymd(0, 12, 31).num_days_from_ce(), 0);
    assert_eq!(ymd(0, 12, 30).num_days_from_ce(), -1);
    assert_eq!(ymd(1999, 9, 3).num_days_from_ce(), 730_000);
    assert_eq!(ymd(1970, 1, 1).num_days_from_ce(), 719_163);
    assert_eq!(Date::from_num_days_from_ce_opt(730_000).unwrap().ymd(), (1999, 9, 3));
    assert_eq!(Date::from_num_days_from_ce_opt(1).unwrap().ymd(), (1, 1, 1));
    assert_eq!(Date::from_num_days_from_ce_opt(0).unwrap().ymd(), (0, 12, 31));
    let date = ymd(2024, 2, 29);
    assert_eq!(date.year(), 2024);
    assert_eq!(date.month(), 2);
    assert_eq!(date.day(), 29);
}

#[test]
fn dates_that_do_not_exist_test() {
    assert_eq!(Date::from_ymd_opt(2023, 2, 29), None);
    assert_eq!(Date::from_ymd_opt(1900, 2, 29), None);
    assert_eq!(Date::from_ymd_opt(2023, 4, 31), None);
    assert_eq!(Date::from_ymd_opt(2023, 0, 1), None);
    assert_eq!(Date::from_ymd_opt(2023, 13, 1), None);
    assert_eq!(Date::from_ymd_opt(2023, 1, 0), None);
    assert_eq!(Date::from_ymd_opt(2023, 1, 32), None);
    assert!(Date::from_ymd_opt(2000, 2, 29).is_some());
    assert!(Date::from_ymd_opt(-4, 2, 29).is_some());
}

#[test]
fn stated_day_number_is_the_one_counted_test() {
    for year in sample_years() {
        for month in 1..=12u32 {
            let last = days_in_month(year as i64, month as i64) as u32;
            for day in [1, 2, 15, 28, last] {
                let date = ymd(year, month, day);
                let days = day_number(year as i64, month as i64, day as i64);
                assert_eq!(date.num_days_from_ce() as i64, days);
                assert_eq!(date.ymd(), (year, month, day));
                assert_eq!(date.weekday(), weekday_of(days));
                let naive = NaiveDate::from_ymd_opt(year, month, day).unwrap();
                assert_eq!(naive.num_days_from_ce() as i64, days);
            }
            assert_eq!(Date::from_ymd_opt(year, month, last + 1), None);
        }
    }
}

#[test]
fn weekdays_test() {
    assert_eq!(ymd(1, 1, 1).weekday(), Weekday::Mon);
    assert_eq!(ymd(2023, 9, 2).weekday(), Weekday::Sat);
    assert_eq!(ymd(2023, 9, 3).weekday(), Weekday::Sun);
    assert_eq!(ymd(2023, 12, 25).weekday(), Weekday::Mon);
    assert_eq!(ymd(2024, 2, 29).weekday(), Weekday::Thu);
    assert_eq!(ymd(2000, 1, 1).weekday(), Weekday::Sat);
    assert_eq!(ymd(0, 12, 31).weekday(), Weekday::Sun);
    assert_eq!(ymd(-1, 3, 1).weekday(), weekday_of(day_number(-1, 3, 1)));
    let mut day = ymd(2024, 2, 26);
    for expected in [
        Weekday::Mon,
        Weekday::Tue,
        Weekday::Wed,
        Weekday::Thu,
        Weekday::Fri,
        Weekday::Sat,
        Weekday::Sun,
    ] {
        assert_eq!(day.weekday(), expected);
        day = day.checked_add_days(1).unwrap();
    }
}

#[test]
fn adding_days_test() {
    let date = ymd(2022, 2, 20);
    assert_eq!(date.checked_add_days(9), Some(ymd(2022, 3, 1)));
    assert_eq!(date.checked_add_days(0), Some(date));
    assert_eq!(date.checked_sub_days(6), Some(ymd(2022, 2, 14)));
    assert_eq!(date.checked_sub_days(0), Some(date));
    assert_eq!(date.checked_add_days(1_000_000_000_000), None);
    assert_eq!(date.checked_sub_days(1_000_000_000_000), None);
    assert_eq!(date.checked_add_days(u64::MAX), None);
    let last = ymd(MAX_YEAR, 12, 31);
    let first = ymd(MIN_YEAR, 1, 1);
    assert_eq!(last.checked_add_days(1), None);
    assert_eq!(first.checked_sub_days(1), None);
    assert_eq!(first.checked_add_days((MAX_DAYS as i64 - MIN_DAYS as i64) as u64), Some(last));
    assert_eq!(last.checked_sub_days((MAX_DAYS as i64 - MIN_DAYS as i64) as u64), Some(first));
    assert_eq!(first.checked_add_days((MAX_DAYS as i64 - MIN_DAYS as i64) as u64 + 1), None);
    assert_eq!(last.days_since(&first), MAX_DAYS as i64 - MIN_DAYS as i64);
    assert_eq!(first.days_since(&last), MIN_DAYS as i64 - MAX_DAYS as i64);
    assert_eq!(ymd(2014, 1, 1).days_since(&ymd(2010, 1, 1)), 365 * 4 + 1);
    assert_eq!(ymd(2014, 1, 1).days_since(&ymd(2014, 1, 2)), -1);
}

#[test]
fn adding_days_moves_the_day_number_test() {
    for year in sample_years() {
        let date = ymd(year, 12, 30);
        let days = date.num_days_from_ce() as i64;
        for n in [0u64, 1, 2, 3, 59, 366, 146_097] {
            let later = days + n as i64;
            let expected = if later <= MAX_DAYS as i64 { Some(later) } else { None };
            assert_eq!(
                date.checked_add_days(n).map(|d| d.num_days_from_ce() as i64),
                expected
            );
            let earlier = days - n as i64;
            let expected = if earlier >= MIN_DAYS as i64 { Some(earlier) } else { None };
            assert_eq!(
                date.checked_sub_days(n).map(|d| d.num_days_from_ce() as i64),
                expected
            );
        }
    }
}

#[test]
fn adding_months_test() {
    assert_eq!(ymd(2022, 2, 20).checked_add_months(6), Some(ymd(2022, 8, 20)));
    assert_eq!(ymd(2022, 7, 31).checked_add_months(2), Some(ymd(2022, 9, 30)));
    assert_eq!(ymd(2023, 1, 31).checked_add_months(1), Some(ymd(2023, 2, 28)));
    assert_eq!(ymd(2024, 1, 31).checked_add_months(1), Some(ymd(2024, 2, 29)));
    assert_eq!(ymd(2023, 11, 15).checked_add_months(2), Some(ymd(2024, 1, 15)));
    assert_eq!(ymd(2023, 12, 31).checked_add_months(12), Some(ymd(2024, 12, 31)));
    assert_eq!(ymd(2024, 2, 29).checked_add_months(12), Some(ymd(2025, 2, 28)));
    assert_eq!(ymd(-1, 12, 31).checked_add_months(2), Some(ymd(0, 2, 29)));
    assert_eq!(ymd(2023, 5, 5).checked_add_months(0), Some(ymd(2023, 5, 5)));
    assert_eq!(ymd(MAX_YEAR, 12, 1).checked_add_months(1), None);
    assert_eq!(ymd(MAX_YEAR, 11, 30).checked_add_months(1), Some(ymd(MAX_YEAR, 12, 30)));
    assert_eq!(ymd(2023, 5, 5).checked_add_months(u32::MAX), None);
}

// The date some months on as the library's contracts state it.
fn months_on(year: i64, month: i64, day: i64, months: i64) -> Option<(i32, u32, u32)> {
    let total = year * 12 + (month - 1) + months;
    let y = total.div_euclid(12);
    let m = total.rem_euclid(12) + 1;
    let d = day.min(days_in_month(y, m));
    if y <= MAX_YEAR as i64 {
        Some((y as i32, m as u32, d as u32))
    } else {
        None
    }
}

#[test]
fn adding_months_is_as_stated_test() {
    for year in sample_years() {
        for (month, day) in [(1, 31), (2, 28), (5, 31), (8, 30), (12, 31)] {
            let date = ymd(year, month, day);
            for months in [0u32, 1, 2, 3, 4, 6, 11, 12, 13, 25, 4800, u32::MAX] {
                let expected = months_on(year as i64, month as i64, day as i64, months as i64);
                assert_eq!(date.checked_add_months(months).map(|d| d.ymd()), expected);
                let naive = NaiveDate::from_ymd_opt(year, month, day)
                    .unwrap()
                    .checked_add_months(Months::new(months))
                    .map(|d| (d.year(), d.month(), d.day()));
                assert_eq!(naive, expected);
            }
        }
    }
}

#[test]
fn dates_are_ordered_by_day_test() {
    assert!(ymd(2023, 12, 31) < ymd(2024, 1, 1));
    assert!(ymd(2024, 2, 29) < ymd(2024, 3, 1));
    assert!(ymd(-1, 12, 31) < ymd(0, 1, 1));
    assert_eq!(ymd(2024, 3, 1), ymd(2024, 2, 29).checked_add_days(1).unwrap());
    let mut dates = vec![ymd(2024, 3, 1), ymd(2023, 1, 1), ymd(2024, 2, 29)];
    dates.sort();
    assert_eq!(dates, vec![ymd(2023, 1, 1), ymd(2024, 2, 29), ymd(2024, 3, 1)]);
}
