use findates::calendar::{basic_calendar, calendar_unions, Calendar, DateSet, WeekdaySet};
use findates::date::{Date, Weekday};

fn ymd(year: i32, month: u32, day: u32) -> Date {
    Date::from_ymd_opt(year, month, day).unwrap()
}

// add_holidays function test
#[test]
fn add_holidays_test() {
    let mut cal: Calendar = basic_calendar();
    let christmas_day = ymd(2023, 12, 25);
    let boxing_day = ymd(2023, 12, 26);
    let new_holidays: DateSet = DateSet::from_dates(&[christmas_day, boxing_day]);
    cal.add_holidays(&new_holidays);
    assert_eq!(cal.holidays, new_holidays);
}

// add_weekends function test
#[test]
fn add_weekends_test() {
    let mut cal: Calendar = Calendar::new();
    let new_weekend: WeekdaySet = WeekdaySet::from_days(&vec![Weekday::Mon]);
    cal.add_weekends(&new_weekend);
    assert_eq!(cal.weekend, new_weekend);
}

// get_holidays function test
#[test]
fn get_holidays_test() {
    let mut cal: Calendar = basic_calendar();
    let christmas_day = ymd(2023, 12, 25);
    let boxing_day = ymd(2023, 12, 26);
    let new_holidays: DateSet = DateSet::from_dates(&[christmas_day, boxing_day]);
    cal.add_holidays(&new_holidays);
    let res = cal.get_holidays();
    assert_eq!(res, &new_holidays);
}

// get_weekend function test
#[test]
fn get_weekend_test() {
    let mut cal: Calendar = Calendar::new();
    let new_weekend: WeekdaySet = WeekdaySet::from_days(&vec![Weekday::Mon]);
    cal.add_weekends(&new_weekend);
    let res = cal.get_weekend();
    assert_eq!(res, &new_weekend);
}

// Calendar union function test
#[test]
fn calendar_union_test() {
    let christmas_day = ymd(2023, 12, 25);
    let boxing_day = ymd(2023, 12, 26);
    let mut cal1: Calendar = Calendar {
        weekend: WeekdaySet::from_days(&vec![Weekday::Sat]),
        holidays: DateSet::from_dates(&[christmas_day]),
    };
    let cal2: Calendar = Calendar {
        weekend: WeekdaySet::from_days(&vec![Weekday::Sun]),
        holidays: DateSet::from_dates(&[boxing_day]),
    };

    let mut cal: Calendar = basic_calendar();
    let new_holidays: DateSet = DateSet::from_dates(&[christmas_day, boxing_day]);
    cal.add_holidays(&new_holidays);

    cal1.union(&cal2);
    assert_eq!(cal1, cal);
}

// Calendar intersection function test
#[test]
fn calendar_intersection_test() {
    let christmas_day: Date = ymd(2023, 12, 25);
    let boxing_day: Date = ymd(2023, 12, 26);
    let mut cal1: Calendar = Calendar {
        weekend: WeekdaySet::from_days(&vec![Weekday::Sun]),
        holidays: DateSet::from_dates(&[christmas_day]),
    };
    let cal2: Calendar = Calendar {
        weekend: WeekdaySet::from_days(&vec![Weekday::Sun]),
        holidays: DateSet::from_dates(&[christmas_day, boxing_day]),
    };

    let mut cal: Calendar = Calendar::new();
    let new_holidays: DateSet = DateSet::from_dates(&[christmas_day]);
    cal.add_weekends(&WeekdaySet::from_days(&[Weekday::Sun]));
    cal.add_holidays(&new_holidays);

    cal1.intersection(&cal2);
    assert_eq!(cal1, cal);
}

#[test]
fn new_calendar_is_empty_test() {
    let cal = Calendar::new();
    assert_eq!(cal.weekend, WeekdaySet::new());
    assert!(cal.holidays.is_empty());
    assert_eq!(cal.holidays.len(), 0);
    for day in [
        Weekday::Mon,
        Weekday::Tue,
        Weekday::Wed,
        Weekday::Thu,
        Weekday::Fri,
        Weekday::Sat,
        Weekday::Sun,
    ] {
        assert!(!cal.weekend.contains(day));
    }
}

#[test]
fn basic_calendar_weekend_test() {
    let cal = basic_calendar();
    assert!(cal.weekend.contains(Weekday::Sat));
    assert!(cal.weekend.contains(Weekday::Sun));
    assert!(!cal.weekend.contains(Weekday::Mon));
    assert!(!cal.weekend.contains(Weekday::Fri));
    assert_eq!(cal.holidays.len(), 0);
}

#[test]
fn merges_are_idempotent_and_commutative_test() {
    let a = DateSet::from_dates(&[ymd(2023, 1, 2), ymd(2023, 5, 29)]);
    let b = DateSet::from_dates(&[ymd(2023, 5, 29), ymd(2023, 7, 4)]);

    let mut ab = Calendar::new();
    ab.add_holidays(&a);
    ab.add_holidays(&b);
    let mut ba = Calendar::new();
    ba.add_holidays(&b);
    ba.add_holidays(&a);
    assert_eq!(ab, ba);
    assert_eq!(ab.holidays.len(), 3);

    let mut twice = ab.clone();
    twice.add_holidays(&a);
    twice.add_weekends(&WeekdaySet::new());
    assert_eq!(twice, ab);

    let weekend = WeekdaySet::from_days(&[Weekday::Fri, Weekday::Sat]);
    let mut once = Calendar::new();
    once.add_weekends(&weekend);
    let mut again = once.clone();
    again.add_weekends(&weekend);
    assert_eq!(once, again);
}

#[test]
fn date_set_test() {
    let mut set = DateSet::new();
    assert!(set.insert(ymd(2024, 2, 29)));
    assert!(!set.insert(ymd(2024, 2, 29)));
    assert!(set.insert(ymd(2024, 3, 1)));
    assert_eq!(set.len(), 2);
    assert!(set.contains(&ymd(2024, 2, 29)));
    assert!(!set.contains(&ymd(2024, 2, 28)));

    let mut listed = set.to_vec();
    listed.sort();
    assert_eq!(listed, vec![ymd(2024, 2, 29), ymd(2024, 3, 1)]);

    let other = DateSet::from_dates(&[ymd(2024, 3, 1), ymd(2024, 3, 2)]);
    let mut common = set.clone();
    common.intersect_with(&other);
    assert_eq!(common, DateSet::from_dates(&[ymd(2024, 3, 1)]));
    set.union_with(&other);
    assert_eq!(set, DateSet::from_dates(&[ymd(2024, 2, 29), ymd(2024, 3, 1), ymd(2024, 3, 2)]));
}

#[test]
fn weekday_set_test() {
    let mut set = WeekdaySet::new();
    assert!(set.insert(Weekday::Wed));
    assert!(!set.insert(Weekday::Wed));
    let other = WeekdaySet::from_days(&[Weekday::Wed, Weekday::Thu]);
    assert_eq!(set.union(&other), other);
    assert_eq!(set.intersection(&other), set);
    assert_eq!(other.intersection(&WeekdaySet::new()), WeekdaySet::new());
}

#[test]
fn calendar_unions_test() {
    let christmas_day = ymd(2023, 12, 25);
    let boxing_day = ymd(2023, 12, 26);
    let cal1 = Calendar {
        weekend: WeekdaySet::from_days(&[Weekday::Sat]),
        holidays: DateSet::from_dates(&[christmas_day]),
    };
    let cal2 = Calendar {
        weekend: WeekdaySet::from_days(&[Weekday::Sun]),
        holidays: DateSet::from_dates(&[boxing_day]),
    };
    let mut expected = basic_calendar();
    expected.add_holidays(&DateSet::from_dates(&[christmas_day, boxing_day]));
    assert_eq!(calendar_unions(&vec![cal1, cal2]), expected);
    assert_eq!(calendar_unions(&vec![]), Calendar::new());
}
