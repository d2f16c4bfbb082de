//! Holiday calendars.
//!
//! A calendar is a set of weekdays on which nobody works and a set of dates
//! that are holidays. Every other day is a business day.

use vstd::prelude::*;
use std::collections::HashSet;
use vstd::std_specs::iter::IteratorSpec;
use crate::date::{in_range, weekday_of, Date, Weekday};

verus! {

/// A set of weekdays.
#[derive(PartialEq, Eq, Copy, Clone, Debug, Hash, Structural)]
pub struct WeekdaySet {
    pub mon: bool,
    pub tue: bool,
    pub wed: bool,
    pub thu: bool,
    pub fri: bool,
    pub sat: bool,
    pub sun: bool,
}

impl View for WeekdaySet {
    type V = Set<Weekday>;

    open spec fn view(&self) -> Set<Weekday> {
        Set::new(|w: Weekday| self.has(w))
    }
}

impl WeekdaySet {
    /// Whether `day` is in the set, by the field that stands for it.
    pub open spec fn has(self, day: Weekday) -> bool {
        match day {
            Weekday::Mon => self.mon,
            Weekday::Tue => self.tue,
            Weekday::Wed => self.wed,
            Weekday::Thu => self.thu,
            Weekday::Fri => self.fri,
            Weekday::Sat => self.sat,
            Weekday::Sun => self.sun,
        }
    }

    /// The empty set.
    pub fn new() -> (r: WeekdaySet)
        ensures
            r@ == Set::<Weekday>::empty(),
    {
        let r = WeekdaySet {
            mon: false,
            tue: false,
            wed: false,
            thu: false,
            fri: false,
            sat: false,
            sun: false,
        };
        assert(r@ =~= Set::<Weekday>::empty());
        r
    }

    /// The set of the days listed.
    pub fn from_days(days: &[Weekday]) -> (r: WeekdaySet)
        ensures
            r@ == days@.to_set(),
    {
        let mut r = WeekdaySet::new();
        let mut i: usize = 0;
        while i < days.len()
            invariant
                i <= days.len(),
                r@ == days@.take(i as int).to_set(),
            decreases days.len() - i,
        {
            r.insert(days[i]);
            assert(days@.take(i + 1) =~= days@.take(i as int).push(days@[i as int]));
            assert(r@ =~= days@.take(i + 1).to_set()) by {
                assert forall|w: Weekday| r@.contains(w) <==> days@.take(i + 1).to_set().contains(
                    w,
                ) by {
                    let s = days@.take(i as int);
                    let t = s.push(days@[i as int]);
                    if s.contains(w) {
                        let j = choose|j: int| 0 <= j < s.len() && s[j] == w;
                        assert(t[j] == w);
                    }
                    if w == days@[i as int] {
                        assert(t[i as int] == w);
                    }
                }
            }
            i += 1;
        }
        assert(days@.take(days.len() as int) =~= days@);
        r
    }

    /// Whether `day` is in the set.
    pub fn contains(&self, day: Weekday) -> (r: bool)
        ensures
            r == self@.contains(day),
    {
        match day {
            Weekday::Mon => self.mon,
            Weekday::Tue => self.tue,
            Weekday::Wed => self.wed,
            Weekday::Thu => self.thu,
            Weekday::Fri => self.fri,
            Weekday::Sat => self.sat,
            Weekday::Sun => self.sun,
        }
    }

    /// Puts `day` into the set; says whether it was new.
    pub fn insert(&mut self, day: Weekday) -> (r: bool)
        ensures
            final(self)@ == old(self)@.insert(day),
            r == !old(self)@.contains(day),
    {
        let was = self.contains(day);
        match day {
            Weekday::Mon => {
                self.mon = true;
            },
            Weekday::Tue => {
                self.tue = true;
            },
            Weekday::Wed => {
                self.wed = true;
            },
            Weekday::Thu => {
                self.thu = true;
            },
            Weekday::Fri => {
                self.fri = true;
            },
            Weekday::Sat => {
                self.sat = true;
            },
            Weekday::Sun => {
                self.sun = true;
            },
        }
        assert(self@ =~= old(self)@.insert(day));
        !was
    }

    /// The days that are in either set.
    pub fn union(&self, other: &WeekdaySet) -> (r: WeekdaySet)
        ensures
            r@ == self@.union(other@),
    {
        let r = WeekdaySet {
            mon: self.mon || other.mon,
            tue: self.tue || other.tue,
            wed: self.wed || other.wed,
            thu: self.thu || other.thu,
            fri: self.fri || other.fri,
            sat: self.sat || other.sat,
            sun: self.sun || other.sun,
        };
        assert(r@ =~= self@.union(other@));
        r
    }

    /// The days that are in both sets.
    pub fn intersection(&self, other: &WeekdaySet) -> (r: WeekdaySet)
        ensures
            r@ == self@.intersect(other@),
    {
        let r = WeekdaySet {
            mon: self.mon && other.mon,
            tue: self.tue && other.tue,
            wed: self.wed && other.wed,
            thu: self.thu && other.thu,
            fri: self.fri && other.fri,
            sat: self.sat && other.sat,
            sun: self.sun && other.sun,
        };
        assert(r@ =~= self@.intersect(other@));
        r
    }
}

/// The day numbers among the first `n` items of `s`.
spec fn seen(s: Seq<i32>, n: int) -> Set<int> {
    Set::new(|x: int| exists|i: int| 0 <= i < n && s[i] == x)
}

/// All the items of a list are seen once the whole list has passed.
proof fn lemma_seen_all(s: Seq<i32>, whole: Set<i32>)
    requires
        s.to_set() == whole,
    ensures
        forall|x: int|
            seen(s, s.len() as int).contains(x) <==> i32::MIN <= x <= i32::MAX && whole.contains(
                x as i32,
            ),
{
    assert forall|x: int|
        seen(s, s.len() as int).contains(x) <==> i32::MIN <= x <= i32::MAX && whole.contains(
            x as i32,
        ) by {
        if i32::MIN <= x <= i32::MAX && whole.contains(x as i32) {
            assert(s.to_set().contains(x as i32));
            assert(s.contains(x as i32));
        }
        if seen(s, s.len() as int).contains(x) {
            let i = choose|i: int| 0 <= i < s.len() && s[i] == x;
            assert(s.contains(s[i]));
        }
    }
}

/// Whether the day numbers of the dates in `dates` are those in `days`.
pub open spec fn lists(dates: Seq<Date>, days: Set<int>) -> bool {
    forall|n: int| days.contains(n) <==> exists|i: int| 0 <= i < dates.len() && dates[i]@ == n
}

/// A list of dates made item by item from a list of all the day numbers of
/// a set lists the set.
proof fn lemma_lists(s: Seq<i32>, whole: Set<i32>, dates: Seq<Date>, days: Set<int>)
    requires
        s.to_set() == whole,
        dates.len() == s.len(),
        forall|i: int| 0 <= i < s.len() ==> dates[i]@ == #[trigger] s[i],
        forall|n: int| days.contains(n) <==> i32::MIN <= n <= i32::MAX && whole.contains(n as i32),
    ensures
        lists(dates, days),
{
    lemma_seen_all(s, whole);
    assert forall|n: int| days.contains(n) <==> exists|i: int|
        0 <= i < dates.len() && dates[i]@ == n by {
        if days.contains(n) {
            assert(seen(s, s.len() as int).contains(n));
            let i = choose|i: int| 0 <= i < s.len() && s[i] == n;
            assert(dates[i]@ == n);
        }
        if exists|i: int| 0 <= i < dates.len() && dates[i]@ == n {
            let i = choose|i: int| 0 <= i < dates.len() && dates[i]@ == n;
            assert(s[i] == n);
            assert(seen(s, s.len() as int).contains(n));
        }
    }
}

/// A set of dates. Its view is the set of their day numbers.
#[derive(PartialEq, Eq, Debug)]
pub struct DateSet {
    days: HashSet<i32>,
}

impl View for DateSet {
    type V = Set<int>;

    closed spec fn view(&self) -> Set<int> {
        Set::new(|n: int| i32::MIN <= n <= i32::MAX && self.days@.contains(n as i32))
    }
}

impl Clone for DateSet {
    /// A set of the same dates.
    fn clone(&self) -> (r: DateSet)
        ensures
            r@ == self@,
    {
        let mut r = DateSet::new();
        r.union_with(self);
        assert(r@ =~= self@);
        r
    }
}

impl DateSet {
    #[verifier::type_invariant]
    spec fn holds_dates(self) -> bool {
        forall|k: i32| self.days@.contains(k) ==> in_range(k as int)
    }

    /// The empty set.
    pub fn new() -> (r: DateSet)
        ensures
            r@ == Set::<int>::empty(),
    {
        let r = DateSet { days: HashSet::new() };
        assert(r@ =~= Set::<int>::empty());
        r
    }

    /// The set of the dates listed.
    pub fn from_dates(dates: &[Date]) -> (r: DateSet)
        ensures
            lists(dates@, r@),
    {
        let mut r = DateSet::new();
        let mut i: usize = 0;
        while i < dates.len()
            invariant
                i <= dates.len(),
                lists(dates@.take(i as int), r@),
            decreases dates.len() - i,
        {
            let ghost before = r@;
            r.insert(dates[i]);
            assert(lists(dates@.take(i + 1), r@)) by {
                let s = dates@.take(i as int);
                let t = dates@.take(i + 1);
                assert forall|n: int| r@.contains(n) <==> exists|j: int|
                    0 <= j < t.len() && t[j]@ == n by {
                    if before.contains(n) {
                        let j = choose|j: int| 0 <= j < s.len() && s[j]@ == n;
                        assert(t[j]@ == n);
                    }
                    if n == dates[i as int]@ {
                        assert(t[i as int]@ == n);
                    }
                    if exists|j: int| 0 <= j < t.len() && t[j]@ == n {
                        let j = choose|j: int| 0 <= j < t.len() && t[j]@ == n;
                        if j < i {
                            assert(s[j]@ == n);
                        }
                    }
                }
            }
            i += 1;
        }
        assert(dates@.take(dates.len() as int) =~= dates@);
        r
    }

    /// Whether `date` is in the set.
    pub fn contains(&self, date: &Date) -> (r: bool)
        ensures
            r == self@.contains(date@),
    {
        broadcast use vstd::std_specs::hash::group_hash_axioms;

        let key = date.num_days_from_ce();
        self.days.contains(&key)
    }

    /// Puts `date` into the set; says whether it was new.
    pub fn insert(&mut self, date: Date) -> (r: bool)
        ensures
            final(self)@ == old(self)@.insert(date@),
            r == !old(self)@.contains(date@),
    {
        broadcast use vstd::std_specs::hash::group_hash_axioms;

        proof {
            use_type_invariant(&*self);
        }
        let key = date.num_days_from_ce();
        let mut days: HashSet<i32> = HashSet::new();
        core::mem::swap(&mut self.days, &mut days);
        let r = days.insert(key);
        core::mem::swap(&mut self.days, &mut days);
        assert(self@ =~= old(self)@.insert(date@));
        r
    }

    /// The number of dates in the set.
    pub fn len(&self) -> (r: usize)
        ensures
            r == self@.len(),
    {
        broadcast use vstd::std_specs::hash::group_hash_axioms;

        proof {
            self.lemma_view_len();
        }
        self.days.len()
    }

    /// Whether the set has no date.
    pub fn is_empty(&self) -> (r: bool)
        ensures
            r == (self@ == Set::<int>::empty()),
    {
        broadcast use vstd::std_specs::hash::group_hash_axioms;

        let r = self.days.is_empty();
        proof {
            if r {
                assert(self@ =~= Set::<int>::empty());
            } else {
                let k = choose|k: i32| self.days@.contains(k);
                assert(self.days@.contains(k));
                assert(self@.contains(k as int));
            }
        }
        r
    }

    /// The set has as many dates as its hash set has keys.
    proof fn lemma_view_len(&self)
        ensures
            self@.len() == self.days@.len(),
            self@.finite(),
    {
        broadcast use vstd::std_specs::hash::group_hash_axioms;

        let keys = vstd::std_specs::hash::spec_hash_keys_iter(&self.days).remaining().unref();
        assert(keys.to_set() == self.days@);
        vstd::seq_lib::seq_to_set_is_finite(keys);
        let widen = |k: i32| k as int;
        let image = self.days@.map(widen);
        assert(self@ =~= image) by {
            assert forall|n: int| self@.contains(n) implies image.contains(n) by {
                assert(self.days@.contains(n as i32) && widen(n as i32) == n);
            }
        }
        assert(vstd::relations::injective_on(widen, self.days@));
        vstd::set_lib::lemma_map_size(self.days@, image, widen);
    }

    /// The dates of the set, each once, in no particular order.
    pub fn to_vec(&self) -> (r: Vec<Date>)
        ensures
            lists(r@, self@),
            forall|i: int, j: int| 0 <= i < j < r.len() ==> r[i]@ != r[j]@,
    {
        broadcast use vstd::std_specs::hash::group_hash_axioms;

        proof {
            use_type_invariant(self);
        }
        let mut r: Vec<Date> = Vec::new();
        for k in it: self.days.iter()
            invariant
                it.seq().unref().to_set() == self.days@,
                it.seq().no_duplicates(),
                forall|k: i32| self.days@.contains(k) ==> in_range(k as int),
                r.len() == it.index(),
                forall|i: int| 0 <= i < r.len() ==> r[i]@ == #[trigger] it.seq().unref()[i],
                it.index() == it.seq().len() ==> lists(r@, self@),
                forall|i: int, j: int| 0 <= i < j < r.len() ==> r[i]@ != r[j]@,
        {
            assert(it.seq().unref()[it.index() as int] == *k);
            assert(it.seq().unref().to_set().contains(*k));
            let date = Date::from_num_days_from_ce_opt(*k).unwrap();
            assert forall|i: int| 0 <= i < r.len() implies r[i]@ != date@ by {
                assert(it.seq()[i] != it.seq()[it.index() as int]);
                assert(r[i]@ == it.seq().unref()[i]);
            }
            r.push(date);
            assert(it.index() + 1 == it.seq().len() ==> lists(r@, self@)) by {
                if it.index() + 1 == it.seq().len() {
                    lemma_lists(it.seq().unref(), self.days@, r@, self@);
                }
            }
        }
        r
    }

    /// Adds the dates of `other` to the set.
    pub fn union_with(&mut self, other: &DateSet)
        ensures
            final(self)@ == old(self)@.union(other@),
    {
        broadcast use vstd::std_specs::hash::group_hash_axioms;

        proof {
            use_type_invariant(&*self);
            use_type_invariant(other);
        }
        let ghost mut done: Set<int> = Set::empty();
        let mut days: HashSet<i32> = HashSet::new();
        core::mem::swap(&mut self.days, &mut days);
        let ghost start = days@;
        for k in it: other.days.iter()
            invariant
                it.seq().unref().to_set() == other.days@,
                forall|k: i32| other.days@.contains(k) ==> in_range(k as int),
                forall|k: i32| days@.contains(k) ==> in_range(k as int),
                done == seen(it.seq().unref(), it.index() as int),
                it.index() == it.seq().len() ==> done == other@,
                forall|k: i32| days@.contains(k) <==> start.contains(k) || done.contains(k as int),
        {
            assert(it.seq().unref()[it.index() as int] == *k);
            assert(it.seq().unref().to_set().contains(*k));
            days.insert(*k);
            proof {
                done = done.insert(*k as int);
            }
            assert(done =~= seen(it.seq().unref(), it.index() + 1));
            assert(seen(it.seq().unref(), it.seq().len() as int) =~= other@) by {
                lemma_seen_all(it.seq().unref(), other.days@);
            }
        }
        core::mem::swap(&mut self.days, &mut days);
        assert(self@ =~= old(self)@.union(other@));
    }

    /// Keeps the dates of the set that are in `other` too.
    pub fn intersect_with(&mut self, other: &DateSet)
        ensures
            final(self)@ == old(self)@.intersect(other@),
    {
        broadcast use vstd::std_specs::hash::group_hash_axioms;

        proof {
            use_type_invariant(&*self);
            use_type_invariant(other);
        }
        let mut kept: HashSet<i32> = HashSet::new();
        let ghost mut done: Set<int> = Set::empty();
        for k in it: self.days.iter()
            invariant
                it.seq().unref().to_set() == self.days@,
                forall|k: i32| self.days@.contains(k) ==> in_range(k as int),
                done == seen(it.seq().unref(), it.index() as int),
                it.index() == it.seq().len() ==> done == self@,
                forall|k: i32|
                    kept@.contains(k) <==> done.contains(k as int) && other.days@.contains(k),
                forall|k: i32| kept@.contains(k) ==> in_range(k as int),
        {
            assert(it.seq().unref()[it.index() as int] == *k);
            assert(it.seq().unref().to_set().contains(*k));
            if other.days.contains(k) {
                kept.insert(*k);
            }
            proof {
                done = done.insert(*k as int);
            }
            assert(done =~= seen(it.seq().unref(), it.index() + 1));
            assert(seen(it.seq().unref(), it.seq().len() as int) =~= self@) by {
                lemma_seen_all(it.seq().unref(), self.days@);
            }
        }
        let ghost mine = self@;
        let ghost both = kept@;
        assert(forall|k: i32|
            both.contains(k) <==> mine.contains(k as int) && other.days@.contains(k));
        self.days = kept;
        assert(self.days@ == both);
        assert(self@ =~= mine.intersect(other@));
    }
}

/// A calendar: the weekdays of the weekend and the dates of the holidays.
#[derive(PartialEq, Eq, Debug)]
pub struct Calendar {
    /// The weekdays that are not working days.
    pub weekend: WeekdaySet,
    /// The dates that are not working days.
    pub holidays: DateSet,
}

impl Clone for Calendar {
    /// A calendar of the same weekend and holidays.
    fn clone(&self) -> (r: Calendar)
        ensures
            r.weekend == self.weekend,
            r.holidays@ == self.holidays@,
    {
        Calendar { weekend: self.weekend, holidays: self.holidays.clone() }
    }
}

impl Calendar {
    /// Whether the day with day number `n` is a business day: its weekday
    /// is not of the weekend and it is no holiday.
    pub open spec fn is_business(&self, n: int) -> bool {
        !self.weekend@.contains(weekday_of(n)) && !self.holidays@.contains(n)
    }

    /// A calendar without weekend and without holidays.
    pub fn new() -> (r: Calendar)
        ensures
            r.weekend@ == Set::<Weekday>::empty(),
            r.holidays@ == Set::<int>::empty(),
    {
        Calendar { weekend: WeekdaySet::new(), holidays: DateSet::new() }
    }

    /// The holidays of the calendar.
    pub fn get_holidays(&self) -> (r: &DateSet)
        ensures
            *r == self.holidays,
    {
        &self.holidays
    }

    /// The weekend of the calendar.
    pub fn get_weekend(&self) -> (r: &WeekdaySet)
        ensures
            *r == self.weekend,
    {
        &self.weekend
    }

    /// Adds `holidays` to the holidays of the calendar.
    pub fn add_holidays(&mut self, holidays: &DateSet)
        ensures
            final(self).holidays@ == old(self).holidays@.union(holidays@),
            final(self).weekend == old(self).weekend,
    {
        self.holidays.union_with(holidays);
    }

    /// Adds `weekends` to the weekend of the calendar.
    pub fn add_weekends(&mut self, weekends: &WeekdaySet)
        ensures
            final(self).weekend@ == old(self).weekend@.union(weekends@),
            final(self).holidays == old(self).holidays,
    {
        self.weekend = self.weekend.union(weekends);
    }

    /// Makes the calendar hold what either calendar holds.
    pub fn union(&mut self, calendar: &Calendar)
        ensures
            final(self).weekend@ == old(self).weekend@.union(calendar.weekend@),
            final(self).holidays@ == old(self).holidays@.union(calendar.holidays@),
    {
        self.holidays.union_with(&calendar.holidays);
        self.weekend = self.weekend.union(&calendar.weekend);
    }

    /// Makes the calendar hold what both calendars hold.
    pub fn intersection(&mut self, calendar: &Calendar)
        ensures
            final(self).weekend@ == old(self).weekend@.intersect(calendar.weekend@),
            final(self).holidays@ == old(self).holidays@.intersect(calendar.holidays@),
    {
        self.holidays.intersect_with(&calendar.holidays);
        self.weekend = self.weekend.intersection(&calendar.weekend);
    }
}

/// The calendar with Saturday and Sunday as its weekend and no holidays.
pub fn basic_calendar() -> (r: Calendar)
    ensures
        r.weekend@ == set![Weekday::Sat, Weekday::Sun],
        r.holidays@ == Set::<int>::empty(),
{
    let mut weekend = WeekdaySet::new();
    weekend.insert(Weekday::Sat);
    weekend.insert(Weekday::Sun);
    assert(weekend@ =~= set![Weekday::Sat, Weekday::Sun]);
    Calendar { weekend, holidays: DateSet::new() }
}

/// The union of all the calendars listed.
pub fn calendar_unions(calendars: &Vec<Calendar>) -> (r: Calendar)
    ensures
        forall|w: Weekday|
            r.weekend@.contains(w) <==> exists|i: int|
                0 <= i < calendars.len() && calendars[i].weekend@.contains(w),
        forall|n: int|
            r.holidays@.contains(n) <==> exists|i: int|
                0 <= i < calendars.len() && calendars[i].holidays@.contains(n),
{
    let mut result = Calendar::new();
    let mut k: usize = 0;
    while k < calendars.len()
        invariant
            k <= calendars.len(),
            forall|w: Weekday|
                result.weekend@.contains(w) <==> exists|i: int|
                    0 <= i < k && calendars[i].weekend@.contains(w),
            forall|n: int|
                result.holidays@.contains(n) <==> exists|i: int|
                    0 <= i < k && calendars[i].holidays@.contains(n),
        decreases calendars.len() - k,
    {
        result.union(&calendars[k]);
        k += 1;
    }
    result
}

} // verus!
