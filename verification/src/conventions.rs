//! Enumerations of the market conventions, with their names as text.

use vstd::prelude::*;
use vstd::string::*;

verus! {

/// Day count conventions.
#[derive(PartialEq, Eq, Copy, Clone, Debug, Hash, Structural)]
pub enum DayCount {
    Act360,
    Act365,
    Bd252,
    ActActISDA,
    D30360Euro,
    D30365,
}

/// The text was not the name of a day count convention.
#[derive(Debug, PartialEq, Eq)]
pub struct ParseDayCountError;

impl DayCount {
    /// The name that `to_string` gives the variant.
    pub open spec fn name(self) -> Seq<char> {
        match self {
            DayCount::Act360 => "Act360"@,
            DayCount::Act365 => "Act365"@,
            DayCount::Bd252 => "Bd252"@,
            DayCount::ActActISDA => "ActActISDA"@,
            DayCount::D30360Euro => "D30360Euro"@,
            DayCount::D30365 => "D30365"@,
        }
    }

    /// The text that `from_str` reads as the variant. It is the variant's
    /// name, except for `Bd252`, which is read from `Bd2532`.
    pub open spec fn parsed_from(self) -> Seq<char> {
        match self {
            DayCount::Bd252 => "Bd2532"@,
            _ => self.name(),
        }
    }

    /// The name of the variant.
    pub fn to_string(&self) -> (s: String)
        ensures
            s@ == self.name(),
    {
        match self {
            DayCount::Act360 => String::from_str("Act360"),
            DayCount::Act365 => String::from_str("Act365"),
            DayCount::Bd252 => String::from_str("Bd252"),
            DayCount::ActActISDA => String::from_str("ActActISDA"),
            DayCount::D30360Euro => String::from_str("D30360Euro"),
            DayCount::D30365 => String::from_str("D30365"),
        }
    }

    /// Reads a convention from its text, case-sensitively.
    pub fn from_str(s: &str) -> (r: Result<DayCount, ParseDayCountError>)
        ensures
            forall|v: DayCount|
                r == Ok::<DayCount, ParseDayCountError>(v) <==> s@ == #[trigger] v.parsed_from(),
            r is Err <==> forall|v: DayCount| s@ != #[trigger] v.parsed_from(),
    {
        let text = s.to_owned();
        let r = if text == String::from_str("Act360") {
            Ok(DayCount::Act360)
        } else if text == String::from_str("Act365") {
            Ok(DayCount::Act365)
        } else if text == String::from_str("Bd2532") {
            Ok(DayCount::Bd252)
        } else if text == String::from_str("ActActISDA") {
            Ok(DayCount::ActActISDA)
        } else if text == String::from_str("D30360Euro") {
            Ok(DayCount::D30360Euro)
        } else if text == String::from_str("D30365") {
            Ok(DayCount::D30365)
        } else {
            Err(ParseDayCountError)
        };
        proof {
            match r {
                Ok(found) => {
                    assert(s@ == found.parsed_from());
                    assert forall|v: DayCount| s@ == #[trigger] v.parsed_from() implies v
                        == found by {
                        DayCount::lemma_names_differ(v, found);
                    }
                },
                Err(_) => {
                    assert forall|v: DayCount| s@ != #[trigger] v.parsed_from() by {
                        match v {
                            DayCount::Act360 => {},
                            DayCount::Act365 => {},
                            DayCount::Bd252 => {},
                            DayCount::ActActISDA => {},
                            DayCount::D30360Euro => {},
                            DayCount::D30365 => {},
                        }
                    }
                },
            }
        }
        r
    }

    /// No two variants share a name.
    pub proof fn lemma_names_differ(a: DayCount, b: DayCount)
        ensures
            a.name() == b.name() ==> a == b,
            a.parsed_from() == b.parsed_from() ==> a == b,
    {
        reveal_strlit("Act360");
        reveal_strlit("Act365");
        reveal_strlit("Bd252");
        reveal_strlit("ActActISDA");
        reveal_strlit("D30360Euro");
        reveal_strlit("D30365");
        reveal_strlit("Bd2532");
        assert("Act360"@.len() == 6 && "Act360"@[0] == 'A' && "Act360"@[5] == '0');
        assert("Act365"@.len() == 6 && "Act365"@[0] == 'A' && "Act365"@[5] == '5');
        assert("Bd252"@.len() == 5 && "Bd252"@[0] == 'B');
        assert("ActActISDA"@.len() == 10 && "ActActISDA"@[0] == 'A' && "ActActISDA"@[5] == 't');
        assert("D30360Euro"@.len() == 10 && "D30360Euro"@[0] == 'D' && "D30360Euro"@[5] == '0');
        assert("D30365"@.len() == 6 && "D30365"@[0] == 'D' && "D30365"@[5] == '5');
        assert("Bd2532"@.len() == 6 && "Bd2532"@[0] == 'B' && "Bd2532"@[5] == '2');
    }
}

/// Rules by which a date that is no business day is moved to one.
#[derive(PartialEq, Eq, Copy, Clone, Debug, Hash, Structural)]
pub enum AdjustRule {
    /// The first business day after the date.
    Following,
    /// The first business day after the date, unless it lies in another
    /// month: then the last business day before the date.
    ModFollowing,
    /// The last business day before the date.
    Preceding,
    /// The last business day before the date, unless it lies in another
    /// month: then the first business day after the date.
    ModPreceding,
    /// The date itself.
    Unadjusted,
    /// The first business day after the date, unless it lies in another
    /// month or crosses from the 15th or before to after it: then the last
    /// business day before the date.
    HalfMonthModFollowing,
    /// The nearer of the first business day after the date and the last
    /// one before it; the one after it if both are as near.
    Nearest,
}

/// The text was not the name of an adjustment rule.
#[derive(Debug, PartialEq, Eq)]
pub struct ParseAdjustRuleError;

impl AdjustRule {
    /// The name of the variant as text.
    pub open spec fn name(self) -> Seq<char> {
        match self {
            AdjustRule::Following => "Following"@,
            AdjustRule::ModFollowing => "ModFollowing"@,
            AdjustRule::Preceding => "Preceding"@,
            AdjustRule::ModPreceding => "ModPreceding"@,
            AdjustRule::Unadjusted => "Unadjusted"@,
            AdjustRule::HalfMonthModFollowing => "HalfMonthModFollowing"@,
            AdjustRule::Nearest => "Nearest"@,
        }
    }

    /// The name of the variant.
    pub fn to_string(&self) -> (s: String)
        ensures
            s@ == self.name(),
    {
        match self {
            AdjustRule::Following => String::from_str("Following"),
            AdjustRule::ModFollowing => String::from_str("ModFollowing"),
            AdjustRule::Preceding => String::from_str("Preceding"),
            AdjustRule::ModPreceding => String::from_str("ModPreceding"),
            AdjustRule::Unadjusted => String::from_str("Unadjusted"),
            AdjustRule::HalfMonthModFollowing => String::from_str("HalfMonthModFollowing"),
            AdjustRule::Nearest => String::from_str("Nearest"),
        }
    }

    /// Reads a variant from its name, case-sensitively.
    pub fn from_str(s: &str) -> (r: Result<AdjustRule, ParseAdjustRuleError>)
        ensures
            forall|v: AdjustRule|
                r == Ok::<AdjustRule, ParseAdjustRuleError>(v) <==> s@ == #[trigger] v.name(),
            r is Err <==> forall|v: AdjustRule| s@ != #[trigger] v.name(),
    {
        let text = s.to_owned();
        let r = if text == String::from_str("Following") {
            Ok(AdjustRule::Following)
        } else if text == String::from_str("ModFollowing") {
            Ok(AdjustRule::ModFollowing)
        } else if text == String::from_str("Preceding") {
            Ok(AdjustRule::Preceding)
        } else if text == String::from_str("ModPreceding") {
            Ok(AdjustRule::ModPreceding)
        } else if text == String::from_str("Unadjusted") {
            Ok(AdjustRule::Unadjusted)
        } else if text == String::from_str("HalfMonthModFollowing") {
            Ok(AdjustRule::HalfMonthModFollowing)
        } else if text == String::from_str("Nearest") {
            Ok(AdjustRule::Nearest)
        } else {
            Err(ParseAdjustRuleError)
        };
        proof {
            match r {
                Ok(found) => {
                    assert(s@ == found.name());
                    assert forall|v: AdjustRule| s@ == #[trigger] v.name() implies v
                        == found by {
                        AdjustRule::lemma_names_differ(v, found);
                    }
                },
                Err(_) => {
                    assert forall|v: AdjustRule| s@ != #[trigger] v.name() by {
                        match v {
                            AdjustRule::Following => {},
                            AdjustRule::ModFollowing => {},
                            AdjustRule::Preceding => {},
                            AdjustRule::ModPreceding => {},
                            AdjustRule::Unadjusted => {},
                            AdjustRule::HalfMonthModFollowing => {},
                            AdjustRule::Nearest => {},
                        }
                    }
                },
            }
        }
        r
    }

    /// No two variants share a name.
    pub proof fn lemma_names_differ(a: AdjustRule, b: AdjustRule)
        ensures
            a.name() == b.name() ==> a == b,
    {
        reveal_strlit("Following");
        reveal_strlit("ModFollowing");
        reveal_strlit("Preceding");
        reveal_strlit("ModPreceding");
        reveal_strlit("Unadjusted");
        reveal_strlit("HalfMonthModFollowing");
        reveal_strlit("Nearest");
        assert("Following"@.len() == 9 && "Following"@[0] == 'F' && "Following"@[3] == 'l');
        assert("ModFollowing"@.len() == 12
            && "ModFollowing"@[0] == 'M'
            && "ModFollowing"@[3] == 'F');
        assert("Preceding"@.len() == 9 && "Preceding"@[0] == 'P' && "Preceding"@[3] == 'c');
        assert("ModPreceding"@.len() == 12
            && "ModPreceding"@[0] == 'M'
            && "ModPreceding"@[3] == 'P');
        assert("Unadjusted"@.len() == 10 && "Unadjusted"@[0] == 'U' && "Unadjusted"@[3] == 'd');
        assert("HalfMonthModFollowing"@.len() == 21
            && "HalfMonthModFollowing"@[0] == 'H'
            && "HalfMonthModFollowing"@[3] == 'f');
        assert("Nearest"@.len() == 7 && "Nearest"@[0] == 'N' && "Nearest"@[3] == 'r');
    }
}

/// How often a schedule has a date.
#[derive(PartialEq, Eq, Copy, Clone, Debug, Hash, Structural)]
pub enum Frequency {
    /// Only once, as for a zero coupon.
    Once,
    /// Once a year.
    Annual,
    /// Twice a year.
    Semiannual,
    /// Every fourth month.
    EveryFourthMonth,
    /// Every third month.
    Quarterly,
    /// Every second month.
    Bimonthly,
    /// Once a month.
    Monthly,
    /// Every fourth week.
    EveryFourthWeek,
    /// Every second week.
    Biweekly,
    /// Once a week.
    Weekly,
    /// Once a day.
    Daily,
}

/// The text was not the name of a frequency.
#[derive(Debug, PartialEq, Eq)]
pub struct ParseFrequencyError;

impl Frequency {
    /// The name of the variant as text.
    pub open spec fn name(self) -> Seq<char> {
        match self {
            Frequency::Once => "Once"@,
            Frequency::Annual => "Annual"@,
            Frequency::Semiannual => "Semiannual"@,
            Frequency::EveryFourthMonth => "EveryFourthMonth"@,
            Frequency::Quarterly => "Quarterly"@,
            Frequency::Bimonthly => "Bimonthly"@,
            Frequency::Monthly => "Monthly"@,
            Frequency::EveryFourthWeek => "EveryFourthWeek"@,
            Frequency::Biweekly => "Biweekly"@,
            Frequency::Weekly => "Weekly"@,
            Frequency::Daily => "Daily"@,
        }
    }

    /// The name of the variant.
    pub fn to_string(&self) -> (s: String)
        ensures
            s@ == self.name(),
    {
        match self {
            Frequency::Once => String::from_str("Once"),
            Frequency::Annual => String::from_str("Annual"),
            Frequency::Semiannual => String::from_str("Semiannual"),
            Frequency::EveryFourthMonth => String::from_str("EveryFourthMonth"),
            Frequency::Quarterly => String::from_str("Quarterly"),
            Frequency::Bimonthly => String::from_str("Bimonthly"),
            Frequency::Monthly => String::from_str("Monthly"),
            Frequency::EveryFourthWeek => String::from_str("EveryFourthWeek"),
            Frequency::Biweekly => String::from_str("Biweekly"),
            Frequency::Weekly => String::from_str("Weekly"),
            Frequency::Daily => String::from_str("Daily"),
        }
    }

    /// Reads a variant from its name, case-sensitively.
    pub fn from_str(s: &str) -> (r: Result<Frequency, ParseFrequencyError>)
        ensures
            forall|v: Frequency|
                r == Ok::<Frequency, ParseFrequencyError>(v) <==> s@ == #[trigger] v.name(),
            r is Err <==> forall|v: Frequency| s@ != #[trigger] v.name(),
    {
        let text = s.to_owned();
        let r = if text == String::from_str("Once") {
            Ok(Frequency::Once)
        } else if text == String::from_str("Annual") {
            Ok(Frequency::Annual)
        } else if text == String::from_str("Semiannual") {
            Ok(Frequency::Semiannual)
        } else if text == String::from_str("EveryFourthMonth") {
            Ok(Frequency::EveryFourthMonth)
        } else if text == String::from_str("Quarterly") {
            Ok(Frequency::Quarterly)
        } else if text == String::from_str("Bimonthly") {
            Ok(Frequency::Bimonthly)
        } else if text == String::from_str("Monthly") {
            Ok(Frequency::Monthly)
        } else if text == String::from_str("EveryFourthWeek") {
            Ok(Frequency::EveryFourthWeek)
        } else if text == String::from_str("Biweekly") {
            Ok(Frequency::Biweekly)
        } else if text == String::from_str("Weekly") {
            Ok(Frequency::Weekly)
        } else if text == String::from_str("Daily") {
            Ok(Frequency::Daily)
        } else {
            Err(ParseFrequencyError)
        };
        proof {
            match r {
                Ok(found) => {
                    assert(s@ == found.name());
                    assert forall|v: Frequency| s@ == #[trigger] v.name() implies v
                        == found by {
                        Frequency::lemma_names_differ(v, found);
                    }
                },
                Err(_) => {
                    assert forall|v: Frequency| s@ != #[trigger] v.name() by {
                        match v {
                            Frequency::Once => {},
                            Frequency::Annual => {},
                            Frequency::Semiannual => {},
                            Frequency::EveryFourthMonth => {},
                            Frequency::Quarterly => {},
                            Frequency::Bimonthly => {},
                            Frequency::Monthly => {},
                            Frequency::EveryFourthWeek => {},
                            Frequency::Biweekly => {},
                            Frequency::Weekly => {},
                            Frequency::Daily => {},
                        }
                    }
                },
            }
        }
        r
    }

    /// No two variants share a name.
    pub proof fn lemma_names_differ(a: Frequency, b: Frequency)
        ensures
            a.name() == b.name() ==> a == b,
    {
        reveal_strlit("Once");
        reveal_strlit("Annual");
        reveal_strlit("Semiannual");
        reveal_strlit("EveryFourthMonth");
        reveal_strlit("Quarterly");
        reveal_strlit("Bimonthly");
        reveal_strlit("Monthly");
        reveal_strlit("EveryFourthWeek");
        reveal_strlit("Biweekly");
        reveal_strlit("Weekly");
        reveal_strlit("Daily");
        assert("Once"@.len() == 4 && "Once"@[0] == 'O');
        assert("Annual"@.len() == 6 && "Annual"@[0] == 'A');
        assert("Semiannual"@.len() == 10 && "Semiannual"@[0] == 'S');
        assert("EveryFourthMonth"@.len() == 16 && "EveryFourthMonth"@[0] == 'E');
        assert("Quarterly"@.len() == 9 && "Quarterly"@[0] == 'Q');
        assert("Bimonthly"@.len() == 9 && "Bimonthly"@[0] == 'B');
        assert("Monthly"@.len() == 7 && "Monthly"@[0] == 'M');
        assert("EveryFourthWeek"@.len() == 15 && "EveryFourthWeek"@[0] == 'E');
        assert("Biweekly"@.len() == 8 && "Biweekly"@[0] == 'B');
        assert("Weekly"@.len() == 6 && "Weekly"@[0] == 'W');
        assert("Daily"@.len() == 5 && "Daily"@[0] == 'D');
    }
}

} // verus!
