//! The ways in which a date computation can fail.

use vstd::prelude::*;
use vstd::string::*;

verus! {

/// Why a computation gave no result.
#[derive(PartialEq, Eq, Copy, Clone, Debug, Hash, Structural)]
pub enum DateError {
    /// A schedule was asked for a range whose end is not after its start.
    InvalidRange,
    /// A day count that counts business days was asked for without a
    /// calendar.
    MissingCalendar,
    /// A search or a step left the range of dates that can be represented.
    DateOutOfRange,
}

impl DateError {
    /// What `to_string` says of the error.
    pub open spec fn message(self) -> Seq<char> {
        match self {
            DateError::InvalidRange => "Anchor date must be before end date"@,
            DateError::MissingCalendar => "Bd252 Day count requires a Calendar input!"@,
            DateError::DateOutOfRange => "Date is out of bounds"@,
        }
    }

    /// The error in words.
    pub fn to_string(&self) -> (s: String)
        ensures
            s@ == self.message(),
    {
        match self {
            DateError::InvalidRange => String::from_str("Anchor date must be before end date"),
            DateError::MissingCalendar => String::from_str(
                "Bd252 Day count requires a Calendar input!",
            ),
            DateError::DateOutOfRange => String::from_str("Date is out of bounds"),
        }
    }
}

} // verus!
