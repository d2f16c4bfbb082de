//! Dates and date operations for financial products.
//!
//! The crate decides whether a date is a business day under a calendar, moves
//! dates that are not to a business day nearby, steps through payment
//! schedules, and counts the fraction of a year between two dates under the
//! usual market conventions. Every function carries a contract that Verus
//! proves; the civil calendar itself is `chrono`'s, reached through a handful
//! of trusted wrappers in [`date`].

pub mod conventions;
pub mod date;
pub mod calendar;
pub mod error;
pub mod algebra;
pub mod schedule;
