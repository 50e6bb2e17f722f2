//! A verified core for a command-line timesheet tracker.
//!
//! A user records hours worked per project per day; each project-month is
//! stored in one two-line text file (a header of ISO dates and a row of hour
//! values) and displayed as a compact calendar grid. This crate holds the
//! logic with real invariants: the month record with full day coverage, the
//! codec for the on-disk format, and the calendar-aware renderer. File and
//! terminal I/O live outside.

use vstd::prelude::*;

pub mod calendar;
pub mod codec;
pub mod digits;
pub mod record;
pub mod render;
pub mod scan;

verus! {

/// The failures the core can report.
#[derive(Clone, Copy, PartialEq, Eq, Structural, Debug)]
pub enum TimesheetError {
    /// The stored payload is malformed or its value count does not match the
    /// month's day count.
    CorruptFormat,
    /// A mutation named a date outside the record's month.
    OutOfRange,
    /// A record handed to the renderer does not cover every day of its month.
    MissingDay,
    /// A filesystem failure reported by the unverified shell around the core.
    IoError,
}

} // verus!
