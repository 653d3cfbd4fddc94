//! Timetable export for the CCZU teaching system: parsing the class table,
//! planning calendar events, and the small value types around them.
use vstd::prelude::*;

pub mod calendar;
pub mod callback;
pub mod civil;
pub mod ical;
pub mod page;
pub mod pattern;
pub mod reminder;
pub mod text;
pub mod timetable;
pub mod typeddata;
pub mod user;

verus! {
} // verus!
