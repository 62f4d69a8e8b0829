//! Reshapes a flat list of timetable lesson records into calendar days and
//! Monday-to-Sunday weeks.
pub mod date;
pub mod day;
pub mod error;
pub mod lesson;
pub mod order;
pub mod week;
