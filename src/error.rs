use vstd::prelude::*;

verus! {

/// Why a run of the timetable pipeline produced no result.
#[derive(Debug, Clone, Copy, PartialEq, Eq, Structural)]
pub enum ScheduleError {
    /// A lesson number or a subgroup is not a decimal number that fits in a byte.
    Parse,
    /// A date string is malformed or names no calendar date.
    DateParse,
    /// Weeks were asked for with no days at all.
    EmptyInput,
}

} // verus!
