//! Runtime options.  The production allocator resolves these from the
//! environment; the core only ever consumes resolved integer values, so
//! this model serves the documented defaults.

use vstd::prelude::*;

verus! {

/// Options consumed by the segment and page machinery.
#[derive(Copy, Clone, PartialEq, Eq, Structural)]
pub enum MiOption {
    /// Commit a whole segment eagerly when it is allocated.
    MiOptionEagerCommit,
    /// Number of first segments per thread that are not eagerly committed.
    MiOptionEagerCommitDelay,
    /// Decommit unused slices after a delay.
    MiOptionAllowDecommit,
    /// Decommit delay in milliseconds.
    MiOptionDecommitDelay,
    /// Bound on abandoned-segment reclaims per allocation attempt.
    MiOptionMaxSegmentReclaim,
}

/// The resolved value of each option.
pub open spec fn option_value(option: MiOption) -> i64 {
    match option {
        MiOption::MiOptionEagerCommit => 1,
        MiOption::MiOptionEagerCommitDelay => 1,
        MiOption::MiOptionAllowDecommit => 1,
        MiOption::MiOptionDecommitDelay => 25,
        MiOption::MiOptionMaxSegmentReclaim => 8,
    }
}

/// Nothing to resolve in this model: the option table is fixed.
pub fn mi_option_init() {
}

pub fn mi_option_get(option: MiOption) -> (r: i64)
    ensures
        r == option_value(option),
{
    match option {
        MiOption::MiOptionEagerCommit => 1,
        MiOption::MiOptionEagerCommitDelay => 1,
        MiOption::MiOptionAllowDecommit => 1,
        MiOption::MiOptionDecommitDelay => 25,
        MiOption::MiOptionMaxSegmentReclaim => 8,
    }
}

pub fn mi_option_is_enabled(option: MiOption) -> (r: bool)
    ensures
        r == (option_value(option) != 0),
{
    mi_option_get(option) != 0
}

/// The option's value clamped into `[min, max]`.
pub fn mi_option_get_clamp(option: MiOption, min: i64, max: i64) -> (r: i64)
    requires
        min <= max,
    ensures
        min <= r <= max,
        option_value(option) < min ==> r == min,
        option_value(option) > max ==> r == max,
        min <= option_value(option) <= max ==> r == option_value(option),
{
    let x = mi_option_get(option);
    if x < min {
        min
    } else if x > max {
        max
    } else {
        x
    }
}

} // verus!
