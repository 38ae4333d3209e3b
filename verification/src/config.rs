//! Mode selection: turning the two command-line counts into a single,
//! validated stop condition.

use vstd::prelude::*;

verus! {

/// The bound governing when emission stops: either a count of
/// newline-delimited lines or a count of raw bytes.
///
/// Exactly one variant is active per invocation, and a valid stop
/// condition always carries a count of at least 1.
#[derive(Clone, Copy, Debug, PartialEq, Eq, Structural)]
pub enum StopCondition {
    Lines(u32),
    Bytes(u32),
}

impl StopCondition {
    /// A stop condition is valid when its count is positive; a count of
    /// zero is rejected before any emission begins.
    pub open spec fn valid(self) -> bool {
        match self {
            StopCondition::Lines(n) => n >= 1,
            StopCondition::Bytes(n) => n >= 1,
        }
    }
}

/// A configuration that must be rejected before any read occurs.
#[derive(Clone, Copy, Debug, PartialEq, Eq, Structural)]
pub enum ConfigError {
    /// The requested line count is zero.
    ZeroCount,
}

/// Selects the emission mode from the two command-line counts.
///
/// `number` is the requested line count; `chars` is the requested byte
/// count, where 0 means "unset". A byte count of 0 degrades to line mode
/// with the configured line count, and a line count of 0 is a
/// configuration error.
pub fn select_mode(number: u32, chars: u32) -> (r: Result<StopCondition, ConfigError>)
    ensures
        r is Err <==> number == 0,
        number == 0 ==> r == Result::<StopCondition, ConfigError>::Err(ConfigError::ZeroCount),
        number >= 1 && chars == 0 ==> r == Result::<StopCondition, ConfigError>::Ok(
            StopCondition::Lines(number),
        ),
        number >= 1 && chars >= 1 ==> r == Result::<StopCondition, ConfigError>::Ok(
            StopCondition::Bytes(chars),
        ),
        r matches Ok(s) ==> s.valid(),
{
    if number == 0 {
        Err(ConfigError::ZeroCount)
    } else if chars == 0 {
        Ok(StopCondition::Lines(number))
    } else {
        Ok(StopCondition::Bytes(chars))
    }
}

} // verus!
