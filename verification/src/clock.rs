//! The elapsed-time clock of a board is a `stopwatch::Stopwatch`. The type
//! is opaque here: the rules only start it on the first reveal and stop it
//! when the game ends, and promise nothing about the time it accumulates.

use vstd::prelude::*;

verus! {

#[verifier::external_type_specification]
#[verifier::external_body]
pub struct ExStopwatch(stopwatch::Stopwatch);

/// Relies on stopwatch::Stopwatch::new: a stopped stopwatch with no
/// elapsed time. Nothing is assumed of the value.
pub assume_specification[ stopwatch::Stopwatch::new ]() -> stopwatch::Stopwatch;

/// Relies on stopwatch::Stopwatch::start: records the current instant so
/// the stopwatch runs. Nothing is assumed of the new value.
pub assume_specification[ stopwatch::Stopwatch::start ](sw: &mut stopwatch::Stopwatch);

/// Relies on stopwatch::Stopwatch::stop: folds the running time into the
/// accumulated duration. Nothing is assumed of the new value.
pub assume_specification[ stopwatch::Stopwatch::stop ](sw: &mut stopwatch::Stopwatch);

} // verus!
