use vstd::prelude::*;
use crate::error::LashResult;

verus! {

/// What the interpreter needs from the world around it: somewhere to write
/// to, files to read, and a clock. The interpreter relies on nothing that
/// these return.
pub trait Environment {
    /// A moment, as the clock of the environment gives it.
    type Instant;

    /// Writes a line to the standard output.
    fn stdout(&mut self, line: &str);

    /// Writes a line to the standard error.
    fn stderr(&mut self, line: &str);

    /// The contents of the file `file`.
    fn load(&self, file: &str) -> LashResult<String>;

    /// The present moment.
    fn now(&self) -> Self::Instant;

    /// The milliseconds that have passed since `then`.
    fn elapsed(&self, then: Self::Instant) -> u64;
}

} // verus!
