//! What a failed write to stdout means. A reader that closes early (`| head`)
//! is not a failure: the verdict was computed before anything was
//! rendered, so the run keeps its exit code. Only a real I/O error is.
use vstd::prelude::*;

use crate::text::{owned, push_str};

verus! {

/// How a write of the report to stdout ended.
#[derive(Debug, Clone, PartialEq, Eq)]
pub enum WriteOutcome {
    /// Everything was written.
    Written,
    /// The reader went away before the end.
    BrokenPipe,
    /// Any other I/O error, by its message.
    Failed(String),
}

/// Interpret the outcome of writing a report to stdout: `Ok` for a
/// complete write and for a reader that closed early, `Err` only for a
/// real failure.
pub fn finish(result: WriteOutcome) -> (r: Result<(), String>)
    ensures
        match result {
            WriteOutcome::Failed(e) => r matches Err(m) && m@ == "cannot write to stdout: "@ + e@,
            _ => r is Ok,
        },
{
    match result {
        WriteOutcome::Written => Ok(()),
        WriteOutcome::BrokenPipe => Ok(()),
        WriteOutcome::Failed(e) => {
            let mut m = owned("cannot write to stdout: ");
            push_str(&mut m, e.as_str());
            Err(m)
        },
    }
}

} // verus!
