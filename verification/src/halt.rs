//! The end of every path on which nothing can be handed on: a line for the
//! console, if there is one to give, and then waiting without end.

use vstd::prelude::*;
use crate::error::LoadError;

verus! {

/// What is left to do once nothing further can run: print the diagnostic, if
/// any, and wait forever.
#[derive(Clone, Copy, Debug)]
pub struct Halt {
    pub diagnostic: Option<&'static str>,
}

/// The line that names an error on the console.
pub open spec fn diagnostic_of(error: LoadError) -> Seq<char> {
    match error {
        LoadError::ResourceExhaustion => "no physical frame left"@,
        LoadError::MalformedImage => "kernel image is malformed"@,
        LoadError::InvalidSegmentPermissions => "segment asks for a writable and executable page"@,
        LoadError::TransitionRaceFailure => "memory map changed while boot services were retired"@,
        LoadError::EntryUnreachable => "entry point is not mapped for execution"@,
    }
}

/// Every error ends the boot sequence: its diagnostic goes to the console,
/// and the processor waits.
pub fn halt_on(error: LoadError) -> (halt: Halt)
    ensures
        halt.diagnostic matches Some(text) && text@ == diagnostic_of(error),
{
    let text = match error {
        LoadError::ResourceExhaustion => "no physical frame left",
        LoadError::MalformedImage => "kernel image is malformed",
        LoadError::InvalidSegmentPermissions => "segment asks for a writable and executable page",
        LoadError::TransitionRaceFailure => "memory map changed while boot services were retired",
        LoadError::EntryUnreachable => "entry point is not mapped for execution",
    };
    Halt { diagnostic: Some(text) }
}

/// The kernel's answer to an abort: it names the abort and waits.
pub fn abort() -> (halt: Halt)
    ensures
        halt.diagnostic matches Some(text) && text@ == "abort!"@,
{
    Halt { diagnostic: Some("abort!") }
}

/// The kernel's unwinding personality: there is nothing to unwind to, so it
/// says nothing and waits.
pub fn eh_personality() -> (halt: Halt)
    ensures
        halt.diagnostic is None,
{
    Halt { diagnostic: None }
}

} // verus!
