//! The parameters of a run, the reading of its numbers, and the run itself
//! from parameters that may turn out to be unusable.

use crate::access::{AccessResult, MemoryAccess};
use crate::text::{chars_of, parse_usize, read_usize};
use crate::trace::{parse_trace, TraceError, TraceFault};
use std::collections::VecDeque;
use vstd::prelude::*;

verus! {

/// The parameters of a run of the optimal or the second-chance policy.
#[allow(non_camel_case_types)]
#[derive(Debug, Clone)]
pub struct ORA_SCA_Params {
    pub total_frames: usize,
    pub access_string: String,
}

/// The parameters of a run of the working-set clock.
#[allow(non_camel_case_types)]
#[derive(Debug, Clone)]
pub struct WSCPR_Params {
    pub total_frames: usize,
    pub access_string: String,
    pub tau: usize,
}

/// Why a run did not start.
#[derive(Debug, Clone)]
pub enum RunError {
    /// The table would have no frame.
    NoFrames,
    /// A token of the trace denotes no access.
    Trace(TraceError),
}

/// A `RunError` as contracts see it.
pub enum RunFault {
    NoFrames,
    Trace(TraceFault),
}

impl View for RunError {
    type V = RunFault;

    open spec fn view(&self) -> RunFault {
        match self {
            RunError::NoFrames => RunFault::NoFrames,
            RunError::Trace(error) => RunFault::Trace(error@),
        }
    }
}

/// The trace that a run with `total_frames` frames over the text
/// `access_string` works on, or why there is no run: a table without frames
/// is refused first, then the first token that denotes no access.
pub open spec fn accepted(total_frames: usize, access_string: Seq<char>) -> Result<Seq<MemoryAccess>, RunFault> {
    if total_frames == 0 {
        Err(RunFault::NoFrames)
    } else {
        match parse_trace(access_string) {
            Ok(trace) => Ok(trace),
            Err(fault) => Err(RunFault::Trace(fault)),
        }
    }
}

/// Reads the number `num_string`, which is called `num_kind` in messages.
///
/// Without a string the error is `No <kind> count provided`; with a string
/// that is no numeral of a `usize` it is `Invalid <kind> count provided`.
pub fn parse_number(num_kind: &str, num_string: Option<&String>) -> (r: Result<usize, String>)
    ensures
        match num_string {
            None => r is Err && r->Err_0@ == "No "@ + num_kind@ + " count provided"@,
            Some(s) => match parse_usize(s@) {
                Some(n) => r == Ok::<usize, String>(n),
                None => r is Err && r->Err_0@ == "Invalid "@ + num_kind@ + " count provided"@,
            },
        },
{
    match num_string {
        None => Err(String::from_str("No ").concat(num_kind).concat(" count provided")),
        Some(s) => {
            let text = chars_of(s.as_str());
            assert(text@.subrange(0, text@.len() as int) =~= s@);
            match read_usize(&text, 0, text.len()) {
                Some(n) => Ok(n),
                None => Err(String::from_str("Invalid ").concat(num_kind).concat(" count provided")),
            }
        },
    }
}

/// Reads the trace of a run with `total_frames` frames.
fn accept(total_frames: usize, access_string: &str) -> (r: Result<Vec<MemoryAccess>, RunError>)
    ensures
        match r {
            Ok(trace) => accepted(total_frames, access_string@) == Ok::<Seq<MemoryAccess>, RunFault>(trace@),
            Err(error) => accepted(total_frames, access_string@) == Err::<Seq<MemoryAccess>, RunFault>(error@),
        },
{
    if total_frames == 0 {
        return Err(RunError::NoFrames);
    }
    match MemoryAccess::parse(access_string) {
        Ok(trace) => Ok(trace),
        Err(error) => Err(RunError::Trace(error)),
    }
}

impl RunError {
    /// A sentence that names the fault.
    pub fn message(&self) -> (text: String)
        ensures
            text@ == (match self {
                RunError::NoFrames => "Invalid frame count provided"@,
                RunError::Trace(error) => (match error.kind {
                    crate::trace::TraceErrorKind::Operation => "Invalid access token: "@,
                    crate::trace::TraceErrorKind::PageNumber => "Invalid memory access token: "@,
                }) + error.token@,
            }),
    {
        match self {
            RunError::NoFrames => String::from_str("Invalid frame count provided"),
            RunError::Trace(error) => error.message(),
        }
    }
}

impl ORA_SCA_Params {
    /// Runs the optimal policy over the trace that `access_string` denotes,
    /// unless the parameters are refused.
    pub fn run_optimal(&self) -> (r: Result<Vec<AccessResult>, RunError>)
        ensures
            match r {
                Ok(results) => accepted(self.total_frames, self.access_string@) is Ok && results@
                    == crate::optimal::simulate(
                    self.total_frames,
                    accepted(self.total_frames, self.access_string@)->Ok_0,
                ),
                Err(error) => accepted(self.total_frames, self.access_string@) == Err::<
                    Seq<MemoryAccess>,
                    RunFault,
                >(error@),
            },
    {
        match accept(self.total_frames, self.access_string.as_str()) {
            Ok(trace) => Ok(crate::optimal::process_page_requests(self.total_frames, trace, Vec::new())),
            Err(error) => Err(error),
        }
    }

    /// Runs the second-chance policy over the trace that `access_string`
    /// denotes, unless the parameters are refused.
    pub fn run_second_chance(&self) -> (r: Result<Vec<AccessResult>, RunError>)
        ensures
            match r {
                Ok(results) => accepted(self.total_frames, self.access_string@) is Ok && results@
                    == crate::second::simulate(
                    self.total_frames,
                    accepted(self.total_frames, self.access_string@)->Ok_0,
                ),
                Err(error) => accepted(self.total_frames, self.access_string@) == Err::<
                    Seq<MemoryAccess>,
                    RunFault,
                >(error@),
            },
    {
        match accept(self.total_frames, self.access_string.as_str()) {
            Ok(trace) => Ok(crate::second::process_page_requests(self.total_frames, trace, VecDeque::new())),
            Err(error) => Err(error),
        }
    }
}

impl WSCPR_Params {
    /// Runs the working-set clock over the trace that `access_string`
    /// denotes, unless the parameters are refused. Returns the
    /// classifications and the write-backs that the run schedules.
    pub fn run(&self) -> (r: Result<(Vec<AccessResult>, Vec<crate::wsclock::Page>), RunError>)
        ensures
            match r {
                Ok(outcome) => {
                    let trace = accepted(self.total_frames, self.access_string@)->Ok_0;
                    &&& accepted(self.total_frames, self.access_string@) is Ok
                    &&& outcome.0@ == crate::wsclock::simulate(self.tau, self.total_frames, trace)
                    &&& outcome.1@ == crate::wsclock::write_backs_until(
                        self.tau,
                        self.total_frames,
                        trace,
                        trace.len(),
                    )
                },
                Err(error) => accepted(self.total_frames, self.access_string@) == Err::<
                    Seq<MemoryAccess>,
                    RunFault,
                >(error@),
            },
    {
        match accept(self.total_frames, self.access_string.as_str()) {
            Ok(trace) => Ok(crate::wsclock::process_with_write_backs(self.tau, self.total_frames, &trace)),
            Err(error) => Err(error),
        }
    }
}

} // verus!
