//! Programs that are started and waited for.

use vstd::prelude::*;

use crate::error::{ErrorCategory, GitveilError};
use crate::text;

verus! {

/// An output of a program.
#[derive(Clone, Copy, Debug, PartialEq, Eq, Structural)]
pub enum Stream {
    Stdout,
    Stderr,
}

impl Stream {
    pub open spec fn name(self) -> Seq<char> {
        match self {
            Stream::Stdout => "stdout"@,
            Stream::Stderr => "stderr"@,
        }
    }

    fn as_str(self) -> (r: &'static str)
        ensures
            r@ == self.name(),
    {
        match self {
            Stream::Stdout => "stdout",
            Stream::Stderr => "stderr",
        }
    }
}

/// What went wrong with a program that was started, with the kind of the failure.
#[derive(Debug, PartialEq, Eq)]
pub enum ProcessFault {
    Start(String),
    InputUnavailable,
    OutputUnavailable(Stream),
    Wait(String),
    Reap(String),
    WriterFailed,
    Write(String),
    ReaderFailed(Stream),
    Read(Stream, String),
    TimedOut,
}

/// The message for a fault of a program.
pub open spec fn fault_text(program: Seq<char>, fault: ProcessFault) -> Seq<char> {
    match fault {
        ProcessFault::Start(kind) => "could not start "@ + program + " process: "@ + kind@,
        ProcessFault::InputUnavailable => program + " stdin unavailable"@,
        ProcessFault::OutputUnavailable(stream) => program + " "@ + stream.name()
            + " unavailable"@,
        ProcessFault::Wait(kind) => "could not wait for "@ + program + " process: "@ + kind@,
        ProcessFault::Reap(kind) => "could not reap "@ + program + " process: "@ + kind@,
        ProcessFault::WriterFailed => program + " stdin writer failed"@,
        ProcessFault::Write(kind) => "could not write "@ + program + " input: "@ + kind@,
        ProcessFault::ReaderFailed(stream) => program + " "@ + stream.name() + " reader failed"@,
        ProcessFault::Read(stream, kind) => "could not read "@ + program + " "@ + stream.name()
            + ": "@ + kind@,
        ProcessFault::TimedOut => program + " process timed out"@,
    }
}

pub fn process_error(program: &str, fault: &ProcessFault) -> (r: GitveilError)
    ensures
        r@ == (ErrorCategory::Process, fault_text(program@, *fault)),
{
    let message = match fault {
        ProcessFault::Start(kind) => text::cat4(
            "could not start ",
            program,
            " process: ",
            kind.as_str(),
        ),
        ProcessFault::InputUnavailable => text::cat2(program, " stdin unavailable"),
        ProcessFault::OutputUnavailable(stream) => text::cat4(
            program,
            " ",
            stream.as_str(),
            " unavailable",
        ),
        ProcessFault::Wait(kind) => text::cat4(
            "could not wait for ",
            program,
            " process: ",
            kind.as_str(),
        ),
        ProcessFault::Reap(kind) => text::cat4(
            "could not reap ",
            program,
            " process: ",
            kind.as_str(),
        ),
        ProcessFault::WriterFailed => text::cat2(program, " stdin writer failed"),
        ProcessFault::Write(kind) => text::cat4(
            "could not write ",
            program,
            " input: ",
            kind.as_str(),
        ),
        ProcessFault::ReaderFailed(stream) => text::cat4(
            program,
            " ",
            stream.as_str(),
            " reader failed",
        ),
        ProcessFault::Read(stream, kind) => {
            let head = text::cat4("could not read ", program, " ", stream.as_str());
            text::cat3(head.as_str(), ": ", kind.as_str())
        },
        ProcessFault::TimedOut => text::cat2(program, " process timed out"),
    };
    GitveilError::new(ErrorCategory::Process, message)
}

/// Judges a program that has ended. One that ran out of time failed; that its input
/// could not be written matters only where it claims success.
pub fn capture_result(
    program: &str,
    timed_out: bool,
    success: bool,
    written: Result<(), GitveilError>,
) -> (r: Result<(), GitveilError>)
    ensures
        if timed_out {
            r matches Err(e) && e@ == (ErrorCategory::Process, program@ + " process timed out"@)
        } else if success {
            match written {
                Ok(_) => r.is_ok(),
                Err(fault) => r matches Err(e) && e@ == fault@,
            }
        } else {
            r.is_ok()
        },
{
    if timed_out {
        return Err(process_error(program, &ProcessFault::TimedOut));
    }
    if success {
        return written;
    }
    Ok(())
}

} // verus!
