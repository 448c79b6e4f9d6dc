//! The ways in which an invocation ends early.

use crate::text::joined;
use std::io;
use vstd::prelude::*;
use vstd::string::*;

verus! {

#[verifier::external_type_specification]
#[verifier::external_body]
pub struct ExIoError(io::Error);

/// The wish to end the process with a status and without a message.
#[derive(Debug)]
pub struct SilentExit {
    pub code: i32,
}

impl SilentExit {
    /// What is shown of it: nothing.
    pub fn to_string(&self) -> (shown: String)
        ensures
            shown@ == Seq::<char>::empty(),
    {
        String::new()
    }
}

/// Why output was not written.
#[derive(Debug)]
pub enum PipeError {
    /// The reader has closed the pipe: the process ends quietly.
    Exit(SilentExit),
    /// Writing to the named device failed for the given reason.
    Write { device: String, source: io::Error },
}

impl PipeError {
    /// Whether this is the failure of a write to `device` for the reason
    /// `source`.
    pub open spec fn is_write(self, device: Seq<char>, source: io::Error) -> bool {
        match self {
            PipeError::Write { device: name, source: cause } => name@ == device && cause == source,
            PipeError::Exit(_) => false,
        }
    }

    /// The message for a user, in one line: none for a quiet end, the name
    /// of the device for a failed write.
    pub open spec fn text(self) -> Seq<char> {
        match self {
            PipeError::Write { device, source } => "could not write to "@ + device@,
            PipeError::Exit(_) => Seq::empty(),
        }
    }

    /// The message for a user, in one line.
    pub fn message(&self) -> (line: String)
        ensures
            line@ == self.text(),
    {
        match self {
            PipeError::Write { device, source } => joined("could not write to ", device.as_str()),
            PipeError::Exit(exit) => exit.to_string(),
        }
    }

    /// Whether this is the wish to end quietly with status zero.
    pub open spec fn is_quiet(self) -> bool {
        self == PipeError::Exit(SilentExit { code: 0 })
    }
}

/// Whether the kind of a failure, which `io::Error::kind` gives, is
/// `BrokenPipe`.
pub uninterp spec fn kind_is_broken_pipe(error: io::Error) -> bool;

/// `io::Error::kind`, asked whether it is `BrokenPipe`: the answer depends
/// on the failure alone.
#[verifier::external_body]
fn is_broken_pipe(error: &io::Error) -> (broken: bool)
    ensures
        broken == kind_is_broken_pipe(*error),
{
    matches!(error.kind(), io::ErrorKind::BrokenPipe)
}

/// What a failed write to `device` ends in: a quiet exit with status zero
/// where the pipe is broken, the failure itself with the device's name
/// elsewhere.
pub fn pipe_failure(broken: bool, device: &str, source: io::Error) -> (failure: PipeError)
    ensures
        broken ==> failure.is_quiet(),
        !broken ==> failure.is_write(device@, source),
{
    if broken {
        PipeError::Exit(SilentExit { code: 0 })
    } else {
        PipeError::Write { device: String::from_str(device), source }
    }
}

/// For the result of a write: tells a broken pipe from a failure.
pub trait BrokenPipeHandler {
    fn pipe_exit(self, device: &str) -> Result<(), PipeError>;
}

impl BrokenPipeHandler for io::Result<()> {
    /// A write that went well stays so. One that failed ends quietly where
    /// the pipe is broken, and as a failure to write to `device` elsewhere.
    fn pipe_exit(self, device: &str) -> (done: Result<(), PipeError>)
        ensures
            done is Ok <==> self is Ok,
            self is Err && kind_is_broken_pipe(self->Err_0) ==> done->Err_0.is_quiet(),
            self is Err && !kind_is_broken_pipe(self->Err_0) ==> done->Err_0.is_write(
                device@,
                self->Err_0,
            ),
    {
        match self {
            Ok(()) => Ok(()),
            Err(error) => {
                let broken = is_broken_pipe(&error);
                Err(pipe_failure(broken, device, error))
            },
        }
    }
}

} // verus!
