//! The decisions of the target runner: where the pipe lives, what the target
//! is told through its environment, and what the stream of records yields
//! as the pipe is opened, read to its end, and the target's exit is learned.
use crate::pipe_io::{parse_line, parse_record, Parsed, Record};
use crate::text::{digits_of, push_uint};
use vstd::prelude::*;
use vstd::string::StringExecFns;

verus! {

/// The variable through which the agent learns the pipe's path.
pub const PIPE_FILEPATH: &'static str = "PIPE_FILEPATH";

/// The variable that makes the dynamic loader inject the agent.
pub fn preload_variable(darwin: bool) -> (name: &'static str)
    ensures
        name@ == if darwin {
            "DYLD_INSERT_LIBRARIES"@
        } else {
            "LD_PRELOAD"@
        },
{
    if darwin {
        "DYLD_INSERT_LIBRARIES"
    } else {
        "LD_PRELOAD"
    }
}

/// The path of the pipe of the controller with process id `pid`.
pub open spec fn pipe_path_of(pid: u32) -> Seq<char> {
    "/tmp/"@ + digits_of(pid as nat, 10) + ".pipe"@
}

pub fn pipe_path(pid: u32) -> (path: String)
    ensures
        path@ == pipe_path_of(pid),
{
    let mut path = String::from_str("/tmp/");
    push_uint(&mut path, pid as u128, 10);
    path.append(".pipe");
    path
}

/// Why the stream of records ended or faltered.
#[derive(Debug, PartialEq, Eq)]
pub enum Error {
    /// The target ended with this status, which is not 0.
    CmdFailed(i32),
    /// The target's end could not be learned; the text says why.
    CmdError(String),
    /// The pipe gave no valid record.
    PipeError(crate::pipe_io::Error),
}

/// Where the runner stands.
#[derive(Clone, Copy, Debug, PartialEq, Eq, Structural)]
pub enum Phase {
    /// The pipe is not open yet.
    Unopened,
    /// Records are being read.
    Reading,
    /// The pipe is at its end; the target's exit is awaited.
    Exiting,
    /// Nothing more will come.
    Finished,
}

/// What happened since the runner last said what to do.
#[derive(Debug, PartialEq, Eq)]
pub enum Input {
    /// Nothing: the caller asks for the next record.
    Resume,
    /// The pipe was opened.
    Opened,
    /// A line was read from the pipe.
    Line(String),
    /// The pipe is at its end.
    EndOfPipe,
    /// Reading the pipe failed.
    ReadFailed(String),
    /// The target ended with this status.
    Exited(i32),
    /// Waiting for the target failed.
    WaitFailed(String),
}

/// What the caller is to do next.
#[derive(Debug, PartialEq, Eq)]
pub enum Action {
    /// Open the pipe for reading and report `Opened`.
    OpenPipe,
    /// Read a line and report it, or the pipe's end, or the failure.
    ReadLine,
    /// Wait for the target's end and report its status, or the failure.
    WaitChild,
    /// Hand this out as the next item of the stream.
    Yield(Result<Record, Error>),
    /// The stream is at its end.
    Done,
}

/// What a phase asks for when nothing new has happened.
pub open spec fn wanted(phase: Phase, action: Action) -> bool {
    match phase {
        Phase::Unopened => action is OpenPipe,
        Phase::Reading => action is ReadLine,
        Phase::Exiting => action is WaitChild,
        Phase::Finished => action is Done,
    }
}

/// The runner's rule: given the phase and what happened, the next phase and
/// what to do. The pipe is read to its end before the target's exit is
/// asked for; a status other than 0 ends the stream with an error; what
/// does not belong to the phase is passed over.
pub open spec fn step_ok(phase: Phase, input: Input, next: Phase, action: Action) -> bool {
    match (phase, input) {
        (Phase::Unopened, Input::Opened) => next == Phase::Reading && action is ReadLine,
        (Phase::Reading, Input::Line(text)) => {
            &&& next == Phase::Reading
            &&& match parse_line(text@) {
                Parsed::Record(r) => action matches Action::Yield(Ok(record)) && record@ == r,
                Parsed::Skipped => action is ReadLine,
                Parsed::Invalid => action matches Action::Yield(
                    Err(Error::PipeError(crate::pipe_io::Error::InvalidFormat)),
                ),
            }
        },
        (Phase::Reading, Input::ReadFailed(text)) => {
            &&& next == Phase::Reading
            &&& action matches Action::Yield(
                Err(Error::PipeError(crate::pipe_io::Error::IOError(message))),
            )
            &&& message@ == text@
        },
        (Phase::Reading, Input::EndOfPipe) => next == Phase::Exiting && action is WaitChild,
        (Phase::Exiting, Input::Exited(status)) => {
            &&& next == Phase::Finished
            &&& if status == 0 {
                action is Done
            } else {
                action matches Action::Yield(Err(Error::CmdFailed(code))) && code == status
            }
        },
        (Phase::Exiting, Input::WaitFailed(text)) => {
            &&& next == Phase::Finished
            &&& action matches Action::Yield(Err(Error::CmdError(message)))
            &&& message@ == text@
        },
        _ => next == phase && wanted(phase, action),
    }
}

/// The runner's state: the pipe it reads and how far it has come.
pub struct ExecResult {
    pipe_filepath: String,
    phase: Phase,
}

impl ExecResult {
    pub closed spec fn phase(&self) -> Phase {
        self.phase
    }

    pub closed spec fn path(&self) -> Seq<char> {
        self.pipe_filepath@
    }

    pub fn new(pipe_filepath: String) -> (result: Self)
        ensures
            result.phase() == Phase::Unopened,
            result.path() == pipe_filepath@,
    {
        ExecResult { pipe_filepath, phase: Phase::Unopened }
    }

    pub fn pipe_filepath(&self) -> (path: &str)
        ensures
            path@ == self.path(),
    {
        self.pipe_filepath.as_str()
    }

    fn resume(&self) -> (action: Action)
        ensures
            wanted(self.phase(), action),
    {
        match self.phase {
            Phase::Unopened => Action::OpenPipe,
            Phase::Reading => Action::ReadLine,
            Phase::Exiting => Action::WaitChild,
            Phase::Finished => Action::Done,
        }
    }

    /// Takes in what happened and says what to do next.
    pub fn next(&mut self, input: Input) -> (action: Action)
        ensures
            final(self).path() == old(self).path(),
            step_ok(old(self).phase(), input, final(self).phase(), action),
    {
        match (self.phase, input) {
            (Phase::Unopened, Input::Opened) => {
                self.phase = Phase::Reading;
                Action::ReadLine
            },
            (Phase::Reading, Input::Line(text)) => {
                match parse_record(text.as_str()) {
                    Ok(Some(record)) => Action::Yield(Ok(record)),
                    Ok(None) => Action::ReadLine,
                    Err(e) => Action::Yield(Err(Error::PipeError(e))),
                }
            },
            (Phase::Reading, Input::ReadFailed(text)) => Action::Yield(
                Err(Error::PipeError(crate::pipe_io::Error::IOError(text))),
            ),
            (Phase::Reading, Input::EndOfPipe) => {
                self.phase = Phase::Exiting;
                Action::WaitChild
            },
            (Phase::Exiting, Input::Exited(status)) => {
                self.phase = Phase::Finished;
                if status == 0 {
                    Action::Done
                } else {
                    Action::Yield(Err(Error::CmdFailed(status)))
                }
            },
            (Phase::Exiting, Input::WaitFailed(text)) => {
                self.phase = Phase::Finished;
                Action::Yield(Err(Error::CmdError(text)))
            },
            _ => self.resume(),
        }
    }
}

} // verus!
