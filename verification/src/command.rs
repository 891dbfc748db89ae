//! Interpretation of finished subprocesses.
//!
//! Verify and clean commands are opaque: the library decides which command
//! to run and in which directory, the caller runs it under a shell with a
//! wall-clock timeout, and hands back a [`RawStatus`]. The library then
//! interprets that status: exit code 0 is success, any other exit is an
//! ordinary failure, and two outcomes are process-level errors — the shell
//! could not be spawned at all, or the timeout fired.

use vstd::prelude::*;

verus! {

/// The exit code with which the timeout supervisor reports that the command
/// it ran overstayed the wall-clock limit and was killed.
pub const TIMEOUT_EXIT_CODE: i32 = 124;

/// What became of one spawned command, as the caller saw it: either the
/// process finished with an exit code (`None` when it was ended by a signal
/// instead of exiting), or it could not be spawned at all.
#[derive(Debug, PartialEq, Eq)]
pub enum RawStatus {
    Finished(Option<i32>),
    SpawnFailed(String),
}

/// Mathematical image of a [`RawStatus`].
pub ghost enum RawStatusModel {
    Finished(Option<i32>),
    SpawnFailed(Seq<char>),
}

impl View for RawStatus {
    type V = RawStatusModel;

    open spec fn view(&self) -> RawStatusModel {
        match self {
            RawStatus::Finished(code) => RawStatusModel::Finished(*code),
            RawStatus::SpawnFailed(msg) => RawStatusModel::SpawnFailed(msg@),
        }
    }
}

/// A process-level error while running a command: the command never ran to
/// a normal end. A command that ran and exited with a non-zero code is not
/// an error of this kind.
#[derive(Debug, PartialEq, Eq)]
pub enum CmdError {
    /// The shell could not be spawned; the payload is the caller's message.
    Spawn(String),
    /// The command exceeded the wall-clock timeout and was killed.
    TimedOut,
}

/// Mathematical image of a [`CmdError`].
pub ghost enum CmdErrorModel {
    Spawn(Seq<char>),
    TimedOut,
}

impl View for CmdError {
    type V = CmdErrorModel;

    open spec fn view(&self) -> CmdErrorModel {
        match self {
            CmdError::Spawn(msg) => CmdErrorModel::Spawn(msg@),
            CmdError::TimedOut => CmdErrorModel::TimedOut,
        }
    }
}

/// How a raw status reads: a spawn failure and the timeout exit code are
/// process-level errors; every other outcome is `Ok`, successful exactly
/// when the exit code was 0.
pub open spec fn spec_interpret(raw: RawStatusModel) -> Result<bool, CmdErrorModel> {
    match raw {
        RawStatusModel::SpawnFailed(msg) => Err(CmdErrorModel::Spawn(msg)),
        RawStatusModel::Finished(code) => if code == Some(TIMEOUT_EXIT_CODE) {
            Err(CmdErrorModel::TimedOut)
        } else {
            Ok(code == Some(0i32))
        },
    }
}

/// The view of an interpreted status.
pub open spec fn outcome_view(r: Result<bool, CmdError>) -> Result<bool, CmdErrorModel> {
    match r {
        Ok(ok) => Ok(ok),
        Err(e) => Err(e@),
    }
}

/// Interprets the raw status of one finished command: exactly
/// [`spec_interpret`] of it.
pub fn interpret_raw(raw: RawStatus) -> (r: Result<bool, CmdError>)
    ensures
        outcome_view(r) == spec_interpret(raw@),
{
    match raw {
        RawStatus::SpawnFailed(msg) => Err(CmdError::Spawn(msg)),
        RawStatus::Finished(code) => {
            match code {
                Some(c) => {
                    if c == TIMEOUT_EXIT_CODE {
                        Err(CmdError::TimedOut)
                    } else {
                        Ok(c == 0)
                    }
                },
                None => Ok(false),
            }
        },
    }
}

} // verus!
