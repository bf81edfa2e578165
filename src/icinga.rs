//! The monitoring platform's exit-code convention.

use vstd::prelude::*;

verus! {

/// The status that a check plugin reports by its exit code.
#[derive(Debug, Clone, Copy, PartialEq, Eq, Structural)]
pub enum ExitCode {
    OK,
    Warning,
    Critical,
    Unknown,
}

pub open spec fn exit_code_of(value: i32) -> ExitCode {
    if value == 0 {
        ExitCode::OK
    } else if value == 1 {
        ExitCode::Warning
    } else if value == 2 {
        ExitCode::Critical
    } else {
        ExitCode::Unknown
    }
}

pub open spec fn code_of(e: ExitCode) -> i32 {
    match e {
        ExitCode::OK => 0,
        ExitCode::Warning => 1,
        ExitCode::Critical => 2,
        ExitCode::Unknown => 3,
    }
}

impl ExitCode {
    /// `0`, `1` and `2` are OK, WARNING and CRITICAL; anything else is UNKNOWN.
    pub fn from_i32(value: i32) -> (r: ExitCode)
        ensures
            r == exit_code_of(value),
    {
        match value {
            0 => ExitCode::OK,
            1 => ExitCode::Warning,
            2 => ExitCode::Critical,
            3 => ExitCode::Unknown,
            _ => ExitCode::Unknown,
        }
    }

    /// The process exit code.
    pub fn code(&self) -> (r: i32)
        ensures
            r == code_of(*self),
    {
        match self {
            ExitCode::OK => 0,
            ExitCode::Warning => 1,
            ExitCode::Critical => 2,
            ExitCode::Unknown => 3,
        }
    }
}

/// What ends a run: the status to exit with and the line to print.
pub trait IcingaTermination {
    spec fn termination_code(&self) -> ExitCode;

    spec fn termination_text(&self) -> Seq<char>;

    fn exitcode(&self) -> (r: ExitCode)
        ensures
            r == self.termination_code(),
    ;

    /// The line printed before exiting.
    fn report_text(&self) -> (r: String)
        ensures
            r@ == self.termination_text(),
    ;
}

} // verus!
