//! Errors of the command line, with their exit statuses.
use vstd::prelude::*;

use crate::text::owned;

verus! {

/// Usage errors exit with status 2; every other error with status 3.
#[derive(Debug, PartialEq, Eq)]
pub enum SeerError {
    Usage(String),
    Io(String),
    NotImplemented,
}

pub enum ErrorView {
    Usage(Seq<char>),
    Io(Seq<char>),
    NotImplemented,
}

impl View for SeerError {
    type V = ErrorView;

    open spec fn view(&self) -> ErrorView {
        match self {
            SeerError::Usage(m) => ErrorView::Usage(m@),
            SeerError::Io(m) => ErrorView::Io(m@),
            SeerError::NotImplemented => ErrorView::NotImplemented,
        }
    }
}

impl SeerError {
    pub open spec fn exit_spec(&self) -> i32 {
        match self {
            SeerError::Usage(_) => 2,
            SeerError::Io(_) => 3,
            SeerError::NotImplemented => 3,
        }
    }

    /// Process exit status for this error.
    pub fn exit_code(&self) -> (code: i32)
        ensures
            code == self.exit_spec(),
    {
        match self {
            SeerError::Usage(_) => 2,
            SeerError::Io(_) | SeerError::NotImplemented => 3,
        }
    }

    pub open spec fn message_spec(&self) -> Seq<char> {
        match self {
            SeerError::Usage(m) => m@,
            SeerError::Io(m) => m@,
            SeerError::NotImplemented => "not implemented"@,
        }
    }

    /// The message shown for this error.
    pub fn to_string(&self) -> (s: String)
        ensures
            s@ == self.message_spec(),
    {
        match self {
            SeerError::Usage(m) | SeerError::Io(m) => m.clone(),
            SeerError::NotImplemented => owned("not implemented"),
        }
    }
}

} // verus!
