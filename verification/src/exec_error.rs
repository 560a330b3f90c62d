//! Execution errors.

use vstd::prelude::*;

use crate::error::Error;
use crate::strings::{join2, owned};

verus! {

#[derive(Debug)]
pub enum ExecError {
    /// The statement did not parse.
    Parse(String),
    /// The statement parsed but cannot be planned (unknown table, unknown
    /// column, bad schema).
    Plan(String),
    /// The statement failed while running (type error, overflow, duplicate
    /// key, missing value).
    Exec(String),
    /// The storage layer failed underneath us.
    Storage(Error),
}

/// Which of the ways to fail an error is.
pub enum Fail {
    Parse,
    Plan,
    Exec,
    Storage,
}

impl ExecError {
    pub open spec fn fail(&self) -> Fail {
        match self {
            ExecError::Parse(_) => Fail::Parse,
            ExecError::Plan(_) => Fail::Plan,
            ExecError::Exec(_) => Fail::Exec,
            ExecError::Storage(_) => Fail::Storage,
        }
    }

    /// The error in words.
    pub open spec fn text(&self) -> Seq<char> {
        match self {
            ExecError::Parse(m) => m@,
            ExecError::Plan(m) => m@,
            ExecError::Exec(m) => m@,
            ExecError::Storage(e) => "storage error: "@ + e.text(),
        }
    }

    pub fn message(&self) -> (r: String)
        ensures
            r@ == self.text(),
    {
        match self {
            ExecError::Parse(m) => owned(m.as_str()),
            ExecError::Plan(m) => owned(m.as_str()),
            ExecError::Exec(m) => owned(m.as_str()),
            ExecError::Storage(e) => join2("storage error: ", e.message().as_str()),
        }
    }
}

} // verus!
