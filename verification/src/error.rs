use vstd::prelude::*;

verus! {

/// The kinds of failure the transcript state machine and the inscription
/// scheme can report.
#[derive(Clone, Copy, Debug, PartialEq, Eq, Structural)]
pub enum DecreeErrType {
    InitFail,
    InvalidLabel,
    InvalidChallenge,
    ExtendFail,
    General,
}

/// A typed error value: a kind together with a short diagnostic string.
#[derive(Debug)]
pub struct Error {
    err_type: DecreeErrType,
    err_string: &'static str,
}

impl Error {
    /// The kind of this error.
    pub closed spec fn spec_type(&self) -> DecreeErrType {
        self.err_type
    }

    /// The diagnostic string of this error.
    pub closed spec fn spec_str(&self) -> &'static str {
        self.err_string
    }

    pub fn get_type(&self) -> (r: DecreeErrType)
        ensures
            r == self.spec_type(),
    {
        self.err_type
    }

    pub fn get_str(&self) -> (r: &'static str)
        ensures
            r == self.spec_str(),
    {
        self.err_string
    }

    pub fn new(e_type: DecreeErrType, msg: &'static str) -> (r: Error)
        ensures
            r.spec_type() == e_type,
            r.spec_str() == msg,
    {
        Error { err_type: e_type, err_string: msg }
    }

    pub fn new_invalid_label(msg: &'static str) -> (r: Error)
        ensures
            r.spec_type() == DecreeErrType::InvalidLabel,
            r.spec_str() == msg,
    {
        Self::new(DecreeErrType::InvalidLabel, msg)
    }

    pub fn new_invalid_challenge(msg: &'static str) -> (r: Error)
        ensures
            r.spec_type() == DecreeErrType::InvalidChallenge,
            r.spec_str() == msg,
    {
        Self::new(DecreeErrType::InvalidChallenge, msg)
    }

    pub fn new_init_fail(msg: &'static str) -> (r: Error)
        ensures
            r.spec_type() == DecreeErrType::InitFail,
            r.spec_str() == msg,
    {
        Self::new(DecreeErrType::InitFail, msg)
    }

    pub fn new_extend_fail(msg: &'static str) -> (r: Error)
        ensures
            r.spec_type() == DecreeErrType::ExtendFail,
            r.spec_str() == msg,
    {
        Self::new(DecreeErrType::ExtendFail, msg)
    }

    pub fn new_general(msg: &'static str) -> (r: Error)
        ensures
            r.spec_type() == DecreeErrType::General,
            r.spec_str() == msg,
    {
        Self::new(DecreeErrType::General, msg)
    }
}

/// Result type used throughout the crate.
pub type DecreeResult<T> = Result<T, Error>;

} // verus!
