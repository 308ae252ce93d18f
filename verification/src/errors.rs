use vstd::prelude::*;

verus! {

/// A malformed `HH:MM` time string, rejected at construction time.
#[derive(Clone, Copy, Debug, PartialEq, Eq, Structural)]
pub struct ParseError;

/// Why an exception grant was refused. Neither failure mutates the
/// configuration.
#[derive(Clone, Copy, Debug, PartialEq, Eq, Structural)]
pub enum ExceptionError {
    /// The daily quota of exception grants is already spent.
    QuotaExceeded,
    /// No rule exists for the requested domain; the quota is not consumed.
    NoSuchRule,
}

impl ParseError {
    /// A short user-facing description.
    pub fn message(&self) -> (r: &'static str)
        ensures
            r@ == "malformed time, expected HH:MM"@,
    {
        "malformed time, expected HH:MM"
    }
}

impl ExceptionError {
    /// A short user-facing description.
    pub fn message(&self) -> (r: &'static str)
        ensures
            r@ == (match self {
                ExceptionError::QuotaExceeded => "daily exception limit reached"@,
                ExceptionError::NoSuchRule => "no blocking rule exists for this domain"@,
            }),
    {
        match self {
            ExceptionError::QuotaExceeded => "daily exception limit reached",
            ExceptionError::NoSuchRule => "no blocking rule exists for this domain",
        }
    }
}

} // verus!
