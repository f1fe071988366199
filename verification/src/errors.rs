use vstd::prelude::*;

verus! {

/// The storage backend could not be read or written: missing or corrupt
/// durable record, or a failed lock. Surfaced to the caller unmodified; the
/// durable state is left in its last successfully stored condition.
#[derive(Debug, PartialEq, Eq, Clone, Copy)]
pub struct UnavailableError;

/// The roster handed over at construction time was empty or malformed.
/// Fatal: startup is aborted.
#[derive(Debug, PartialEq, Eq, Clone, Copy)]
pub struct ConfigurationError;

impl UnavailableError {
    pub fn message(&self) -> (r: &'static str)
        ensures
            r@ == "storage backend unavailable"@,
    {
        "storage backend unavailable"
    }
}

impl ConfigurationError {
    pub fn message(&self) -> (r: &'static str)
        ensures
            r@ == "empty or malformed candidate roster"@,
    {
        "empty or malformed candidate roster"
    }
}

} // verus!
