use vstd::prelude::*;

verus! {

/// The error taxonomy of the engine.  Configuration errors are reported to
/// the caller; persistence and mitigation failures are surfaced without
/// unwinding the records that produced them.
#[derive(Clone, Copy, Debug, PartialEq, Eq, Structural)]
pub enum Error {
    /// A limit specification was malformed (zero threshold or empty window).
    Validation,
    /// The caller is not allowed to perform the change.
    Auth,
    /// The referenced guild, limit or record does not exist.
    NotFound,
    /// The record to create already exists.
    AlreadyExists,
    /// The backing store could not be reached.  The in-memory store never
    /// raises it; drivers that persist the ledger elsewhere map their own
    /// failures onto it.
    Persistence,
    /// The platform call carrying out a mitigation failed.
    Mitigation,
}

impl Error {
    pub open spec fn message_spec(self) -> Seq<char> {
        match self {
            Error::Validation => "Invalid limit specification"@,
            Error::Auth => "You are not allowed to do that"@,
            Error::NotFound => "Could not find the requested record"@,
            Error::AlreadyExists => "The record already exists"@,
            Error::Persistence => "The store could not be reached"@,
            Error::Mitigation => "The mitigation call failed"@,
        }
    }

    /// A short human-readable reason, as surfaced to interactive callers.
    pub fn message(&self) -> (r: &'static str)
        ensures
            r@ == self.message_spec(),
    {
        match self {
            Error::Validation => "Invalid limit specification",
            Error::Auth => "You are not allowed to do that",
            Error::NotFound => "Could not find the requested record",
            Error::AlreadyExists => "The record already exists",
            Error::Persistence => "The store could not be reached",
            Error::Mitigation => "The mitigation call failed",
        }
    }
}

} // verus!
