//! Non-blocking lookup result type.
use vstd::prelude::*;

verus! {

/// Represents the result of a non-blocking read.
#[derive(Debug)]
pub enum TryResult<R> {
    /// The value was present and the lock was obtained.
    Present(R),
    /// The shard wasn't locked and the value wasn't present.
    Absent,
    /// The shard was locked.
    Locked,
}

impl<R> TryResult<R> {
    /// Returns `true` if the entry was found and the lock was acquired.
    pub fn is_present(&self) -> (b: bool)
        ensures
            b == (self is Present),
    {
        matches!(self, TryResult::Present(_))
    }

    /// Returns `true` if the shard was accessible but the key was not found.
    pub fn is_absent(&self) -> (b: bool)
        ensures
            b == (self is Absent),
    {
        matches!(self, TryResult::Absent)
    }

    /// Returns `true` if the shard was locked and the attempt was aborted.
    pub fn is_locked(&self) -> (b: bool)
        ensures
            b == (self is Locked),
    {
        matches!(self, TryResult::Locked)
    }

    /// Returns the inner value of a `Present` result.
    pub fn unwrap(self) -> (r: R)
        requires
            self is Present,
        ensures
            self == TryResult::Present(r),
    {
        match self {
            TryResult::Present(r) => r,
            _ => vstd::pervasive::unreached(),
        }
    }

    /// Returns the inner value of a `Present` result. The message says why it
    /// has to be present.
    pub fn expect(self, _message: &str) -> (r: R)
        requires
            self is Present,
        ensures
            self == TryResult::Present(r),
    {
        self.unwrap()
    }

    /// Returns `Some(r)` if `Present`, otherwise `None`.
    pub fn try_unwrap(self) -> (r: Option<R>)
        ensures
            r == (match self {
                TryResult::Present(inner) => Some(inner),
                _ => None,
            }),
    {
        match self {
            TryResult::Present(r) => Some(r),
            _ => None,
        }
    }
}

} // verus!
