//! Tracking whether a value is newly discovered or previously seen.
//!
//! [`Seen`] distinguishes values encountered for the first time from values
//! that have been encountered before.

use vstd::prelude::*;

verus! {

/// A value tagged as newly discovered or previously seen.
#[derive(Debug, Clone, Copy, PartialEq, Eq)]
pub enum Seen<T> {
    /// A value that is being encountered for the first time
    New(T),
    /// A value that has been seen before
    Old(T),
}

impl<T> Seen<T> {
    /// The inner value, regardless of whether it is new or old.
    pub open spec fn value(self) -> T {
        match self {
            Seen::New(x) => x,
            Seen::Old(x) => x,
        }
    }

    /// Extracts the inner value regardless of whether it's new or old.
    pub fn any(self) -> (r: T)
        ensures
            r == self.value(),
    {
        match self {
            Seen::New(x) => x,
            Seen::Old(x) => x,
        }
    }

    /// Returns `Some(T)` if the value is new, `None` if it's old.
    #[allow(clippy::new_ret_no_self, clippy::wrong_self_convention)]
    pub fn new(self) -> (r: Option<T>)
        ensures
            r == (match self {
                Seen::New(x) => Some(x),
                Seen::Old(_) => None,
            }),
    {
        match self {
            Seen::New(x) => Some(x),
            Seen::Old(_) => None,
        }
    }

    /// Returns `Some(T)` if the value is old, `None` if it's new.
    pub fn old_value(self) -> (r: Option<T>)
        ensures
            r == (match self {
                Seen::New(_) => None,
                Seen::Old(x) => Some(x),
            }),
    {
        match self {
            Seen::New(_) => None,
            Seen::Old(x) => Some(x),
        }
    }

    /// Maps the inner value using the provided function, keeping the tag.
    pub fn map<U, F: FnOnce(T) -> U>(self, f: F) -> (r: Seen<U>)
        requires
            f.requires((self.value(),)),
        ensures
            f.ensures((self.value(),), r.value()),
            (self is New) == (r is New),
    {
        match self {
            Self::New(x) => Seen::<U>::New(f(x)),
            Self::Old(x) => Seen::<U>::Old(f(x)),
        }
    }

    /// Converts from `Seen<T>` to `Seen<&T>`.
    pub fn as_ref(&self) -> (r: Seen<&T>)
        ensures
            *r.value() == self.value(),
            (*self is New) == (r is New),
    {
        match self {
            Self::New(x) => Seen::New(x),
            Self::Old(x) => Seen::Old(x),
        }
    }
}

} // verus!
