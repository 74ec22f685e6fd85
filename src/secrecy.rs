//! Access to values that are kept out of logs and debug output, such as passwords.
use vstd::prelude::*;

verus! {

/// Gives read access to the value that a secret wrapper holds.
pub trait ExposeSecret<S> {
    /// The wrapped value.
    fn expose_secret(&self) -> &S;
}

} // verus!
