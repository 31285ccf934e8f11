//! The seam between reading a list of sockets, which is the same
//! everywhere, and getting that list from an operating system.

use crate::model::PortEntry;
use vstd::prelude::*;

verus! {

/// `std::io::Error`, which is carried through as it is.
#[verifier::external_type_specification]
#[verifier::external_body]
pub struct ExIoError(std::io::Error);

/// Something that can produce the current list of sockets on a machine.
/// The implementations are platform-specific; the trait exists so that the
/// rest of the library never has to know or care which one is in use.
pub trait PortSource {
    /// Enumerate the current sockets. An error means that the underlying
    /// query of the operating system failed.
    fn scan(&self) -> (r: std::io::Result<Vec<PortEntry>>);
}

} // verus!
