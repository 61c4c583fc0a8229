//! The one kind of failure: an I/O error of the persistent store.
use vstd::prelude::*;

verus! {

/// std::io::Error, carried through unopened.
#[verifier::external_type_specification]
#[verifier::external_body]
pub struct ExIoError(std::io::Error);

/// Any failure of the persistent store, as it reported it. A key that is not
/// there is no failure.
#[derive(Debug)]
pub enum DiskvError {
    IOError(std::io::Error),
}

pub type DiskvResult<T> = Result<T, DiskvError>;

impl From<std::io::Error> for DiskvError {
    fn from(e: std::io::Error) -> DiskvError {
        DiskvError::IOError(e)
    }
}

impl vstd::std_specs::convert::FromSpecImpl<std::io::Error> for DiskvError {
    open spec fn obeys_from_spec() -> bool {
        true
    }

    open spec fn from_spec(e: std::io::Error) -> DiskvError {
        DiskvError::IOError(e)
    }
}

/// Whether `e` reports a missing file, that is, an error of kind
/// `std::io::ErrorKind::NotFound`.
pub uninterp spec fn not_found_of(e: std::io::Error) -> bool;

/// Relies on std::io::Error::kind, to tell a missing file from other failures.
#[verifier::external_body]
pub(crate) fn is_not_found(e: &std::io::Error) -> (r: bool)
    ensures
        r == not_found_of(*e),
{
    matches!(e.kind(), std::io::ErrorKind::NotFound)
}

} // verus!
