use vstd::prelude::*;

verus! {

/// The error type of `std::io`. A value of it is carried, never read.
#[verifier::external_type_specification]
#[verifier::external_body]
pub struct ExIoError(std::io::Error);

pub type StlResult<T> = Result<T, StlError>;

/// Why a mesh could not be had.
#[derive(Debug)]
pub enum StlError {
    /// The bytes could not be read.
    IoError(std::io::Error),
    /// The bytes are not a mesh in either format.
    ParseError(()),
}

impl From<std::io::Error> for StlError {
    fn from(err: std::io::Error) -> (e: StlError) {
        StlError::IoError(err)
    }
}

impl vstd::std_specs::convert::FromSpecImpl<std::io::Error> for StlError {
    open spec fn obeys_from_spec() -> bool {
        true
    }

    open spec fn from_spec(err: std::io::Error) -> StlError {
        StlError::IoError(err)
    }
}

impl From<()> for StlError {
    fn from(unit: ()) -> (e: StlError) {
        StlError::ParseError(())
    }
}

impl vstd::std_specs::convert::FromSpecImpl<()> for StlError {
    open spec fn obeys_from_spec() -> bool {
        true
    }

    open spec fn from_spec(unit: ()) -> StlError {
        StlError::ParseError(())
    }
}

} // verus!
