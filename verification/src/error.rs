//! Error type of the library.

use vstd::prelude::*;

verus! {

#[verifier::external_type_specification]
#[verifier::external_body]
pub struct ExIoError(std::io::Error);

/// What can go wrong while chunking, storing, retrieving or verifying.
#[derive(Debug)]
pub enum RagrsError {
    Chunking(String),
    Storage(String),
    Retrieval(String),
    Verification(String),
    Io(std::io::Error),
}

} // verus!
