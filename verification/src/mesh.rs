//! Errors of mesh operations.

use crate::meshio::MeshIOError;
use vstd::prelude::*;
use vstd::std_specs::convert::FromSpecImpl;

verus! {

/// What an operation on a mesh can fail with.
#[derive(Debug, Clone, Copy)]
pub enum MeshError {
    /// Reading or writing the mesh failed.
    MeshIO(MeshIOError),
    /// The mesh has no texture coordinates.
    NoUV,
}

impl From<MeshIOError> for MeshError {
    fn from(err: MeshIOError) -> (r: MeshError) {
        MeshError::MeshIO(err)
    }
}

impl FromSpecImpl<MeshIOError> for MeshError {
    open spec fn obeys_from_spec() -> bool {
        true
    }

    open spec fn from_spec(err: MeshIOError) -> MeshError {
        MeshError::MeshIO(err)
    }
}

impl MeshError {
    /// The text that describes this error.
    pub open spec fn spec_message(self) -> Seq<char> {
        match self {
            MeshError::MeshIO(error) => error.spec_message(),
            MeshError::NoUV => "No UV information found"@,
        }
    }

    /// The text that describes this error.
    pub fn message(&self) -> (r: &'static str)
        ensures
            r@ == self.spec_message(),
    {
        match self {
            MeshError::MeshIO(error) => error.message(),
            MeshError::NoUV => "No UV information found",
        }
    }
}

} // verus!
