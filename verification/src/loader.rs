//! Errors a mesh loader reports. The loading itself (file reading and float
//! parsing) is an external collaborator's concern; the core only defines the
//! error taxonomy it hands back.

use vstd::prelude::*;

verus! {

/// Why a mesh could not be loaded.
#[derive(Clone, Copy, Debug, PartialEq, Eq, Structural)]
pub enum MeshError {
    InvalidMeshError,
    FileNotFoundError,
    UTF8Error,
}

} // verus!
