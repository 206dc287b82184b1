//! The local-filesystem backend for copying objects; its reads and writes
//! are performed by the application.

use vstd::prelude::*;

verus! {

/// Builds a filesystem backend.
#[derive(Debug, Default)]
pub struct FileBuilder;

impl FileBuilder {
    /// The backend.
    pub fn build(self) -> (r: File) {
        File
    }
}

/// The filesystem backend.
#[derive(Debug, Default)]
pub struct File;

} // verus!
