//! A whole run's configuration: the source file and its mapping files.
//!
//! Configuration is built once at startup, from outside this crate, and
//! is read-only afterwards; only the mapping files' caches and preloaded
//! maps change while lines are processed.

use crate::mapping_file::MappingFile;
use crate::source_file::SourceFile;
use vstd::prelude::*;

verus! {

/// One run's configuration.
pub struct Config {
    pub source_file: SourceFile,
    pub mapping_files: Vec<MappingFile>,
}

impl Config {
    /// Well-formedness of the source file and of every mapping file.
    pub open spec fn inv(&self) -> bool {
        &&& self.source_file.inv()
        &&& forall|j: int|
            0 <= j < self.mapping_files@.len() ==> (#[trigger] self.mapping_files@[j]).inv()
    }
}

} // verus!
