use vstd::prelude::*;
use std::path::PathBuf;

verus! {

/// Show project information.
pub struct Project {
    /// The project folder; by default the working folder or one of its parents.
    pub project: Option<PathBuf>,
    /// Print as JSON in this format version (never zero).
    pub json_format: Option<u32>,
}

} // verus!
