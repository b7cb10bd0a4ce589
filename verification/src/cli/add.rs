use vstd::prelude::*;

verus! {

/// Add a repository by path or URL.
pub struct Repo {
    pub path_or_url: String,
}

} // verus!
