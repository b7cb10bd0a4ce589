use vstd::prelude::*;

verus! {

/// List the repositories.
pub struct Repos {}

/// List the packages of a remote repository.
pub struct Repo {
    pub url: String,
}

} // verus!
