use vstd::prelude::*;
use std::path::PathBuf;
use crate::version::version::Version;
use crate::vpm::package::VersionSelector;

verus! {

/// The subcommands of the command-line tool.
pub enum Command {
    Install(Install),
    Remove(Remove),
    Outdated(Outdated),
    Upgrade(Upgrade),
    Search(Search),
    Repo(Repo),
}

/// Add a package to a Unity project, or resolve the project's packages when no name is given.
pub struct Install {
    /// Name of the package.
    pub name: Option<String>,
    /// Version of the package; the latest when not given.
    pub version: Option<Version>,
    /// Take prereleases into account.
    pub prerelease: bool,
    /// The project folder; by default the working folder or one of its parents.
    pub project: Option<PathBuf>,
    /// Use local caches only.
    pub offline: bool,
    /// Do not ask for confirmation.
    pub yes: bool,
}

/// Upgrade one package, or all locked packages, to the latest or a given version; unlike
/// `install`, it adds no dependency.
pub struct Upgrade {
    /// Name of the package; all locked packages when not given.
    pub name: Option<String>,
    /// Version of the package; the latest when not given.
    pub version: Option<Version>,
    /// Take prereleases into account.
    pub prerelease: bool,
    /// The project folder; by default the working folder or one of its parents.
    pub project: Option<PathBuf>,
    /// Use local caches only.
    pub offline: bool,
    /// Do not ask for confirmation.
    pub yes: bool,
}

/// Which versions `install` and `upgrade` look for: the version asked for, else the latest
/// version, prereleases included when asked.
pub fn requested_versions<'a>(version: &'a Option<Version>, prerelease: bool) -> (r: VersionSelector<'a>)
    ensures
        match version {
            Some(v) => r matches VersionSelector::Specific(x) && x == v,
            None => if prerelease {
                r is LatestIncluidingPrerelease
            } else {
                r is Latest
            },
        },
{
    match version {
        Some(v) => VersionSelector::Specific(v),
        None => if prerelease {
            VersionSelector::LatestIncluidingPrerelease
        } else {
            VersionSelector::Latest
        },
    }
}

/// Remove packages from a Unity project.
pub struct Remove {
    /// Names of the packages to remove.
    pub names: Vec<String>,
    /// The project folder; by default the working folder or one of its parents.
    pub project: Option<PathBuf>,
}

/// Show the outdated packages of a project.
pub struct Outdated {
    /// The project folder; by default the working folder or one of its parents.
    pub project: Option<PathBuf>,
    /// Print as JSON in this format version (never zero).
    pub json_format: Option<u32>,
    /// Use local caches only.
    pub offline: bool,
}

/// Search packages whose name, display name or description holds every query.
pub struct Search {
    pub queries: Vec<String>,
    /// Use local caches only.
    pub offline: bool,
}

/// Repository subcommands.
pub enum Repo {
    List(RepoList),
    Add(RepoAdd),
    Remove(RepoRemove),
    Cleanup(RepoCleanup),
    Packages(RepoPackages),
}

/// List the repositories.
pub struct RepoList {
    pub offline: bool,
}

/// Add a repository by path or URL.
pub struct RepoAdd {
    pub path_or_url: String,
    pub name: Option<String>,
    pub offline: bool,
}

/// Remove a repository by name, path or URL.
pub struct RepoRemove {
    pub name_or_url: String,
    pub offline: bool,
}

/// Remove cached repository files that no repository uses.
pub struct RepoCleanup {
    pub offline: bool,
}

/// List the packages of a repository.
pub struct RepoPackages {
    pub name_or_url: String,
    pub offline: bool,
}

} // verus!
