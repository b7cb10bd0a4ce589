use vstd::prelude::*;
use std::collections::HashMap;
use std::path::PathBuf;
use crate::version::buf::str_eq;
use crate::vpm::manifest::VpmManifest;
use crate::vpm::maps::{has_key, locked_map_entries, locked_map_get, value_of};
use crate::vpm::package::PackageJson;

verus! {

/// A repository the user added: where its cache is, and its name, URL and id.
#[derive(Debug)]
pub struct UserRepoSetting {
    pub local_path: PathBuf,
    pub name: Option<String>,
    /// Must be an absolute URL.
    pub url: Option<String>,
    pub id: Option<String>,
}

/// The text of an optional text.
pub open spec fn opt_view(o: Option<String>) -> Option<Seq<char>> {
    match o {
        Some(s) => Some(s@),
        None => None,
    }
}

fn clone_opt(o: &Option<String>) -> (r: Option<String>)
    ensures
        opt_view(r) == opt_view(*o),
{
    match o {
        Some(s) => Some(s.clone()),
        None => None,
    }
}

impl UserRepoSetting {
    /// A repository setting; without an id, the URL serves as the id.
    pub fn new(local_path: PathBuf, name: Option<String>, url: Option<String>, id: Option<String>) -> (r: UserRepoSetting)
        ensures
            r.local_path == local_path,
            opt_view(r.name) == opt_view(name),
            opt_view(r.url) == opt_view(url),
            opt_view(r.id) == (match id {
                Some(i) => Some(i@),
                None => opt_view(url),
            }),
    {
        let id = match id {
            Some(i) => Some(i),
            None => clone_opt(&url),
        };
        UserRepoSetting { local_path, name, id, url }
    }
}

/// What the program stores about a cached repository besides its content.
#[derive(Debug)]
pub struct VrcGetMeta {
    /// The `ETag` of the last download, empty when unknown.
    pub etag: String,
}

/// The versions of one package in a repository, by version text.
#[derive(Debug)]
pub struct PackageVersions {
    pub versions: HashMap<String, PackageJson>,
}

/// A repository file as read.
#[derive(Debug)]
pub struct ParsedRepository {
    pub name: Option<String>,
    pub url: Option<String>,
    pub id: Option<String>,
    pub author: Option<String>,
    pub packages: HashMap<String, PackageVersions>,
}

/// The `url` and `id` to write into a cached repository that lacks them: the URL it was added
/// with, and the id it was added with or else that URL.
pub fn repository_defaults(id: Option<String>, url: Option<String>, has_url: bool, has_id: bool) -> (r: (Option<String>, Option<String>))
    ensures
        opt_view(r.0) == (if has_url { None } else { opt_view(url) }),
        opt_view(r.1) == (if has_id { None } else {
            match id {
                Some(i) => Some(i@),
                None => opt_view(url),
            }
        }),
{
    let id = match id {
        Some(i) => Some(i),
        None => clone_opt(&url),
    };
    let url_to_write = if has_url { None } else { url };
    let id_to_write = if has_id { None } else { id };
    (url_to_write, id_to_write)
}

/// A folder in `Packages` counts as an unlocked package unless its `package.json` names the
/// folder's own name and that name is locked in the manifest.
pub fn unlocked_package_entry(folder_name: String, parsed: Option<PackageJson>, manifest: &VpmManifest) -> (r: Option<(String, Option<PackageJson>)>)
    ensures
        (parsed matches Some(p) && p.name@ == folder_name@ && has_key(locked_map_entries(manifest.locked), p.name@))
            ==> r is None,
        !(parsed matches Some(p) && p.name@ == folder_name@ && has_key(locked_map_entries(manifest.locked), p.name@))
            ==> r == Some((folder_name, parsed)),
{
    let skip = match &parsed {
        Some(p) => {
            if str_eq(p.name.as_str(), folder_name.as_str()) {
                match locked_map_get(&manifest.locked, p.name.as_str()) {
                    Some(_) => true,
                    None => {
                        proof {
                            if has_key(locked_map_entries(manifest.locked), p.name@) {
                                assert(value_of(locked_map_entries(manifest.locked), p.name@) is Some);
                            }
                        }
                        false
                    },
                }
            } else {
                false
            }
        },
        None => false,
    };
    if skip {
        None
    } else {
        Some((folder_name, parsed))
    }
}

} // verus!
