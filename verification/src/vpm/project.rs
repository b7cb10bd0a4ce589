use vstd::prelude::*;
use std::path::PathBuf;
use indexmap::IndexMap;
use crate::version::buf::str_eq;
use crate::version::comparator::ComparatorView;
use crate::version::number::string_push_str;
use crate::version::ordering::version_lt;
use crate::version::range::VersionRange;
use crate::version::semver_text::prerelease_text_valid;
use crate::version::version::Version;
use crate::vpm::manifest::{VpmManifest, names_view, str_names};
use crate::vpm::maps::{
    dependency_map_entries, dependency_map_get, has_key, locked_map_entries, locked_map_get,
    locked_map_get_index, locked_map_len, range_map_contains_key, range_map_entries, value_of,
};
use crate::vpm::package::{PackageJson, VpmDependency};

verus! {

/// `std::path::PathBuf`, carried through the library as it is.
#[verifier::external_type_specification]
#[verifier::external_body]
pub struct ExPathBuf(PathBuf);

/// Why packages could not be added.
#[derive(Debug)]
pub enum AddPackageErr {
    /// The same or a newer version is already there.
    AlreadyNewerPackageInstalled,
    /// The version chosen for `conflict` is outside the range `dependency_name` needs.
    ConflictWithDependencies { conflict: String, dependency_name: String },
    /// No version of a needed package matches.
    DependencyNotFound { dependency_name: String },
    /// Conflicts with a package that is not locked.
    ConflictWithUnlocked,
}

/// Why packages could not be removed.
#[derive(Debug)]
pub enum RemovePackageErr {
    /// These packages are not locked in the project.
    NotInstalled(Vec<String>),
    /// These packages depend on one of the packages being removed.
    ConflictsWith(Vec<String>),
}

/// The text `Display` writes for a list of names: the names separated by `, `.
pub open spec fn comma_list(names: Seq<Seq<char>>) -> Seq<char>
    decreases names.len(),
{
    if names.len() == 0 {
        Seq::<char>::empty()
    } else if names.len() == 1 {
        names[0]
    } else {
        comma_list(names.drop_last()) + seq![',', ' '] + names.last()
    }
}

fn write_names(out: &mut String, names: &Vec<String>)
    ensures
        final(out)@ == old(out)@ + comma_list(names_view(names@)),
{
    let ghost start = out@;
    let mut i: usize = 0;
    while i < names.len()
        invariant
            i <= names@.len(),
            out@ == start + comma_list(names_view(names@).take(i as int)),
        decreases names@.len() - i,
    {
        if i > 0 {
            string_push_str(out, ", ");
            proof { reveal_strlit(", "); }
        }
        string_push_str(out, names[i].as_str());
        proof {
            let all = names_view(names@);
            assert(all.take(i + 1).drop_last() =~= all.take(i as int));
            assert(all.take(i + 1).last() == names@[i as int]@);
            if i == 0 {
                assert(all.take(1) =~= seq![names@[0]@]);
            }
        }
        i = i + 1;
    }
    proof {
        assert(names_view(names@).take(i as int) =~= names_view(names@));
    }
}

impl RemovePackageErr {
    /// The text `Display` writes.
    pub fn to_string(&self) -> (r: String)
        ensures
            r@ == match self {
                RemovePackageErr::NotInstalled(names) => "the following packages are not installed: "@
                    + comma_list(names_view(names@)),
                RemovePackageErr::ConflictsWith(names) => "removing packages conflicts with the following packages: "@
                    + comma_list(names_view(names@)),
            },
    {
        let mut out = String::new();
        match self {
            RemovePackageErr::NotInstalled(names) => {
                string_push_str(&mut out, "the following packages are not installed: ");
                write_names(&mut out, names);
            },
            RemovePackageErr::ConflictsWith(names) => {
                string_push_str(&mut out, "removing packages conflicts with the following packages: ");
                write_names(&mut out, names);
            },
        }
        out
    }
}

impl AddPackageErr {
    /// The text `Display` writes.
    pub fn to_string(&self) -> (r: String)
        ensures
            r@ == match self {
                AddPackageErr::AlreadyNewerPackageInstalled => "already newer package installed"@,
                AddPackageErr::ConflictWithDependencies { conflict, dependency_name } => conflict@
                    + " conflicts with "@ + dependency_name@,
                AddPackageErr::DependencyNotFound { dependency_name } => "Package "@ + dependency_name@
                    + " (maybe dependencies of the package) not found"@,
                AddPackageErr::ConflictWithUnlocked => "conflicts with unlocked packages"@,
            },
    {
        let mut out = String::new();
        match self {
            AddPackageErr::AlreadyNewerPackageInstalled => {
                string_push_str(&mut out, "already newer package installed");
            },
            AddPackageErr::ConflictWithDependencies { conflict, dependency_name } => {
                string_push_str(&mut out, conflict.as_str());
                string_push_str(&mut out, " conflicts with ");
                string_push_str(&mut out, dependency_name.as_str());
            },
            AddPackageErr::DependencyNotFound { dependency_name } => {
                string_push_str(&mut out, "Package ");
                string_push_str(&mut out, dependency_name.as_str());
                string_push_str(&mut out, " (maybe dependencies of the package) not found");
            },
            AddPackageErr::ConflictWithUnlocked => {
                string_push_str(&mut out, "conflicts with unlocked packages");
            },
        }
        out
    }
}

/// A Unity project as the package manager sees it: its `Packages` folder, its manifest and the
/// packages found in the folder that the manifest does not lock.
pub struct UnityProject {
    pub packages_dir: PathBuf,
    pub manifest: VpmManifest,
    pub unlocked_packages: Vec<(String, Option<PackageJson>)>,
}

/// A package and the ranges it needs of other packages.
pub type DependencyEntry = (Seq<char>, Seq<(Seq<char>, Seq<Seq<ComparatorView>>)>);

/// The dependency lists of the project: those of the locked packages, then those of the
/// unlocked packages that have a `package.json`.
pub open spec fn all_dependencies_view(project: UnityProject) -> Seq<DependencyEntry> {
    locked_map_entries(project.manifest.locked).map_values(|e: (Seq<char>, crate::vpm::maps::LockedView)| (e.0, e.1.dependencies))
        + unlocked_dependencies_view(project.unlocked_packages@)
}

/// The dependency lists of the unlocked packages that have a `package.json`.
pub open spec fn unlocked_dependencies_view(unlocked: Seq<(String, Option<PackageJson>)>) -> Seq<DependencyEntry>
    decreases unlocked.len(),
{
    if unlocked.len() == 0 {
        Seq::empty()
    } else {
        let prev = unlocked_dependencies_view(unlocked.drop_last());
        match unlocked.last().1 {
            Some(p) => prev.push((p.name@, range_map_entries(p.vpm_dependencies))),
            None => prev,
        }
    }
}

/// The names among `names` that are not locked, in order.
pub open spec fn not_locked_names(locked: Seq<(Seq<char>, crate::vpm::maps::LockedView)>, names: Seq<Seq<char>>) -> Seq<Seq<char>>
    decreases names.len(),
{
    if names.len() == 0 {
        Seq::empty()
    } else {
        let prev = not_locked_names(locked, names.drop_last());
        if has_key(locked, names.last()) {
            prev
        } else {
            prev.push(names.last())
        }
    }
}

/// The packages, other than those being removed, that depend on one of `names`, in order.
pub open spec fn conflicting_names(deps: Seq<DependencyEntry>, names: Seq<Seq<char>>) -> Seq<Seq<char>>
    decreases deps.len(),
{
    if deps.len() == 0 {
        Seq::empty()
    } else {
        let prev = conflicting_names(deps.drop_last(), names);
        let e = deps.last();
        if !names.contains(e.0) && exists|i: int| 0 <= i < names.len() && has_key(e.1, #[trigger] names[i]) {
            prev.push(e.0)
        } else {
            prev
        }
    }
}

/// What removing `names` from a project gives: the names that are not locked, else the
/// packages that still depend on one of them, else success.
pub open spec fn remove_check(project: UnityProject, names: Seq<Seq<char>>) -> Result<(), (bool, Seq<Seq<char>>)> {
    let missing = not_locked_names(locked_map_entries(project.manifest.locked), names);
    let conflicts = conflicting_names(all_dependencies_view(project), names);
    if missing.len() > 0 {
        Err((true, missing))
    } else if conflicts.len() > 0 {
        Err((false, conflicts))
    } else {
        Ok(())
    }
}

proof fn lemma_all_names_locked(locked: Seq<(Seq<char>, crate::vpm::maps::LockedView)>, names: Seq<Seq<char>>)
    requires
        forall|i: int| 0 <= i < names.len() ==> has_key(locked, #[trigger] names[i]),
    ensures
        not_locked_names(locked, names).len() == 0,
    decreases names.len(),
{
    if names.len() > 0 {
        let init = names.drop_last();
        assert forall|i: int| 0 <= i < init.len() implies has_key(locked, #[trigger] init[i]) by {
            assert(init[i] == names[i]);
        }
        lemma_all_names_locked(locked, init);
        assert(has_key(locked, names[names.len() - 1]));
    }
}

proof fn lemma_conflict_listed(deps: Seq<DependencyEntry>, names: Seq<Seq<char>>, k: int, n: int)
    requires
        0 <= k < deps.len(),
        !names.contains(deps[k].0),
        0 <= n < names.len(),
        has_key(deps[k].1, names[n]),
    ensures
        conflicting_names(deps, names).contains(deps[k].0),
    decreases deps.len(),
{
    let prev = conflicting_names(deps.drop_last(), names);
    if k == deps.len() - 1 {
        assert(conflicting_names(deps, names) == prev.push(deps[k].0));
        assert(prev.push(deps[k].0)[prev.len() as int] == deps[k].0);
    } else {
        assert(deps.drop_last()[k] == deps[k]);
        lemma_conflict_listed(deps.drop_last(), names, k, n);
        let c = conflicting_names(deps, names);
        let w = choose|w: int| 0 <= w < prev.len() && prev[w] == deps[k].0;
        if c != prev {
            assert(c == prev.push(deps.last().0));
            assert(c[w] == prev[w]);
        }
    }
}

proof fn lemma_unlocked_entry_listed(unlocked: Seq<(String, Option<PackageJson>)>, u: int)
    requires
        0 <= u < unlocked.len(),
        unlocked[u].1 is Some,
    ensures
        exists|k: int| 0 <= k < unlocked_dependencies_view(unlocked).len()
            && #[trigger] unlocked_dependencies_view(unlocked)[k]
                == (unlocked[u].1->0.name@, range_map_entries(unlocked[u].1->0.vpm_dependencies)),
    decreases unlocked.len(),
{
    let prev = unlocked_dependencies_view(unlocked.drop_last());
    let e = (unlocked[u].1->0.name@, range_map_entries(unlocked[u].1->0.vpm_dependencies));
    if u == unlocked.len() - 1 {
        assert(unlocked_dependencies_view(unlocked) == prev.push(e));
        assert(unlocked_dependencies_view(unlocked)[prev.len() as int] == e);
    } else {
        assert(unlocked.drop_last()[u] == unlocked[u]);
        lemma_unlocked_entry_listed(unlocked.drop_last(), u);
        let k = choose|k: int| 0 <= k < prev.len() && #[trigger] prev[k] == e;
        assert(unlocked_dependencies_view(unlocked)[k] == e);
    }
}

/// Removing packages is refused while a package that stays needs one of them: when every name
/// is locked, and a locked package or an unlocked package with a `package.json`, not itself
/// being removed, depends on one of the names, the removal fails with `ConflictsWith` naming
/// that package (and `UnityProject::remove` then changes nothing).
pub proof fn lemma_remove_refuses_needed(project: UnityProject, names: Seq<Seq<char>>, dependent: Seq<char>, needed: int)
    requires
        forall|i: int| 0 <= i < names.len() ==> has_key(locked_map_entries(project.manifest.locked), #[trigger] names[i]),
        !names.contains(dependent),
        0 <= needed < names.len(),
        (exists|l: int| 0 <= l < locked_map_entries(project.manifest.locked).len()
            && (#[trigger] locked_map_entries(project.manifest.locked)[l]).0 == dependent
            && has_key(locked_map_entries(project.manifest.locked)[l].1.dependencies, names[needed]))
        || (exists|u: int| 0 <= u < project.unlocked_packages@.len()
            && (#[trigger] project.unlocked_packages@[u]).1 is Some
            && project.unlocked_packages@[u].1->0.name@ == dependent
            && has_key(range_map_entries(project.unlocked_packages@[u].1->0.vpm_dependencies), names[needed])),
    ensures
        remove_check(project, names) matches Err((false, conflicts)) && conflicts.contains(dependent),
{
    let locked = locked_map_entries(project.manifest.locked);
    let locked_part = locked.map_values(|e: (Seq<char>, crate::vpm::maps::LockedView)| (e.0, e.1.dependencies));
    let unl = unlocked_dependencies_view(project.unlocked_packages@);
    let deps = all_dependencies_view(project);
    assert(deps == locked_part + unl);
    lemma_all_names_locked(locked, names);
    if exists|l: int| 0 <= l < locked.len() && (#[trigger] locked[l]).0 == dependent
        && has_key(locked[l].1.dependencies, names[needed]) {
        let l = choose|l: int| 0 <= l < locked.len() && (#[trigger] locked[l]).0 == dependent
            && has_key(locked[l].1.dependencies, names[needed]);
        assert(deps[l] == locked_part[l]);
        lemma_conflict_listed(deps, names, l, needed);
    } else {
        let u = choose|u: int| 0 <= u < project.unlocked_packages@.len()
            && (#[trigger] project.unlocked_packages@[u]).1 is Some
            && project.unlocked_packages@[u].1->0.name@ == dependent
            && has_key(range_map_entries(project.unlocked_packages@[u].1->0.vpm_dependencies), names[needed]);
        lemma_unlocked_entry_listed(project.unlocked_packages@, u);
        let k = choose|k: int| 0 <= k < unl.len()
            && #[trigger] unl[k] == (project.unlocked_packages@[u].1->0.name@,
                range_map_entries(project.unlocked_packages@[u].1->0.vpm_dependencies));
        assert(deps[locked_part.len() + k] == unl[k]);
        lemma_conflict_listed(deps, names, locked_part.len() + k, needed);
    }
    let c = conflicting_names(deps, names);
    assert(c.len() > 0);
}

proof fn lemma_no_conflict_listed(deps: Seq<DependencyEntry>, names: Seq<Seq<char>>)
    requires
        forall|k: int, n: int| 0 <= k < deps.len() && !names.contains(deps[k].0) && 0 <= n < names.len()
            ==> !has_key((#[trigger] deps[k]).1, #[trigger] names[n]),
    ensures
        conflicting_names(deps, names).len() == 0,
    decreases deps.len(),
{
    if deps.len() > 0 {
        let init = deps.drop_last();
        assert forall|k: int, n: int| 0 <= k < init.len() && !names.contains(init[k].0) && 0 <= n < names.len()
            implies !has_key((#[trigger] init[k]).1, #[trigger] names[n]) by {
            assert(init[k] == deps[k]);
        }
        lemma_no_conflict_listed(init, names);
        let e = deps.last();
        if !names.contains(e.0) {
            assert forall|n: int| 0 <= n < names.len() implies !has_key(e.1, #[trigger] names[n]) by {
                assert(!has_key(deps[deps.len() - 1].1, names[n]));
            }
        }
    }
}

/// Removing locked packages succeeds when no package that stays, locked or unlocked with a
/// `package.json`, depends on one of them.
pub proof fn lemma_remove_allows_unneeded(project: UnityProject, names: Seq<Seq<char>>)
    requires
        forall|i: int| 0 <= i < names.len() ==> has_key(locked_map_entries(project.manifest.locked), #[trigger] names[i]),
        forall|l: int, n: int| 0 <= l < locked_map_entries(project.manifest.locked).len()
            && !names.contains(locked_map_entries(project.manifest.locked)[l].0) && 0 <= n < names.len()
            ==> !has_key((#[trigger] locked_map_entries(project.manifest.locked)[l]).1.dependencies, #[trigger] names[n]),
        forall|u: int, n: int| 0 <= u < project.unlocked_packages@.len()
            && (#[trigger] project.unlocked_packages@[u]).1 is Some
            && !names.contains(project.unlocked_packages@[u].1->0.name@) && 0 <= n < names.len()
            ==> !has_key(range_map_entries(project.unlocked_packages@[u].1->0.vpm_dependencies), #[trigger] names[n]),
    ensures
        remove_check(project, names) is Ok,
{
    let locked = locked_map_entries(project.manifest.locked);
    let locked_part = locked.map_values(|e: (Seq<char>, crate::vpm::maps::LockedView)| (e.0, e.1.dependencies));
    let unl = unlocked_dependencies_view(project.unlocked_packages@);
    let deps = all_dependencies_view(project);
    assert(deps == locked_part + unl);
    lemma_all_names_locked(locked, names);
    lemma_unlocked_entries_from(project.unlocked_packages@);
    assert forall|k: int, n: int| 0 <= k < deps.len() && !names.contains(deps[k].0) && 0 <= n < names.len()
        implies !has_key((#[trigger] deps[k]).1, #[trigger] names[n]) by {
        if k < locked_part.len() {
            assert(deps[k] == (locked[k].0, locked[k].1.dependencies));
            assert(!has_key(locked[k].1.dependencies, names[n]));
        } else {
            let e = unl[k - locked_part.len()];
            assert(deps[k] == e);
            assert(from_unlocked(project.unlocked_packages@, e));
            let u = choose|u: int| 0 <= u < project.unlocked_packages@.len()
                && (#[trigger] project.unlocked_packages@[u]).1 is Some
                && e == (project.unlocked_packages@[u].1->0.name@, range_map_entries(project.unlocked_packages@[u].1->0.vpm_dependencies));
            assert(!has_key(range_map_entries(project.unlocked_packages@[u].1->0.vpm_dependencies), names[n]));
        }
    }
    lemma_no_conflict_listed(deps, names);
}

/// Whether `e` is the name and dependency list of an unlocked package with a `package.json`.
pub open spec fn from_unlocked(unlocked: Seq<(String, Option<PackageJson>)>, e: DependencyEntry) -> bool {
    exists|u: int| 0 <= u < unlocked.len() && (#[trigger] unlocked[u]).1 is Some
        && e == (unlocked[u].1->0.name@, range_map_entries(unlocked[u].1->0.vpm_dependencies))
}

/// Every entry of the unlocked dependency lists comes from an unlocked package with a
/// `package.json`.
proof fn lemma_unlocked_entries_from(unlocked: Seq<(String, Option<PackageJson>)>)
    ensures
        forall|k: int| 0 <= k < unlocked_dependencies_view(unlocked).len()
            ==> from_unlocked(unlocked, #[trigger] unlocked_dependencies_view(unlocked)[k]),
    decreases unlocked.len(),
{
    if unlocked.len() > 0 {
        let init = unlocked.drop_last();
        lemma_unlocked_entries_from(init);
        let prev = unlocked_dependencies_view(init);
        let now = unlocked_dependencies_view(unlocked);
        assert forall|k: int| 0 <= k < now.len() implies from_unlocked(unlocked, #[trigger] now[k]) by {
            if k < prev.len() {
                assert(now[k] == prev[k]);
                assert(from_unlocked(init, prev[k]));
                let u = choose|u: int| 0 <= u < init.len() && (#[trigger] init[u]).1 is Some
                    && prev[k] == (init[u].1->0.name@, range_map_entries(init[u].1->0.vpm_dependencies));
                assert(unlocked[u] == init[u]);
            } else {
                assert(unlocked[unlocked.len() - 1].1 is Some);
            }
        }
    }
}

/// Whether `range_map` has one of `names` as a key.
fn depends_on_any(deps: &IndexMap<String, VersionRange>, names: &[&str]) -> (r: bool)
    ensures
        r == exists|i: int| 0 <= i < names@.len() && has_key(range_map_entries(*deps), #[trigger] str_names(names@)[i]),
{
    let ghost all = str_names(names@);
    let mut i: usize = 0;
    while i < names.len()
        invariant
            i <= names@.len(),
            all == str_names(names@),
            forall|j: int| 0 <= j < i ==> !has_key(range_map_entries(*deps), #[trigger] all[j]),
        decreases names@.len() - i,
    {
        if range_map_contains_key(deps, names[i]) {
            assert(has_key(range_map_entries(*deps), all[i as int]));
            return true;
        }
        i = i + 1;
    }
    false
}

/// Whether `name` is one of `names`.
fn among(names: &[&str], name: &str) -> (r: bool)
    ensures
        r == str_names(names@).contains(name@),
{
    let ghost all = str_names(names@);
    let mut i: usize = 0;
    while i < names.len()
        invariant
            i <= names@.len(),
            all == str_names(names@),
            forall|j: int| 0 <= j < i ==> all[j] != name@,
        decreases names@.len() - i,
    {
        if str_eq(names[i], name) {
            assert(all[i as int] == name@);
            return true;
        }
        i = i + 1;
    }
    false
}

impl UnityProject {
    /// Checks that `names` can be removed: all of them locked, and no other package depending
    /// on one of them. On success, removes them from the manifest; the caller deletes their
    /// folders.
    pub fn remove(&mut self, names: &[&str]) -> (r: Result<(), RemovePackageErr>)
        ensures
            match remove_check(*old(self), str_names(names@)) {
                Ok(()) => r is Ok,
                Err((true, missing)) => r matches Err(RemovePackageErr::NotInstalled(found))
                    && names_view(found@) == missing && *final(self) == *old(self),
                Err((false, conflicts)) => r matches Err(RemovePackageErr::ConflictsWith(found))
                    && names_view(found@) == conflicts && *final(self) == *old(self),
            },
            r is Ok ==> locked_map_entries(final(self).manifest.locked) == crate::vpm::manifest::removed_all(
                locked_map_entries(old(self).manifest.locked),
                str_names(names@),
            ),
            r is Ok ==> dependency_map_entries(final(self).manifest.dependencies) == crate::vpm::manifest::removed_all(
                dependency_map_entries(old(self).manifest.dependencies),
                str_names(names@),
            ),
    {
        let ghost all = str_names(names@);
        let ghost locked = locked_map_entries(self.manifest.locked);
        // check for existence
        let mut not_founds: Vec<String> = Vec::new();
        let mut i: usize = 0;
        while i < names.len()
            invariant
                i <= names@.len(),
                all == str_names(names@),
                locked == locked_map_entries(self.manifest.locked),
                names_view(not_founds@) == not_locked_names(locked, all.take(i as int)),
            decreases names@.len() - i,
        {
            let name = names[i];
            let ghost before = not_founds@;
            proof {
                assert(all.take(i + 1).drop_last() =~= all.take(i as int));
                assert(all.take(i + 1).last() == name@);
            }
            match locked_map_get(&self.manifest.locked, name) {
                Some(_) => {
                    proof {
                        assert(has_key(locked, name@));
                    }
                },
                None => {
                    proof {
                        if has_key(locked, name@) {
                            assert(value_of(locked, name@) is Some);
                        }
                    }
                    not_founds.push(name.to_owned());
                    proof {
                        assert(names_view(not_founds@) =~= names_view(before).push(name@));
                    }
                },
            }
            i = i + 1;
        }
        proof {
            assert(all.take(i as int) =~= all);
        }
        if not_founds.len() > 0 {
            return Err(RemovePackageErr::NotInstalled(not_founds));
        }

        // check for conflicts: a package that stays and depends on one being removed
        let ghost deps = all_dependencies_view(*self);
        let ghost locked_part = locked.map_values(|e: (Seq<char>, crate::vpm::maps::LockedView)| (e.0, e.1.dependencies));
        let mut conflicts: Vec<String> = Vec::new();
        let count = locked_map_len(&self.manifest.locked);
        let mut k: usize = 0;
        while k < count
            invariant
                k <= count,
                count == locked.len(),
                all == str_names(names@),
                locked == locked_map_entries(self.manifest.locked),
                locked_part == locked.map_values(|e: (Seq<char>, crate::vpm::maps::LockedView)| (e.0, e.1.dependencies)),
                names_view(conflicts@) == conflicting_names(locked_part.take(k as int), all),
            decreases count - k,
        {
            let (name, dep) = locked_map_get_index(&self.manifest.locked, k);
            let ghost before = conflicts@;
            proof {
                assert(locked_part.take(k + 1).drop_last() =~= locked_part.take(k as int));
                assert(locked_part.take(k + 1).last() == (name@, range_map_entries(dep.dependencies)));
            }
            if !among(names, name.as_str()) && depends_on_any(&dep.dependencies, names) {
                conflicts.push(name.clone());
                proof {
                    assert(names_view(conflicts@) =~= names_view(before).push(name@));
                }
            }
            k = k + 1;
        }
        proof {
            assert(locked_part.take(k as int) =~= locked_part);
        }
        let ghost unlocked_all = self.unlocked_packages@;
        let mut u: usize = 0;
        while u < self.unlocked_packages.len()
            invariant
                u <= self.unlocked_packages@.len(),
                unlocked_all == self.unlocked_packages@,
                all == str_names(names@),
                names_view(conflicts@) == conflicting_names(
                    locked_part + unlocked_dependencies_view(unlocked_all.take(u as int)),
                    all,
                ),
            decreases self.unlocked_packages@.len() - u,
        {
            let ghost before = conflicts@;
            proof {
                assert(unlocked_all.take(u + 1).drop_last() =~= unlocked_all.take(u as int));
            }
            match &self.unlocked_packages[u].1 {
                Some(package) => {
                    proof {
                        let prev = locked_part + unlocked_dependencies_view(unlocked_all.take(u as int));
                        let next = locked_part + unlocked_dependencies_view(unlocked_all.take(u + 1));
                        assert(next =~= prev.push((package.name@, range_map_entries(package.vpm_dependencies))));
                        assert(next.drop_last() =~= prev);
                    }
                    if !among(names, package.name.as_str()) && depends_on_any(&package.vpm_dependencies, names) {
                        conflicts.push(package.name.clone());
                        proof {
                            assert(names_view(conflicts@) =~= names_view(before).push(package.name@));
                        }
                    }
                },
                None => {
                    proof {
                        let prev = locked_part + unlocked_dependencies_view(unlocked_all.take(u as int));
                        let next = locked_part + unlocked_dependencies_view(unlocked_all.take(u + 1));
                        assert(next =~= prev);
                    }
                },
            }
            u = u + 1;
        }
        proof {
            assert(unlocked_all.take(u as int) =~= unlocked_all);
        }
        if conflicts.len() > 0 {
            return Err(RemovePackageErr::ConflictsWith(conflicts));
        }

        // no conflicts: remove them
        self.manifest.remove_packages(names);
        Ok(())
    }
}


// ---------------------------------------------------------------------------------------
// Adding packages.

/// What adding packages writes to the manifest: dependencies to add, and packages to lock (and
/// download).
pub struct AddPackageRequest {
    pub dependencies: Vec<(String, VpmDependency)>,
    pub locked: Vec<PackageJson>,
}

/// Every version in the manifest has a prerelease text that `semver` accepts.
pub open spec fn manifest_versions_valid(m: VpmManifest) -> bool {
    &&& forall|i: int| 0 <= i < dependency_map_entries(m.dependencies).len()
        ==> prerelease_text_valid((#[trigger] dependency_map_entries(m.dependencies)[i]).1.pre)
    &&& forall|i: int| 0 <= i < locked_map_entries(m.locked).len()
        ==> prerelease_text_valid((#[trigger] locked_map_entries(m.locked)[i]).1.version.pre)
}

/// `p` is newer than the version the manifest's dependencies ask for, or not asked for.
pub open spec fn newer_than_dependency(m: VpmManifest, p: PackageJson) -> bool {
    match value_of(dependency_map_entries(m.dependencies), p.name@) {
        Some(v) => crate::version::ordering::version_order(v, p.version@) < 0,
        None => true,
    }
}

/// `p` is newer than the locked version of its name, or not locked.
pub open spec fn newer_than_locked(m: VpmManifest, p: PackageJson) -> bool {
    match value_of(locked_map_entries(m.locked), p.name@) {
        Some(l) => crate::version::ordering::version_order(l.version, p.version@) < 0,
        None => true,
    }
}

/// The requested packages that are newer than what the dependencies ask for.
pub open spec fn kept_requests(m: VpmManifest, packages: Seq<PackageJson>) -> Seq<PackageJson> {
    packages.filter(|p: PackageJson| newer_than_dependency(m, p))
}

/// Of those, the ones newer than the locked version: they are locked (and resolved).
pub open spec fn requests_to_lock(m: VpmManifest, packages: Seq<PackageJson>) -> Seq<PackageJson> {
    kept_requests(m, packages).filter(|p: PackageJson| newer_than_locked(m, p))
}

/// Whether a package is already one of the dependencies.
pub open spec fn is_dependency(m: VpmManifest, p: PackageJson) -> bool {
    has_key(dependency_map_entries(m.dependencies), p.name@)
}

/// Whether a kept request that is already locked at the same or a newer version becomes a
/// dependency: always when adding to the dependencies, and, when upgrading, only if it is one
/// already (upgrading never adds a dependency).
pub open spec fn depends_on_request(m: VpmManifest, p: PackageJson, to_dependencies: bool) -> bool {
    !newer_than_locked(m, p) && (to_dependencies || is_dependency(m, p))
}

/// The others, already locked at the same or a newer version: only written as dependencies,
/// and, when upgrading, only those that are dependencies already.
pub open spec fn requests_to_depend(m: VpmManifest, packages: Seq<PackageJson>, to_dependencies: bool) -> Seq<PackageJson> {
    kept_requests(m, packages).filter(|p: PackageJson| depends_on_request(m, p, to_dependencies))
}

/// `deps` lists the names and versions of `packages`.
pub open spec fn dependencies_of(deps: Seq<(String, VpmDependency)>, packages: Seq<PackageJson>) -> bool {
    &&& deps.len() == packages.len()
    &&& forall|i: int| 0 <= i < deps.len() ==> (#[trigger] deps[i]).0@ == packages[i].name@
        && deps[i].1.version@ == packages[i].version@
}

/// Whether the version locked under `p`'s name is the same as `p`'s or newer.
pub open spec fn locked_at_least(m: VpmManifest, p: PackageJson) -> bool {
    has_key(locked_map_entries(m.locked), p.name@)
        && crate::version::ordering::version_order(value_of(locked_map_entries(m.locked), p.name@)->0.version, p.version@) >= 0
}

/// Adding packages locks (and so downloads) a request only when nothing of its name is locked
/// or the locked version is strictly older. A request locked at the same or a newer version is
/// never locked again: when installing it is only written as a dependency, and when every
/// request is so there is nothing to lock (so upgrading fails with
/// `AlreadyNewerPackageInstalled`).
pub proof fn lemma_lock_only_newer(m: VpmManifest, packages: Seq<PackageJson>, to_dependencies: bool)
    ensures
        forall|i: int| 0 <= i < requests_to_lock(m, packages).len()
            ==> !has_key(locked_map_entries(m.locked), (#[trigger] requests_to_lock(m, packages)[i]).name@)
                || crate::version::ordering::version_order(
                    value_of(locked_map_entries(m.locked), requests_to_lock(m, packages)[i].name@)->0.version,
                    requests_to_lock(m, packages)[i].version@,
                ) < 0,
        forall|i: int| 0 <= i < kept_requests(m, packages).len() && locked_at_least(m, #[trigger] kept_requests(m, packages)[i])
            ==> !requests_to_lock(m, packages).contains(kept_requests(m, packages)[i])
                && (to_dependencies ==> requests_to_depend(m, packages, to_dependencies).contains(kept_requests(m, packages)[i])),
        (forall|i: int| 0 <= i < kept_requests(m, packages).len() ==> locked_at_least(m, #[trigger] kept_requests(m, packages)[i]))
            ==> requests_to_lock(m, packages).len() == 0,
        forall|i: int| 0 <= i < kept_requests(m, packages).len() && !locked_at_least(m, #[trigger] kept_requests(m, packages)[i])
            ==> requests_to_lock(m, packages).contains(kept_requests(m, packages)[i])
                && !requests_to_depend(m, packages, to_dependencies).contains(kept_requests(m, packages)[i]),
{
    let kept = kept_requests(m, packages);
    let lock = |p: PackageJson| newer_than_locked(m, p);
    let depend = |p: PackageJson| depends_on_request(m, p, to_dependencies);
    assert(requests_to_lock(m, packages) == kept.filter(lock));
    assert forall|i: int| 0 <= i < requests_to_lock(m, packages).len()
        implies !has_key(locked_map_entries(m.locked), (#[trigger] requests_to_lock(m, packages)[i]).name@)
            || crate::version::ordering::version_order(
                value_of(locked_map_entries(m.locked), requests_to_lock(m, packages)[i].name@)->0.version,
                requests_to_lock(m, packages)[i].version@,
            ) < 0 by {
        kept.lemma_filter_pred(lock, i);
    }
    assert forall|i: int| 0 <= i < kept.len() && locked_at_least(m, #[trigger] kept[i])
        implies !requests_to_lock(m, packages).contains(kept[i])
            && (to_dependencies ==> requests_to_depend(m, packages, to_dependencies).contains(kept[i])) by {
        if requests_to_lock(m, packages).contains(kept[i]) {
            let j = choose|j: int| 0 <= j < kept.filter(lock).len() && kept.filter(lock)[j] == kept[i];
            kept.lemma_filter_pred(lock, j);
        }
        if to_dependencies {
            assert(depend(kept[i]));
            kept.lemma_filter_contains(depend, i);
        }
    }
    assert forall|i: int| 0 <= i < kept.len() && !locked_at_least(m, #[trigger] kept[i])
        implies requests_to_lock(m, packages).contains(kept[i])
            && !requests_to_depend(m, packages, to_dependencies).contains(kept[i]) by {
        assert(lock(kept[i]));
        kept.lemma_filter_contains(lock, i);
        if requests_to_depend(m, packages, to_dependencies).contains(kept[i]) {
            let j = choose|j: int| 0 <= j < kept.filter(depend).len() && kept.filter(depend)[j] == kept[i];
            kept.lemma_filter_pred(depend, j);
        }
    }
    if forall|i: int| 0 <= i < kept.len() ==> locked_at_least(m, #[trigger] kept[i]) {
        if requests_to_lock(m, packages).len() > 0 {
            let x = kept.filter(lock)[0];
            kept.lemma_filter_pred(lock, 0);
            kept.lemma_filter_contains_rev(lock, x);
            let i = choose|i: int| 0 <= i < kept.len() && kept[i] == x;
            assert(locked_at_least(m, kept[i]));
        }
    }
}

fn is_newer_than_dependency(m: &VpmManifest, p: &PackageJson) -> (r: bool)
    requires
        manifest_versions_valid(*m),
        prerelease_text_valid(p.version@.pre),
    ensures
        r == newer_than_dependency(*m, *p),
{
    match dependency_map_get(&m.dependencies, p.name.as_str()) {
        Some(dep) => {
            proof {
                let s = dependency_map_entries(m.dependencies);
                let i = crate::vpm::maps::index_of_key(s, p.name@)->0;
                assert(prerelease_text_valid(s[i].1.pre));
            }
            version_lt(&dep.version, &p.version)
        },
        None => true,
    }
}

fn is_newer_than_locked(m: &VpmManifest, p: &PackageJson) -> (r: bool)
    requires
        manifest_versions_valid(*m),
        prerelease_text_valid(p.version@.pre),
    ensures
        r == newer_than_locked(*m, *p),
{
    match locked_map_get(&m.locked, p.name.as_str()) {
        Some(dep) => {
            proof {
                let s = locked_map_entries(m.locked);
                let i = crate::vpm::maps::index_of_key(s, p.name@)->0;
                assert(prerelease_text_valid(s[i].1.version.pre));
            }
            version_lt(&dep.version, &p.version)
        },
        None => true,
    }
}

fn is_in_dependencies(m: &VpmManifest, p: &PackageJson) -> (r: bool)
    ensures
        r == is_dependency(*m, *p),
{
    match dependency_map_get(&m.dependencies, p.name.as_str()) {
        Some(_) => true,
        None => false,
    }
}

impl UnityProject {
    /// The first part of adding packages: drops the requests that the dependencies already
    /// ask for at the same or a newer version, then splits the rest into packages to lock and
    /// packages already locked at the same or a newer version, which only become dependencies
    /// (when upgrading, only those that are dependencies already). When there is nothing to lock, only `to_dependencies` makes that a success. The
    /// packages to lock still go through dependency resolution.
    pub fn prepare_add_package_request(&self, packages: Vec<PackageJson>, to_dependencies: bool) -> (r: Result<(Vec<(String, VpmDependency)>, Vec<PackageJson>), AddPackageErr>)
        requires
            manifest_versions_valid(self.manifest),
            crate::vpm::package::versions_valid(packages@),
        ensures
            kept_requests(self.manifest, packages@).len() == 0 ==> r matches Err(AddPackageErr::AlreadyNewerPackageInstalled),
            kept_requests(self.manifest, packages@).len() > 0 && requests_to_lock(self.manifest, packages@).len() == 0
                && !to_dependencies ==> r matches Err(AddPackageErr::AlreadyNewerPackageInstalled),
            kept_requests(self.manifest, packages@).len() > 0 && (requests_to_lock(self.manifest, packages@).len() > 0
                || to_dependencies) ==> (r matches Ok((deps, locked))
                && locked@ == requests_to_lock(self.manifest, packages@)
                && dependencies_of(deps@, requests_to_depend(self.manifest, packages@, to_dependencies))),
    {
        let ghost all = packages@;
        let ghost m = self.manifest;
        let ghost keep = |p: PackageJson| newer_than_dependency(m, p);
        let ghost lock = |p: PackageJson| newer_than_locked(m, p);
        let ghost depend = |p: PackageJson| depends_on_request(m, p, to_dependencies);
        let mut rest = packages;
        let mut dependencies: Vec<(String, VpmDependency)> = Vec::new();
        let mut locked: Vec<PackageJson> = Vec::new();
        let mut kept_count: usize = 0;
        let mut i: usize = 0;
        let total = rest.len();
        proof {
            reveal(Seq::filter);
            assert(all.skip(0) =~= all);
            assert(all.take(0) =~= Seq::<PackageJson>::empty());
        }
        while rest.len() > 0
            invariant
                i <= all.len(),
                total == all.len(),
                rest@ == all.skip(i as int),
                m == self.manifest,
                manifest_versions_valid(self.manifest),
                crate::vpm::package::versions_valid(all),
                keep == (|p: PackageJson| newer_than_dependency(m, p)),
                lock == (|p: PackageJson| newer_than_locked(m, p)),
                depend == (|p: PackageJson| depends_on_request(m, p, to_dependencies)),
                kept_count <= i,
                kept_count == all.take(i as int).filter(keep).len(),
                locked@ == all.take(i as int).filter(keep).filter(lock),
                dependencies_of(dependencies@, all.take(i as int).filter(keep).filter(depend)),
            decreases rest@.len(),
        {
            let p = rest.remove(0);
            let ghost prev = all.take(i as int);
            let ghost next = all.take(i + 1);
            proof {
                reveal(Seq::filter);
                assert(next.drop_last() =~= prev);
                assert(next.last() == p);
                assert(rest@ =~= all.skip(i + 1));
                assert(prerelease_text_valid(all[i as int].version@.pre));
            }
            let kept = is_newer_than_dependency(&self.manifest, &p);
            if kept {
                kept_count = kept_count + 1;
                proof {
                    reveal(Seq::filter);
                    assert(keep(p));
                    assert(next.filter(keep) == prev.filter(keep).push(p));
                    assert(next.filter(keep).drop_last() =~= prev.filter(keep));
                }
                if is_newer_than_locked(&self.manifest, &p) {
                    proof {
                        reveal(Seq::filter);
                        assert(lock(p));
                        assert(!depend(p));
                        assert(next.filter(keep).filter(lock) == prev.filter(keep).filter(lock).push(p));
                        assert(next.filter(keep).filter(depend) == prev.filter(keep).filter(depend));
                    }
                    locked.push(p);
                } else if !to_dependencies && !is_in_dependencies(&self.manifest, &p) {
                    proof {
                        reveal(Seq::filter);
                        assert(!lock(p));
                        assert(!depend(p));
                        assert(next.filter(keep).filter(lock) == prev.filter(keep).filter(lock));
                        assert(next.filter(keep).filter(depend) == prev.filter(keep).filter(depend));
                    }
                } else {
                    let ghost before = dependencies@;
                    let name = p.name.clone();
                    let version = p.version.clone();
                    dependencies.push((name, VpmDependency::new(version)));
                    proof {
                        reveal(Seq::filter);
                        assert(!lock(p));
                        assert(depend(p));
                        assert(next.filter(keep).filter(lock) == prev.filter(keep).filter(lock));
                        let t = next.filter(keep).filter(depend);
                        assert(t == prev.filter(keep).filter(depend).push(p));
                        assert forall|j: int| 0 <= j < dependencies@.len() implies (#[trigger] dependencies@[j]).0@ == t[j].name@
                            && dependencies@[j].1.version@ == t[j].version@ by {
                            if j < before.len() {
                                assert(dependencies@[j] == before[j]);
                            }
                        }
                    }
                }
            } else {
                proof {
                    reveal(Seq::filter);
                    assert(!keep(p));
                    assert(next.filter(keep) == prev.filter(keep));
                }
            }
            i = i + 1;
        }
        proof {
            assert(all.take(i as int) =~= all);
        }
        if kept_count == 0 {
            return Err(AddPackageErr::AlreadyNewerPackageInstalled);
        }
        if locked.len() == 0 && !to_dependencies {
            return Err(AddPackageErr::AlreadyNewerPackageInstalled);
        }
        Ok((dependencies, locked))
    }

    /// Writes an add request to the manifest: the dependencies first, then each package to
    /// lock with its version and the ranges it needs. Downloading the locked packages is the
    /// caller's part.
    pub fn apply_add_package_request(&mut self, request: AddPackageRequest) -> (r: Vec<PackageJson>)
        ensures
            r@ == request.locked@,
            final(self).unlocked_packages == old(self).unlocked_packages,
            dependency_map_entries(final(self).manifest.dependencies) == insert_dependencies(
                dependency_map_entries(old(self).manifest.dependencies),
                request.dependencies@,
            ),
            locked_map_entries(final(self).manifest.locked) == lock_packages(
                locked_map_entries(old(self).manifest.locked),
                request.locked@,
            ),
    {
        let AddPackageRequest { dependencies, locked } = request;
        let ghost deps_all = dependencies@;
        let ghost start_locked = locked_map_entries(self.manifest.locked);
        let ghost start_deps = dependency_map_entries(self.manifest.dependencies);
        let total = dependencies.len();
        let mut rest = dependencies;
        let mut i: usize = 0;
        proof {
            assert(deps_all.skip(0) =~= deps_all);
            assert(deps_all.take(0) =~= Seq::<(String, VpmDependency)>::empty());
        }
        while rest.len() > 0
            invariant
                i <= deps_all.len(),
                total == deps_all.len(),
                rest@ == deps_all.skip(i as int),
                dependency_map_entries(self.manifest.dependencies) == insert_dependencies(start_deps, deps_all.take(i as int)),
                locked_map_entries(self.manifest.locked) == start_locked,
                self.unlocked_packages == old(self).unlocked_packages,
            decreases rest@.len(),
        {
            let (name, dep) = rest.remove(0);
            proof {
                assert(deps_all.take(i + 1).drop_last() =~= deps_all.take(i as int));
                assert(deps_all.take(i + 1).last() == (name, dep));
                assert(rest@ =~= deps_all.skip(i + 1));
            }
            self.manifest.add_dependency(name.as_str(), dep);
            i = i + 1;
        }
        proof {
            assert(deps_all.take(i as int) =~= deps_all);
        }
        let mut k: usize = 0;
        while k < locked.len()
            invariant
                k <= locked@.len(),
                dependency_map_entries(self.manifest.dependencies) == insert_dependencies(start_deps, deps_all),
                locked_map_entries(self.manifest.locked) == lock_packages(start_locked, locked@.take(k as int)),
                self.unlocked_packages == old(self).unlocked_packages,
            decreases locked@.len() - k,
        {
            let p = &locked[k];
            let version = p.version.clone();
            let deps = crate::vpm::maps::range_map_clone(&p.vpm_dependencies);
            self.manifest.add_locked(p.name.as_str(), crate::vpm::package::VpmLockedDependency::new(version, deps));
            proof {
                assert(locked@.take(k + 1).drop_last() =~= locked@.take(k as int));
                assert(locked@.take(k + 1).last() == locked@[k as int]);
            }
            k = k + 1;
        }
        proof {
            assert(locked@.take(k as int) =~= locked@);
        }
        locked
    }
}

/// The dependency entries after adding each of `deps` in order.
pub open spec fn insert_dependencies(
    s: Seq<(Seq<char>, crate::version::version::VersionView)>,
    deps: Seq<(String, VpmDependency)>,
) -> Seq<(Seq<char>, crate::version::version::VersionView)>
    decreases deps.len(),
{
    if deps.len() == 0 {
        s
    } else {
        crate::vpm::maps::inserted(insert_dependencies(s, deps.drop_last()), deps.last().0@, deps.last().1.version@)
    }
}

/// The locked entries after locking each of `packages` in order.
pub open spec fn lock_packages(
    s: Seq<(Seq<char>, crate::vpm::maps::LockedView)>,
    packages: Seq<PackageJson>,
) -> Seq<(Seq<char>, crate::vpm::maps::LockedView)>
    decreases packages.len(),
{
    if packages.len() == 0 {
        s
    } else {
        let p = packages.last();
        crate::vpm::maps::inserted(
            lock_packages(s, packages.drop_last()),
            p.name@,
            crate::vpm::maps::LockedView { version: p.version@, dependencies: range_map_entries(p.vpm_dependencies) },
        )
    }
}

} // verus!
