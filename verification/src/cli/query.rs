use vstd::prelude::*;
use indexmap::IndexMap;
use crate::text::{ascii_lowercase, str_to_ascii_lowercase};
use crate::version::buf::{first_occurrence, split_once_str, str_eq};
use crate::version::comparator::ComparatorView;
use crate::version::ordering::{lemma_version_order_antisymmetric, version_lt, version_order};
use crate::version::range::{range_wf, spec_range_matches, VersionRange};
use crate::version::semver_text::prerelease_text_valid;
use crate::version::version::{version_text, Version, VersionView};
use crate::version::number::string_push_str;
use crate::vpm::maps::{
    index_of_key, inserted, keys_distinct, lemma_index_of_key, lemma_inserted, locked_map_entries,
    locked_map_get_index, locked_map_len, range_map_entries, range_map_get_index, range_map_len,
    LockedView,
};
use crate::vpm::package::{is_latest_stable, latest_stable, versions_valid, PackageJson};
use crate::vpm::listing::{first_occurrences, listing_order, newest_first};
use crate::vpm::project::{all_dependencies_view, unlocked_dependencies_view, DependencyEntry, UnityProject};
use crate::vpm::resolution::{manifest_wf, package_wf};

verus! {

// ---------------------------------------------------------------------------------------
// `search`: which packages a query finds.

/// Whether `q` occurs in `s`.
pub open spec fn contains_text(s: Seq<char>, q: Seq<char>) -> bool {
    exists|i: int| 0 <= i && i + q.len() <= s.len() && #[trigger] s.subrange(i, i + q.len()) == q
}

proof fn lemma_first_occurrence_contains(s: Seq<char>, q: Seq<char>)
    requires
        q.len() > 0,
    ensures
        first_occurrence(s, q) is Some <==> contains_text(s, q),
    decreases s.len(),
{
    if s.len() < q.len() {
        assert(!contains_text(s, q));
    } else if s.take(q.len() as int) == q {
        assert(s.subrange(0, 0 + q.len() as int) =~= s.take(q.len() as int));
        assert(contains_text(s, q));
    } else {
        let t = s.drop_first();
        lemma_first_occurrence_contains(t, q);
        if contains_text(s, q) {
            let i = choose|i: int| 0 <= i && i + q.len() <= s.len() && #[trigger] s.subrange(i, i + q.len()) == q;
            if i == 0 {
                assert(s.subrange(0, 0 + q.len() as int) =~= s.take(q.len() as int));
            } else {
                assert(t.subrange(i - 1, i - 1 + q.len()) =~= s.subrange(i, i + q.len()));
                assert(contains_text(t, q));
            }
        }
        if contains_text(t, q) {
            let i = choose|i: int| 0 <= i && i + q.len() <= t.len() && #[trigger] t.subrange(i, i + q.len()) == q;
            assert(s.subrange(i + 1, i + 1 + q.len()) =~= t.subrange(i, i + q.len()));
            assert(contains_text(s, q));
        }
    }
}

/// Whether `q` occurs in `s`.
fn holds_text(s: &str, q: &str) -> (r: bool)
    ensures
        r == contains_text(s@, q@),
{
    if q.is_empty() {
        assert(s@.subrange(0, 0 + q@.len() as int) =~= q@);
        assert(contains_text(s@, q@));
        return true;
    }
    proof {
        lemma_first_occurrence_contains(s@, q@);
    }
    split_once_str(s, q).is_some()
}

/// What a query is compared with: the package's name, display name and description, in lower
/// case.
pub open spec fn search_targets(p: PackageJson) -> Seq<Seq<char>> {
    seq![ascii_lowercase(p.name@)] + match p.display_name {
        Some(d) => seq![ascii_lowercase(d@)],
        None => Seq::empty(),
    } + match p.description {
        Some(d) => seq![ascii_lowercase(d@)],
        None => Seq::empty(),
    }
}

/// Whether a package is found by the queries: each of them, in lower case, occurs in one of its
/// search targets.
pub open spec fn matches_queries(p: PackageJson, queries: Seq<Seq<char>>) -> bool {
    forall|k: int| 0 <= k < queries.len() ==> found_in(search_targets(p), ascii_lowercase(#[trigger] queries[k]))
}

/// Whether `q` occurs in one of `targets`.
pub open spec fn found_in(targets: Seq<Seq<char>>, q: Seq<char>) -> bool {
    exists|t: int| 0 <= t < targets.len() && contains_text(#[trigger] targets[t], q)
}

/// The texts a query is compared with.
fn targets_of(p: &PackageJson) -> (r: Vec<String>)
    ensures
        r@.map_values(|s: String| s@) == search_targets(*p),
{
    let mut v: Vec<String> = Vec::new();
    v.push(str_to_ascii_lowercase(p.name.as_str()));
    if let Some(d) = &p.display_name {
        v.push(str_to_ascii_lowercase(d.as_str()));
    }
    if let Some(d) = &p.description {
        v.push(str_to_ascii_lowercase(d.as_str()));
    }
    assert(v@.map_values(|s: String| s@) =~= search_targets(*p));
    v
}

/// Whether `search` finds a package with the given queries.
pub fn package_matches(p: &PackageJson, queries: &[String]) -> (r: bool)
    ensures
        r == matches_queries(*p, queries@.map_values(|s: String| s@)),
{
    let ghost qs = queries@.map_values(|s: String| s@);
    let targets = targets_of(p);
    let ghost ts = search_targets(*p);
    let mut k: usize = 0;
    while k < queries.len()
        invariant
            k <= queries@.len(),
            qs == queries@.map_values(|s: String| s@),
            ts == search_targets(*p),
            targets@.map_values(|s: String| s@) == ts,
            forall|j: int| 0 <= j < k ==> found_in(ts, ascii_lowercase(#[trigger] qs[j])),
        decreases queries@.len() - k,
    {
        let q = str_to_ascii_lowercase(queries[k].as_str());
        assert(qs[k as int] == queries@[k as int]@);
        let mut t: usize = 0;
        let mut found = false;
        while t < targets.len() && !found
            invariant
                t <= targets@.len(),
                k < queries@.len(),
                qs == queries@.map_values(|s: String| s@),
                targets@.map_values(|s: String| s@) == ts,
                q@ == ascii_lowercase(qs[k as int]),
                found ==> found_in(ts, q@),
                !found ==> forall|x: int| 0 <= x < t ==> !contains_text(#[trigger] ts[x], q@),
            decreases targets@.len() - t,
        {
            assert(ts[t as int] == targets@[t as int]@);
            if holds_text(targets[t].as_str(), q.as_str()) {
                found = true;
            }
            t = t + 1;
        }
        if !found {
            assert(targets@.len() == ts.len());
            return false;
        }
        k = k + 1;
    }
    true
}

// ---------------------------------------------------------------------------------------
// `outdated`: locked packages that a newer version could replace.

/// A locked package for which a newer version was found.
#[derive(Debug)]
pub struct OutdatedPackage {
    pub name: String,
    pub installed: Version,
    pub found: Version,
}

pub open spec fn outdated_view(o: OutdatedPackage) -> (Seq<char>, (VersionView, VersionView)) {
    (o.name@, (o.installed@, o.found@))
}

pub open spec fn outdated_views(v: Seq<OutdatedPackage>) -> Seq<(Seq<char>, (VersionView, VersionView))> {
    v.map_values(|o: OutdatedPackage| outdated_view(o))
}

/// For the first `upto` locked packages, the ones for which a newer version was found: by the
/// name of the package found, the installed version and the newer one (a later one of the same
/// name taking the place of an earlier one).
pub open spec fn newer_found(
    locked: Seq<(Seq<char>, LockedView)>,
    found: Seq<Option<PackageJson>>,
    upto: int,
) -> Seq<(Seq<char>, (VersionView, VersionView))>
    decreases upto,
{
    if upto <= 0 {
        Seq::empty()
    } else {
        let prev = newer_found(locked, found, upto - 1);
        match found[upto - 1] {
            Some(p) => if version_order(locked[upto - 1].1.version, p.version@) < 0 {
                inserted(prev, p.name@, (locked[upto - 1].1.version, p.version@))
            } else {
                prev
            },
            None => prev,
        }
    }
}

/// Whether `e` is the name of the package found for some locked package, with that locked
/// package's installed version and the found version.
pub open spec fn from_found(locked: Seq<(Seq<char>, LockedView)>, found: Seq<Option<PackageJson>>, e: (Seq<char>, (VersionView, VersionView))) -> bool {
    exists|i: int| 0 <= i < locked.len() && 0 <= i < found.len() && (#[trigger] found[i]) is Some
        && e == (found[i]->0.name@, (locked[i].1.version, found[i]->0.version@))
}

/// A newer version recorded for the first `upto` locked packages is newer than the installed
/// one, and comes from what was found for one of them.
proof fn lemma_newer_found_newer(locked: Seq<(Seq<char>, LockedView)>, found: Seq<Option<PackageJson>>, upto: int)
    requires
        upto <= locked.len(),
        upto <= found.len(),
    ensures
        forall|j: int| 0 <= j < newer_found(locked, found, upto).len()
            ==> version_order((#[trigger] newer_found(locked, found, upto)[j]).1.0, newer_found(locked, found, upto)[j].1.1) < 0
                && from_found(locked, found, newer_found(locked, found, upto)[j]),
    decreases upto,
{
    if upto > 0 {
        lemma_newer_found_newer(locked, found, upto - 1);
        let prev = newer_found(locked, found, upto - 1);
        if let Some(p) = found[upto - 1] {
            if version_order(locked[upto - 1].1.version, p.version@) < 0 {
                let value = (locked[upto - 1].1.version, p.version@);
                let r = inserted(prev, p.name@, value);
                assert forall|j: int| 0 <= j < r.len() implies version_order((#[trigger] r[j]).1.0, r[j].1.1) < 0
                    && from_found(locked, found, r[j]) by {
                    let fresh = (p.name@, value);
                    match index_of_key(prev, p.name@) {
                        Some(x) => {
                            if j != x {
                                assert(r[j] == prev[j]);
                            } else {
                                assert(r[j] == fresh);
                                assert(found[upto - 1] is Some);
                            }
                        },
                        None => {
                            if j < prev.len() {
                                assert(r[j] == prev[j]);
                            } else {
                                assert(r[j] == fresh);
                                assert(found[upto - 1] is Some);
                            }
                        },
                    }
                }
            }
        }
    }
}

/// Every package listed as outdated was found at a version strictly newer than the installed
/// one: a found version that is the same or older (such as a stable release below an installed
/// prerelease) is never listed. Each entry is what was found for one locked package, with that
/// package's installed version.
pub proof fn lemma_outdated_are_newer(project: UnityProject, found: Seq<Option<PackageJson>>)
    requires
        found.len() == locked_map_entries(project.manifest.locked).len(),
    ensures
        forall|k: int| 0 <= k < outdated_list(project, found).len()
            ==> version_order((#[trigger] outdated_list(project, found)[k]).1.0, outdated_list(project, found)[k].1.1) < 0
                && from_found(locked_map_entries(project.manifest.locked), found, outdated_list(project, found)[k]),
{
    let locked = locked_map_entries(project.manifest.locked);
    let all = newer_found(locked, found, locked.len() as int);
    let keep = still_allowed(all_dependencies_view(project));
    lemma_newer_found_newer(locked, found, locked.len() as int);
    assert forall|k: int| 0 <= k < outdated_list(project, found).len()
        implies version_order((#[trigger] outdated_list(project, found)[k]).1.0, outdated_list(project, found)[k].1.1) < 0
            && from_found(locked, found, outdated_list(project, found)[k]) by {
        let e = all.filter(keep)[k];
        all.lemma_filter_contains_rev(keep, e);
        assert(all.filter(keep).contains(e));
        let j = choose|j: int| 0 <= j < all.len() && all[j] == e;
        assert(version_order(all[j].1.0, all[j].1.1) < 0 && from_found(locked, found, all[j]));
    }
}

/// Whether every range that one package's dependencies give for `name` allows `v`.
pub open spec fn entry_allows(deps: Seq<(Seq<char>, Seq<Seq<ComparatorView>>)>, name: Seq<char>, v: VersionView) -> bool {
    forall|j: int| 0 <= j < deps.len() && (#[trigger] deps[j]).0 == name ==> spec_range_matches(deps[j].1, v, false)
}

/// Whether every range that the project's packages give for `name` allows `v`.
pub open spec fn allowed_by_all(deps: Seq<DependencyEntry>, name: Seq<char>, v: VersionView) -> bool {
    forall|i: int| 0 <= i < deps.len() ==> entry_allows((#[trigger] deps[i]).1, name, v)
}

/// The outdated packages of a project, given for each locked package (in order) the newest
/// stable version found of it: those whose found version is newer than the installed one and
/// allowed by every range the project's packages give for it.
pub open spec fn outdated_list(project: UnityProject, found: Seq<Option<PackageJson>>) -> Seq<(Seq<char>, (VersionView, VersionView))> {
    let locked = locked_map_entries(project.manifest.locked);
    let deps = all_dependencies_view(project);
    newer_found(locked, found, locked.len() as int).filter(still_allowed(deps))
}

/// Whether the found version of an outdated package is allowed by every range of `deps`.
pub open spec fn still_allowed(deps: Seq<DependencyEntry>) -> spec_fn((Seq<char>, (VersionView, VersionView))) -> bool {
    |e: (Seq<char>, (VersionView, VersionView))| allowed_by_all(deps, e.0, e.1.1)
}

/// Every range of the project is well formed, every version valid.
pub open spec fn project_wf(project: UnityProject) -> bool {
    &&& manifest_wf(project.manifest)
    &&& forall|u: int| 0 <= u < project.unlocked_packages@.len()
        ==> match (#[trigger] project.unlocked_packages@[u]).1 {
            Some(p) => package_wf(p),
            None => true,
        }
}

proof fn lemma_newer_found_distinct(locked: Seq<(Seq<char>, LockedView)>, found: Seq<Option<PackageJson>>, upto: int)
    ensures
        keys_distinct(newer_found(locked, found, upto)),
    decreases upto,
{
    if upto > 0 {
        lemma_newer_found_distinct(locked, found, upto - 1);
        let prev = newer_found(locked, found, upto - 1);
        if let Some(p) = found[upto - 1] {
            lemma_inserted(prev, p.name@, (locked[upto - 1].1.version, p.version@));
        }
    }
}

proof fn lemma_newer_found_valid(locked: Seq<(Seq<char>, LockedView)>, found: Seq<Option<PackageJson>>, upto: int)
    requires
        upto <= found.len(),
        forall|i: int| 0 <= i < found.len() ==> match #[trigger] found[i] {
            Some(p) => prerelease_text_valid(p.version@.pre),
            None => true,
        },
    ensures
        forall|j: int| 0 <= j < newer_found(locked, found, upto).len()
            ==> prerelease_text_valid((#[trigger] newer_found(locked, found, upto)[j]).1.1.pre),
    decreases upto,
{
    if upto > 0 {
        lemma_newer_found_valid(locked, found, upto - 1);
        lemma_newer_found_distinct(locked, found, upto - 1);
        let prev = newer_found(locked, found, upto - 1);
        if let Some(p) = found[upto - 1] {
            assert(prerelease_text_valid(p.version@.pre));
            if version_order(locked[upto - 1].1.version, p.version@) < 0 {
                let r = inserted(prev, p.name@, (locked[upto - 1].1.version, p.version@));
                assert forall|j: int| 0 <= j < r.len() implies prerelease_text_valid((#[trigger] r[j]).1.1.pre) by {
                    match index_of_key(prev, p.name@) {
                        Some(x) => {
                            if j != x {
                                assert(r[j] == prev[j]);
                            }
                        },
                        None => {
                            if j < prev.len() {
                                assert(r[j] == prev[j]);
                            }
                        },
                    }
                }
            }
        }
    }
}

fn insert_outdated(v: &mut Vec<OutdatedPackage>, item: OutdatedPackage)
    requires
        keys_distinct(outdated_views(old(v)@)),
    ensures
        outdated_views(final(v)@) == inserted(outdated_views(old(v)@), item.name@, (item.installed@, item.found@)),
{
    let ghost s = outdated_views(v@);
    proof {
        lemma_index_of_key(s, item.name@);
    }
    let mut i: usize = 0;
    while i < v.len()
        invariant
            i <= v@.len(),
            s == outdated_views(v@),
            s == outdated_views(old(v)@),
            keys_distinct(s),
            forall|j: int| 0 <= j < i ==> (#[trigger] s[j]).0 != item.name@,
        decreases v@.len() - i,
    {
        if str_eq(v[i].name.as_str(), item.name.as_str()) {
            assert(s[i as int].0 == item.name@);
            assert(index_of_key(s, item.name@) == Some(i as int));
            let ghost iv = outdated_view(item);
            v.set(i, item);
            assert(outdated_views(v@) =~= s.update(i as int, iv));
            return;
        }
        i = i + 1;
    }
    assert(index_of_key(s, item.name@) is None);
    let ghost iv = outdated_view(item);
    v.push(item);
    assert(outdated_views(v@) =~= s.push(iv));
}

/// Whether every range that a dependency map gives for `name` allows `v`.
fn map_allows(m: &IndexMap<String, VersionRange>, name: &str, v: &Version) -> (r: bool)
    requires
        forall|j: int| 0 <= j < range_map_entries(*m).len() ==> range_wf((#[trigger] range_map_entries(*m)[j]).1),
        prerelease_text_valid(v@.pre),
    ensures
        r == entry_allows(range_map_entries(*m), name@, v@),
{
    let ghost e = range_map_entries(*m);
    let n = range_map_len(m);
    let mut j: usize = 0;
    while j < n
        invariant
            j <= n,
            n == e.len(),
            e == range_map_entries(*m),
            forall|x: int| 0 <= x < e.len() ==> range_wf((#[trigger] e[x]).1),
            prerelease_text_valid(v@.pre),
            forall|x: int| 0 <= x < j && (#[trigger] e[x]).0 == name@ ==> spec_range_matches(e[x].1, v@, false),
        decreases n - j,
    {
        let (key, range) = range_map_get_index(m, j);
        if str_eq(key.as_str(), name) && !range.matches(v) {
            assert(e[j as int].0 == name@);
            return false;
        }
        j = j + 1;
    }
    true
}

/// Whether every range that the project's packages give for `name` allows `v`.
fn allowed_by_project(project: &UnityProject, name: &str, v: &Version) -> (r: bool)
    requires
        project_wf(*project),
        prerelease_text_valid(v@.pre),
    ensures
        r == allowed_by_all(all_dependencies_view(*project), name@, v@),
{
    let ghost locked = locked_map_entries(project.manifest.locked);
    let ghost locked_part = locked.map_values(|e: (Seq<char>, LockedView)| (e.0, e.1.dependencies));
    let ghost deps = all_dependencies_view(*project);
    assert(deps == locked_part + unlocked_dependencies_view(project.unlocked_packages@));
    let count = locked_map_len(&project.manifest.locked);
    let mut k: usize = 0;
    while k < count
        invariant
            k <= count,
            count == locked.len(),
            locked == locked_map_entries(project.manifest.locked),
            locked_part == locked.map_values(|e: (Seq<char>, LockedView)| (e.0, e.1.dependencies)),
            deps == locked_part + unlocked_dependencies_view(project.unlocked_packages@),
            deps == all_dependencies_view(*project),
            manifest_wf(project.manifest),
            prerelease_text_valid(v@.pre),
            forall|i: int| 0 <= i < k ==> entry_allows((#[trigger] locked_part[i]).1, name@, v@),
        decreases count - k,
    {
        let (_, dep) = locked_map_get_index(&project.manifest.locked, k);
        assert(locked_part[k as int].1 == range_map_entries(dep.dependencies));
        if !map_allows(&dep.dependencies, name, v) {
            assert(deps[k as int] == locked_part[k as int]);
            return false;
        }
        k = k + 1;
    }
    let ghost unlocked_all = project.unlocked_packages@;
    let mut u: usize = 0;
    assert(unlocked_all.take(0) =~= Seq::<(String, Option<PackageJson>)>::empty());
    while u < project.unlocked_packages.len()
        invariant
            u <= unlocked_all.len(),
            unlocked_all == project.unlocked_packages@,
            deps == locked_part + unlocked_dependencies_view(unlocked_all),
            deps == all_dependencies_view(*project),
            project_wf(*project),
            prerelease_text_valid(v@.pre),
            forall|i: int| 0 <= i < locked_part.len() ==> entry_allows((#[trigger] locked_part[i]).1, name@, v@),
            forall|i: int| 0 <= i < unlocked_dependencies_view(unlocked_all.take(u as int)).len()
                ==> entry_allows((#[trigger] unlocked_dependencies_view(unlocked_all.take(u as int))[i]).1, name@, v@),
        decreases unlocked_all.len() - u,
    {
        let ghost prev = unlocked_dependencies_view(unlocked_all.take(u as int));
        proof {
            assert(unlocked_all.take(u + 1).drop_last() =~= unlocked_all.take(u as int));
        }
        match &project.unlocked_packages[u].1 {
            Some(package) => {
                let ghost next = unlocked_dependencies_view(unlocked_all.take(u + 1));
                assert(next == prev.push((package.name@, range_map_entries(package.vpm_dependencies))));
                assert(package_wf(*package));
                if !map_allows(&package.vpm_dependencies, name, v) {
                    proof {
                        lemma_unlocked_view_prefix(unlocked_all, u + 1);
                        assert(deps[locked_part.len() + prev.len() as int] == next[prev.len() as int]);
                    }
                    return false;
                }
            },
            None => {
                assert(unlocked_dependencies_view(unlocked_all.take(u + 1)) == prev);
            },
        }
        u = u + 1;
    }
    assert(unlocked_all.take(u as int) =~= unlocked_all);
    assert forall|i: int| 0 <= i < deps.len() implies entry_allows((#[trigger] deps[i]).1, name@, v@) by {
        if i >= locked_part.len() {
            assert(deps[i] == unlocked_dependencies_view(unlocked_all)[i - locked_part.len()]);
        } else {
            assert(deps[i] == locked_part[i]);
        }
    }
    true
}

/// The dependency lists of the first `k` unlocked packages come first in those of all of them.
proof fn lemma_unlocked_view_prefix(unlocked: Seq<(String, Option<PackageJson>)>, k: int)
    requires
        0 <= k <= unlocked.len(),
    ensures
        unlocked_dependencies_view(unlocked).len() >= unlocked_dependencies_view(unlocked.take(k)).len(),
        forall|i: int| 0 <= i < unlocked_dependencies_view(unlocked.take(k)).len()
            ==> unlocked_dependencies_view(unlocked)[i] == #[trigger] unlocked_dependencies_view(unlocked.take(k))[i],
    decreases unlocked.len() - k,
{
    if k < unlocked.len() {
        lemma_unlocked_view_prefix(unlocked, k + 1);
        let a = unlocked.take(k);
        let b = unlocked.take(k + 1);
        assert(b.drop_last() =~= a);
        let va = unlocked_dependencies_view(a);
        let vb = unlocked_dependencies_view(b);
        assert(vb == match b.last().1 {
            Some(p) => va.push((p.name@, range_map_entries(p.vpm_dependencies))),
            None => va,
        });
        assert forall|i: int| 0 <= i < va.len() implies unlocked_dependencies_view(unlocked)[i] == #[trigger] va[i] by {
            assert(vb[i] == va[i]);
        }
    } else {
        assert(unlocked.take(k) =~= unlocked);
    }
}

/// The outdated packages of a project, given for each locked package (in the order of the
/// manifest) the newest stable version found of it, if one was.
pub fn outdated_packages(project: &UnityProject, found: &[Option<PackageJson>]) -> (r: Vec<OutdatedPackage>)
    requires
        project_wf(*project),
        found@.len() == locked_map_entries(project.manifest.locked).len(),
        forall|i: int| 0 <= i < found@.len() ==> match #[trigger] found@[i] {
            Some(p) => prerelease_text_valid(p.version@.pre),
            None => true,
        },
    ensures
        outdated_views(r@) == outdated_list(*project, found@),
{
    let ghost locked = locked_map_entries(project.manifest.locked);
    let count = locked_map_len(&project.manifest.locked);
    let mut newer: Vec<OutdatedPackage> = Vec::new();
    let mut i: usize = 0;
    assert(outdated_views(newer@) =~= Seq::<(Seq<char>, (VersionView, VersionView))>::empty());
    while i < count
        invariant
            i <= count,
            count == locked.len(),
            found@.len() == count,
            locked == locked_map_entries(project.manifest.locked),
            manifest_wf(project.manifest),
            forall|j: int| 0 <= j < found@.len() ==> match #[trigger] found@[j] {
                Some(p) => prerelease_text_valid(p.version@.pre),
                None => true,
            },
            outdated_views(newer@) == newer_found(locked, found@, i as int),
        decreases count - i,
    {
        proof {
            lemma_newer_found_distinct(locked, found@, i as int);
        }
        let (_, dep) = locked_map_get_index(&project.manifest.locked, i);
        if let Some(p) = &found[i] {
            assert(prerelease_text_valid(dep.version@.pre));
            if version_lt(&dep.version, &p.version) {
                let item = OutdatedPackage {
                    name: p.name.clone(),
                    installed: dep.version.clone(),
                    found: p.version.clone(),
                };
                insert_outdated(&mut newer, item);
            }
        }
        i = i + 1;
    }
    proof {
        lemma_newer_found_valid(locked, found@, count as int);
    }
    let ghost deps = all_dependencies_view(*project);
    let ghost all = outdated_views(newer@);
    let mut out: Vec<OutdatedPackage> = Vec::new();
    let mut k: usize = 0;
    assert(all.take(0).filter(still_allowed(deps)) =~= Seq::empty());
    while k < newer.len()
        invariant
            k <= newer@.len(),
            all == outdated_views(newer@),
            deps == all_dependencies_view(*project),
            project_wf(*project),
            forall|j: int| 0 <= j < all.len() ==> prerelease_text_valid((#[trigger] all[j]).1.1.pre),
            outdated_views(out@) == all.take(k as int).filter(still_allowed(deps)),
        decreases newer@.len() - k,
    {
        let e = &newer[k];
        assert(all[k as int] == outdated_view(*e));
        let keep = allowed_by_project(project, e.name.as_str(), &e.found);
        proof {
            let f = still_allowed(deps);
            reveal(Seq::filter);
            assert(all.take(k + 1).drop_last() =~= all.take(k as int));
            assert(all.take(k + 1).last() == all[k as int]);
            assert(all.take(k + 1).filter(f) == if f(all[k as int]) {
                all.take(k as int).filter(f).push(all[k as int])
            } else {
                all.take(k as int).filter(f)
            });
        }
        if keep {
            let item = OutdatedPackage { name: e.name.clone(), installed: e.installed.clone(), found: e.found.clone() };
            let ghost iv = outdated_view(item);
            out.push(item);
            assert(outdated_views(out@) =~= outdated_views(out@.drop_last()).push(iv));
        }
        k = k + 1;
    }
    assert(all.take(k as int) =~= all);
    out
}

// ---------------------------------------------------------------------------------------
// `install` and `upgrade`: what is shown before the project changes.

/// What installing asks of the user.
#[derive(Clone, Copy, Debug, PartialEq, Eq, Structural)]
pub enum InstallPrompt {
    /// The request changes nothing: the command stops.
    NothingToDo,
    /// Go on without asking.
    Proceed,
    /// Ask whether to go on.
    Confirm,
    /// Confirmation would be asked, but `--yes` was given.
    ConfirmSkipped,
}

/// What installing asks of the user: nothing to do when nothing is locked and no dependency
/// added; a confirmation when more than one package is installed or legacy assets are removed,
/// skipped with `--yes`; else nothing.
pub open spec fn install_prompt_for(locked: nat, dependencies: nat, legacy_assets: nat, yes: bool) -> InstallPrompt {
    if locked == 0 && dependencies == 0 {
        InstallPrompt::NothingToDo
    } else if locked > 1 || legacy_assets > 0 {
        if yes {
            InstallPrompt::ConfirmSkipped
        } else {
            InstallPrompt::Confirm
        }
    } else {
        InstallPrompt::Proceed
    }
}

/// What installing asks of the user, given how many packages the request locks, how many
/// dependencies it adds, how many legacy assets it removes, and whether `--yes` was given.
pub fn install_prompt(locked: usize, dependencies: usize, legacy_assets: usize, yes: bool) -> (r: InstallPrompt)
    ensures
        r == install_prompt_for(locked as nat, dependencies as nat, legacy_assets as nat, yes),
{
    if locked == 0 && dependencies == 0 {
        return InstallPrompt::NothingToDo;
    }
    let mut prompt = false;
    if locked != 0 {
        prompt = prompt || locked > 1;
    }
    if legacy_assets != 0 {
        prompt = true;
    }
    if prompt {
        if yes {
            InstallPrompt::ConfirmSkipped
        } else {
            InstallPrompt::Confirm
        }
    } else {
        InstallPrompt::Proceed
    }
}

/// The line that lists a package being installed: `- {name} version {version}`.
pub open spec fn installing_line(p: PackageJson) -> Seq<char> {
    "- "@ + p.name@ + " version "@ + version_text(p.version@)
}

/// The lines that list the packages being installed.
pub fn installing_lines(packages: &[PackageJson]) -> (r: Vec<String>)
    ensures
        r@.map_values(|l: String| l@) == packages@.map_values(|p: PackageJson| installing_line(p)),
{
    let mut out: Vec<String> = Vec::new();
    let mut i: usize = 0;
    while i < packages.len()
        invariant
            i <= packages@.len(),
            out@.map_values(|l: String| l@) == packages@.take(i as int).map_values(|p: PackageJson| installing_line(p)),
        decreases packages@.len() - i,
    {
        let p = &packages[i];
        let mut line = String::new();
        string_push_str(&mut line, "- ");
        string_push_str(&mut line, p.name.as_str());
        string_push_str(&mut line, " version ");
        let v = p.version.to_string();
        string_push_str(&mut line, v.as_str());
        proof {
            reveal_strlit("- ");
            reveal_strlit(" version ");
            assert(line@ =~= installing_line(*p));
        }
        let ghost prev = out@;
        let ghost lv = line@;
        out.push(line);
        proof {
            assert(packages@.take(i + 1) =~= packages@.take(i as int).push(*p));
            assert(out@.map_values(|l: String| l@) =~= prev.map_values(|l: String| l@).push(lv));
            assert(packages@.take(i + 1).map_values(|p: PackageJson| installing_line(p))
                =~= packages@.take(i as int).map_values(|p: PackageJson| installing_line(p)).push(installing_line(*p)));
        }
        i = i + 1;
    }
    assert(packages@.take(packages@.len() as int) =~= packages@);
    out
}

// ---------------------------------------------------------------------------------------
// `--json-format`.

/// How `outdated` prints its list.
#[derive(Clone, Copy, Debug, PartialEq, Eq, Structural)]
pub enum OutdatedOutput {
    /// One line per package.
    Text,
    /// JSON, version 1.
    Json,
}

/// How `outdated` prints for a `--json-format` value: as text without one (or with 0), as JSON
/// for 1; any other version is refused and given back.
pub fn outdated_output(json_format: Option<u32>) -> (r: Result<OutdatedOutput, u32>)
    ensures
        match json_format {
            None => r == Ok::<OutdatedOutput, u32>(OutdatedOutput::Text),
            Some(v) => r == if v == 0 {
                Ok::<OutdatedOutput, u32>(OutdatedOutput::Text)
            } else if v == 1 {
                Ok(OutdatedOutput::Json)
            } else {
                Err(v)
            },
        },
{
    let v = match json_format {
        Some(v) => v,
        None => 0,
    };
    if v == 0 {
        Ok(OutdatedOutput::Text)
    } else if v == 1 {
        Ok(OutdatedOutput::Json)
    } else {
        Err(v)
    }
}

/// The JSON version `info` prints for a `--json-format` value, and whether to warn that none was
/// given: without one (or with 0) the latest, 1, with a warning; 1 as asked; any other version is
/// refused and given back.
pub fn info_json_version(json_format: Option<u32>) -> (r: Result<(u32, bool), u32>)
    ensures
        match json_format {
            None => r == Ok::<(u32, bool), u32>((1, true)),
            Some(v) => r == if v == 0 {
                Ok::<(u32, bool), u32>((1, true))
            } else if v == 1 {
                Ok((1, false))
            } else {
                Err(v)
            },
        },
{
    let v = match json_format {
        Some(v) => v,
        None => 0,
    };
    if v == 0 {
        Ok((1, true))
    } else if v == 1 {
        Ok((1, false))
    } else {
        Err(v)
    }
}

/// The newest stable version among a package's versions (the last of equally new ones), if
/// any is stable.
pub open spec fn newest_stable(vs: Seq<PackageJson>) -> Option<PackageJson> {
    if exists|i: int| is_latest_stable(vs, i) {
        Some(vs[choose|i: int| is_latest_stable(vs, i)])
    } else {
        None
    }
}

/// What a search finds in the repositories: for each package, in order, its newest stable
/// version where the queries find it.
pub open spec fn repository_hits(repos: Seq<Seq<PackageJson>>, queries: Seq<Seq<char>>) -> Seq<PackageJson>
    decreases repos.len(),
{
    if repos.len() == 0 {
        Seq::empty()
    } else {
        let prev = repository_hits(repos.drop_last(), queries);
        match newest_stable(repos.last()) {
            Some(p) => if matches_queries(p, queries) {
                prev.push(p)
            } else {
                prev
            },
            None => prev,
        }
    }
}

/// What a search finds in the package folders: the prerelease packages the queries find.
pub open spec fn folder_hits(user: Seq<PackageJson>, queries: Seq<Seq<char>>) -> Seq<PackageJson> {
    user.filter(|p: PackageJson| p.version@.pre.len() > 0 && matches_queries(p, queries))
}

/// The versions of each package, as sequences.
pub open spec fn lists_view(v: Seq<Vec<PackageJson>>) -> Seq<Seq<PackageJson>> {
    v.map_values(|x: Vec<PackageJson>| x@)
}

/// Only one position holds the newest stable version.
proof fn lemma_latest_stable_unique(vs: Seq<PackageJson>, i: int, j: int)
    requires
        is_latest_stable(vs, i),
        is_latest_stable(vs, j),
    ensures
        i == j,
{
    lemma_version_order_antisymmetric(vs[j].version@, vs[i].version@);
    if i < j {
        assert(vs[j].version@.pre.len() == 0);
        assert(vs[i].version@.pre.len() == 0);
    } else if j < i {
        assert(vs[i].version@.pre.len() == 0);
        assert(vs[j].version@.pre.len() == 0);
    }
}

/// `search`: the newest stable version of every package of the repositories and the prerelease
/// packages of the package folders that the queries find, newest first, each name and version
/// once.
pub fn search_packages(repos: Vec<Vec<PackageJson>>, user_packages: Vec<PackageJson>, queries: &[String]) -> (r: Vec<PackageJson>)
    requires
        forall|i: int| 0 <= i < repos@.len() ==> versions_valid((#[trigger] repos@[i])@),
        versions_valid(user_packages@),
    ensures
        r@ == newest_first(first_occurrences(
            repository_hits(lists_view(repos@), queries@.map_values(|s: String| s@))
                + folder_hits(user_packages@, queries@.map_values(|s: String| s@)),
        )),
{
    let ghost qs = queries@.map_values(|s: String| s@);
    let ghost all = lists_view(repos@);
    let ghost user = user_packages@;
    let mut list: Vec<PackageJson> = Vec::new();
    let mut rest = repos;
    let total = rest.len();
    let mut i: usize = 0;
    proof {
        assert(all.take(0) =~= Seq::<Seq<PackageJson>>::empty());
    }
    while rest.len() > 0
        invariant
            i <= all.len(),
            lists_view(rest@) == all.skip(i as int),
            all.len() == i + rest@.len(),
            all.len() == total,
            forall|k: int| 0 <= k < all.len() ==> versions_valid(#[trigger] all[k]),
            list@ == repository_hits(all.take(i as int), qs),
            qs == queries@.map_values(|s: String| s@),
            versions_valid(list@),
        decreases rest@.len(),
    {
        let ghost before = rest@;
        let mut versions = rest.remove(0);
        proof {
            assert(versions@ == before[0]@);
            assert(all.skip(i as int)[0] == all[i as int]);
            assert(lists_view(rest@) =~= all.skip(i + 1)) by {
                assert forall|k: int| 0 <= k < rest@.len() implies #[trigger] lists_view(rest@)[k] == all.skip(i + 1)[k] by {
                    assert(rest@[k] == before[k + 1]);
                    assert(all.skip(i as int)[k + 1] == all.skip(i + 1)[k]);
                }
            }
            assert(all.take(i + 1).drop_last() =~= all.take(i as int));
            assert(all.take(i + 1).last() == versions@);
            assert(versions_valid(versions@));
        }
        let ghost prev = list@;
        match latest_stable(&versions) {
            Some(j) => {
                proof {
                    assert(is_latest_stable(versions@, j as int));
                    let c = choose|c: int| is_latest_stable(versions@, c);
                    lemma_latest_stable_unique(versions@, c, j as int);
                    assert(newest_stable(versions@) == Some(versions@[j as int]));
                }
                let latest = versions.swap_remove(j);
                if package_matches(&latest, queries) {
                    list.push(latest);
                    proof {
                        assert forall|k: int| 0 <= k < list@.len() implies crate::version::semver_text::prerelease_text_valid(
                            (#[trigger] list@[k]).version@.pre) by {
                            if k < prev.len() {
                                assert(list@[k] == prev[k]);
                            }
                        }
                    }
                }
            },
            None => {
                proof {
                    if exists|c: int| is_latest_stable(versions@, c) {
                        let c = choose|c: int| is_latest_stable(versions@, c);
                        assert(versions@[c].version@.pre.len() == 0);
                    }
                }
            },
        }
        i = i + 1;
    }
    proof {
        assert(all.take(i as int) =~= all);
    }
    let ghost repo_part = list@;
    let ghost keep = |p: PackageJson| p.version@.pre.len() > 0 && matches_queries(p, qs);
    let mut others = user_packages;
    let user_total = others.len();
    let mut u: usize = 0;
    proof {
        reveal(Seq::filter);
        assert(user.take(0) =~= Seq::<PackageJson>::empty());
        assert(repo_part + user.take(0).filter(keep) =~= repo_part);
    }
    while others.len() > 0
        invariant
            u <= user.len(),
            others@ == user.skip(u as int),
            user.len() == u + others@.len(),
            user.len() == user_total,
            versions_valid(user),
            list@ == repo_part + user.take(u as int).filter(keep),
            versions_valid(list@),
            qs == queries@.map_values(|s: String| s@),
            keep == (|p: PackageJson| p.version@.pre.len() > 0 && matches_queries(p, qs)),
        decreases others@.len(),
    {
        let package = others.remove(0);
        proof {
            reveal(Seq::filter);
            assert(user.skip(u as int)[0] == user[u as int]);
            assert(others@ =~= user.skip(u + 1));
            assert(user.take(u + 1).drop_last() =~= user.take(u as int));
            assert(user.take(u + 1).last() == package);
        }
        let ghost prev = list@;
        if !package.version.pre.as_str().is_empty() && package_matches(&package, queries) {
            list.push(package);
            proof {
                assert(list@ =~= repo_part + user.take(u + 1).filter(keep));
                assert forall|k: int| 0 <= k < list@.len() implies crate::version::semver_text::prerelease_text_valid(
                    (#[trigger] list@[k]).version@.pre) by {
                    if k < prev.len() {
                        assert(list@[k] == prev[k]);
                    } else {
                        assert(list@[k] == user[u as int]);
                    }
                }
            }
        } else {
            proof {
                assert(list@ =~= repo_part + user.take(u + 1).filter(keep));
            }
        }
        u = u + 1;
    }
    proof {
        assert(user.take(u as int) =~= user);
    }
    listing_order(list)
}

} // verus!
