use vstd::prelude::*;
use std::collections::HashMap;
use indexmap::IndexMap;
use crate::version::ordering::{version_ge, version_gt, version_identical, version_order};
use crate::version::range::{VersionRange, range_wf, spec_range_matches};
use crate::version::comparator::{names_prerelease_of, ComparatorView};
use crate::version::semver_text::prerelease_text_valid;
use crate::version::version::{Version, VersionView};

verus! {

/// `indexmap::IndexMap`, carried through the library as it is.
#[verifier::external_type_specification]
#[verifier::external_body]
#[verifier::reject_recursive_types(K)]
#[verifier::reject_recursive_types(V)]
#[verifier::reject_recursive_types(S)]
pub struct ExIndexMap<K, V, S>(IndexMap<K, V, S>);

/// A dependency listed in a project's manifest: the least version wanted.
#[derive(Debug)]
pub struct VpmDependency {
    pub version: Version,
}

impl VpmDependency {
    pub fn new(version: Version) -> (r: VpmDependency)
        ensures
            r.version@ == version@,
    {
        VpmDependency { version }
    }
}

/// A package locked in a project's manifest: its version and the ranges it needs of other
/// packages.
#[derive(Debug)]
pub struct VpmLockedDependency {
    pub version: Version,
    pub dependencies: IndexMap<String, VersionRange>,
}

impl VpmLockedDependency {
    pub fn new(version: Version, dependencies: IndexMap<String, VersionRange>) -> (r: VpmLockedDependency)
        ensures
            r.version@ == version@,
            r.dependencies == dependencies,
    {
        VpmLockedDependency { version, dependencies }
    }
}

/// The `package.json` of one package version.
#[derive(Debug)]
pub struct PackageJson {
    pub name: String,
    pub display_name: Option<String>,
    pub description: Option<String>,
    pub version: Version,
    pub vpm_dependencies: IndexMap<String, VersionRange>,
    pub url: String,
    pub legacy_folders: HashMap<String, String>,
    pub legacy_files: HashMap<String, String>,
}

/// Which versions of a package a lookup accepts.
pub enum VersionSelector<'a> {
    /// Any stable version.
    Latest,
    /// Any version.
    LatestIncluidingPrerelease,
    /// Exactly this version (build text included).
    Specific(&'a Version),
    /// Versions in this range.
    Range(&'a VersionRange),
    /// Versions in all these ranges.
    Ranges(&'a [&'a VersionRange]),
}

/// Whether `version` matches every range of `ranges`.
fn all_ranges_match(ranges: &[&VersionRange], version: &Version) -> (r: bool)
    requires
        forall|i: int| 0 <= i < ranges@.len() ==> range_wf((#[trigger] ranges@[i])@),
        prerelease_text_valid(version@.pre),
    ensures
        r == forall|i: int| 0 <= i < ranges@.len() ==> spec_range_matches((#[trigger] ranges@[i])@, version@, false),
{
    let mut i: usize = 0;
    while i < ranges.len()
        invariant
            i <= ranges@.len(),
            forall|j: int| 0 <= j < ranges@.len() ==> range_wf((#[trigger] ranges@[j])@),
            prerelease_text_valid(version@.pre),
            forall|j: int| 0 <= j < i ==> spec_range_matches((#[trigger] ranges@[j])@, version@, false),
        decreases ranges@.len() - i,
    {
        assert(range_wf(ranges@[i as int]@));
        if !ranges[i].matches(version) {
            return false;
        }
        i = i + 1;
    }
    true
}

impl<'a> VersionSelector<'a> {
    /// Every range in the selector is well formed.
    pub open spec fn wf(&self) -> bool {
        match *self {
            VersionSelector::Range(r) => range_wf(r@),
            VersionSelector::Ranges(rs) => forall|i: int| 0 <= i < rs@.len() ==> range_wf((#[trigger] rs@[i])@),
            _ => true,
        }
    }

    /// Whether the selector accepts `v`.
    pub open spec fn accepts(&self, v: VersionView) -> bool {
        match *self {
            VersionSelector::Latest => v.pre.len() == 0,
            VersionSelector::LatestIncluidingPrerelease => true,
            VersionSelector::Specific(finding) => v == finding@,
            VersionSelector::Range(r) => spec_range_matches(r@, v, false),
            VersionSelector::Ranges(rs) => forall|i: int| 0 <= i < rs@.len() ==> spec_range_matches((#[trigger] rs@[i])@, v, false),
        }
    }

    /// Whether the selector accepts `version`.
    pub fn satisfies(&self, version: &Version) -> (r: bool)
        requires
            self.wf(),
            prerelease_text_valid(version@.pre),
        ensures
            r == self.accepts(version@),
    {
        match self {
            VersionSelector::Latest => version.pre.as_str().is_empty(),
            VersionSelector::LatestIncluidingPrerelease => true,
            VersionSelector::Specific(finding) => version_identical(version, finding),
            VersionSelector::Range(range) => range.matches(version),
            VersionSelector::Ranges(ranges) => all_ranges_match(ranges, version),
        }
    }
}

/// Every candidate's prerelease text is one that `semver` accepts.
pub open spec fn versions_valid(candidates: Seq<PackageJson>) -> bool {
    forall|i: int| 0 <= i < candidates.len() ==> prerelease_text_valid((#[trigger] candidates[i]).version@.pre)
}

/// `i` is the candidate a lookup picks: accepted, at least as new as every accepted one, and
/// strictly newer than every accepted one before it.
pub open spec fn is_pick(candidates: Seq<PackageJson>, accepts: spec_fn(VersionView) -> bool, i: int) -> bool {
    &&& 0 <= i < candidates.len()
    &&& accepts(candidates[i].version@)
    &&& forall|j: int| 0 <= j < candidates.len() && accepts(#[trigger] candidates[j].version@)
        ==> version_order(candidates[j].version@, candidates[i].version@) <= 0
    &&& forall|j: int| 0 <= j < i && accepts(#[trigger] candidates[j].version@)
        ==> version_order(candidates[j].version@, candidates[i].version@) < 0
}

/// The package a lookup finds among the versions of one package: the newest one the selector
/// accepts, the first of equally new ones; `None` when it accepts none.
pub fn pick_package(candidates: &Vec<PackageJson>, selector: &VersionSelector) -> (r: Option<usize>)
    requires
        selector.wf(),
        versions_valid(candidates@),
    ensures
        match r {
            Some(i) => is_pick(candidates@, |v: VersionView| selector.accepts(v), i as int),
            None => forall|j: int| 0 <= j < candidates@.len() ==> !selector.accepts(#[trigger] candidates@[j].version@),
        },
{
    let ghost accepts = |v: VersionView| selector.accepts(v);
    let mut best: Option<usize> = None;
    let mut i: usize = 0;
    while i < candidates.len()
        invariant
            i <= candidates@.len(),
            selector.wf(),
            versions_valid(candidates@),
            accepts == (|v: VersionView| selector.accepts(v)),
            match best {
                Some(b) => {
                    &&& b < i
                    &&& accepts(candidates@[b as int].version@)
                    &&& forall|j: int| 0 <= j < i && accepts(#[trigger] candidates@[j].version@)
                        ==> version_order(candidates@[j].version@, candidates@[b as int].version@) <= 0
                    &&& forall|j: int| 0 <= j < b && accepts(#[trigger] candidates@[j].version@)
                        ==> version_order(candidates@[j].version@, candidates@[b as int].version@) < 0
                },
                None => forall|j: int| 0 <= j < i ==> !accepts(#[trigger] candidates@[j].version@),
            },
        decreases candidates@.len() - i,
    {
        let candidate = &candidates[i];
        assert(prerelease_text_valid(candidates@[i as int].version@.pre));
        if selector.satisfies(&candidate.version) {
            match best {
                None => {
                    best = Some(i);
                },
                Some(b) => {
                    assert(prerelease_text_valid(candidates@[b as int].version@.pre));
                    if version_gt(&candidate.version, &candidates[b].version) {
                        proof {
                            let ghost ci = candidates@[i as int].version@;
                            let cb = candidates@[b as int].version@;
                            assert forall|j: int| 0 <= j < i + 1 && accepts(#[trigger] candidates@[j].version@)
                                implies version_order(candidates@[j].version@, ci) <= 0 by {
                                let cj = candidates@[j].version@;
                                crate::version::ordering::lemma_version_order_antisymmetric(cb, ci);
                                if j < i {
                                    crate::version::ordering::lemma_version_order_transitive(cj, cb, ci);
                                } else {
                                    crate::version::ordering::lemma_version_order_antisymmetric(cj, ci);
                                }
                            }
                            assert forall|j: int| 0 <= j < i && accepts(#[trigger] candidates@[j].version@)
                                implies version_order(candidates@[j].version@, ci) < 0 by {
                                let cj = candidates@[j].version@;
                                crate::version::ordering::lemma_version_order_antisymmetric(cb, ci);
                                crate::version::ordering::lemma_version_order_transitive(cj, cb, ci);
                            }
                        }
                        best = Some(i);
                    } else {
                        proof {
                            let ghost ci = candidates@[i as int].version@;
                            let cb = candidates@[b as int].version@;
                            crate::version::ordering::lemma_version_order_antisymmetric(ci, cb);
                        }
                    }
                },
            }
        }
        i = i + 1;
    }
    best
}

/// `Environment::find_package_by_name` once the versions of the package are listed: the
/// newest version the selector accepts, the first of equally new ones.
pub fn select_package(candidates: Vec<PackageJson>, selector: &VersionSelector) -> (r: Option<PackageJson>)
    requires
        selector.wf(),
        versions_valid(candidates@),
    ensures
        match r {
            Some(p) => exists|i: int| is_pick(candidates@, |v: VersionView| selector.accepts(v), i)
                && p == candidates@[i],
            None => forall|j: int| 0 <= j < candidates@.len() ==> !selector.accepts(#[trigger] candidates@[j].version@),
        },
{
    match pick_package(&candidates, selector) {
        Some(i) => {
            let ghost all = candidates@;
            let mut candidates = candidates;
            let p = candidates.remove(i);
            assert(is_pick(all, |v: VersionView| selector.accepts(v), i as int));
            Some(p)
        },
        None => None,
    }
}

/// `i` is the newest stable version among `candidates`, the last of equally new ones.
pub open spec fn is_latest_stable(candidates: Seq<PackageJson>, i: int) -> bool {
    &&& 0 <= i < candidates.len()
    &&& candidates[i].version@.pre.len() == 0
    &&& forall|j: int| 0 <= j < candidates.len() && (#[trigger] candidates[j].version@).pre.len() == 0
        ==> version_order(candidates[j].version@, candidates[i].version@) <= 0
    &&& forall|j: int| i < j < candidates.len() && (#[trigger] candidates[j].version@).pre.len() == 0
        ==> version_order(candidates[j].version@, candidates[i].version@) < 0
}

/// The newest stable version among the versions of a package listed by a repository, the last
/// of equally new ones; `None` when all are prereleases.
pub fn latest_stable(candidates: &Vec<PackageJson>) -> (r: Option<usize>)
    requires
        versions_valid(candidates@),
    ensures
        match r {
            Some(i) => is_latest_stable(candidates@, i as int),
            None => forall|j: int| 0 <= j < candidates@.len() ==> (#[trigger] candidates@[j].version@).pre.len() != 0,
        },
{
    let mut best: Option<usize> = None;
    let mut i: usize = 0;
    while i < candidates.len()
        invariant
            i <= candidates@.len(),
            versions_valid(candidates@),
            match best {
                Some(b) => {
                    &&& b < i
                    &&& candidates@[b as int].version@.pre.len() == 0
                    &&& forall|j: int| 0 <= j < i && (#[trigger] candidates@[j].version@).pre.len() == 0
                        ==> version_order(candidates@[j].version@, candidates@[b as int].version@) <= 0
                    &&& forall|j: int| b < j < i && (#[trigger] candidates@[j].version@).pre.len() == 0
                        ==> version_order(candidates@[j].version@, candidates@[b as int].version@) < 0
                },
                None => forall|j: int| 0 <= j < i ==> (#[trigger] candidates@[j].version@).pre.len() != 0,
            },
        decreases candidates@.len() - i,
    {
        let candidate = &candidates[i];
        assert(prerelease_text_valid(candidates@[i as int].version@.pre));
        if candidate.version.pre.as_str().is_empty() {
            match best {
                None => {
                    best = Some(i);
                },
                Some(b) => {
                    assert(prerelease_text_valid(candidates@[b as int].version@.pre));
                    if version_ge(&candidate.version, &candidates[b].version) {
                        proof {
                            let ghost ci = candidates@[i as int].version@;
                            let cb = candidates@[b as int].version@;
                            assert forall|j: int| 0 <= j < i + 1 && (#[trigger] candidates@[j].version@).pre.len() == 0
                                implies version_order(candidates@[j].version@, ci) <= 0 by {
                                let cj = candidates@[j].version@;
                                crate::version::ordering::lemma_version_order_antisymmetric(cb, ci);
                                if j < i {
                                    crate::version::ordering::lemma_version_order_transitive(cj, cb, ci);
                                } else {
                                    crate::version::ordering::lemma_version_order_antisymmetric(cj, ci);
                                }
                            }
                        }
                        best = Some(i);
                    } else {
                        proof {
                            let ghost ci = candidates@[i as int].version@;
                            let cb = candidates@[b as int].version@;
                            crate::version::ordering::lemma_version_order_antisymmetric(ci, cb);
                        }
                    }
                },
            }
        }
        i = i + 1;
    }
    best
}

/// `i` is the newest version among `candidates`, the last of equally new ones.
pub open spec fn is_newest_last(candidates: Seq<PackageJson>, i: int) -> bool {
    &&& 0 <= i < candidates.len()
    &&& forall|j: int| 0 <= j < candidates.len()
        ==> version_order((#[trigger] candidates[j]).version@, candidates[i].version@) <= 0
    &&& forall|j: int| i < j < candidates.len()
        ==> version_order((#[trigger] candidates[j]).version@, candidates[i].version@) < 0
}

/// The newest version among the versions of a package, prereleases included, the last of
/// equally new ones; `None` when there is none.
pub fn newest_version(candidates: &Vec<PackageJson>) -> (r: Option<usize>)
    requires
        versions_valid(candidates@),
    ensures
        match r {
            Some(i) => is_newest_last(candidates@, i as int),
            None => candidates@.len() == 0,
        },
{
    if candidates.len() == 0 {
        return None;
    }
    let mut best: usize = 0;
    let mut i: usize = 1;
    proof {
        crate::version::ordering::lemma_version_order_antisymmetric(candidates@[0].version@, candidates@[0].version@);
    }
    while i < candidates.len()
        invariant
            1 <= i <= candidates@.len(),
            best < i,
            versions_valid(candidates@),
            forall|j: int| 0 <= j < i
                ==> version_order((#[trigger] candidates@[j]).version@, candidates@[best as int].version@) <= 0,
            forall|j: int| best < j < i
                ==> version_order((#[trigger] candidates@[j]).version@, candidates@[best as int].version@) < 0,
        decreases candidates@.len() - i,
    {
        assert(prerelease_text_valid(candidates@[i as int].version@.pre));
        assert(prerelease_text_valid(candidates@[best as int].version@.pre));
        let ghost ci = candidates@[i as int].version@;
        let ghost cb = candidates@[best as int].version@;
        if version_ge(&candidates[i].version, &candidates[best].version) {
            proof {
                assert forall|j: int| 0 <= j < i + 1
                    implies version_order((#[trigger] candidates@[j]).version@, ci) <= 0 by {
                    crate::version::ordering::lemma_version_order_antisymmetric(cb, ci);
                    if j < i {
                        crate::version::ordering::lemma_version_order_transitive(candidates@[j].version@, cb, ci);
                    } else {
                        crate::version::ordering::lemma_version_order_antisymmetric(ci, ci);
                    }
                }
            }
            best = i;
        } else {
            proof {
                crate::version::ordering::lemma_version_order_antisymmetric(ci, cb);
            }
        }
        i = i + 1;
    }
    Some(best)
}

/// Whether the comparator `c` names a prerelease of the same `major.minor.patch` as `v`: its
/// version, or the upper end of a hyphen range, is such a prerelease.
pub open spec fn comparator_names_prerelease(c: ComparatorView, v: VersionView) -> bool {
    ||| names_prerelease_of(c.operand(), v)
    ||| (c matches ComparatorView::Hyphen(_, upper) && names_prerelease_of(upper, v))
}

/// Whether a set of comparators lets a prerelease `v` through: it is empty (it matches
/// everything), or one of its comparators names a prerelease of the same `major.minor.patch`.
pub open spec fn set_admits_prerelease(cs: Seq<ComparatorView>, v: VersionView) -> bool {
    cs.len() == 0 || exists|j: int| 0 <= j < cs.len() && comparator_names_prerelease(#[trigger] cs[j], v)
}

/// A lookup by a range (what dependency resolution asks for) accepts exactly the versions the
/// range matches with prereleases not allowed: a version in the range, and, if it is a
/// prerelease, only through a set of the range that lets it through (one that is empty, or has
/// a comparator naming a prerelease of the same `major.minor.patch`).
pub proof fn lemma_range_selector_accepts(selector: VersionSelector, v: VersionView)
    requires
        selector is Range,
    ensures
        selector.accepts(v) == spec_range_matches(selector->Range_0@, v, false),
        selector.accepts(v) ==> spec_range_matches(selector->Range_0@, v, true),
        selector.accepts(v) && v.pre.len() > 0 ==> exists|i: int| 0 <= i < selector->Range_0@.len()
            && crate::version::range::spec_set_matches(selector->Range_0@[i], v, true)
            && set_admits_prerelease(#[trigger] selector->Range_0@[i], v),
{
    let r = selector->Range_0@;
    if selector.accepts(v) {
        let i = choose|i: int| 0 <= i < r.len() && crate::version::range::spec_set_matches(#[trigger] r[i], v, false);
        assert(crate::version::range::spec_set_matches(r[i], v, true));
        if v.pre.len() > 0 && r[i].len() > 0 {
            assert(crate::version::comparator::spec_matches(r[i][0], v, false));
            assert(comparator_names_prerelease(r[i][0], v));
        }
        if v.pre.len() > 0 {
            assert(set_admits_prerelease(r[i], v));
        }
    }
}

} // verus!
