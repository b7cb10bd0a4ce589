use vstd::prelude::*;
use indexmap::IndexMap;
use crate::version::buf::str_eq;
use crate::version::range::{VersionRange, range_wf, same_or_later_view, spec_range_matches};
use crate::version::comparator::ComparatorView;
use crate::version::semver_text::prerelease_text_valid;
use crate::version::version::{Version, VersionView};
use crate::vpm::manifest::{VpmManifest, names_view};
use crate::vpm::maps::{
    keys_of, LockedView,
    dependency_map_entries, dependency_map_get_index, dependency_map_len, locked_map_entries,
    locked_map_get_index, locked_map_len, range_map_clone, range_map_entries, range_map_get_index,
    range_map_len,
};
use crate::vpm::package::PackageJson;
use crate::vpm::project::AddPackageErr;

verus! {

/// What the resolver knows of one package name.
pub struct DependencyInfo {
    /// The package version chosen to be installed, if one was.
    pub using: Option<PackageJson>,
    /// The version installed or chosen.
    pub current: Option<Version>,
    /// The ranges other packages need of it, by the name of the package that needs it (the
    /// empty name for the project's own dependencies).
    pub requirements: Vec<(String, VersionRange)>,
    /// The names it depends on.
    pub dependencies: Vec<String>,
}

/// Dependency resolution for adding packages, as a state machine: it asks its caller to look
/// up package versions and is told what was found.
pub struct Resolver {
    /// Package names and what is known of them, in the order they were met.
    pub infos: Vec<(String, DependencyInfo)>,
    /// Packages waiting to be processed, first in first out.
    pub queue: Vec<PackageJson>,
    /// The package being processed: its name and the ranges it needs.
    pub current: Option<(String, IndexMap<String, VersionRange>)>,
    /// How many dependencies of the current package are done.
    pub next_dependency: usize,
    /// The lookup asked for and not yet answered.
    pub lookup: Option<(String, VersionRange)>,
    /// The names of the packages asked for.
    pub requested: Ghost<Seq<Seq<char>>>,
    /// The project's dependencies: names and least versions.
    pub roots: Ghost<Seq<(Seq<char>, VersionView)>>,
    /// The project's locked packages.
    pub locked: Ghost<Seq<(Seq<char>, LockedView)>>,
}

/// What the resolver asks for, or its result.
pub enum ResolveStep {
    /// Look up the newest version of `name` in `range` and pass it to `Resolver::found`.
    Lookup { name: String, range: VersionRange },
    /// Resolution is over: `Ok` when the packages chosen (see `Resolver::finish`) conflict
    /// with no recorded range, or why it failed.
    Done(Result<(), AddPackageErr>),
}

/// The names of the entries of `infos`.
pub open spec fn info_names(infos: Seq<(String, DependencyInfo)>) -> Seq<Seq<char>> {
    infos.map_values(|e: (String, DependencyInfo)| e.0@)
}

/// A version is valid and every range is well formed: what `matches` needs.
pub open spec fn info_wf(info: DependencyInfo) -> bool {
    &&& (info.current matches Some(v) ==> prerelease_text_valid(v@.pre))
    &&& (info.using matches Some(p) ==> package_wf(p))
    &&& forall|j: int| 0 <= j < info.requirements@.len() ==> range_wf((#[trigger] info.requirements@[j]).1@)
}

/// A package's version is valid and the ranges it needs are well formed.
pub open spec fn package_wf(p: PackageJson) -> bool {
    &&& prerelease_text_valid(p.version@.pre)
    &&& forall|j: int| 0 <= j < range_map_entries(p.vpm_dependencies).len()
        ==> range_wf((#[trigger] range_map_entries(p.vpm_dependencies)[j]).1)
}

/// The ranges of the manifest's locked packages are well formed and its versions valid.
pub open spec fn manifest_wf(m: VpmManifest) -> bool {
    &&& crate::vpm::project::manifest_versions_valid(m)
    &&& forall|i: int, j: int| 0 <= i < locked_map_entries(m.locked).len()
        && 0 <= j < locked_map_entries(m.locked)[i].1.dependencies.len()
        ==> range_wf((#[trigger] locked_map_entries(m.locked)[i].1.dependencies[j]).1)
}

impl Resolver {
    /// The name of the lookup asked for.
    pub open spec fn lookup_name(&self) -> Seq<char> {
        match self.lookup {
            Some((n, _)) => n@,
            None => Seq::empty(),
        }
    }

    /// What is left of the current package: one more than its dependencies not yet done.
    pub open spec fn current_remaining(&self) -> int {
        match self.current {
            Some((_, deps)) => 1 + range_map_entries(deps).len() - self.next_dependency,
            None => 0,
        }
    }

    /// The name of the lookup asked for, if any.
    pub open spec fn lookup_of(&self) -> Option<Seq<char>> {
        match self.lookup {
            Some((n, _)) => Some(n@),
            None => None,
        }
    }

    /// The name of the package being processed, if any.
    pub open spec fn current_name(&self) -> Option<Seq<char>> {
        match self.current {
            Some((n, _)) => Some(n@),
            None => None,
        }
    }

    /// What the processing so far has made sure of: every dependency of a chosen package that
    /// is done is recorded and has a version (or waits for one); the package being processed
    /// is chosen, with the ranges it needs; every package asked for is chosen or waits; every
    /// recorded range is the project's or declared by its source as it now stands.
    pub open spec fn consistent(&self) -> bool {
        &&& all_handled(self.infos@, self.queue@, self.lookup_of(), self.current_name(), self.next_dependency as int)
        &&& (self.current matches Some((n, deps)) ==> {
            &&& info_names(self.infos@).contains(n@)
            &&& forall|c: int| 0 <= c < self.infos@.len() && (#[trigger] self.infos@[c]).0@ == n@
                ==> chosen_deps(self.infos@, c) == range_map_entries(deps)
        })
        &&& forall|r: int| 0 <= r < self.requested@.len() ==> is_chosen(self.infos@, #[trigger] self.requested@[r])
            || queued(self.queue@, self.requested@[r])
        &&& ranges_declared(self.infos@, self.roots@, self.locked@)
    }

    /// The state is well formed: names distinct, versions valid, ranges well formed.
    pub open spec fn wf(&self) -> bool {
        &&& info_names(self.infos@).no_duplicates()
        &&& forall|i: int| 0 <= i < self.infos@.len() ==> info_wf((#[trigger] self.infos@[i]).1)
        &&& forall|i: int| 0 <= i < self.queue@.len() ==> package_wf(#[trigger] self.queue@[i])
        &&& (self.current matches Some((_, deps)) ==> {
            &&& self.next_dependency <= range_map_entries(deps).len()
            &&& forall|j: int| 0 <= j < range_map_entries(deps).len() ==> range_wf((#[trigger] range_map_entries(deps)[j]).1)
        })
        &&& (self.lookup matches Some((_, r)) ==> range_wf(r@))
    }
}

/// Whether no version is recorded against a range it does not match.
pub open spec fn conflict_free(infos: Seq<(String, DependencyInfo)>) -> bool {
    forall|i: int, j: int| 0 <= i < infos.len() && 0 <= j < infos[i].1.requirements@.len()
        ==> (infos[i].1.current matches Some(v) ==> spec_range_matches(
            (#[trigger] infos[i].1.requirements@[j]).1@,
            v@,
            false,
        ))
}

/// The version of entry `i` is outside its `j`-th recorded range.
pub open spec fn version_misses(infos: Seq<(String, DependencyInfo)>, i: int, j: int) -> bool {
    match infos[i].1.current {
        Some(v) => !spec_range_matches(infos[i].1.requirements@[j].1@, v@, false),
        None => false,
    }
}

/// The packages chosen for installation, in the order of `infos`.
pub open spec fn chosen_packages(infos: Seq<(String, DependencyInfo)>) -> Seq<PackageJson>
    decreases infos.len(),
{
    if infos.len() == 0 {
        Seq::empty()
    } else {
        let prev = chosen_packages(infos.drop_last());
        match infos.last().1.using {
            Some(p) => prev.push(p),
            None => prev,
        }
    }
}

/// The ranges the package chosen in entry `i` needs, by name (none if no package is chosen).
pub open spec fn chosen_deps(infos: Seq<(String, DependencyInfo)>, i: int) -> Seq<(Seq<char>, Seq<Seq<ComparatorView>>)> {
    match infos[i].1.using {
        Some(p) => range_map_entries(p.vpm_dependencies),
        None => Seq::empty(),
    }
}

/// Whether `info` records that `source` needs `range`.
pub open spec fn records(info: DependencyInfo, source: Seq<char>, range: Seq<Seq<ComparatorView>>) -> bool {
    exists|m: int| 0 <= m < info.requirements@.len() && (#[trigger] info.requirements@[m]).0@ == source
        && info.requirements@[m].1@ == range
}

/// Whether a package named `name` waits in the queue.
pub open spec fn queued(queue: Seq<PackageJson>, name: Seq<char>) -> bool {
    exists|q: int| 0 <= q < queue.len() && (#[trigger] queue[q]).name@ == name
}

/// Whether the package of entry `k` has a version: installed or chosen, waiting in the queue, or
/// being looked up.
pub open spec fn provided(infos: Seq<(String, DependencyInfo)>, queue: Seq<PackageJson>, lookup: Option<Seq<char>>, k: int) -> bool {
    ||| infos[k].1.current is Some
    ||| queued(queue, infos[k].0@)
    ||| lookup == Some(infos[k].0@)
}

/// Whether the range that `source` needs of `dep.0` is recorded in the entry of that name, and
/// that package has a version.
pub open spec fn handled(
    infos: Seq<(String, DependencyInfo)>,
    queue: Seq<PackageJson>,
    lookup: Option<Seq<char>>,
    source: Seq<char>,
    dep: (Seq<char>, Seq<Seq<ComparatorView>>),
) -> bool {
    exists|k: int| 0 <= k < infos.len() && (#[trigger] infos[k]).0@ == dep.0 && records(infos[k].1, source, dep.1)
        && provided(infos, queue, lookup, k)
}

/// Every dependency of every chosen package is handled, but those of the package being
/// processed (`current`) from position `next` on.
pub open spec fn all_handled(
    infos: Seq<(String, DependencyInfo)>,
    queue: Seq<PackageJson>,
    lookup: Option<Seq<char>>,
    current: Option<Seq<char>>,
    next: int,
) -> bool {
    forall|i: int, j: int| 0 <= i < infos.len() && 0 <= j < chosen_deps(infos, i).len()
        && !(current == Some(infos[i].0@) && j >= next)
        ==> handled(infos, queue, lookup, infos[i].0@, #[trigger] chosen_deps(infos, i)[j])
}

/// Whether a package named `name` is chosen.
pub open spec fn is_chosen(infos: Seq<(String, DependencyInfo)>, name: Seq<char>) -> bool {
    exists|i: int| 0 <= i < infos.len() && (#[trigger] infos[i]).0@ == name && infos[i].1.using is Some
}

/// Every dependency of every chosen package has an entry whose version (chosen or installed)
/// is in the range needed.
pub open spec fn dependencies_met(infos: Seq<(String, DependencyInfo)>) -> bool {
    forall|i: int, j: int| 0 <= i < infos.len() && 0 <= j < chosen_deps(infos, i).len()
        ==> exists|k: int| 0 <= k < infos.len() && (#[trigger] infos[k]).0@ == (#[trigger] chosen_deps(infos, i)[j]).0
            && infos[k].1.current is Some
            && spec_range_matches(chosen_deps(infos, i)[j].1, infos[k].1.current->0@, false)
}

/// `b` has the entries of `a` under the same names, in the same places, maybe with more after.
pub open spec fn names_kept(a: Seq<(String, DependencyInfo)>, b: Seq<(String, DependencyInfo)>) -> bool {
    &&& a.len() <= b.len()
    &&& forall|k: int| 0 <= k < a.len() ==> (#[trigger] b[k]).0@ == a[k].0@
}

/// Every package of `a` that has a version still has one in `b`.
pub open spec fn provision_kept(
    a: Seq<(String, DependencyInfo)>, qa: Seq<PackageJson>, la: Option<Seq<char>>,
    b: Seq<(String, DependencyInfo)>, qb: Seq<PackageJson>, lb: Option<Seq<char>>,
) -> bool {
    forall|k: int| 0 <= k < a.len() && provided(a, qa, la, k) ==> #[trigger] provided(b, qb, lb, k)
}

/// Every range recorded in `a` is recorded in `b`, but those of entry `d` from `s`.
pub open spec fn requirements_kept(a: Seq<(String, DependencyInfo)>, b: Seq<(String, DependencyInfo)>, d: int, s: Seq<char>) -> bool {
    forall|k: int, m: int| 0 <= k < a.len() && 0 <= m < a[k].1.requirements@.len()
        && !(k == d && (#[trigger] a[k].1.requirements@[m]).0@ == s)
        ==> records(b[k].1, a[k].1.requirements@[m].0@, a[k].1.requirements@[m].1@)
}

/// Whether an entry named `dep.0` records that `source` needs the range `dep.1`.
pub open spec fn recorded(
    infos: Seq<(String, DependencyInfo)>,
    source: Seq<char>,
    dep: (Seq<char>, Seq<Seq<ComparatorView>>),
) -> bool {
    exists|k: int| 0 <= k < infos.len() && (#[trigger] infos[k]).0@ == dep.0 && records(infos[k].1, source, dep.1)
}

/// Whether an entry named `name` has the version `version` installed or chosen.
pub open spec fn has_version(infos: Seq<(String, DependencyInfo)>, name: Seq<char>, version: VersionView) -> bool {
    exists|k: int| 0 <= k < infos.len() && (#[trigger] infos[k]).0@ == name && infos[k].1.current is Some
        && infos[k].1.current->0@ == version
}

/// Every locked package is known at its locked version, and every range it needs is recorded
/// from it.
pub open spec fn locked_known(infos: Seq<(String, DependencyInfo)>, locked: Seq<(Seq<char>, LockedView)>, count: int) -> bool {
    &&& forall|q: int| 0 <= q < count ==> has_version(infos, (#[trigger] locked[q]).0, locked[q].1.version)
    &&& forall|q: int, j: int| 0 <= q < count && 0 <= j < locked[q].1.dependencies.len()
        ==> recorded(infos, locked[q].0, #[trigger] locked[q].1.dependencies[j])
}

proof fn lemma_recorded_kept(
    a: Seq<(String, DependencyInfo)>,
    b: Seq<(String, DependencyInfo)>,
    d: int,
    s: Seq<char>,
    source: Seq<char>,
    dep: (Seq<char>, Seq<Seq<ComparatorView>>),
)
    requires
        recorded(a, source, dep),
        names_kept(a, b),
        requirements_kept(a, b, d, s),
        0 <= d < a.len() && a[d].0@ == dep.0 ==> source != s,
    ensures
        recorded(b, source, dep),
{
    let k = choose|k: int| 0 <= k < a.len() && (#[trigger] a[k]).0@ == dep.0 && records(a[k].1, source, dep.1);
    let m = choose|m: int| 0 <= m < a[k].1.requirements@.len() && (#[trigger] a[k].1.requirements@[m]).0@ == source
        && a[k].1.requirements@[m].1@ == dep.1;
    assert(records(b[k].1, a[k].1.requirements@[m].0@, a[k].1.requirements@[m].1@));
    assert(b[k].0@ == dep.0);
}

/// A handled dependency stays handled when the entries, the queue and the lookup change in a
/// way that keeps what it rests on.
proof fn lemma_handled_kept(
    a: Seq<(String, DependencyInfo)>, qa: Seq<PackageJson>, la: Option<Seq<char>>,
    b: Seq<(String, DependencyInfo)>, qb: Seq<PackageJson>, lb: Option<Seq<char>>,
    d: int, s: Seq<char>, source: Seq<char>, dep: (Seq<char>, Seq<Seq<ComparatorView>>),
)
    requires
        handled(a, qa, la, source, dep),
        names_kept(a, b),
        provision_kept(a, qa, la, b, qb, lb),
        requirements_kept(a, b, d, s),
        0 <= d < a.len() && a[d].0@ == dep.0 ==> source != s,
    ensures
        handled(b, qb, lb, source, dep),
{
    let k = choose|k: int| 0 <= k < a.len() && (#[trigger] a[k]).0@ == dep.0 && records(a[k].1, source, dep.1)
        && provided(a, qa, la, k);
    let m = choose|m: int| 0 <= m < a[k].1.requirements@.len() && (#[trigger] a[k].1.requirements@[m]).0@ == source
        && a[k].1.requirements@[m].1@ == dep.1;
    assert(records(b[k].1, a[k].1.requirements@[m].0@, a[k].1.requirements@[m].1@));
    assert(provided(b, qb, lb, k));
    assert(b[k].0@ == dep.0);
}

/// `all_handled` carries over such a change, where every dependency it covers afterwards was
/// covered before, and none of them is a range of entry `d` from `s`.
proof fn lemma_all_handled_kept(
    a: Seq<(String, DependencyInfo)>, qa: Seq<PackageJson>, la: Option<Seq<char>>, ca: Option<Seq<char>>, na: int,
    b: Seq<(String, DependencyInfo)>, qb: Seq<PackageJson>, lb: Option<Seq<char>>, cb: Option<Seq<char>>, nb: int,
    d: int, s: Seq<char>,
)
    requires
        all_handled(a, qa, la, ca, na),
        names_kept(a, b),
        provision_kept(a, qa, la, b, qb, lb),
        requirements_kept(a, b, d, s),
        forall|i: int, j: int| 0 <= i < b.len() && 0 <= j < chosen_deps(b, i).len() && !(cb == Some(b[i].0@) && j >= nb)
            ==> i < a.len() && j < chosen_deps(a, i).len() && chosen_deps(a, i)[j] == #[trigger] chosen_deps(b, i)[j]
                && !(ca == Some(a[i].0@) && j >= na),
        forall|i: int, j: int| 0 <= i < a.len() && 0 <= j < chosen_deps(a, i).len() && 0 <= d < a.len()
            && a[i].0@ == s && !(ca == Some(a[i].0@) && j >= na)
            ==> (#[trigger] chosen_deps(a, i)[j]).0 != a[d].0@,
    ensures
        all_handled(b, qb, lb, cb, nb),
{
    assert forall|i: int, j: int| 0 <= i < b.len() && 0 <= j < chosen_deps(b, i).len()
        && !(cb == Some(b[i].0@) && j >= nb)
        implies handled(b, qb, lb, b[i].0@, #[trigger] chosen_deps(b, i)[j]) by {
        let e = chosen_deps(b, i)[j];
        assert(i < a.len() && j < chosen_deps(a, i).len() && chosen_deps(a, i)[j] == e
            && !(ca == Some(a[i].0@) && j >= na));
        assert(b[i].0@ == a[i].0@);
        assert(chosen_deps(a, i)[j] == chosen_deps(b, i)[j]);
        assert(handled(a, qa, la, a[i].0@, chosen_deps(a, i)[j]));
        lemma_handled_kept(a, qa, la, b, qb, lb, d, s, a[i].0@, chosen_deps(a, i)[j]);
    }
}

/// With the queue empty, nothing looked up and no package being processed, every handled
/// dependency of a conflict-free state has a version in its range.
proof fn lemma_dependencies_met(infos: Seq<(String, DependencyInfo)>, queue: Seq<PackageJson>)
    requires
        all_handled(infos, queue, None, None, 0),
        queue.len() == 0,
        conflict_free(infos),
    ensures
        dependencies_met(infos),
{
    assert forall|i: int, j: int| 0 <= i < infos.len() && 0 <= j < chosen_deps(infos, i).len()
        implies exists|k: int| 0 <= k < infos.len() && (#[trigger] infos[k]).0@ == (#[trigger] chosen_deps(infos, i)[j]).0
            && infos[k].1.current is Some
            && spec_range_matches(chosen_deps(infos, i)[j].1, infos[k].1.current->0@, false) by {
        let dep = chosen_deps(infos, i)[j];
        assert(handled(infos, queue, None, infos[i].0@, dep));
        let k = choose|k: int| 0 <= k < infos.len() && (#[trigger] infos[k]).0@ == dep.0
            && records(infos[k].1, infos[i].0@, dep.1) && provided(infos, queue, None, k);
        let m = choose|m: int| 0 <= m < infos[k].1.requirements@.len()
            && (#[trigger] infos[k].1.requirements@[m]).0@ == infos[i].0@ && infos[k].1.requirements@[m].1@ == dep.1;
        assert(!queued(queue, infos[k].0@));
        assert(infos[k].1.current is Some);
        assert(spec_range_matches(infos[k].1.requirements@[m].1@, infos[k].1.current->0@, false));
    }
}

/// The names of the waiting packages, in order.
pub open spec fn queue_names(queue: Seq<PackageJson>) -> Seq<Seq<char>> {
    queue.map_values(|q: PackageJson| q.name@)
}

/// Queuing any package with `add_pending_package` (as `Resolver::found` does with the package
/// found for the name it looked up) drops every waiting package of that name and puts the new
/// one last: it is the only one of its name, so a search by its name finds it, it comes after
/// all others, the others keep their order, and names that were distinct stay distinct.
pub proof fn lemma_add_pending_package_replaces(queue: Seq<PackageJson>, p: PackageJson)
    ensures
        ({
            let r = queue.filter(|q: PackageJson| q.name@ != p.name@).push(p);
            &&& r.last() == p
            &&& forall|i: int| 0 <= i < r.len() - 1 ==> (#[trigger] r[i]).name@ != p.name@
            &&& forall|i: int| 0 <= i < r.len() - 1 ==> queue.contains(#[trigger] r[i])
            &&& forall|i: int| 0 <= i < queue.len() && (#[trigger] queue[i]).name@ != p.name@ ==> r.contains(queue[i])
            &&& queue_names(queue).no_duplicates() ==> queue_names(r).no_duplicates()
        }),
{
    let keep = |q: PackageJson| q.name@ != p.name@;
    let f = queue.filter(keep);
    let r = f.push(p);
    assert forall|i: int| 0 <= i < r.len() - 1 implies (#[trigger] r[i]).name@ != p.name@ && queue.contains(r[i]) by {
        assert(r[i] == f[i]);
        queue.lemma_filter_pred(keep, i);
        queue.lemma_filter_contains_rev(keep, f[i]);
    }
    assert forall|i: int| 0 <= i < queue.len() && (#[trigger] queue[i]).name@ != p.name@ implies r.contains(queue[i]) by {
        queue.lemma_filter_contains(keep, i);
        let j = choose|j: int| 0 <= j < f.len() && f[j] == queue[i];
        assert(r[j] == queue[i]);
    }
    if queue_names(queue).no_duplicates() {
        lemma_filter_names_distinct(queue, keep);
        assert forall|a: int, b: int| 0 <= a < b < queue_names(r).len() implies queue_names(r)[a] != queue_names(r)[b] by {
            if b == r.len() - 1 {
                assert(r[a].name@ != p.name@);
            } else {
                assert(queue_names(f)[a] == queue_names(r)[a]);
                assert(queue_names(f)[b] == queue_names(r)[b]);
            }
        }
    }
}

/// Filtering keeps the names distinct.
proof fn lemma_filter_names_distinct(queue: Seq<PackageJson>, keep: spec_fn(PackageJson) -> bool)
    requires
        queue_names(queue).no_duplicates(),
    ensures
        queue_names(queue.filter(keep)).no_duplicates(),
    decreases queue.len(),
{
    reveal(Seq::filter);
    if queue.len() > 0 {
        let init = queue.drop_last();
        assert(queue_names(init) =~= queue_names(queue).drop_last());
        assert(queue_names(init).no_duplicates()) by {
            assert forall|a: int, b: int| 0 <= a < b < queue_names(init).len() implies queue_names(init)[a] != queue_names(init)[b] by {
                assert(queue_names(init)[a] == queue_names(queue)[a]);
                assert(queue_names(init)[b] == queue_names(queue)[b]);
            }
        }
        lemma_filter_names_distinct(init, keep);
        let fi = init.filter(keep);
        if keep(queue.last()) {
            assert(queue.filter(keep) == fi.push(queue.last()));
            let r = fi.push(queue.last());
            assert forall|a: int, b: int| 0 <= a < b < queue_names(r).len() implies queue_names(r)[a] != queue_names(r)[b] by {
                if b == r.len() - 1 {
                    init.lemma_filter_contains_rev(keep, fi[a]);
                    let w = choose|w: int| 0 <= w < init.len() && init[w] == fi[a];
                    assert(queue_names(queue)[w] == fi[a].name@);
                    assert(queue_names(queue)[queue.len() - 1] == queue.last().name@);
                } else {
                    assert(queue_names(r)[a] == queue_names(fi)[a]);
                    assert(queue_names(r)[b] == queue_names(fi)[b]);
                }
            }
        } else {
            assert(queue.filter(keep) == fi);
        }
    }
}

/// No two ranges of an entry are recorded from the same package.
pub open spec fn sources_distinct(info: DependencyInfo) -> bool {
    forall|a: int, b: int| 0 <= a < b < info.requirements@.len()
        ==> (#[trigger] info.requirements@[a]).0@ != (#[trigger] info.requirements@[b]).0@
}

/// The project's own range on `d`: at least the version of its dependency of that name.
pub open spec fn root_range(roots: Seq<(Seq<char>, VersionView)>, d: Seq<char>, r: Seq<Seq<ComparatorView>>) -> bool {
    exists|i: int| 0 <= i < roots.len() && (#[trigger] roots[i]).0 == d && r == same_or_later_view(roots[i].1)
}

/// Whether the version that the entry `info` of package `s` stands for declares range `r` on
/// `d`: the chosen package's dependencies, or else those of the locked version of `s`.
pub open spec fn declares(
    info: DependencyInfo,
    locked: Seq<(Seq<char>, LockedView)>,
    s: Seq<char>,
    d: Seq<char>,
    r: Seq<Seq<ComparatorView>>,
) -> bool {
    match info.using {
        Some(p) => range_map_entries(p.vpm_dependencies).contains((d, r)),
        None => exists|i: int| 0 <= i < locked.len() && (#[trigger] locked[i]).0 == s
            && locked[i].1.dependencies.contains((d, r)),
    }
}

/// Whether package `s`, as it now stands, declares range `r` on `d` and lists `d` among its
/// dependencies.
pub open spec fn declared_by(
    infos: Seq<(String, DependencyInfo)>,
    locked: Seq<(Seq<char>, LockedView)>,
    s: Seq<char>,
    d: Seq<char>,
    r: Seq<Seq<ComparatorView>>,
) -> bool {
    exists|j: int| 0 <= j < infos.len() && (#[trigger] infos[j]).0@ == s
        && names_view(infos[j].1.dependencies@).contains(d) && declares(infos[j].1, locked, s, d, r)
}

/// A range recorded on `d` is the project's own (recorded from the empty name) or one that its
/// source package, as it now stands, declares on `d`.
pub open spec fn requirement_ok(
    infos: Seq<(String, DependencyInfo)>,
    roots: Seq<(Seq<char>, VersionView)>,
    locked: Seq<(Seq<char>, LockedView)>,
    d: Seq<char>,
    req: (String, VersionRange),
) -> bool {
    ||| req.0@.len() == 0 && root_range(roots, d, req.1@)
    ||| declared_by(infos, locked, req.0@, d, req.1@)
}

/// Every recorded range is the project's or declared by its source as it now stands.
pub open spec fn reqs_ok(
    infos: Seq<(String, DependencyInfo)>,
    roots: Seq<(Seq<char>, VersionView)>,
    locked: Seq<(Seq<char>, LockedView)>,
) -> bool {
    forall|k: int, m: int| 0 <= k < infos.len() && 0 <= m < infos[k].1.requirements@.len()
        ==> requirement_ok(infos, roots, locked, infos[k].0@, #[trigger] infos[k].1.requirements@[m])
}

/// Every recorded range is the project's or declared by its source as it now stands (no range
/// of a replaced version is left), each entry records at most one range per source, and a
/// chosen package's dependency names are those of its ranges.
pub open spec fn ranges_declared(
    infos: Seq<(String, DependencyInfo)>,
    roots: Seq<(Seq<char>, VersionView)>,
    locked: Seq<(Seq<char>, LockedView)>,
) -> bool {
    &&& reqs_ok(infos, roots, locked)
    &&& forall|k: int| 0 <= k < infos.len() ==> sources_distinct(#[trigger] infos[k].1)
    &&& forall|k: int| 0 <= k < infos.len() && (#[trigger] infos[k]).1.using is Some
        ==> names_view(infos[k].1.dependencies@) == keys_of(range_map_entries(infos[k].1.using->0.vpm_dependencies))
}

/// `b` keeps the names, chosen packages and dependency names of the entries of `a`, but
/// entry `x`, which keeps its name and had no dependency names.
pub open spec fn declarations_kept(a: Seq<(String, DependencyInfo)>, b: Seq<(String, DependencyInfo)>, x: int) -> bool {
    &&& declarations_kept_except(a, b, x)
    &&& (0 <= x < a.len() ==> a[x].1.dependencies@.len() == 0)
}

/// `b` keeps the names of the entries of `a`, and the chosen packages and dependency names of
/// all but entry `x`.
pub open spec fn declarations_kept_except(a: Seq<(String, DependencyInfo)>, b: Seq<(String, DependencyInfo)>, x: int) -> bool {
    &&& a.len() <= b.len()
    &&& forall|j: int| 0 <= j < a.len() ==> (#[trigger] b[j]).0@ == a[j].0@
    &&& forall|j: int| 0 <= j < a.len() && j != x ==> (#[trigger] b[j]).1.using == a[j].1.using
        && b[j].1.dependencies@ == a[j].1.dependencies@
}

/// Every recorded range is ok, or is one that `s` recorded on an entry named among `pending`.
pub open spec fn reqs_ok_but(
    infos: Seq<(String, DependencyInfo)>,
    roots: Seq<(Seq<char>, VersionView)>,
    locked: Seq<(Seq<char>, LockedView)>,
    s: Seq<char>,
    pending: Seq<Seq<char>>,
) -> bool {
    forall|k: int, m: int| 0 <= k < infos.len() && 0 <= m < infos[k].1.requirements@.len()
        ==> requirement_ok(infos, roots, locked, infos[k].0@, #[trigger] infos[k].1.requirements@[m])
            || (infos[k].1.requirements@[m].0@ == s && pending.contains(infos[k].0@))
}

/// When the entry `x` changes what it stands for, a range that was ok stays ok unless it was
/// recorded from `x` on one of the dependencies `x` had.
proof fn lemma_ok_or_stale(
    a: Seq<(String, DependencyInfo)>,
    b: Seq<(String, DependencyInfo)>,
    x: int,
    roots: Seq<(Seq<char>, VersionView)>,
    locked: Seq<(Seq<char>, LockedView)>,
    d: Seq<char>,
    req: (String, VersionRange),
)
    requires
        requirement_ok(a, roots, locked, d, req),
        declarations_kept_except(a, b, x),
        0 <= x < a.len(),
    ensures
        requirement_ok(b, roots, locked, d, req)
            || (req.0@ == a[x].0@ && names_view(a[x].1.dependencies@).contains(d)),
{
    if declared_by(a, locked, req.0@, d, req.1@) && !(req.0@ == a[x].0@ && names_view(a[x].1.dependencies@).contains(d)) {
        let j = choose|j: int| 0 <= j < a.len() && (#[trigger] a[j]).0@ == req.0@
            && names_view(a[j].1.dependencies@).contains(d) && declares(a[j].1, locked, req.0@, d, req.1@);
        assert(j != x);
        assert(b[j].0@ == a[j].0@);
        assert(declares(b[j].1, locked, req.0@, d, req.1@));
    }
}

proof fn lemma_skip_contains(s: Seq<Seq<char>>, o: int, v: Seq<char>)
    requires
        0 <= o < s.len(),
        s.skip(o).contains(v),
        v != s[o],
    ensures
        s.skip(o + 1).contains(v),
{
    let w = choose|w: int| 0 <= w < s.skip(o).len() && s.skip(o)[w] == v;
    assert(w != 0);
    assert(s.skip(o + 1)[w - 1] == s.skip(o)[w]);
}

proof fn lemma_ok_kept(
    a: Seq<(String, DependencyInfo)>,
    b: Seq<(String, DependencyInfo)>,
    x: int,
    roots: Seq<(Seq<char>, VersionView)>,
    locked: Seq<(Seq<char>, LockedView)>,
    d: Seq<char>,
    req: (String, VersionRange),
)
    requires
        requirement_ok(a, roots, locked, d, req),
        declarations_kept(a, b, x),
    ensures
        requirement_ok(b, roots, locked, d, req),
{
    if declared_by(a, locked, req.0@, d, req.1@) {
        let j = choose|j: int| 0 <= j < a.len() && (#[trigger] a[j]).0@ == req.0@
            && names_view(a[j].1.dependencies@).contains(d) && declares(a[j].1, locked, req.0@, d, req.1@);
        assert(b[j].0@ == a[j].0@);
        if j == x {
            assert(names_view(a[j].1.dependencies@).len() == 0);
        }
        assert(declares(b[j].1, locked, req.0@, d, req.1@));
    }
}

/// What `b` records is ok when each of its ranges was recorded at the same entry of `a`, or is
/// ok in `b` itself.
proof fn lemma_reqs_kept(
    a: Seq<(String, DependencyInfo)>,
    b: Seq<(String, DependencyInfo)>,
    x: int,
    roots: Seq<(Seq<char>, VersionView)>,
    locked: Seq<(Seq<char>, LockedView)>,
)
    requires
        reqs_ok(a, roots, locked),
        declarations_kept(a, b, x),
        forall|k: int, m: int| 0 <= k < b.len() && 0 <= m < b[k].1.requirements@.len()
            ==> (k < a.len() && a[k].1.requirements@.contains(#[trigger] b[k].1.requirements@[m]))
                || requirement_ok(b, roots, locked, b[k].0@, b[k].1.requirements@[m]),
    ensures
        reqs_ok(b, roots, locked),
{
    assert forall|k: int, m: int| 0 <= k < b.len() && 0 <= m < b[k].1.requirements@.len()
        implies requirement_ok(b, roots, locked, b[k].0@, #[trigger] b[k].1.requirements@[m]) by {
        let req = b[k].1.requirements@[m];
        if !requirement_ok(b, roots, locked, b[k].0@, req) {
            let m2 = choose|m2: int| 0 <= m2 < a[k].1.requirements@.len() && a[k].1.requirements@[m2] == req;
            assert(requirement_ok(a, roots, locked, a[k].0@, a[k].1.requirements@[m2]));
            lemma_ok_kept(a, b, x, roots, locked, a[k].0@, req);
        }
    }
}

/// A default entry.
fn empty_info() -> (r: DependencyInfo)
    ensures
        r.using is None,
        r.current is None,
        r.requirements@.len() == 0,
        r.dependencies@.len() == 0,
{
    DependencyInfo { using: None, current: None, requirements: Vec::new(), dependencies: Vec::new() }
}

/// The position of `name` among the entries, if present.
fn find_info(infos: &Vec<(String, DependencyInfo)>, name: &str) -> (r: Option<usize>)
    ensures
        match r {
            Some(i) => i < infos@.len() && infos@[i as int].0@ == name@,
            None => !info_names(infos@).contains(name@),
        },
{
    let mut i: usize = 0;
    while i < infos.len()
        invariant
            i <= infos@.len(),
            forall|j: int| 0 <= j < i ==> infos@[j].0@ != name@,
        decreases infos@.len() - i,
    {
        if str_eq(infos[i].0.as_str(), name) {
            return Some(i);
        }
        i = i + 1;
    }
    proof {
        if info_names(infos@).contains(name@) {
            let j = choose|j: int| 0 <= j < info_names(infos@).len() && info_names(infos@)[j] == name@;
            assert(infos@[j].0@ == name@);
        }
    }
    None
}

proof fn lemma_push_info(infos: Seq<(String, DependencyInfo)>, e: (String, DependencyInfo))
    requires
        info_names(infos).no_duplicates(),
        !info_names(infos).contains(e.0@),
    ensures
        info_names(infos.push(e)).no_duplicates(),
        info_names(infos.push(e)) == info_names(infos).push(e.0@),
{
    assert(info_names(infos.push(e)) =~= info_names(infos).push(e.0@));
    let n = info_names(infos.push(e));
    assert forall|a: int, b: int| 0 <= a < b < n.len() implies n[a] != n[b] by {
        if b == infos.len() {
            assert(info_names(infos).contains(n[a]));
        }
    }
}

/// The entry of `name`, made empty if it was not there (`entry(..).or_default()`).
fn info_entry(infos: &mut Vec<(String, DependencyInfo)>, name: &str) -> (r: usize)
    requires
        info_names(old(infos)@).no_duplicates(),
        forall|i: int| 0 <= i < old(infos)@.len() ==> info_wf((#[trigger] old(infos)@[i]).1),
    ensures
        r < final(infos)@.len(),
        final(infos)@[r as int].0@ == name@,
        info_names(final(infos)@).no_duplicates(),
        forall|i: int| 0 <= i < final(infos)@.len() ==> info_wf((#[trigger] final(infos)@[i]).1),
        final(infos)@.len() >= old(infos)@.len(),
        forall|i: int| 0 <= i < old(infos)@.len() ==> final(infos)@[i] == old(infos)@[i],
        forall|i: int| old(infos)@.len() <= i < final(infos)@.len() ==> (#[trigger] final(infos)@[i]).1.using is None
            && final(infos)@[i].1.current is None && final(infos)@[i].1.requirements@.len() == 0
            && final(infos)@[i].1.dependencies@.len() == 0,
{
    match find_info(infos, name) {
        Some(i) => i,
        None => {
            let ghost before = infos@;
            infos.push((name.to_owned(), empty_info()));
            proof {
                lemma_push_info(before, infos@.last());
            }
            infos.len() - 1
        },
    }
}


/// Replaces entry `d` by `entry`.
fn put_info(infos: &mut Vec<(String, DependencyInfo)>, d: usize, entry: (String, DependencyInfo))
    requires
        d < old(infos)@.len(),
        entry.0@ == old(infos)@[d as int].0@,
        info_names(old(infos)@).no_duplicates(),
        forall|i: int| 0 <= i < old(infos)@.len() && i != d ==> info_wf((#[trigger] old(infos)@[i]).1),
        info_wf(entry.1),
    ensures
        final(infos)@ == old(infos)@.update(d as int, entry),
        info_names(final(infos)@) == info_names(old(infos)@),
        info_names(final(infos)@).no_duplicates(),
        forall|i: int| 0 <= i < final(infos)@.len() ==> info_wf((#[trigger] final(infos)@[i]).1),
{
    let ghost before = infos@;
    let ghost e = entry;
    infos.set(d, entry);
    proof {
        assert(info_names(infos@) =~= info_names(before));
        assert forall|q: int| 0 <= q < infos@.len() implies info_wf((#[trigger] infos@[q]).1) by {
            if q != d {
                assert(infos@[q] == before[q]);
            }
        }
    }
}

/// Takes entry `d` out, leaving an empty entry of the same name in its place.
fn take_info(infos: &mut Vec<(String, DependencyInfo)>, d: usize) -> (r: (String, DependencyInfo))
    requires
        d < old(infos)@.len(),
        info_names(old(infos)@).no_duplicates(),
        forall|i: int| 0 <= i < old(infos)@.len() ==> info_wf((#[trigger] old(infos)@[i]).1),
    ensures
        r == old(infos)@[d as int],
        final(infos)@.len() == old(infos)@.len(),
        forall|i: int| 0 <= i < old(infos)@.len() && i != d ==> final(infos)@[i] == old(infos)@[i],
        final(infos)@[d as int].0@ == old(infos)@[d as int].0@,
        info_names(final(infos)@) == info_names(old(infos)@),
        info_names(final(infos)@).no_duplicates(),
        forall|i: int| 0 <= i < final(infos)@.len() ==> info_wf((#[trigger] final(infos)@[i]).1),
{
    let ghost before = infos@;
    let name = infos[d].0.clone();
    let mut entry = (name, empty_info());
    std::mem::swap(&mut infos[d], &mut entry);
    proof {
        assert(info_names(infos@) =~= info_names(before));
        assert forall|q: int| 0 <= q < infos@.len() implies info_wf((#[trigger] infos@[q]).1) by {
            if q != d {
                assert(infos@[q] == before[q]);
            }
        }
    }
    entry
}

/// Whether a waiting package named `name` has a version in `range`.
fn queue_has_match(queue: &Vec<PackageJson>, name: &str, range: &VersionRange) -> (r: bool)
    requires
        forall|i: int| 0 <= i < queue@.len() ==> package_wf(#[trigger] queue@[i]),
        range_wf(range@),
    ensures
        r == exists|i: int| 0 <= i < queue@.len() && (#[trigger] queue@[i]).name@ == name@
            && spec_range_matches(range@, queue@[i].version@, false),
{
    let mut i: usize = 0;
    while i < queue.len()
        invariant
            i <= queue@.len(),
            forall|j: int| 0 <= j < queue@.len() ==> package_wf(#[trigger] queue@[j]),
            range_wf(range@),
            forall|j: int| 0 <= j < i ==> !((#[trigger] queue@[j]).name@ == name@
                && spec_range_matches(range@, queue@[j].version@, false)),
        decreases queue@.len() - i,
    {
        assert(package_wf(queue@[i as int]));
        if str_eq(queue[i].name.as_str(), name) && range.matches(&queue[i].version) {
            return true;
        }
        i = i + 1;
    }
    false
}


/// Queues `p`, replacing the waiting packages of its name: they are dropped and `p` goes last.
pub fn add_pending_package(queue: &mut Vec<PackageJson>, p: PackageJson)
    ensures
        final(queue)@ == old(queue)@.filter(|q: PackageJson| q.name@ != p.name@).push(p),
        (forall|i: int| 0 <= i < old(queue)@.len() ==> package_wf(#[trigger] old(queue)@[i])) && package_wf(p)
            ==> forall|i: int| 0 <= i < final(queue)@.len() ==> package_wf(#[trigger] final(queue)@[i]),
{
    let name = p.name.clone();
    let ghost pn = p.name@;
    let ghost all = queue@;
    let ghost keep = |q: PackageJson| q.name@ != name@;
    let mut old_queue: Vec<PackageJson> = Vec::new();
    std::mem::swap(queue, &mut old_queue);
    let mut i: usize = 0;
    let total = old_queue.len();
    proof {
        reveal(Seq::filter);
        assert(all.skip(0) =~= all);
        assert(all.take(0) =~= Seq::<PackageJson>::empty());
    }
    while old_queue.len() > 0
        invariant
            i <= all.len(),
            total == all.len(),
            old_queue@ == all.skip(i as int),
            queue@ == all.take(i as int).filter(keep),
            keep == (|q: PackageJson| q.name@ != name@),
        decreases old_queue@.len(),
    {
        let x = old_queue.remove(0);
        proof {
            reveal(Seq::filter);
            assert(all.take(i + 1).drop_last() =~= all.take(i as int));
            assert(all.take(i + 1).last() == x);
            assert(old_queue@ =~= all.skip(i + 1));
        }
        if !str_eq(x.name.as_str(), name.as_str()) {
            queue.push(x);
        }
        i = i + 1;
    }
    proof {
        assert(all.take(i as int) =~= all);
    }
    let ghost kept = queue@;
    queue.push(p);
    proof {
        assert(keep =~= (|q: PackageJson| q.name@ != pn));
        if (forall|i: int| 0 <= i < all.len() ==> package_wf(#[trigger] all[i])) && package_wf(queue@.last()) {
            assert forall|q: int| 0 <= q < queue@.len() implies package_wf(#[trigger] queue@[q]) by {
                if q < kept.len() {
                    assert(all.filter(keep).contains(kept[q]));
                    all.lemma_filter_contains_rev(keep, kept[q]);
                    let e = choose|e: int| 0 <= e < all.len() && all[e] == kept[q];
                    assert(package_wf(all[e]));
                }
            }
        }
    }
}

/// Sets the range that `source` needs (`add_range`).
fn add_range(info: &mut DependencyInfo, source: &str, range: VersionRange)
    requires
        info_wf(*old(info)),
        range_wf(range@),
    ensures
        info_wf(*final(info)),
        final(info).using == old(info).using,
        final(info).current == old(info).current,
        final(info).dependencies == old(info).dependencies,
        exists|j: int| 0 <= j < final(info).requirements@.len() && (#[trigger] final(info).requirements@[j]).0@ == source@
            && final(info).requirements@[j].1@ == range@,
        records(*final(info), source@, range@),
        forall|m: int| 0 <= m < old(info).requirements@.len() && (#[trigger] old(info).requirements@[m]).0@ != source@
            ==> records(*final(info), old(info).requirements@[m].0@, old(info).requirements@[m].1@),
        forall|m: int| 0 <= m < final(info).requirements@.len()
            ==> ((#[trigger] final(info).requirements@[m]).0@ == source@ && final(info).requirements@[m].1@ == range@)
                || old(info).requirements@.contains(final(info).requirements@[m]),
        sources_distinct(*old(info)) ==> sources_distinct(*final(info)),
{
    let mut i: usize = 0;
    while i < info.requirements.len()
        invariant
            i <= info.requirements@.len(),
            *info == *old(info),
            info_wf(*old(info)),
            range_wf(range@),
            forall|j: int| 0 <= j < i ==> (#[trigger] info.requirements@[j]).0@ != source@,
        decreases info.requirements@.len() - i,
    {
        if str_eq(info.requirements[i].0.as_str(), source) {
            let ghost before = info.requirements@;
            let ghost range_view = range@;
            info.requirements.set(i, (source.to_owned(), range));
            proof {
                assert(info.requirements@[i as int].1@ == range_view);
                assert forall|j: int| 0 <= j < info.requirements@.len() implies range_wf((#[trigger] info.requirements@[j]).1@) by {
                    if j != i {
                        assert(info.requirements@[j] == before[j]);
                    }
                }
                assert forall|m: int| 0 <= m < before.len() && (#[trigger] before[m]).0@ != source@
                    implies records(*info, before[m].0@, before[m].1@) by {
                    assert(info.requirements@[m] == before[m]);
                }
                assert(records(*info, source@, range_view));
                assert forall|m: int| 0 <= m < info.requirements@.len()
                    implies ((#[trigger] info.requirements@[m]).0@ == source@ && info.requirements@[m].1@ == range_view)
                        || before.contains(info.requirements@[m]) by {
                    if m != i {
                        assert(info.requirements@[m] == before[m]);
                    }
                }
                if sources_distinct(*old(info)) {
                    assert forall|a: int, b: int| 0 <= a < b < info.requirements@.len()
                        implies (#[trigger] info.requirements@[a]).0@ != (#[trigger] info.requirements@[b]).0@ by {
                        assert(old(info).requirements@[a].0@ != old(info).requirements@[b].0@);
                        if a == i {
                            assert(info.requirements@[b] == before[b]);
                        } else if b == i {
                            assert(info.requirements@[a] == before[a]);
                        } else {
                            assert(info.requirements@[a] == before[a]);
                            assert(info.requirements@[b] == before[b]);
                        }
                    }
                }
            }
            return;
        }
        i = i + 1;
    }
    let ghost before = info.requirements@;
    let ghost range_view = range@;
    info.requirements.push((source.to_owned(), range));
    proof {
        assert forall|j: int| 0 <= j < info.requirements@.len() implies range_wf((#[trigger] info.requirements@[j]).1@) by {
            if j < before.len() {
                assert(info.requirements@[j] == before[j]);
            }
        }
        assert(info.requirements@[before.len() as int].0@ == source@);
        assert(info.requirements@[before.len() as int].1@ == range_view);
        assert(records(*info, source@, range_view));
        assert forall|m: int| 0 <= m < before.len() && (#[trigger] before[m]).0@ != source@
            implies records(*info, before[m].0@, before[m].1@) by {
            assert(info.requirements@[m] == before[m]);
        }
        assert forall|m: int| 0 <= m < info.requirements@.len()
            implies ((#[trigger] info.requirements@[m]).0@ == source@ && info.requirements@[m].1@ == range_view)
                || before.contains(info.requirements@[m]) by {
            if m < before.len() {
                assert(info.requirements@[m] == before[m]);
            }
        }
        if sources_distinct(*old(info)) {
            assert forall|a: int, b: int| 0 <= a < b < info.requirements@.len()
                implies (#[trigger] info.requirements@[a]).0@ != (#[trigger] info.requirements@[b]).0@ by {
                assert(info.requirements@[a] == before[a]);
                if b < before.len() {
                    assert(info.requirements@[b] == before[b]);
                }
            }
        }
    }
}

/// Drops the range that `source` needs, if recorded (`remove_range`).
fn remove_range(info: &mut DependencyInfo, source: &str)
    requires
        info_wf(*old(info)),
    ensures
        info_wf(*final(info)),
        final(info).using == old(info).using,
        final(info).current == old(info).current,
        final(info).dependencies == old(info).dependencies,
        forall|j: int| 0 <= j < final(info).requirements@.len() ==> old(info).requirements@.contains(
            #[trigger] final(info).requirements@[j],
        ),
        (exists|i: int| 0 <= i < old(info).requirements@.len() && (#[trigger] old(info).requirements@[i]).0@ == source@
            && (forall|j: int| 0 <= j < i ==> (#[trigger] old(info).requirements@[j]).0@ != source@)
            && final(info).requirements@ == old(info).requirements@.remove(i))
        || ((forall|j: int| 0 <= j < old(info).requirements@.len() ==> (#[trigger] old(info).requirements@[j]).0@ != source@)
            && final(info).requirements@ == old(info).requirements@),
        forall|m: int| 0 <= m < old(info).requirements@.len() && (#[trigger] old(info).requirements@[m]).0@ != source@
            ==> records(*final(info), old(info).requirements@[m].0@, old(info).requirements@[m].1@),
        sources_distinct(*old(info)) ==> sources_distinct(*final(info))
            && forall|m: int| 0 <= m < final(info).requirements@.len() ==> (#[trigger] final(info).requirements@[m]).0@ != source@,
{
    let mut i: usize = 0;
    while i < info.requirements.len()
        invariant
            i <= info.requirements@.len(),
            *info == *old(info),
            info_wf(*old(info)),
            forall|j: int| 0 <= j < i ==> (#[trigger] info.requirements@[j]).0@ != source@,
        decreases info.requirements@.len() - i,
    {
        if str_eq(info.requirements[i].0.as_str(), source) {
            let ghost before = info.requirements@;
            info.requirements.remove(i);
            proof {
                assert forall|j: int| 0 <= j < info.requirements@.len() implies before.contains(#[trigger] info.requirements@[j]) by {
                    if j < i {
                        assert(info.requirements@[j] == before[j]);
                    } else {
                        assert(info.requirements@[j] == before[j + 1]);
                    }
                }
                assert forall|m: int| 0 <= m < before.len() && (#[trigger] before[m]).0@ != source@
                    implies records(*info, before[m].0@, before[m].1@) by {
                    if m < i {
                        assert(info.requirements@[m] == before[m]);
                    } else {
                        assert(m != i);
                        assert(info.requirements@[m - 1] == before[m]);
                    }
                }
                if sources_distinct(*old(info)) {
                    assert forall|a: int, b: int| 0 <= a < b < info.requirements@.len()
                        implies (#[trigger] info.requirements@[a]).0@ != (#[trigger] info.requirements@[b]).0@ by {
                        let a2 = if a < i { a } else { a + 1 };
                        let b2 = if b < i { b } else { b + 1 };
                        assert(info.requirements@[a] == before[a2]);
                        assert(info.requirements@[b] == before[b2]);
                        assert(old(info).requirements@[a2].0@ != old(info).requirements@[b2].0@);
                    }
                    assert forall|m: int| 0 <= m < info.requirements@.len()
                        implies (#[trigger] info.requirements@[m]).0@ != source@ by {
                        if m < i {
                            assert(info.requirements@[m] == before[m]);
                        } else {
                            assert(info.requirements@[m] == before[m + 1]);
                            assert(old(info).requirements@[i as int].0@ != old(info).requirements@[m + 1].0@);
                        }
                    }
                }
            }
            return;
        }
        i = i + 1;
    }
    proof {
        assert forall|j: int| 0 <= j < info.requirements@.len() implies old(info).requirements@.contains(#[trigger] info.requirements@[j]) by {
            assert(old(info).requirements@[j] == info.requirements@[j]);
        }
        assert forall|m: int| 0 <= m < old(info).requirements@.len() && (#[trigger] old(info).requirements@[m]).0@ != source@
            implies records(*info, old(info).requirements@[m].0@, old(info).requirements@[m].1@) by {
            assert(info.requirements@[m] == old(info).requirements@[m]);
        }
    }
}

/// The names of the keys of a range map, copied.
fn range_map_key_names(m: &IndexMap<String, VersionRange>) -> (r: Vec<String>)
    ensures
        names_view(r@) == crate::vpm::maps::keys_of(range_map_entries(*m)),
{
    let n = range_map_len(m);
    let mut out: Vec<String> = Vec::new();
    let mut i: usize = 0;
    while i < n
        invariant
            i <= n,
            n == range_map_entries(*m).len(),
            names_view(out@) == crate::vpm::maps::keys_of(range_map_entries(*m)).take(i as int),
        decreases n - i,
    {
        let (k, _) = range_map_get_index(m, i);
        let ghost before = out@;
        let c = k.clone();
        out.push(c);
        proof {
            assert(names_view(out@) =~= names_view(before).push(c@));
            assert(names_view(out@) =~= crate::vpm::maps::keys_of(range_map_entries(*m)).take(i + 1));
        }
        i = i + 1;
    }
    proof {
        assert(crate::vpm::maps::keys_of(range_map_entries(*m)).take(i as int) =~= crate::vpm::maps::keys_of(range_map_entries(*m)));
    }
    out
}

impl Resolver {
    /// The starting state: the project's dependencies (each needing at least its version), the
    /// locked packages with their versions and the ranges they need, and the packages to add.
    pub fn new(manifest: &VpmManifest, packages: Vec<PackageJson>) -> (r: Resolver)
        requires
            manifest_wf(*manifest),
            forall|i: int| 0 <= i < packages@.len() ==> package_wf(#[trigger] packages@[i]),
        ensures
            r.wf(),
            r.consistent(),
            r.queue@ == packages@,
            r.requested@ == packages@.map_values(|p: PackageJson| p.name@),
            r.roots@ == dependency_map_entries(manifest.dependencies),
            r.locked@ == locked_map_entries(manifest.locked),
            locked_known(r.infos@, r.locked@, r.locked@.len() as int),
            r.current is None,
            r.lookup is None,
            forall|i: int| 0 <= i < r.infos@.len() ==> (#[trigger] r.infos@[i]).1.using is None,
    {
        let ghost roots = dependency_map_entries(manifest.dependencies);
        let ghost lk = locked_map_entries(manifest.locked);
        let mut infos: Vec<(String, DependencyInfo)> = Vec::new();
        let n = dependency_map_len(&manifest.dependencies);
        let mut i: usize = 0;
        while i < n
            invariant
                i <= n,
                n == dependency_map_entries(manifest.dependencies).len(),
                roots == dependency_map_entries(manifest.dependencies),
                manifest_wf(*manifest),
                info_names(infos@).no_duplicates(),
                forall|k: int| 0 <= k < infos@.len() ==> info_wf((#[trigger] infos@[k]).1),
                forall|k: int| 0 <= k < infos@.len() ==> (#[trigger] infos@[k]).1.using is None,
                forall|k: int| 0 <= k < infos@.len() ==> (#[trigger] infos@[k]).1.dependencies@.len() == 0,
                forall|k: int| 0 <= k < infos@.len() ==> sources_distinct(#[trigger] infos@[k].1),
                reqs_ok(infos@, roots, lk),
            decreases n - i,
        {
            let (name, dep) = dependency_map_get_index(&manifest.dependencies, i);
            proof {
                assert(prerelease_text_valid(dependency_map_entries(manifest.dependencies)[i as int].1.pre));
            }
            let range = VersionRange::same_or_later(dep.version.clone());
            let ghost range_view = range@;
            let mut requirements: Vec<(String, VersionRange)> = Vec::new();
            requirements.push((String::new(), range));
            let info = DependencyInfo { using: None, current: None, requirements, dependencies: Vec::new() };
            proof {
                assert(root_range(roots, name@, range_view)) by {
                    assert(roots[i as int].0 == name@);
                }
                assert(info.requirements@[0].0@.len() == 0);
            }
            let ghost before = infos@;
            let ghost at: int;
            // `insert` replaces an entry of the same name
            match find_info(&infos, name.as_str()) {
                Some(k) => {
                    infos.set(k, (name.clone(), info));
                    proof {
                        at = k as int;
                        assert(info_names(infos@) =~= info_names(before));
                        assert forall|q: int| 0 <= q < infos@.len() implies info_wf((#[trigger] infos@[q]).1) by {
                            if q != k {
                                assert(infos@[q] == before[q]);
                            }
                        }
                    }
                },
                None => {
                    infos.push((name.clone(), info));
                    proof {
                        at = before.len() as int;
                        lemma_push_info(before, infos@.last());
                    }
                },
            }
            proof {
                let c = infos@;
                assert forall|q: int| 0 <= q < c.len() && q != at implies #[trigger] c[q] == before[q] by {}
                assert(c[at].1 == info);
                assert(declarations_kept(before, c, -1)) by {
                    assert forall|j: int| 0 <= j < before.len() implies (#[trigger] c[j]).0@ == before[j].0@
                        && c[j].1.using == before[j].1.using && c[j].1.dependencies@ == before[j].1.dependencies@ by {
                        if j != at {
                            assert(c[j] == before[j]);
                        } else {
                            assert(c[j].1.dependencies@ =~= before[j].1.dependencies@);
                        }
                    }
                }
                assert forall|k: int, m: int| 0 <= k < c.len() && 0 <= m < c[k].1.requirements@.len()
                    implies (k < before.len() && before[k].1.requirements@.contains(#[trigger] c[k].1.requirements@[m]))
                        || requirement_ok(c, roots, lk, c[k].0@, c[k].1.requirements@[m]) by {
                    if k == at {
                        assert(c[k].1.requirements@[m] == info.requirements@[0]);
                    } else {
                        assert(c[k] == before[k]);
                    }
                }
                assert forall|k: int| 0 <= k < c.len() implies sources_distinct(#[trigger] c[k].1) by {
                    if k != at {
                        assert(c[k] == before[k]);
                    }
                }
                lemma_reqs_kept(before, c, -1, roots, lk);
            }
            i = i + 1;
        }
        let count = locked_map_len(&manifest.locked);
        let mut i: usize = 0;
        while i < count
            invariant
                i <= count,
                count == locked_map_entries(manifest.locked).len(),
                lk == locked_map_entries(manifest.locked),
                manifest_wf(*manifest),
                info_names(infos@).no_duplicates(),
                forall|k: int| 0 <= k < infos@.len() ==> info_wf((#[trigger] infos@[k]).1),
                forall|k: int| 0 <= k < infos@.len() ==> (#[trigger] infos@[k]).1.using is None,
                forall|k: int| 0 <= k < infos@.len() && (#[trigger] infos@[k]).1.dependencies@.len() > 0
                    ==> exists|q: int| 0 <= q < i && (#[trigger] lk[q]).0 == infos@[k].0@,
                forall|k: int| 0 <= k < infos@.len() ==> sources_distinct(#[trigger] infos@[k].1),
                reqs_ok(infos@, roots, lk),
                locked_known(infos@, lk, i as int),
            decreases count - i,
        {
            let (source, locked) = locked_map_get_index(&manifest.locked, i);
            proof {
                assert(prerelease_text_valid(locked_map_entries(manifest.locked)[i as int].1.version.pre));
            }
            let ghost a0 = infos@;
            let k = info_entry(&mut infos, source.as_str());
            let names = range_map_key_names(&locked.dependencies);
            let version = locked.version.clone();
            let ghost b1 = infos@;
            let (key, mut info) = take_info(&mut infos, k);
            info.current = Some(version);
            info.dependencies = names;
            put_info(&mut infos, k, (key, info));
            proof {
                let c = infos@;
                assert(b1[k as int].1.dependencies@.len() == 0) by {
                    if b1[k as int].1.dependencies@.len() > 0 {
                        assert(k < a0.len());
                        assert(a0[k as int] == b1[k as int]);
                        let q = choose|q: int| 0 <= q < i && (#[trigger] lk[q]).0 == b1[k as int].0@;
                        assert(lk[q].0 == source@);
                    }
                }
                assert forall|q: int| 0 <= q < c.len() && q != k implies #[trigger] c[q] == b1[q] by {}
                assert(declarations_kept(b1, c, k as int));
                assert forall|kk: int, m: int| 0 <= kk < c.len() && 0 <= m < c[kk].1.requirements@.len()
                    implies (kk < b1.len() && b1[kk].1.requirements@.contains(#[trigger] c[kk].1.requirements@[m]))
                        || requirement_ok(c, roots, lk, c[kk].0@, c[kk].1.requirements@[m]) by {
                    if kk != k {
                        assert(c[kk] == b1[kk]);
                    }
                    assert(c[kk].1.requirements@[m] == b1[kk].1.requirements@[m]);
                }
                assert(reqs_ok(b1, roots, lk)) by {
                    assert(declarations_kept(a0, b1, -1));
                    assert forall|kk: int, m: int| 0 <= kk < b1.len() && 0 <= m < b1[kk].1.requirements@.len()
                        implies (kk < a0.len() && a0[kk].1.requirements@.contains(#[trigger] b1[kk].1.requirements@[m]))
                            || requirement_ok(b1, roots, lk, b1[kk].0@, b1[kk].1.requirements@[m]) by {
                        assert(kk < a0.len());
                        assert(b1[kk] == a0[kk]);
                        assert(a0[kk].1.requirements@[m] == b1[kk].1.requirements@[m]);
                    }
                    lemma_reqs_kept(a0, b1, -1, roots, lk);
                }
                lemma_reqs_kept(b1, c, k as int, roots, lk);
                assert forall|kk: int| 0 <= kk < c.len() && (#[trigger] c[kk]).1.dependencies@.len() > 0
                    implies exists|q: int| 0 <= q < i + 1 && (#[trigger] lk[q]).0 == c[kk].0@ by {
                    if kk == k {
                        assert(lk[i as int].0 == c[kk].0@);
                    } else {
                        assert(c[kk] == b1[kk]);
                        assert(kk < a0.len());
                        assert(b1[kk] == a0[kk]);
                        let q = choose|q: int| 0 <= q < i && (#[trigger] lk[q]).0 == a0[kk].0@;
                        assert(lk[q].0 == c[kk].0@);
                    }
                }
                assert forall|kk: int| 0 <= kk < c.len() implies sources_distinct(#[trigger] c[kk].1) by {
                    if kk != k {
                        assert(c[kk] == b1[kk]);
                    }
                }
            }
            proof {
                let c = infos@;
                assert forall|q: int| 0 <= q < c.len() && q != k implies #[trigger] c[q] == b1[q] by {}
                assert(names_kept(a0, c)) by {
                    assert forall|kk: int| 0 <= kk < a0.len() implies (#[trigger] c[kk]).0@ == a0[kk].0@ by {
                        assert(b1[kk] == a0[kk]);
                    }
                }
                assert(requirements_kept(a0, c, -1, source@)) by {
                    assert forall|kk: int, mm: int| 0 <= kk < a0.len() && 0 <= mm < a0[kk].1.requirements@.len()
                        && !(kk == -1 && (#[trigger] a0[kk].1.requirements@[mm]).0@ == source@)
                        implies records(c[kk].1, a0[kk].1.requirements@[mm].0@, a0[kk].1.requirements@[mm].1@) by {
                        assert(b1[kk] == a0[kk]);
                        assert(c[kk].1.requirements@ == a0[kk].1.requirements@);
                        assert(c[kk].1.requirements@[mm] == a0[kk].1.requirements@[mm]);
                    }
                }
                assert forall|q: int, jj: int| 0 <= q < i && 0 <= jj < lk[q].1.dependencies.len()
                    implies recorded(c, lk[q].0, #[trigger] lk[q].1.dependencies[jj]) by {
                    lemma_recorded_kept(a0, c, -1, source@, lk[q].0, lk[q].1.dependencies[jj]);
                }
                assert forall|q: int| 0 <= q < i + 1 implies has_version(c, (#[trigger] lk[q]).0, lk[q].1.version) by {
                    if q == i {
                        assert(c[k as int].0@ == lk[q].0);
                    } else {
                        let w = choose|w: int| 0 <= w < a0.len() && (#[trigger] a0[w]).0@ == lk[q].0 && a0[w].1.current is Some
                            && a0[w].1.current->0@ == lk[q].1.version;
                        assert(lk[q].0 != source@);
                        assert(b1[w] == a0[w]);
                        assert(w != k);
                        assert(c[w] == a0[w]);
                    }
                }
            }
            let m = range_map_len(&locked.dependencies);
            let mut j: usize = 0;
            while j < m
                invariant
                    j <= m,
                    m == range_map_entries(locked.dependencies).len(),
                    locked@ == locked_map_entries(manifest.locked)[i as int].1,
                    source@ == lk[i as int].0,
                    i < count,
                    count == locked_map_entries(manifest.locked).len(),
                    lk == locked_map_entries(manifest.locked),
                    manifest_wf(*manifest),
                    info_names(infos@).no_duplicates(),
                    forall|k: int| 0 <= k < infos@.len() ==> info_wf((#[trigger] infos@[k]).1),
                    forall|k: int| 0 <= k < infos@.len() ==> (#[trigger] infos@[k]).1.using is None,
                    forall|k: int| 0 <= k < infos@.len() && (#[trigger] infos@[k]).1.dependencies@.len() > 0
                        ==> exists|q: int| 0 <= q < i + 1 && (#[trigger] lk[q]).0 == infos@[k].0@,
                    forall|k: int| 0 <= k < infos@.len() ==> sources_distinct(#[trigger] infos@[k].1),
                    reqs_ok(infos@, roots, lk),
                    k < infos@.len(),
                    infos@[k as int].0@ == source@,
                    names_view(infos@[k as int].1.dependencies@) == keys_of(range_map_entries(locked.dependencies)),
                    locked_known(infos@, lk, i as int),
                    has_version(infos@, lk[i as int].0, lk[i as int].1.version),
                    forall|q: int| 0 <= q < lk.len() && q != i ==> (#[trigger] lk[q]).0 != source@,
                    forall|jj: int| 0 <= jj < j ==> recorded(infos@, lk[i as int].0, #[trigger] lk[i as int].1.dependencies[jj]),
                decreases m - j,
            {
                let (dependency, range) = range_map_get_index(&locked.dependencies, j);
                proof {
                    assert(range_wf(locked_map_entries(manifest.locked)[i as int].1.dependencies[j as int].1));
                }
                let ghost a2 = infos@;
                let d = info_entry(&mut infos, dependency.as_str());
                let ghost b2 = infos@;
                let (key, mut info) = take_info(&mut infos, d);
                let ghost taken = info;
                let ghost range_view = range@;
                add_range(&mut info, source.as_str(), range.clone());
                put_info(&mut infos, d, (key, info));
                proof {
                    let c = infos@;
                    assert forall|q: int| 0 <= q < c.len() && q != d implies #[trigger] c[q] == b2[q] by {}
                    assert(taken == b2[d as int].1);
                    assert(declarations_kept(a2, c, -1)) by {
                        assert forall|q: int| 0 <= q < a2.len() implies (#[trigger] c[q]).0@ == a2[q].0@
                            && c[q].1.using == a2[q].1.using && c[q].1.dependencies == a2[q].1.dependencies by {
                            assert(b2[q] == a2[q]);
                        }
                    }
                    assert(keys_of(range_map_entries(locked.dependencies))[j as int] == dependency@);
                    assert(range_map_entries(locked.dependencies)[j as int] == (dependency@, range_view));
                    assert(declared_by(c, lk, source@, dependency@, range_view)) by {
                        assert(c[k as int] == a2[k as int] || k == d);
                        assert(c[k as int].0@ == source@);
                        assert(names_view(c[k as int].1.dependencies@).contains(dependency@)) by {
                            assert(names_view(c[k as int].1.dependencies@)[j as int] == dependency@);
                        }
                        assert(lk[i as int].1.dependencies.contains((dependency@, range_view))) by {
                            assert(lk[i as int].1.dependencies[j as int] == (dependency@, range_view));
                        }
                        assert(declares(c[k as int].1, lk, source@, dependency@, range_view));
                    }
                    assert forall|kk: int, mm: int| 0 <= kk < c.len() && 0 <= mm < c[kk].1.requirements@.len()
                        implies (kk < a2.len() && a2[kk].1.requirements@.contains(#[trigger] c[kk].1.requirements@[mm]))
                            || requirement_ok(c, roots, lk, c[kk].0@, c[kk].1.requirements@[mm]) by {
                        let req = c[kk].1.requirements@[mm];
                        if kk != d {
                            assert(kk < a2.len());
                            assert(c[kk] == b2[kk]);
                            assert(b2[kk] == a2[kk]);
                            assert(a2[kk].1.requirements@[mm] == req);
                        } else if !(req.0@ == source@ && req.1@ == range_view) {
                            assert(taken.requirements@.contains(req));
                            assert(kk < a2.len());
                            assert(b2[kk] == a2[kk]);
                        } else {
                            assert(c[kk].0@ == dependency@);
                        }
                    }
                    lemma_reqs_kept(a2, c, -1, roots, lk);
                    assert forall|kk: int| 0 <= kk < c.len() implies sources_distinct(#[trigger] c[kk].1) by {
                        if kk != d {
                            assert(c[kk] == b2[kk]);
                            if kk < a2.len() {
                                assert(b2[kk] == a2[kk]);
                            }
                        } else if d < a2.len() {
                            assert(b2[kk] == a2[kk]);
                        }
                    }
                    assert forall|kk: int| 0 <= kk < c.len() && (#[trigger] c[kk]).1.dependencies@.len() > 0
                        implies exists|q: int| 0 <= q < i + 1 && (#[trigger] lk[q]).0 == c[kk].0@ by {
                        assert(kk < a2.len());
                        assert(c[kk].1.dependencies == a2[kk].1.dependencies);
                        assert(a2[kk].1.dependencies@.len() > 0);
                    }
                    assert(c[k as int].1.dependencies == a2[k as int].1.dependencies);
                    // what was recorded stays recorded, and the new range is recorded
                    assert(names_kept(a2, c)) by {
                        assert forall|kk: int| 0 <= kk < a2.len() implies (#[trigger] c[kk]).0@ == a2[kk].0@ by {
                            assert(b2[kk] == a2[kk]);
                        }
                    }
                    assert(requirements_kept(a2, c, d as int, source@)) by {
                        assert forall|kk: int, mm: int| 0 <= kk < a2.len() && 0 <= mm < a2[kk].1.requirements@.len()
                            && !(kk == d && (#[trigger] a2[kk].1.requirements@[mm]).0@ == source@)
                            implies records(c[kk].1, a2[kk].1.requirements@[mm].0@, a2[kk].1.requirements@[mm].1@) by {
                            assert(b2[kk] == a2[kk]);
                            if kk != d {
                                assert(c[kk] == a2[kk]);
                                assert(c[kk].1.requirements@[mm] == a2[kk].1.requirements@[mm]);
                            }
                        }
                    }
                    assert forall|q: int, jj: int| 0 <= q < i && 0 <= jj < lk[q].1.dependencies.len()
                        implies recorded(c, lk[q].0, #[trigger] lk[q].1.dependencies[jj]) by {
                        assert(lk[q].0 != source@);
                        lemma_recorded_kept(a2, c, d as int, source@, lk[q].0, lk[q].1.dependencies[jj]);
                    }
                    assert forall|jj: int| 0 <= jj < j + 1 implies recorded(c, lk[i as int].0, #[trigger] lk[i as int].1.dependencies[jj]) by {
                        if jj == j {
                            assert(c[d as int].0@ == dependency@);
                            assert(records(c[d as int].1, source@, range_view));
                        } else {
                            assert(lk[i as int].1.dependencies[jj] == range_map_entries(locked.dependencies)[jj]);
                            assert(range_map_entries(locked.dependencies)[jj].0 != dependency@);
                            lemma_recorded_kept(a2, c, d as int, source@, lk[i as int].0, lk[i as int].1.dependencies[jj]);
                        }
                    }
                    assert forall|q: int| 0 <= q < i + 1 implies has_version(c, (#[trigger] lk[q]).0, lk[q].1.version) by {
                        let w = choose|w: int| 0 <= w < a2.len() && (#[trigger] a2[w]).0@ == lk[q].0 && a2[w].1.current is Some
                            && a2[w].1.current->0@ == lk[q].1.version;
                        assert(b2[w] == a2[w]);
                        assert(c[w].0@ == lk[q].0);
                        assert(c[w].1.current == a2[w].1.current);
                    }
                }
                j = j + 1;
            }
            i = i + 1;
        }
        let ghost names = packages@.map_values(|p: PackageJson| p.name@);
        let r = Resolver {
            infos,
            queue: packages,
            current: None,
            next_dependency: 0,
            lookup: None,
            requested: Ghost(names),
            roots: Ghost(roots),
            locked: Ghost(lk),
        };
        proof {
            assert forall|q: int| 0 <= q < r.requested@.len() implies is_chosen(r.infos@, #[trigger] r.requested@[q])
                || queued(r.queue@, r.requested@[q]) by {
                assert(r.queue@[q].name@ == r.requested@[q]);
            }
        }
        r
    }

    /// Runs until a lookup is needed or resolution is over. When the queue and the current
    /// package are done, checks every recorded range against the version chosen or installed
    /// for its package. A lookup asks for a dependency of the package being processed, with the
    /// range that package declares for it. On success every package asked for is chosen, and
    /// every dependency of a chosen package has a version, chosen or installed, inside the range
    /// it needs. Every range checked is the project's own or one that its source, as it now
    /// stands (chosen or locked), declares: when a package is replaced by another version, the
    /// ranges its earlier version recorded on its dependencies are removed (they are recorded
    /// under the replaced package's name), so a range the new version no longer declares cannot
    /// make a conflict.
    pub fn next(&mut self) -> (r: ResolveStep)
        requires
            old(self).wf(),
            old(self).consistent(),
            old(self).lookup is None,
        ensures
            final(self).wf(),
            final(self).consistent(),
            final(self).requested == old(self).requested,
            final(self).roots == old(self).roots,
            final(self).locked == old(self).locked,
            match r {
                ResolveStep::Lookup { name, range } => {
                    &&& final(self).lookup matches Some((n, rr)) && n@ == name@ && rr@ == range@
                    &&& final(self).current matches Some((cn, deps)) && 0 < final(self).next_dependency
                        && final(self).next_dependency <= range_map_entries(deps).len()
                        && range_map_entries(deps)[final(self).next_dependency - 1] == (name@, range@)
                    &&& !exists|i: int| 0 <= i < final(self).queue@.len() && (#[trigger] final(self).queue@[i]).name@ == name@
                        && spec_range_matches(range@, final(self).queue@[i].version@, false)
                    &&& exists|i: int| 0 <= i < final(self).infos@.len() && (#[trigger] final(self).infos@[i]).0@ == name@
                        && !(final(self).infos@[i].1.current matches Some(v) && spec_range_matches(range@, v@, false))
                },
                ResolveStep::Done(Ok(())) => {
                    &&& final(self).queue@.len() == 0
                    &&& conflict_free(final(self).infos@)
                    &&& dependencies_met(final(self).infos@)
                    &&& forall|i: int| 0 <= i < final(self).requested@.len()
                        ==> is_chosen(final(self).infos@, #[trigger] final(self).requested@[i])
                },
                ResolveStep::Done(Err(AddPackageErr::ConflictWithDependencies { conflict, dependency_name })) => {
                    exists|i: int, j: int| 0 <= i < final(self).infos@.len() && 0 <= j < final(self).infos@[i].1.requirements@.len()
                        && final(self).infos@[i].0@ == conflict@
                        && final(self).infos@[i].1.requirements@[j].0@ == dependency_name@
                        && #[trigger] version_misses(final(self).infos@, i, j)
                        && requirement_ok(final(self).infos@, final(self).roots@, final(self).locked@,
                            final(self).infos@[i].0@, final(self).infos@[i].1.requirements@[j])
                },
                ResolveStep::Done(Err(_)) => false,
            },
    {
        loop
            invariant
                self.wf(),
                self.consistent(),
                self.lookup is None,
                self.requested == old(self).requested,
                self.roots == old(self).roots,
                self.locked == old(self).locked,
            decreases self.queue@.len(), self.current_remaining(),
        {
            let mut finished = false;
            match &self.current {
                Some((name, deps)) => {
                    let count = range_map_len(deps);
                    if self.next_dependency < count {
                        let ghost next = self.next_dependency as int;
                        let ghost a = self.infos@;
                        let ghost q = self.queue@;
                        let ghost entries = range_map_entries(*deps);
                        let (dependency, range) = range_map_get_index(deps, self.next_dependency);
                        assert(range_wf(range_map_entries(*deps)[self.next_dependency as int].1));
                        let d = info_entry(&mut self.infos, dependency.as_str());
                        let pending = queue_has_match(&self.queue, dependency.as_str(), range);
                        let installed = match &self.infos[d].1.current {
                            Some(v) => {
                                assert(info_wf(self.infos@[d as int].1));
                                range.matches(v)
                            },
                            None => false,
                        };
                        let install = !pending && !installed;
                        let ghost before = self.infos@;
                        let (key, mut info) = take_info(&mut self.infos, d);
                        add_range(&mut info, name.as_str(), range.clone());
                        let ghost added = info;
                        put_info(&mut self.infos, d, (key, info));
                        proof {
                            let c = self.infos@;
                            let n = name@;
                            let lk: Option<Seq<char>> = if install { Some(dependency@) } else { None };
                            assert(c[d as int].0@ == dependency@);
                            assert(c[d as int].1 == added);
                            assert(c[d as int].1.current == before[d as int].1.current);
                            assert(names_kept(a, c));
                            assert forall|k: int| 0 <= k < c.len() && k != d implies #[trigger] c[k] == before[k] by {}
                            assert forall|k: int| 0 <= k < a.len() && provided(a, q, None, k)
                                implies #[trigger] provided(c, q, lk, k) by {
                                if k == d {
                                    assert(before[k] == a[k]);
                                } else {
                                    assert(c[k] == a[k]);
                                }
                            }
                            assert forall|k: int, m: int| 0 <= k < a.len() && 0 <= m < a[k].1.requirements@.len()
                                && !(k == d && (#[trigger] a[k].1.requirements@[m]).0@ == n)
                                implies records(c[k].1, a[k].1.requirements@[m].0@, a[k].1.requirements@[m].1@) by {
                                if k == d {
                                    assert(before[k] == a[k]);
                                } else {
                                    assert(c[k] == a[k]);
                                    assert(c[k].1.requirements@[m] == a[k].1.requirements@[m]);
                                }
                            }
                            // no entry added here is named `n`
                            assert forall|i: int| a.len() <= i < c.len() implies #[trigger] c[i].0@ != n by {
                                let w = choose|w: int| 0 <= w < info_names(a).len() && info_names(a)[w] == n;
                                assert(c[w].0@ == n);
                                assert(info_names(c)[w] == n);
                                if c[i].0@ == n {
                                    assert(info_names(c)[i] == n);
                                }
                            }
                            assert forall|i: int| 0 <= i < c.len() implies #[trigger] chosen_deps(c, i) == (if i < a.len() {
                                chosen_deps(a, i)
                            } else {
                                Seq::empty()
                            }) by {
                                if i != d {
                                    assert(c[i] == before[i]);
                                }
                            }
                            assert forall|i: int, j: int| 0 <= i < c.len() && 0 <= j < chosen_deps(c, i).len()
                                && !(Some(n) == Some(c[i].0@) && j >= next)
                                implies i < a.len() && j < chosen_deps(a, i).len() && chosen_deps(a, i)[j] == #[trigger] chosen_deps(c, i)[j]
                                    && !(Some(n) == Some(a[i].0@) && j >= next) by {
                                assert(chosen_deps(c, i) == (if i < a.len() { chosen_deps(a, i) } else { Seq::empty() }));
                            }
                            assert forall|i: int, j: int| 0 <= i < a.len() && 0 <= j < chosen_deps(a, i).len() && 0 <= d < a.len()
                                && a[i].0@ == n && !(Some(n) == Some(a[i].0@) && j >= next)
                                implies (#[trigger] chosen_deps(a, i)[j]).0 != a[d as int].0@ by {
                                assert(chosen_deps(a, i) == entries);
                                assert(j != next);
                            }
                            lemma_all_handled_kept(a, q, None, Some(n), next, c, q, lk, Some(n), next, d as int, n);
                            assert forall|i: int, j: int| 0 <= i < c.len() && 0 <= j < chosen_deps(c, i).len()
                                && !(Some(n) == Some(c[i].0@) && j >= next + 1)
                                implies handled(c, q, lk, c[i].0@, #[trigger] chosen_deps(c, i)[j]) by {
                                if c[i].0@ == n && j == next {
                                    assert(i < a.len());
                                    assert(chosen_deps(c, i) == entries);
                                    assert(entries[j] == (dependency@, range@));
                                    assert(records(c[d as int].1, n, range@));
                                    if pending {
                                        let w = choose|w: int| 0 <= w < q.len() && (#[trigger] q[w]).name@ == dependency@
                                            && spec_range_matches(range@, q[w].version@, false);
                                        assert(queued(q, c[d as int].0@));
                                    }
                                    assert(provided(c, q, lk, d as int));
                                }
                            }
                            assert forall|r: int| 0 <= r < self.requested@.len() implies is_chosen(c, #[trigger] self.requested@[r])
                                || queued(q, self.requested@[r]) by {
                                if is_chosen(a, self.requested@[r]) {
                                    let w = choose|w: int| 0 <= w < a.len() && (#[trigger] a[w]).0@ == self.requested@[r] && a[w].1.using is Some;
                                    assert(c[w].0@ == a[w].0@);
                                    if w != d {
                                        assert(c[w] == a[w]);
                                    } else {
                                        assert(before[w] == a[w]);
                                    }
                                }
                            }
                            assert(info_names(c).contains(n)) by {
                                let w = choose|w: int| 0 <= w < info_names(a).len() && info_names(a)[w] == n;
                                assert(info_names(c)[w] == n);
                            }
                            assert forall|i: int| 0 <= i < c.len() && (#[trigger] c[i]).0@ == n implies chosen_deps(c, i) == entries by {
                                assert(chosen_deps(c, i) == (if i < a.len() { chosen_deps(a, i) } else { Seq::empty() }));
                                assert(i < a.len());
                                assert(a[i].0@ == n);
                            }
                            // the ranges recorded stay declared
                            let roots = self.roots@;
                            let lk = self.locked@;
                            assert(declarations_kept(a, c, -1)) by {
                                assert forall|j: int| 0 <= j < a.len() implies (#[trigger] c[j]).0@ == a[j].0@
                                    && c[j].1.using == a[j].1.using && c[j].1.dependencies@ == a[j].1.dependencies@ by {
                                    assert(before[j] == a[j]);
                                }
                            }
                            assert(declared_by(c, lk, n, dependency@, range@)) by {
                                let w = choose|w: int| 0 <= w < info_names(a).len() && info_names(a)[w] == n;
                                assert(a[w].0@ == n);
                                assert(c[w].0@ == n);
                                assert(chosen_deps(c, w) == entries);
                                assert(entries.len() > 0);
                                assert(c[w].1.using is Some);
                                assert(entries[next] == (dependency@, range@));
                                assert(entries.contains((dependency@, range@)));
                                assert(names_view(c[w].1.dependencies@) == keys_of(entries));
                                assert(keys_of(entries)[next] == dependency@);
                                assert(names_view(c[w].1.dependencies@).contains(dependency@));
                                assert(declares(c[w].1, lk, n, dependency@, range@));
                            }
                            assert forall|kk: int, mm: int| 0 <= kk < c.len() && 0 <= mm < c[kk].1.requirements@.len()
                                implies (kk < a.len() && a[kk].1.requirements@.contains(#[trigger] c[kk].1.requirements@[mm]))
                                    || requirement_ok(c, roots, lk, c[kk].0@, c[kk].1.requirements@[mm]) by {
                                let req = c[kk].1.requirements@[mm];
                                if kk != d {
                                    assert(c[kk] == before[kk]);
                                    assert(kk < a.len());
                                    assert(before[kk] == a[kk]);
                                    assert(a[kk].1.requirements@[mm] == req);
                                } else if !(req.0@ == n && req.1@ == range@) {
                                    assert(before[kk].1.requirements@.contains(req));
                                    assert(kk < a.len());
                                    assert(before[kk] == a[kk]);
                                }
                            }
                            lemma_reqs_kept(a, c, -1, roots, lk);
                            assert forall|kk: int| 0 <= kk < c.len() implies sources_distinct(#[trigger] c[kk].1) by {
                                if kk != d {
                                    assert(c[kk] == before[kk]);
                                }
                                if kk < a.len() {
                                    assert(before[kk] == a[kk]);
                                }
                            }
                            assert forall|kk: int| 0 <= kk < c.len() && (#[trigger] c[kk]).1.using is Some
                                implies names_view(c[kk].1.dependencies@) == keys_of(range_map_entries(c[kk].1.using->0.vpm_dependencies)) by {
                                assert(kk < a.len());
                                if kk != d {
                                    assert(c[kk] == before[kk]);
                                }
                                assert(before[kk] == a[kk]);
                            }
                        }
                        self.next_dependency = self.next_dependency + 1;
                        if install {
                            let dependency_name = dependency.clone();
                            self.lookup = Some((dependency.clone(), range.clone()));
                            return ResolveStep::Lookup { name: dependency_name, range: range.clone() };
                        }
                    } else {
                        finished = true;
                    }
                },
                None => {
                    if self.queue.len() == 0 {
                        let result = self.check_conflicts();
                        proof {
                            if result is Ok {
                                lemma_dependencies_met(self.infos@, self.queue@);
                                assert forall|r: int| 0 <= r < self.requested@.len()
                                    implies is_chosen(self.infos@, #[trigger] self.requested@[r]) by {
                                    assert(!queued(self.queue@, self.requested@[r]));
                                }
                            }
                        }
                        return ResolveStep::Done(result);
                    }
                    let ghost a = self.infos@;
                    let ghost before_queue = self.queue@;
                    let x = self.queue.remove(0);
                    proof {
                        assert(package_wf(before_queue[0]));
                        assert forall|q: int| 0 <= q < self.queue@.len() implies package_wf(#[trigger] self.queue@[q]) by {
                            assert(self.queue@[q] == before_queue[q + 1]);
                        }
                    }
                    let ghost qb = self.queue@;
                    let name = x.name.clone();
                    let deps = range_map_clone(&x.vpm_dependencies);
                    let new_dependencies = range_map_key_names(&x.vpm_dependencies);
                    let version = x.version.clone();
                    let k = info_entry(&mut self.infos, name.as_str());
                    let ghost b1 = self.infos@;
                    let (key, mut info) = take_info(&mut self.infos, k);
                    let ghost info_before = info;
                    let mut old_dependencies = new_dependencies;
                    std::mem::swap(&mut info.dependencies, &mut old_dependencies);
                    info.current = Some(version);
                    info.using = Some(x);
                    put_info(&mut self.infos, k, (key, info));
                    let ghost n = name@;
                    proof {
                        let c = self.infos@;
                        assert(c[k as int].0@ == n);
                        assert forall|i: int| 0 <= i < c.len() && i != k implies #[trigger] c[i] == b1[i] by {}
                        assert(names_kept(a, c));
                        assert forall|w: int| 0 <= w < a.len() && provided(a, before_queue, None, w)
                            implies #[trigger] provided(c, qb, None, w) by {
                            if w != k {
                                assert(c[w] == a[w]);
                                if a[w].1.current is None && queued(before_queue, a[w].0@) {
                                    let e = choose|e: int| 0 <= e < before_queue.len() && (#[trigger] before_queue[e]).name@ == a[w].0@;
                                    if e == 0 {
                                        assert(info_names(c)[w] == info_names(c)[k as int]);
                                    } else {
                                        assert(qb[e - 1] == before_queue[e]);
                                    }
                                }
                            }
                        }
                        assert forall|w: int, m: int| 0 <= w < a.len() && 0 <= m < a[w].1.requirements@.len()
                            && !(w == -1 && (#[trigger] a[w].1.requirements@[m]).0@ == n)
                            implies records(c[w].1, a[w].1.requirements@[m].0@, a[w].1.requirements@[m].1@) by {
                            if w != k {
                                assert(c[w] == a[w]);
                            } else {
                                assert(b1[w] == a[w]);
                            }
                            assert(c[w].1.requirements@[m] == a[w].1.requirements@[m]);
                        }
                        assert forall|i: int, j: int| 0 <= i < c.len() && 0 <= j < chosen_deps(c, i).len()
                            && !(Some(n) == Some(c[i].0@) && j >= 0)
                            implies i < a.len() && j < chosen_deps(a, i).len() && chosen_deps(a, i)[j] == #[trigger] chosen_deps(c, i)[j]
                                && !(None::<Seq<char>> == Some(a[i].0@) && j >= 0) by {
                            assert(i != k);
                            assert(c[i] == b1[i]);
                        }
                        lemma_all_handled_kept(a, before_queue, None, None, 0, c, qb, None, Some(n), 0, -1, n);
                        assert forall|r: int| 0 <= r < self.requested@.len() implies is_chosen(c, #[trigger] self.requested@[r])
                            || queued(qb, self.requested@[r]) by {
                            let rn = self.requested@[r];
                            if rn == n {
                                assert(c[k as int].0@ == rn);
                            } else if is_chosen(a, rn) {
                                let w = choose|w: int| 0 <= w < a.len() && (#[trigger] a[w]).0@ == rn && a[w].1.using is Some;
                                assert(w != k);
                                assert(c[w] == a[w]);
                            } else {
                                let e = choose|e: int| 0 <= e < before_queue.len() && (#[trigger] before_queue[e]).name@ == rn;
                                assert(e != 0);
                                assert(qb[e - 1] == before_queue[e]);
                            }
                        }
                        // the ranges the replaced version recorded wait to be removed
                        let roots = self.roots@;
                        let lk = self.locked@;
                        assert(b1[k as int].1 == info_before);
                        assert(declarations_kept_except(b1, c, k as int));
                        assert forall|kk: int, mm: int| 0 <= kk < c.len() && 0 <= mm < c[kk].1.requirements@.len()
                            implies requirement_ok(c, roots, lk, c[kk].0@, #[trigger] c[kk].1.requirements@[mm])
                                || (c[kk].1.requirements@[mm].0@ == n && names_view(old_dependencies@).contains(c[kk].0@)) by {
                            let req = c[kk].1.requirements@[mm];
                            assert(kk < a.len());
                            assert(b1[kk] == a[kk]);
                            assert(c[kk].1.requirements@ == b1[kk].1.requirements@);
                            assert(requirement_ok(b1, roots, lk, b1[kk].0@, b1[kk].1.requirements@[mm]));
                            lemma_ok_or_stale(b1, c, k as int, roots, lk, c[kk].0@, req);
                        }
                        assert forall|kk: int| 0 <= kk < c.len() implies sources_distinct(#[trigger] c[kk].1) by {
                            assert(c[kk].1.requirements@ == b1[kk].1.requirements@);
                            if kk < a.len() {
                                assert(b1[kk] == a[kk]);
                            }
                        }
                        assert forall|kk: int| 0 <= kk < c.len() && (#[trigger] c[kk]).1.using is Some
                            implies names_view(c[kk].1.dependencies@) == keys_of(range_map_entries(c[kk].1.using->0.vpm_dependencies)) by {
                            if kk != k {
                                assert(kk < a.len());
                                assert(b1[kk] == a[kk]);
                            }
                        }
                        assert(old_dependencies@.skip(0) =~= old_dependencies@);
                        assert(names_view(old_dependencies@).skip(0) =~= names_view(old_dependencies@));
                    }
                    // drop the ranges the replaced version recorded, under this package's name
                    let mut o: usize = 0;
                    while o < old_dependencies.len()
                        invariant
                            o <= old_dependencies@.len(),
                            self.lookup is None,
                            self.current is None,
                            self.requested == old(self).requested,
                            name@ == n,
                            self.queue@ == before_queue.drop_first(),
                            forall|i: int| 0 <= i < self.queue@.len() ==> package_wf(#[trigger] self.queue@[i]),
                            info_names(self.infos@).no_duplicates(),
                            forall|q: int| 0 <= q < self.infos@.len() ==> info_wf((#[trigger] self.infos@[q]).1),
                            all_handled(self.infos@, self.queue@, None, Some(n), 0),
                            k < self.infos@.len(),
                            self.infos@[k as int].0@ == n,
                            chosen_deps(self.infos@, k as int) == range_map_entries(deps),
                            forall|r: int| 0 <= r < self.requested@.len() ==> is_chosen(self.infos@, #[trigger] self.requested@[r])
                                || queued(self.queue@, self.requested@[r]),
                            self.roots == old(self).roots,
                            self.locked == old(self).locked,
                            reqs_ok_but(self.infos@, self.roots@, self.locked@, n, names_view(old_dependencies@).skip(o as int)),
                            forall|kk: int| 0 <= kk < self.infos@.len() ==> sources_distinct(#[trigger] self.infos@[kk].1),
                            forall|kk: int| 0 <= kk < self.infos@.len() && (#[trigger] self.infos@[kk]).1.using is Some
                                ==> names_view(self.infos@[kk].1.dependencies@)
                                    == keys_of(range_map_entries(self.infos@[kk].1.using->0.vpm_dependencies)),
                        decreases old_dependencies@.len() - o,
                    {
                        let dep = old_dependencies[o].as_str();
                        match find_info(&self.infos, dep) {
                            Some(q) => {
                                let ghost a2 = self.infos@;
                                let (key, mut info) = take_info(&mut self.infos, q);
                                let ghost taken_q = info;
                                remove_range(&mut info, name.as_str());
                                put_info(&mut self.infos, q, (key, info));
                                proof {
                                    let c = self.infos@;
                                    let qq = self.queue@;
                                    assert forall|i: int| 0 <= i < c.len() && i != q implies #[trigger] c[i] == a2[i] by {}
                                    assert(names_kept(a2, c));
                                    assert forall|w: int| 0 <= w < a2.len() && provided(a2, qq, None, w)
                                        implies #[trigger] provided(c, qq, None, w) by {
                                        if w != q {
                                            assert(c[w] == a2[w]);
                                        }
                                    }
                                    assert forall|w: int, m: int| 0 <= w < a2.len() && 0 <= m < a2[w].1.requirements@.len()
                                        && !(w == q && (#[trigger] a2[w].1.requirements@[m]).0@ == n)
                                        implies records(c[w].1, a2[w].1.requirements@[m].0@, a2[w].1.requirements@[m].1@) by {
                                        if w != q {
                                            assert(c[w] == a2[w]);
                                            assert(c[w].1.requirements@[m] == a2[w].1.requirements@[m]);
                                        }
                                    }
                                    assert forall|i: int, j: int| 0 <= i < c.len() && 0 <= j < chosen_deps(c, i).len()
                                        && !(Some(n) == Some(c[i].0@) && j >= 0)
                                        implies i < a2.len() && j < chosen_deps(a2, i).len() && chosen_deps(a2, i)[j] == #[trigger] chosen_deps(c, i)[j]
                                            && !(Some(n) == Some(a2[i].0@) && j >= 0) by {
                                        if i != q {
                                            assert(c[i] == a2[i]);
                                        }
                                    }
                                    lemma_all_handled_kept(a2, qq, None, Some(n), 0, c, qq, None, Some(n), 0, q as int, n);
                                    assert(chosen_deps(c, k as int) == chosen_deps(a2, k as int));
                                    assert forall|r: int| 0 <= r < self.requested@.len() implies is_chosen(c, #[trigger] self.requested@[r])
                                        || queued(qq, self.requested@[r]) by {
                                        if is_chosen(a2, self.requested@[r]) {
                                            let w = choose|w: int| 0 <= w < a2.len() && (#[trigger] a2[w]).0@ == self.requested@[r] && a2[w].1.using is Some;
                                            assert(c[w].0@ == a2[w].0@);
                                        }
                                    }
                                    let roots = self.roots@;
                                    let lk = self.locked@;
                                    let pend = names_view(old_dependencies@);
                                    assert(pend[o as int] == dep@);
                                    assert(taken_q == a2[q as int].1);
                                    assert(declarations_kept(a2, c, -1)) by {
                                        assert forall|j: int| 0 <= j < a2.len() implies (#[trigger] c[j]).0@ == a2[j].0@
                                            && c[j].1.using == a2[j].1.using && c[j].1.dependencies@ == a2[j].1.dependencies@ by {
                                            if j != q {
                                                assert(c[j] == a2[j]);
                                            }
                                        }
                                    }
                                    assert forall|kk: int, mm: int| 0 <= kk < c.len() && 0 <= mm < c[kk].1.requirements@.len()
                                        implies requirement_ok(c, roots, lk, c[kk].0@, #[trigger] c[kk].1.requirements@[mm])
                                            || (c[kk].1.requirements@[mm].0@ == n && pend.skip(o + 1).contains(c[kk].0@)) by {
                                        let req = c[kk].1.requirements@[mm];
                                        let m2: int = if kk == q {
                                            choose|m2: int| 0 <= m2 < a2[kk].1.requirements@.len() && a2[kk].1.requirements@[m2] == req
                                        } else {
                                            mm
                                        };
                                        if kk != q {
                                            assert(c[kk] == a2[kk]);
                                        } else {
                                            assert(taken_q.requirements@.contains(req));
                                        }
                                        assert(a2[kk].1.requirements@[m2] == req);
                                        if requirement_ok(a2, roots, lk, a2[kk].0@, req) {
                                            lemma_ok_kept(a2, c, -1, roots, lk, c[kk].0@, req);
                                        } else {
                                            assert(req.0@ == n && pend.skip(o as int).contains(c[kk].0@));
                                            if kk == q {
                                                assert(req.0@ != name@);
                                            }
                                            assert(info_names(c)[kk] != info_names(c)[q as int]);
                                            lemma_skip_contains(pend, o as int, c[kk].0@);
                                        }
                                    }
                                    assert forall|kk: int| 0 <= kk < c.len() implies sources_distinct(#[trigger] c[kk].1) by {
                                        if kk != q {
                                            assert(c[kk] == a2[kk]);
                                        }
                                    }
                                    assert forall|kk: int| 0 <= kk < c.len() && (#[trigger] c[kk]).1.using is Some
                                        implies names_view(c[kk].1.dependencies@) == keys_of(range_map_entries(c[kk].1.using->0.vpm_dependencies)) by {
                                        if kk != q {
                                            assert(c[kk] == a2[kk]);
                                        }
                                    }
                                }
                            },
                            None => {
                                proof {
                                    let c = self.infos@;
                                    let pend = names_view(old_dependencies@);
                                    assert(pend[o as int] == dep@);
                                    assert forall|kk: int, mm: int| 0 <= kk < c.len() && 0 <= mm < c[kk].1.requirements@.len()
                                        implies requirement_ok(c, self.roots@, self.locked@, c[kk].0@, #[trigger] c[kk].1.requirements@[mm])
                                            || (c[kk].1.requirements@[mm].0@ == n && pend.skip(o + 1).contains(c[kk].0@)) by {
                                        if !requirement_ok(c, self.roots@, self.locked@, c[kk].0@, c[kk].1.requirements@[mm]) {
                                            assert(info_names(c)[kk] == c[kk].0@);
                                            assert(c[kk].0@ != dep@);
                                            lemma_skip_contains(pend, o as int, c[kk].0@);
                                        }
                                    }
                                }
                            },
                        }
                        o = o + 1;
                    }
                    self.current = Some((name, deps));
                    self.next_dependency = 0;
                    proof {
                        assert(names_view(old_dependencies@).skip(old_dependencies@.len() as int).len() == 0);
                        assert(reqs_ok(self.infos@, self.roots@, self.locked@));
                        assert(info_names(self.infos@)[k as int] == n);
                        assert forall|c: int| 0 <= c < self.infos@.len() && (#[trigger] self.infos@[c]).0@ == n
                            implies chosen_deps(self.infos@, c) == range_map_entries(deps) by {
                            assert(info_names(self.infos@)[c] == n);
                        }
                    }
                },
            }
            if finished {
                self.current = None;
            }
        }
    }

    /// The answer to the lookup asked for: a missing package ends resolution; a found one
    /// replaces any waiting package of the same name at the end of the queue.
    pub fn found(&mut self, answer: Option<PackageJson>) -> (r: Result<(), AddPackageErr>)
        requires
            old(self).wf(),
            old(self).consistent(),
            old(self).lookup is Some,
            answer matches Some(p) ==> package_wf(p) && p.name@ == old(self).lookup_name(),
        ensures
            final(self).wf(),
            final(self).lookup is None,
            final(self).requested == old(self).requested,
            final(self).roots == old(self).roots,
            final(self).locked == old(self).locked,
            r is Ok ==> final(self).consistent(),
            answer is None ==> (r matches Err(AddPackageErr::DependencyNotFound { dependency_name })
                && dependency_name@ == old(self).lookup_name()),
            answer is Some ==> r is Ok && final(self).queue@ == old(self).queue@.filter(
                |q: PackageJson| q.name@ != old(self).lookup_name(),
            ).push(answer->0),
    {
        let asked = self.lookup.take();
        let name = match asked {
            Some((n, _)) => n,
            None => String::new(),
        };
        match answer {
            None => Err(AddPackageErr::DependencyNotFound { dependency_name: name }),
            Some(p) => {
                let ghost pn = p.name@;
                add_pending_package(&mut self.queue, p);
                proof {
                    let n = old(self).lookup_name();
                    assert(name@ == n);
                    let keep = |q: PackageJson| q.name@ != name@;
                    assert(keep =~= (|q: PackageJson| q.name@ != n));
                    let qa = old(self).queue@;
                    let qb = self.queue@;
                    let infos = self.infos@;
                    assert(qb.last().name@ == n);
                    assert(queued(qb, n)) by {
                        assert(qb[qb.len() - 1].name@ == n);
                    }
                    assert forall|nm: Seq<char>| #[trigger] queued(qa, nm) implies queued(qb, nm) by {
                        if nm != n {
                            let e = choose|e: int| 0 <= e < qa.len() && (#[trigger] qa[e]).name@ == nm;
                            qa.lemma_filter_contains(keep, e);
                            let f = choose|f: int| 0 <= f < qa.filter(keep).len() && qa.filter(keep)[f] == qa[e];
                            assert(qb[f] == qa[e]);
                        }
                    }
                    assert forall|w: int| 0 <= w < infos.len() && provided(infos, qa, Some(n), w)
                        implies #[trigger] provided(infos, qb, None, w) by {
                        if queued(qa, infos[w].0@) {
                            assert(queued(qb, infos[w].0@));
                        }
                    }
                    assert forall|w: int, m: int| 0 <= w < infos.len() && 0 <= m < infos[w].1.requirements@.len()
                        && !(w == -1 && (#[trigger] infos[w].1.requirements@[m]).0@ == n)
                        implies records(infos[w].1, infos[w].1.requirements@[m].0@, infos[w].1.requirements@[m].1@) by {}
                    lemma_all_handled_kept(infos, qa, Some(n), self.current_name(), self.next_dependency as int,
                        infos, qb, None, self.current_name(), self.next_dependency as int, -1, n);
                    assert forall|r: int| 0 <= r < self.requested@.len() implies is_chosen(infos, #[trigger] self.requested@[r])
                        || queued(qb, self.requested@[r]) by {
                        if queued(qa, self.requested@[r]) {
                            assert(queued(qb, self.requested@[r]));
                        }
                    }
                }
                Ok(())
            },
        }
    }

    /// The final check: the first recorded range that the version of its package does not
    /// match, in the order of the entries and of their ranges; otherwise the packages chosen.
    fn check_conflicts(&self) -> (r: Result<(), AddPackageErr>)
        requires
            self.wf(),
        ensures
            match r {
                Ok(()) => conflict_free(self.infos@),
                Err(AddPackageErr::ConflictWithDependencies { conflict, dependency_name }) => {
                    exists|i: int, j: int| 0 <= i < self.infos@.len() && 0 <= j < self.infos@[i].1.requirements@.len()
                        && self.infos@[i].0@ == conflict@
                        && self.infos@[i].1.requirements@[j].0@ == dependency_name@
                        && #[trigger] version_misses(self.infos@, i, j)
                },
                Err(_) => false,
            },
    {
        let mut i: usize = 0;
        while i < self.infos.len()
            invariant
                i <= self.infos@.len(),
                self.wf(),
                forall|a: int, b: int| 0 <= a < i && 0 <= b < self.infos@[a].1.requirements@.len()
                    ==> (self.infos@[a].1.current matches Some(v) ==> spec_range_matches(
                        (#[trigger] self.infos@[a].1.requirements@[b]).1@,
                        v@,
                        false,
                    )),
            decreases self.infos@.len() - i,
        {
            let info = &self.infos[i].1;
            assert(info_wf(self.infos@[i as int].1));
            match &info.current {
                Some(version) => {
                    let mut j: usize = 0;
                    while j < info.requirements.len()
                        invariant
                            j <= info.requirements@.len(),
                            i < self.infos@.len(),
                            *info == self.infos@[i as int].1,
                            info.current == Some(*version),
                            info_wf(*info),
                            forall|b: int| 0 <= b < j ==> spec_range_matches(
                                (#[trigger] info.requirements@[b]).1@,
                                version@,
                                false,
                            ),
                        decreases info.requirements@.len() - j,
                    {
                        let (source, range) = &info.requirements[j];
                        assert(range_wf(info.requirements@[j as int].1@));
                        if !range.matches(version) {
                            proof {
                                assert(version_misses(self.infos@, i as int, j as int));
                            }
                            return Err(AddPackageErr::ConflictWithDependencies {
                                conflict: self.infos[i].0.clone(),
                                dependency_name: source.clone(),
                            });
                        }
                        j = j + 1;
                    }
                },
                None => {},
            }
            i = i + 1;
        }
        Ok(())
    }

    /// The packages chosen for installation, in the order their names were met.
    pub fn finish(self) -> (r: Vec<PackageJson>)
        ensures
            r@ == chosen_packages(self.infos@),
    {
        let ghost all = self.infos@;
        let mut infos = self.infos;
        let mut packages: Vec<PackageJson> = Vec::new();
        let mut i: usize = 0;
        let total = infos.len();
        proof {
            assert(all.skip(0) =~= all);
            assert(all.take(0) =~= Seq::<(String, DependencyInfo)>::empty());
        }
        while infos.len() > 0
            invariant
                i <= all.len(),
                total == all.len(),
                infos@ == all.skip(i as int),
                packages@ == chosen_packages(all.take(i as int)),
            decreases infos@.len(),
        {
            let (_, info) = infos.remove(0);
            proof {
                assert(all.take(i + 1).drop_last() =~= all.take(i as int));
                assert(all.take(i + 1).last() == (all[i as int].0, info));
                assert(infos@ =~= all.skip(i + 1));
            }
            match info.using {
                Some(p) => packages.push(p),
                None => {},
            }
            i = i + 1;
        }
        proof {
            assert(all.take(i as int) =~= all);
        }
        packages
    }
}

} // verus!
