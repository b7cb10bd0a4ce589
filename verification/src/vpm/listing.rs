use vstd::prelude::*;
use crate::version::buf::str_eq;
use crate::version::ordering::{version_identical, lemma_version_order_antisymmetric, lemma_version_order_transitive, version_order};
use crate::version::version::VersionView;
use crate::version::comparator::ComparatorView;
use crate::version::range::VersionRange;
use crate::vpm::maps::{has_key, locked_map_entries, locked_map_get, range_map_entries, range_map_get_index, range_map_len, value_of};
use crate::vpm::package::{is_pick, pick_package, versions_valid, PackageJson, VersionSelector};
use crate::vpm::project::UnityProject;

verus! {

// ---------------------------------------------------------------------------------------
// Listing every package found: newest first, each name and version once.

/// Two packages have the same name and the same version (build metadata included).
pub open spec fn same_key(a: PackageJson, b: PackageJson) -> bool {
    a.name@ == b.name@ && a.version@ == b.version@
}

/// The packages, each name and version kept at its first occurrence only.
pub open spec fn first_occurrences(c: Seq<PackageJson>) -> Seq<PackageJson>
    decreases c.len(),
{
    if c.len() == 0 {
        Seq::empty()
    } else if exists|j: int| 0 <= j < c.len() - 1 && same_key(#[trigger] c[j], c.last()) {
        first_occurrences(c.drop_last())
    } else {
        first_occurrences(c.drop_last()).push(c.last())
    }
}

/// Any version is accepted.
pub open spec fn any_version() -> spec_fn(VersionView) -> bool {
    |v: VersionView| true
}

/// The packages newest first, equally new ones in their order: the first of the newest, then
/// the rest listed the same way.
pub open spec fn newest_first(d: Seq<PackageJson>) -> Seq<PackageJson>
    decreases d.len(),
{
    if d.len() == 0 {
        Seq::empty()
    } else {
        let i = choose|i: int| is_pick(d, any_version(), i);
        if 0 <= i < d.len() {
            seq![d[i]] + newest_first(d.remove(i))
        } else {
            Seq::empty()
        }
    }
}

/// At most one position is the first of the newest.
pub proof fn lemma_pick_unique(d: Seq<PackageJson>, i: int, j: int)
    requires
        versions_valid(d),
        is_pick(d, any_version(), i),
        is_pick(d, any_version(), j),
    ensures
        i == j,
{
    if i < j {
        assert(version_order(d[i].version@, d[j].version@) < 0);
        assert(version_order(d[i].version@, d[j].version@) <= 0);
        assert(version_order(d[j].version@, d[i].version@) <= 0);
        lemma_version_order_antisymmetric(d[i].version@, d[j].version@);
    } else if j < i {
        assert(version_order(d[j].version@, d[i].version@) < 0);
        assert(version_order(d[i].version@, d[j].version@) <= 0);
        lemma_version_order_antisymmetric(d[j].version@, d[i].version@);
    }
}

proof fn lemma_remove_valid(d: Seq<PackageJson>, i: int)
    requires
        versions_valid(d),
        0 <= i < d.len(),
    ensures
        versions_valid(d.remove(i)),
{
    assert forall|k: int| 0 <= k < d.remove(i).len() implies crate::version::semver_text::prerelease_text_valid(
        (#[trigger] d.remove(i)[k]).version@.pre,
    ) by {
        if k < i {
            assert(d.remove(i)[k] == d[k]);
        } else {
            assert(d.remove(i)[k] == d[k + 1]);
        }
    }
}

fn same_key_exec(a: &PackageJson, b: &PackageJson) -> (r: bool)
    ensures
        r == same_key(*a, *b),
{
    str_eq(a.name.as_str(), b.name.as_str()) && version_identical(&a.version, &b.version)
}

/// The packages, each name and version kept at its first occurrence only.
pub fn keep_first_occurrences(c: Vec<PackageJson>) -> (r: Vec<PackageJson>)
    ensures
        r@ == first_occurrences(c@),
{
    let ghost all = c@;
    let n = c.len();
    let mut keep: Vec<bool> = Vec::new();
    let mut i: usize = 0;
    while i < n
        invariant
            i <= n,
            n == c@.len(),
            keep@.len() == i,
            forall|k: int| 0 <= k < i ==> keep@[k] == !exists|j: int| 0 <= j < k && same_key(#[trigger] c@[j], c@[k]),
        decreases n - i,
    {
        let mut j: usize = 0;
        let mut seen = false;
        while j < i && !seen
            invariant
                j <= i,
                i < n,
                n == c@.len(),
                seen ==> exists|x: int| 0 <= x < i && same_key(#[trigger] c@[x], c@[i as int]),
                !seen ==> forall|x: int| 0 <= x < j ==> !same_key(#[trigger] c@[x], c@[i as int]),
            decreases i - j,
        {
            if same_key_exec(&c[j], &c[i]) {
                seen = true;
            }
            j = j + 1;
        }
        keep.push(!seen);
        i = i + 1;
    }
    let mut rest = c;
    let mut out: Vec<PackageJson> = Vec::new();
    let mut k: usize = 0;
    assert(all.take(0) =~= Seq::<PackageJson>::empty());
    while k < n
        invariant
            k <= n,
            n == all.len(),
            keep@.len() == n,
            rest@ == all.skip(k as int),
            forall|x: int| 0 <= x < n ==> keep@[x] == !exists|j: int| 0 <= j < x && same_key(#[trigger] all[j], all[x]),
            out@ == first_occurrences(all.take(k as int)),
        decreases n - k,
    {
        let p = rest.remove(0);
        proof {
            assert(all.skip(k as int).drop_first() =~= all.skip(k + 1));
            let t = all.take(k + 1);
            assert(t.drop_last() =~= all.take(k as int));
            assert(t.last() == all[k as int]);
            assert forall|j: int| 0 <= j < t.len() - 1 implies (same_key(#[trigger] t[j], t.last()) <==> same_key(all[j], all[k as int])) by {
                assert(t[j] == all[j]);
            }
            if keep@[k as int] {
                assert(!exists|j: int| 0 <= j < t.len() - 1 && same_key(#[trigger] t[j], t.last())) by {
                    if exists|j: int| 0 <= j < t.len() - 1 && same_key(#[trigger] t[j], t.last()) {
                        let j = choose|j: int| 0 <= j < t.len() - 1 && same_key(#[trigger] t[j], t.last());
                        assert(t[j] == all[j]);
                        assert(same_key(all[j], all[k as int]));
                    }
                }
                assert(first_occurrences(t) == first_occurrences(t.drop_last()).push(t.last()));
            } else {
                let j = choose|j: int| 0 <= j < k && same_key(#[trigger] all[j], all[k as int]);
                assert(t[j] == all[j]);
                assert(same_key(t[j], t.last()));
                assert(first_occurrences(t) == first_occurrences(t.drop_last()));
            }
        }
        if keep[k] {
            out.push(p);
        }
        k = k + 1;
        assert(rest@ =~= all.skip(k as int));
    }
    assert(all.take(n as int) =~= all);
    out
}

/// The packages newest first, equally new ones in their order.
pub fn sort_newest_first(d: Vec<PackageJson>) -> (r: Vec<PackageJson>)
    requires
        versions_valid(d@),
    ensures
        r@ == newest_first(d@),
{
    let ghost all = d@;
    let mut rest = d;
    let mut out: Vec<PackageJson> = Vec::new();
    let any = VersionSelector::LatestIncluidingPrerelease;
    while rest.len() > 0
        invariant
            versions_valid(rest@),
            any is LatestIncluidingPrerelease,
            newest_first(all) == out@ + newest_first(rest@),
        decreases rest@.len(),
    {
        let ghost before = rest@;
        match pick_package(&rest, &any) {
            Some(i) => {
                proof {
                    assert((|v: VersionView| any.accepts(v)) =~= any_version());
                    assert(is_pick(before, any_version(), i as int));
                    let c = choose|c: int| is_pick(before, any_version(), c);
                    lemma_pick_unique(before, i as int, c);
                    lemma_remove_valid(before, i as int);
                }
                let p = rest.remove(i);
                let ghost pv = p;
                out.push(p);
                proof {
                    assert(newest_first(before) == seq![pv] + newest_first(rest@));
                    assert(out@ + newest_first(rest@) =~= out@.drop_last() + (seq![pv] + newest_first(rest@)));
                }
            },
            None => {
                proof {
                    assert(any.accepts(before[0].version@));
                }
                assert(false);
            },
        }
    }
    assert(out@ + newest_first(rest@) =~= out@);
    out
}

/// The list of packages found: newest first (equally new ones in their order), each name and
/// version once, at its first occurrence.
pub fn listing_order(c: Vec<PackageJson>) -> (r: Vec<PackageJson>)
    requires
        versions_valid(c@),
    ensures
        r@ == newest_first(first_occurrences(c@)),
{
    let ghost all = c@;
    let d = keep_first_occurrences(c);
    proof {
        lemma_first_occurrences_valid(all);
    }
    sort_newest_first(d)
}

proof fn lemma_first_occurrences_valid(c: Seq<PackageJson>)
    requires
        versions_valid(c),
    ensures
        versions_valid(first_occurrences(c)),
    decreases c.len(),
{
    if c.len() > 0 {
        assert(versions_valid(c.drop_last())) by {
            assert forall|k: int| 0 <= k < c.drop_last().len() implies crate::version::semver_text::prerelease_text_valid(
                (#[trigger] c.drop_last()[k]).version@.pre,
            ) by {
                assert(c.drop_last()[k] == c[k]);
            }
        }
        lemma_first_occurrences_valid(c.drop_last());
        assert(crate::version::semver_text::prerelease_text_valid(c[c.len() - 1].version@.pre));
    }
}

/// A non-empty list has a first of its newest packages.
pub proof fn lemma_pick_exists(d: Seq<PackageJson>)
    requires
        d.len() > 0,
    ensures
        exists|i: int| is_pick(d, any_version(), i),
    decreases d.len(),
{
    if d.len() == 1 {
        lemma_version_order_antisymmetric(d[0].version@, d[0].version@);
        assert(is_pick(d, any_version(), 0));
    } else {
        let e = d.drop_last();
        lemma_pick_exists(e);
        let j = choose|j: int| is_pick(e, any_version(), j);
        let n = d.len() - 1;
        let vn = d[n].version@;
        let vj = d[j].version@;
        assert(e[j] == d[j]);
        lemma_version_order_antisymmetric(vn, vj);
        if version_order(vn, vj) > 0 {
            assert forall|m: int| 0 <= m < d.len() && any_version()(#[trigger] d[m].version@)
                implies version_order(d[m].version@, vn) <= 0 by {
                if m < n {
                    assert(e[m] == d[m]);
                    assert(any_version()(e[m].version@));
                    lemma_version_order_transitive(d[m].version@, vj, vn);
                } else {
                    lemma_version_order_antisymmetric(vn, vn);
                }
            }
            assert forall|m: int| 0 <= m < n && any_version()(#[trigger] d[m].version@)
                implies version_order(d[m].version@, vn) < 0 by {
                assert(e[m] == d[m]);
                assert(any_version()(e[m].version@));
                lemma_version_order_transitive(d[m].version@, vj, vn);
            }
            assert(is_pick(d, any_version(), n));
        } else {
            assert forall|m: int| 0 <= m < d.len() && any_version()(#[trigger] d[m].version@)
                implies version_order(d[m].version@, vj) <= 0 by {
                if m < n {
                    assert(e[m] == d[m]);
                    assert(any_version()(e[m].version@));
                }
            }
            assert forall|m: int| 0 <= m < j && any_version()(#[trigger] d[m].version@)
                implies version_order(d[m].version@, vj) < 0 by {
                assert(e[m] == d[m]);
                assert(any_version()(e[m].version@));
            }
            assert(is_pick(d, any_version(), j));
        }
    }
}

/// Listing newest first keeps every package: as many, and each one of the list.
pub proof fn lemma_newest_first_keeps(d: Seq<PackageJson>)
    ensures
        newest_first(d).len() == d.len(),
        forall|k: int| 0 <= k < d.len() ==> d.contains(#[trigger] newest_first(d)[k]),
    decreases d.len(),
{
    if d.len() > 0 {
        lemma_pick_exists(d);
        let i = choose|i: int| is_pick(d, any_version(), i);
        let rest = d.remove(i);
        lemma_newest_first_keeps(rest);
        let r = newest_first(d);
        assert(r == seq![d[i]] + newest_first(rest));
        assert forall|k: int| 0 <= k < d.len() implies d.contains(#[trigger] r[k]) by {
            if k == 0 {
                assert(r[0] == d[i]);
            } else {
                assert(r[k] == newest_first(rest)[k - 1]);
                assert(rest.contains(r[k]));
                let x = choose|x: int| 0 <= x < rest.len() && rest[x] == r[k];
                if x < i {
                    assert(rest[x] == d[x]);
                } else {
                    assert(rest[x] == d[x + 1]);
                }
            }
        }
    }
}

/// Listing newest first gives versions that never increase.
pub proof fn lemma_newest_first_sorted(d: Seq<PackageJson>)
    ensures
        forall|k1: int, k2: int| 0 <= k1 < k2 < newest_first(d).len()
            ==> version_order((#[trigger] newest_first(d)[k1]).version@, (#[trigger] newest_first(d)[k2]).version@) >= 0,
    decreases d.len(),
{
    if d.len() > 0 {
        lemma_pick_exists(d);
        let i = choose|i: int| is_pick(d, any_version(), i);
        let rest = d.remove(i);
        lemma_newest_first_sorted(rest);
        lemma_newest_first_keeps(rest);
        let r = newest_first(d);
        let t = newest_first(rest);
        assert(r == seq![d[i]] + t);
        assert forall|k1: int, k2: int| 0 <= k1 < k2 < r.len()
            implies version_order((#[trigger] r[k1]).version@, (#[trigger] r[k2]).version@) >= 0 by {
            assert(r[k2] == t[k2 - 1]);
            if k1 == 0 {
                assert(rest.contains(t[k2 - 1]));
                let x = choose|x: int| 0 <= x < rest.len() && rest[x] == t[k2 - 1];
                let y = if x < i { x } else { x + 1 };
                assert(rest[x] == d[y]);
                assert(any_version()(d[y].version@));
                assert(version_order(d[y].version@, d[i].version@) <= 0);
                lemma_version_order_antisymmetric(d[y].version@, d[i].version@);
            } else {
                assert(r[k1] == t[k1 - 1]);
            }
        }
    }
}

/// Keeping the first occurrences leaves no name and version twice.
pub proof fn lemma_first_occurrences_distinct(c: Seq<PackageJson>)
    ensures
        forall|a: int, b: int| 0 <= a < b < first_occurrences(c).len()
            ==> !same_key(#[trigger] first_occurrences(c)[a], #[trigger] first_occurrences(c)[b]),
        forall|k: int| 0 <= k < first_occurrences(c).len() ==> c.contains(#[trigger] first_occurrences(c)[k]),
    decreases c.len(),
{
    if c.len() > 0 {
        let e = c.drop_last();
        lemma_first_occurrences_distinct(e);
        let f = first_occurrences(e);
        assert forall|k: int| 0 <= k < f.len() implies c.contains(#[trigger] f[k]) by {
            assert(e.contains(f[k]));
            let x = choose|x: int| 0 <= x < e.len() && e[x] == f[k];
            assert(c[x] == e[x]);
        }
        if !exists|j: int| 0 <= j < c.len() - 1 && same_key(#[trigger] c[j], c.last()) {
            let r = first_occurrences(c);
            assert(r == f.push(c.last()));
            assert forall|a: int, b: int| 0 <= a < b < r.len() implies !same_key(#[trigger] r[a], #[trigger] r[b]) by {
                if b == r.len() - 1 {
                    assert(r[a] == f[a]);
                    assert(e.contains(f[a]));
                    let x = choose|x: int| 0 <= x < e.len() && e[x] == f[a];
                    assert(c[x] == e[x]);
                } else {
                    assert(r[a] == f[a]);
                    assert(r[b] == f[b]);
                }
            }
            assert(c.contains(c.last())) by {
                assert(c[c.len() - 1] == c.last());
            }
        }
    }
}

// ---------------------------------------------------------------------------------------
// What the unlocked packages of a project need.

/// The needs of packages `0..upto` of the unlocked ones that have a `package.json`: each range
/// of their dependencies on a package that is not locked, with the name of that package, in
/// order.
pub open spec fn unlocked_needs(
    unlocked: Seq<(String, Option<PackageJson>)>,
    locked: Seq<(Seq<char>, crate::vpm::maps::LockedView)>,
    upto: int,
) -> Seq<(Seq<char>, Seq<Seq<ComparatorView>>)>
    decreases upto,
{
    if upto <= 0 {
        Seq::empty()
    } else {
        let prev = unlocked_needs(unlocked, locked, upto - 1);
        match unlocked[upto - 1].1 {
            Some(p) => prev + range_map_entries(p.vpm_dependencies).filter(
                |e: (Seq<char>, Seq<Seq<ComparatorView>>)| !has_key(locked, e.0),
            ),
            None => prev,
        }
    }
}

/// Needs grouped by name, names in the order they first occur, each with its ranges in order.
pub open spec fn grouped(needs: Seq<(Seq<char>, Seq<Seq<ComparatorView>>)>) -> Seq<(Seq<char>, Seq<Seq<Seq<ComparatorView>>>)>
    decreases needs.len(),
{
    if needs.len() == 0 {
        Seq::empty()
    } else {
        let prev = grouped(needs.drop_last());
        let (name, range) = needs.last();
        if exists|g: int| 0 <= g < prev.len() && (#[trigger] prev[g]).0 == name {
            let g = choose|g: int| 0 <= g < prev.len() && (#[trigger] prev[g]).0 == name;
            prev.update(g, (name, prev[g].1.push(range)))
        } else {
            prev.push((name, seq![range]))
        }
    }
}

/// The texts and ranges of a grouping.
pub open spec fn groups_view(v: Seq<(String, Vec<VersionRange>)>) -> Seq<(Seq<char>, Seq<Seq<Seq<ComparatorView>>>)> {
    v.map_values(|g: (String, Vec<VersionRange>)| (g.0@, g.1@.map_values(|r: VersionRange| r@)))
}

proof fn lemma_grouped_distinct(needs: Seq<(Seq<char>, Seq<Seq<ComparatorView>>)>)
    ensures
        forall|a: int, b: int| 0 <= a < b < grouped(needs).len() ==> (#[trigger] grouped(needs)[a]).0 != (#[trigger] grouped(needs)[b]).0,
    decreases needs.len(),
{
    if needs.len() > 0 {
        lemma_grouped_distinct(needs.drop_last());
        let prev = grouped(needs.drop_last());
        let (name, range) = needs.last();
        let r = grouped(needs);
        if exists|g: int| 0 <= g < prev.len() && (#[trigger] prev[g]).0 == name {
            let g = choose|g: int| 0 <= g < prev.len() && (#[trigger] prev[g]).0 == name;
            assert(r == prev.update(g, (name, prev[g].1.push(range))));
            assert forall|a: int, b: int| 0 <= a < b < r.len() implies (#[trigger] r[a]).0 != (#[trigger] r[b]).0 by {
                assert(r[a].0 == prev[a].0);
                assert(r[b].0 == prev[b].0);
            }
        } else {
            assert(r == prev.push((name, seq![range])));
            assert forall|a: int, b: int| 0 <= a < b < r.len() implies (#[trigger] r[a]).0 != (#[trigger] r[b]).0 by {
                assert(r[a] == prev[a]);
                if b < prev.len() {
                    assert(r[b] == prev[b]);
                }
            }
        }
    }
}

/// Adds one need to a grouping whose names are distinct.
fn add_need(groups: &mut Vec<(String, Vec<VersionRange>)>, name: &String, range: &VersionRange)
    requires
        forall|a: int, b: int| 0 <= a < b < groups_view(old(groups)@).len()
            ==> (#[trigger] groups_view(old(groups)@)[a]).0 != (#[trigger] groups_view(old(groups)@)[b]).0,
    ensures
        groups_view(final(groups)@) == ({
            let prev = groups_view(old(groups)@);
            if exists|g: int| 0 <= g < prev.len() && (#[trigger] prev[g]).0 == name@ {
                let g = choose|g: int| 0 <= g < prev.len() && (#[trigger] prev[g]).0 == name@;
                prev.update(g, (name@, prev[g].1.push(range@)))
            } else {
                prev.push((name@, seq![range@]))
            }
        }),
{
    let ghost prev = groups_view(groups@);
    let mut i: usize = 0;
    while i < groups.len()
        invariant
            i <= groups@.len(),
            prev == groups_view(groups@),
            prev == groups_view(old(groups)@),
            forall|a: int, b: int| 0 <= a < b < prev.len() ==> (#[trigger] prev[a]).0 != (#[trigger] prev[b]).0,
            forall|x: int| 0 <= x < i ==> (#[trigger] prev[x]).0 != name@,
        decreases groups@.len() - i,
    {
        if str_eq(groups[i].0.as_str(), name.as_str()) {
            assert(prev[i as int].0 == name@);
            let ghost g = choose|g: int| 0 <= g < prev.len() && (#[trigger] prev[g]).0 == name@;
            assert(g == i as int) by {
                if g < i {
                    assert(prev[g].0 != prev[i as int].0);
                } else if g > i {
                    assert(prev[i as int].0 != prev[g].0);
                }
            }
            let ghost old_groups = groups@;
            let (key, mut ranges) = groups.remove(i);
            assert(key@ == prev[i as int].0);
            assert(ranges@.map_values(|r: VersionRange| r@) == prev[i as int].1);
            let ghost rv = ranges@;
            let added = range.clone();
            ranges.push(added);
            assert(ranges@.map_values(|r: VersionRange| r@) =~= prev[i as int].1.push(range@)) by {
                assert(ranges@ == rv.push(added));
                assert(rv.push(added).map_values(|r: VersionRange| r@) =~= rv.map_values(|r: VersionRange| r@).push(added@));
            }
            let ghost new_entry = (key, ranges);
            groups.insert(i, (key, ranges));
            assert(groups@ =~= old_groups.update(i as int, new_entry));
            assert(groups_view(groups@) =~= prev.update(i as int, (name@, prev[i as int].1.push(range@))));
            return;
        }
        i = i + 1;
    }
    let mut v: Vec<VersionRange> = Vec::new();
    let added = range.clone();
    v.push(added);
    assert(v@.map_values(|r: VersionRange| r@) =~= seq![range@]);
    let key = name.clone();
    assert(key@ == name@);
    groups.push((key, v));
    assert(groups_view(groups@) =~= prev.push((name@, seq![range@])));
}

/// The ranges that the unlocked packages of a project need of packages that are not locked,
/// grouped by name: names in the order they first occur, each with its ranges in order.
pub fn unlocked_requirements(project: &UnityProject) -> (r: Vec<(String, Vec<VersionRange>)>)
    ensures
        groups_view(r@) == grouped(unlocked_needs(
            project.unlocked_packages@,
            locked_map_entries(project.manifest.locked),
            project.unlocked_packages@.len() as int,
        )),
{
    let ghost locked = locked_map_entries(project.manifest.locked);
    let ghost unlocked = project.unlocked_packages@;
    let mut groups: Vec<(String, Vec<VersionRange>)> = Vec::new();
    let mut u: usize = 0;
    assert(groups_view(groups@) =~= grouped(Seq::empty()));
    while u < project.unlocked_packages.len()
        invariant
            u <= unlocked.len(),
            unlocked == project.unlocked_packages@,
            locked == locked_map_entries(project.manifest.locked),
            groups_view(groups@) == grouped(unlocked_needs(unlocked, locked, u as int)),
        decreases unlocked.len() - u,
    {
        let ghost before = unlocked_needs(unlocked, locked, u as int);
        match &project.unlocked_packages[u].1 {
            Some(package) => {
                let ghost entries = range_map_entries(package.vpm_dependencies);
                let ghost keep = |e: (Seq<char>, Seq<Seq<ComparatorView>>)| !has_key(locked, e.0);
                let n = range_map_len(&package.vpm_dependencies);
                let mut j: usize = 0;
                assert(entries.take(0).filter(keep) =~= Seq::<(Seq<char>, Seq<Seq<ComparatorView>>)>::empty()) by {
                    reveal(Seq::filter);
                }
                assert(before + entries.take(0).filter(keep) =~= before);
                while j < n
                    invariant
                        j <= n,
                        n == entries.len(),
                        entries == range_map_entries(package.vpm_dependencies),
                        locked == locked_map_entries(project.manifest.locked),
                        keep == (|e: (Seq<char>, Seq<Seq<ComparatorView>>)| !has_key(locked, e.0)),
                        groups_view(groups@) == grouped(before + entries.take(j as int).filter(keep)),
                    decreases n - j,
                {
                    let (name, range) = range_map_get_index(&package.vpm_dependencies, j);
                    let is_locked = match locked_map_get(&project.manifest.locked, name.as_str()) {
                        Some(_) => true,
                        None => false,
                    };
                    proof {
                        if has_key(locked, name@) {
                            assert(value_of(locked, name@) is Some);
                        }
                        reveal(Seq::filter);
                        assert(entries.take(j + 1).drop_last() =~= entries.take(j as int));
                        assert(entries.take(j + 1).last() == entries[j as int]);
                        lemma_grouped_distinct(before + entries.take(j as int).filter(keep));
                    }
                    if !is_locked {
                        add_need(&mut groups, name, range);
                        proof {
                            let s = before + entries.take(j as int).filter(keep);
                            assert(before + entries.take(j + 1).filter(keep) =~= s.push((name@, range@)));
                            assert(s.push((name@, range@)).drop_last() =~= s);
                        }
                    } else {
                        assert(before + entries.take(j + 1).filter(keep) =~= before + entries.take(j as int).filter(keep));
                    }
                    j = j + 1;
                }
                assert(entries.take(n as int) =~= entries);
                proof {
                    assert(unlocked.take(u + 1).drop_last() =~= unlocked.take(u as int));
                }
            },
            None => {},
        }
        u = u + 1;
    }
    groups
}

} // verus!
