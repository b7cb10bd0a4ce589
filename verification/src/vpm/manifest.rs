use vstd::prelude::*;
use indexmap::IndexMap;
use crate::version::buf::str_eq;
use crate::vpm::maps::{
    LockedView, dependency_map_entries, dependency_map_get_index, dependency_map_insert,
    dependency_map_len, dependency_map_remove, has_key, inserted, keys_distinct, keys_of,
    locked_map_entries, locked_map_get, locked_map_get_index, locked_map_insert, locked_map_len,
    locked_map_remove, range_map_entries, range_map_get_index, range_map_len, swap_removed, value_of,
};
use crate::vpm::package::{VpmDependency, VpmLockedDependency};

verus! {

/// The dependencies of a project and its locked packages, with a flag that is set once either
/// of them changes.
#[derive(Debug)]
pub struct VpmManifest {
    pub dependencies: IndexMap<String, VpmDependency>,
    pub locked: IndexMap<String, VpmLockedDependency>,
    pub changed: bool,
}

/// The names of `v`.
pub open spec fn names_view(v: Seq<String>) -> Seq<Seq<char>> {
    v.map_values(|s: String| s@)
}

/// The texts of `names`.
pub open spec fn str_names(names: Seq<&str>) -> Seq<Seq<char>> {
    names.map_values(|n: &str| n@)
}

/// Whether `name` is one of `names`.
pub fn names_contain(names: &Vec<String>, name: &str) -> (r: bool)
    ensures
        r == names_view(names@).contains(name@),
{
    let mut i: usize = 0;
    while i < names.len()
        invariant
            i <= names@.len(),
            forall|j: int| 0 <= j < i ==> (#[trigger] names@[j])@ != name@,
        decreases names@.len() - i,
    {
        if str_eq(names[i].as_str(), name) {
            assert(names_view(names@)[i as int] == name@);
            return true;
        }
        i = i + 1;
    }
    proof {
        if names_view(names@).contains(name@) {
            let j = choose|j: int| 0 <= j < names_view(names@).len() && names_view(names@)[j] == name@;
            assert(names@[j]@ == name@);
        }
    }
    false
}

/// `names` with each of `removing`, in order, taken out as `IndexMap::swap_remove` does.
pub open spec fn removed_all<V>(s: Seq<(Seq<char>, V)>, removing: Seq<Seq<char>>) -> Seq<(Seq<char>, V)>
    decreases removing.len(),
{
    if removing.len() == 0 {
        s
    } else {
        swap_removed(removed_all(s, removing.drop_last()), removing.last())
    }
}

impl VpmManifest {
    pub fn new(dependencies: IndexMap<String, VpmDependency>, locked: IndexMap<String, VpmLockedDependency>) -> (r: VpmManifest)
        ensures
            r.dependencies == dependencies,
            r.locked == locked,
            !r.changed,
    {
        VpmManifest { dependencies, locked, changed: false }
    }

    pub fn dependencies(&self) -> (r: &IndexMap<String, VpmDependency>)
        ensures
            r == self.dependencies,
    {
        &self.dependencies
    }

    pub fn locked(&self) -> (r: &IndexMap<String, VpmLockedDependency>)
        ensures
            r == self.locked,
    {
        &self.locked
    }

    /// Adds or replaces a dependency.
    pub fn add_dependency(&mut self, name: &str, dependency: VpmDependency)
        ensures
            dependency_map_entries(final(self).dependencies) == inserted(
                dependency_map_entries(old(self).dependencies),
                name@,
                dependency.version@,
            ),
            final(self).locked == old(self).locked,
            final(self).changed,
    {
        dependency_map_insert(&mut self.dependencies, name.to_owned(), dependency);
        self.changed = true;
    }

    /// Adds or replaces a locked package.
    pub fn add_locked(&mut self, name: &str, dependency: VpmLockedDependency)
        ensures
            locked_map_entries(final(self).locked) == inserted(
                locked_map_entries(old(self).locked),
                name@,
                dependency@,
            ),
            final(self).dependencies == old(self).dependencies,
            final(self).changed,
    {
        locked_map_insert(&mut self.locked, name.to_owned(), dependency);
        self.changed = true;
    }

    /// Removes each of `names` from the locked packages and from the dependencies.
    pub fn remove_packages(&mut self, names: &[&str])
        ensures
            locked_map_entries(final(self).locked) == removed_all(
                locked_map_entries(old(self).locked),
                names@.map_values(|n: &str| n@),
            ),
            dependency_map_entries(final(self).dependencies) == removed_all(
                dependency_map_entries(old(self).dependencies),
                names@.map_values(|n: &str| n@),
            ),
            final(self).changed,
    {
        let ghost old_locked = locked_map_entries(self.locked);
        let ghost old_dependencies = dependency_map_entries(self.dependencies);
        let mut i: usize = 0;
        while i < names.len()
            invariant
                i <= names@.len(),
                locked_map_entries(self.locked) == removed_all(old_locked, names@.map_values(|n: &str| n@).take(i as int)),
                dependency_map_entries(self.dependencies) == removed_all(
                    old_dependencies,
                    names@.map_values(|n: &str| n@).take(i as int),
                ),
            decreases names@.len() - i,
        {
            let name = names[i];
            locked_map_remove(&mut self.locked, name);
            dependency_map_remove(&mut self.dependencies, name);
            proof {
                let all = names@.map_values(|n: &str| n@);
                assert(all.take(i + 1).drop_last() =~= all.take(i as int));
                assert(all.take(i + 1).last() == name@);
            }
            i = i + 1;
        }
        proof {
            let all = names@.map_values(|n: &str| n@);
            assert(all.take(i as int) =~= all);
        }
        self.changed = true;
    }
}


// ---------------------------------------------------------------------------------------
// Mark and sweep.

/// Removing names one after another keeps the keys distinct and leaves exactly the keys that
/// were not removed.
pub proof fn lemma_removed_all<V>(s: Seq<(Seq<char>, V)>, removing: Seq<Seq<char>>)
    requires
        keys_distinct(s),
    ensures
        keys_distinct(removed_all(s, removing)),
        forall|k: Seq<char>| #![trigger has_key(removed_all(s, removing), k)]
            has_key(removed_all(s, removing), k) <==> (has_key(s, k) && !removing.contains(k)),
    decreases removing.len(),
{
    if removing.len() > 0 {
        let p = removing.drop_last();
        let last = removing.last();
        let before = removed_all(s, p);
        lemma_removed_all(s, p);
        crate::vpm::maps::lemma_swap_removed(before, last);
        assert(removed_all(s, removing) == swap_removed(before, last));
        assert forall|k: Seq<char>| has_key(removed_all(s, removing), k) <==> (has_key(s, k) && !removing.contains(k)) by {
            assert(has_key(swap_removed(before, last), k) <==> (has_key(before, k) && k != last));
            assert(has_key(before, k) <==> (has_key(s, k) && !p.contains(k)));
            if removing.contains(k) && k != last {
                let j = choose|j: int| 0 <= j < removing.len() && removing[j] == k;
                assert(p[j] == k);
            }
            if p.contains(k) {
                let j = choose|j: int| 0 <= j < p.len() && p[j] == k;
                assert(removing[j] == k);
            }
            assert(removing[removing.len() - 1] == last);
        }
    }
}

/// The names of all dependencies of all locked packages, in order.
pub open spec fn all_dependency_names(locked: Seq<(Seq<char>, LockedView)>) -> Seq<Seq<char>> {
    locked.map_values(|e: (Seq<char>, LockedView)| keys_of(e.1.dependencies)).flatten()
}

proof fn lemma_flatten_has(s: Seq<Seq<Seq<char>>>, i: int, j: int)
    requires
        0 <= i < s.len(),
        0 <= j < s[i].len(),
    ensures
        s.flatten().contains(s[i][j]),
    decreases s.len(),
{
    if i == 0 {
        assert(s.flatten() == s[0] + s.drop_first().flatten());
        assert(s.flatten()[j] == s[0][j]);
    } else {
        lemma_flatten_has(s.drop_first(), i - 1, j);
        assert(s.flatten() == s[0] + s.drop_first().flatten());
        let k = choose|k: int| 0 <= k < s.drop_first().flatten().len() && s.drop_first().flatten()[k] == s[i][j];
        assert(s.flatten()[s[0].len() + k] == s[i][j]);
    }
}

/// The roots are locked, and so is every package a locked package depends on.
pub open spec fn locked_closed(roots: Seq<Seq<char>>, locked: Seq<(Seq<char>, LockedView)>) -> bool {
    &&& forall|i: int| 0 <= i < roots.len() ==> has_key(locked, #[trigger] roots[i])
    &&& forall|i: int, j: int| 0 <= i < locked.len() && 0 <= j < locked[i].1.dependencies.len()
        ==> has_key(locked, (#[trigger] locked[i].1.dependencies[j]).0)
}

/// All dependencies of the locked package `x` (if it is one) are among `required`.
pub open spec fn expanded(locked: Seq<(Seq<char>, LockedView)>, x: Seq<char>, required: Seq<Seq<char>>) -> bool {
    value_of(locked, x) matches Some(l) ==> forall|j: int| 0 <= j < l.dependencies.len()
        ==> required.contains(#[trigger] l.dependencies[j].0)
}

proof fn lemma_required_bound(required: Seq<Seq<char>>, universe: Seq<Seq<char>>)
    requires
        required.no_duplicates(),
        forall|i: int| 0 <= i < required.len() ==> universe.contains(#[trigger] required[i]),
    ensures
        required.len() <= universe.len(),
{
    required.unique_seq_to_set();
    universe.lemma_cardinality_of_set();
    vstd::seq_lib::seq_to_set_is_finite(universe);
    assert(required.to_set().subset_of(universe.to_set())) by {
        assert forall|x: Seq<char>| required.to_set().contains(x) implies universe.to_set().contains(x) by {
            let i = choose|i: int| 0 <= i < required.len() && required[i] == x;
            assert(universe.contains(required[i]));
        }
    }
    vstd::set_lib::lemma_len_subset(required.to_set(), universe.to_set());
}

/// Copies a list of names.
fn copy_names(names: &Vec<String>) -> (r: Vec<String>)
    ensures
        names_view(r@) == names_view(names@),
{
    let mut r: Vec<String> = Vec::new();
    let mut i: usize = 0;
    while i < names.len()
        invariant
            i <= names@.len(),
            names_view(r@) == names_view(names@).take(i as int),
        decreases names@.len() - i,
    {
        let ghost before = r@;
        let c = names[i].clone();
        r.push(c);
        proof {
            assert(r@ == before.push(c));
            assert(c@ == names@[i as int]@);
            assert(names_view(r@) =~= names_view(before).push(c@));
            assert(names_view(r@) =~= names_view(names@).take(i + 1));
        }
        i = i + 1;
    }
    proof {
        assert(names_view(names@).take(i as int) =~= names_view(names@));
    }
    r
}

/// The keys among the first `n` entries that are not among `required`, in order.
pub open spec fn unrequired_keys(locked: Seq<(Seq<char>, LockedView)>, required: Seq<Seq<char>>, n: int) -> Seq<Seq<char>>
    decreases n,
{
    if n <= 0 {
        Seq::<Seq<char>>::empty()
    } else {
        let prev = unrequired_keys(locked, required, n - 1);
        if required.contains(locked[n - 1].0) {
            prev
        } else {
            prev.push(locked[n - 1].0)
        }
    }
}

proof fn lemma_unrequired_keys(locked: Seq<(Seq<char>, LockedView)>, required: Seq<Seq<char>>, n: int)
    requires
        0 <= n <= locked.len(),
        forall|a: int, b: int| 0 <= a < b < n ==> locked[a].0 != locked[b].0,
    ensures
        unrequired_keys(locked, required, n).no_duplicates(),
        forall|k: Seq<char>| #[trigger] unrequired_keys(locked, required, n).contains(k)
            <==> (!required.contains(k) && exists|a: int| 0 <= a < n && (#[trigger] locked[a]).0 == k),
    decreases n,
{
    if n > 0 {
        lemma_unrequired_keys(locked, required, n - 1);
        let prev = unrequired_keys(locked, required, n - 1);
        let key = locked[n - 1].0;
        let cur = unrequired_keys(locked, required, n);
        assert forall|k: Seq<char>| #[trigger] cur.contains(k)
            <==> (!required.contains(k) && exists|a: int| 0 <= a < n && (#[trigger] locked[a]).0 == k) by {
            if cur.contains(k) {
                if prev.contains(k) {
                    let a = choose|a: int| 0 <= a < n - 1 && (#[trigger] locked[a]).0 == k;
                    assert(locked[a].0 == k);
                } else {
                    let e = choose|e: int| 0 <= e < cur.len() && cur[e] == k;
                    if !required.contains(key) {
                        if e < prev.len() {
                            assert(prev[e] == k);
                        }
                        assert(k == key);
                        assert(locked[n - 1].0 == k);
                    } else {
                        assert(prev[e] == k);
                    }
                }
            }
            if !required.contains(k) && exists|a: int| 0 <= a < n && (#[trigger] locked[a]).0 == k {
                let a = choose|a: int| 0 <= a < n && (#[trigger] locked[a]).0 == k;
                if a < n - 1 {
                    assert(prev.contains(k));
                    let e = choose|e: int| 0 <= e < prev.len() && prev[e] == k;
                    if !required.contains(key) {
                        assert(cur[e] == k);
                    }
                } else {
                    assert(cur[prev.len() as int] == k);
                }
            }
        }
        if !required.contains(key) {
            assert(!prev.contains(key)) by {
                if prev.contains(key) {
                    let a = choose|a: int| 0 <= a < n - 1 && (#[trigger] locked[a]).0 == key;
                    assert(locked[a].0 != locked[n - 1].0);
                }
            }
            assert forall|a: int, b: int| 0 <= a < b < cur.len() implies cur[a] != cur[b] by {
                if b == prev.len() {
                    assert(cur[a] == prev[a]);
                    assert(prev.contains(prev[a]));
                } else {
                    assert(cur[a] == prev[a] && cur[b] == prev[b]);
                }
            }
        }
    }
}

/// `required` with `name` added keeps every fact of the form "`x` is among `required`".
proof fn lemma_push_keeps(required: Seq<Seq<char>>, name: Seq<char>, x: Seq<char>)
    ensures
        required.contains(x) ==> required.push(name).contains(x),
        required.push(name).contains(name),
{
    if required.contains(x) {
        let e = choose|e: int| 0 <= e < required.len() && required[e] == x;
        assert(required.push(name)[e] == x);
    }
    assert(required.push(name)[required.len() as int] == name);
}

/// A dependency of a locked package whose name is in `prev`.
pub open spec fn dependency_of_some(prev: Set<Seq<char>>, locked: Seq<(Seq<char>, LockedView)>, d: Seq<char>) -> bool {
    exists|i: int, j: int|
        0 <= i < locked.len() && prev.contains(locked[i].0) && 0 <= j < locked[i].1.dependencies.len()
            && (#[trigger] locked[i].1.dependencies[j]).0 == d
}

/// The names reached from the roots in at most `n` steps, a step going from a locked package to
/// the packages it depends on.
pub open spec fn reached(roots: Seq<Seq<char>>, locked: Seq<(Seq<char>, LockedView)>, n: nat) -> Set<Seq<char>>
    decreases n,
{
    if n == 0 {
        roots.to_set()
    } else {
        let prev = reached(roots, locked, (n - 1) as nat);
        prev.union(Set::new(|d: Seq<char>| dependency_of_some(prev, locked, d)))
    }
}

/// Whether `x` is reached from the roots in some number of steps.
pub open spec fn reachable(roots: Seq<Seq<char>>, locked: Seq<(Seq<char>, LockedView)>, x: Seq<char>) -> bool {
    exists|n: nat| #[trigger] reached(roots, locked, n).contains(x)
}

proof fn lemma_root_reachable(roots: Seq<Seq<char>>, locked: Seq<(Seq<char>, LockedView)>, a: int)
    requires
        0 <= a < roots.len(),
    ensures
        reachable(roots, locked, roots[a]),
{
    assert(roots.to_set().contains(roots[a]));
    assert(reached(roots, locked, 0).contains(roots[a]));
}

/// A dependency of a reachable locked package is reachable.
proof fn lemma_dependency_reachable(roots: Seq<Seq<char>>, locked: Seq<(Seq<char>, LockedView)>, i: int, j: int)
    requires
        0 <= i < locked.len(),
        0 <= j < locked[i].1.dependencies.len(),
        reachable(roots, locked, locked[i].0),
    ensures
        reachable(roots, locked, locked[i].1.dependencies[j].0),
{
    let n = choose|n: nat| #[trigger] reached(roots, locked, n).contains(locked[i].0);
    let prev = reached(roots, locked, n);
    let d = locked[i].1.dependencies[j].0;
    assert(dependency_of_some(prev, locked, d));
    assert(reached(roots, locked, n + 1).contains(d));
}

/// Whatever is reached lies in a set of names that holds the roots and, with each locked
/// package, the packages it depends on.
proof fn lemma_reached_within(
    roots: Seq<Seq<char>>,
    locked: Seq<(Seq<char>, LockedView)>,
    after: Seq<(Seq<char>, LockedView)>,
    n: nat,
)
    requires
        forall|i: int| 0 <= i < roots.len() ==> has_key(after, #[trigger] roots[i]),
        forall|i: int, j: int| 0 <= i < locked.len() && 0 <= j < locked[i].1.dependencies.len()
            && has_key(after, locked[i].0) ==> has_key(after, (#[trigger] locked[i].1.dependencies[j]).0),
    ensures
        forall|x: Seq<char>| reached(roots, locked, n).contains(x) ==> has_key(after, x),
    decreases n,
{
    if n == 0 {
        assert forall|x: Seq<char>| reached(roots, locked, n).contains(x) implies has_key(after, x) by {
            assert(roots.to_set().contains(x));
            let i = choose|i: int| 0 <= i < roots.len() && roots[i] == x;
            assert(has_key(after, roots[i]));
        }
    } else {
        lemma_reached_within(roots, locked, after, (n - 1) as nat);
        let prev = reached(roots, locked, (n - 1) as nat);
        assert forall|x: Seq<char>| reached(roots, locked, n).contains(x) implies has_key(after, x) by {
            if !prev.contains(x) {
                assert(dependency_of_some(prev, locked, x));
                let (i, j) = choose|i: int, j: int|
                    0 <= i < locked.len() && prev.contains(locked[i].0) && 0 <= j < locked[i].1.dependencies.len()
                        && (#[trigger] locked[i].1.dependencies[j]).0 == x;
                assert(has_key(after, locked[i].0));
            }
        }
    }
}

/// What is reached lies among `required` when `required` holds the roots and, with each
/// locked package in it, every package that one depends on.
proof fn lemma_reached_required(
    roots: Seq<Seq<char>>,
    locked: Seq<(Seq<char>, LockedView)>,
    required: Seq<Seq<char>>,
    n: nat,
)
    requires
        keys_distinct(locked),
        forall|a: int| 0 <= a < roots.len() ==> required.contains(#[trigger] roots[a]),
        forall|a: int| 0 <= a < required.len() ==> expanded(locked, #[trigger] required[a], required),
    ensures
        forall|x: Seq<char>| reached(roots, locked, n).contains(x) ==> required.contains(x),
    decreases n,
{
    if n == 0 {
        assert forall|x: Seq<char>| reached(roots, locked, n).contains(x) implies required.contains(x) by {
            assert(roots.to_set().contains(x));
            let a = choose|a: int| 0 <= a < roots.len() && roots[a] == x;
            assert(required.contains(roots[a]));
        }
    } else {
        lemma_reached_required(roots, locked, required, (n - 1) as nat);
        let prev = reached(roots, locked, (n - 1) as nat);
        assert forall|x: Seq<char>| reached(roots, locked, n).contains(x) implies required.contains(x) by {
            if !prev.contains(x) {
                assert(dependency_of_some(prev, locked, x));
                let (i, j) = choose|i: int, j: int|
                    0 <= i < locked.len() && prev.contains(locked[i].0) && 0 <= j < locked[i].1.dependencies.len()
                        && (#[trigger] locked[i].1.dependencies[j]).0 == x;
                let key = locked[i].0;
                assert(required.contains(key));
                let c = choose|c: int| 0 <= c < required.len() && required[c] == key;
                assert(expanded(locked, required[c], required));
                crate::vpm::maps::lemma_index_of_key(locked, key);
                assert(value_of(locked, key) == Some(locked[i].1));
            }
        }
    }
}

impl VpmManifest {
    /// Removes the locked packages that the dependencies do not need, and returns their
    /// names. Marking starts at the dependencies and follows what each marked locked package
    /// depends on; a name that is not locked leads nowhere. What stays is exactly the locked
    /// packages reachable from the dependencies.
    pub fn mark_and_sweep_packages(&mut self) -> (removed: Vec<String>)
        ensures
            final(self).dependencies == old(self).dependencies,
            final(self).changed == old(self).changed,
            locked_map_entries(final(self).locked) == removed_all(
                locked_map_entries(old(self).locked),
                names_view(removed@),
            ),
            names_view(removed@).no_duplicates(),
            forall|k: Seq<char>| names_view(removed@).contains(k) ==> has_key(locked_map_entries(old(self).locked), k),
            forall|k: Seq<char>| has_key(locked_map_entries(final(self).locked), k)
                <==> (has_key(locked_map_entries(old(self).locked), k) && !names_view(removed@).contains(k)),
            locked_closed(keys_of(dependency_map_entries(old(self).dependencies)), locked_map_entries(old(self).locked)) ==> {
                let roots = keys_of(dependency_map_entries(old(self).dependencies));
                let before = locked_map_entries(old(self).locked);
                let after = locked_map_entries(final(self).locked);
                &&& forall|i: int| 0 <= i < roots.len() ==> has_key(after, #[trigger] roots[i])
                &&& forall|i: int, j: int| 0 <= i < before.len() && 0 <= j < before[i].1.dependencies.len()
                    && has_key(after, before[i].0) ==> has_key(after, (#[trigger] before[i].1.dependencies[j]).0)
                &&& forall|k: Seq<char>| has_key(after, k) <==> reachable(roots, before, k)
            },
            forall|k: Seq<char>| has_key(locked_map_entries(final(self).locked), k) <==> (
                has_key(locked_map_entries(old(self).locked), k) && reachable(
                    keys_of(dependency_map_entries(old(self).dependencies)),
                    locked_map_entries(old(self).locked),
                    k,
                )),
            forall|i: int| 0 <= i < keys_of(dependency_map_entries(old(self).dependencies)).len()
                && has_key(locked_map_entries(old(self).locked), #[trigger] keys_of(dependency_map_entries(old(self).dependencies))[i])
                ==> has_key(locked_map_entries(final(self).locked), keys_of(dependency_map_entries(old(self).dependencies))[i]),
    {
        let ghost roots = keys_of(dependency_map_entries(self.dependencies));
        let ghost locked = locked_map_entries(self.locked);
        let ghost universe = roots + all_dependency_names(locked);

        // mark: the dependencies first
        let mut required: Vec<String> = Vec::new();
        let root_count = dependency_map_len(&self.dependencies);
        let mut i: usize = 0;
        while i < root_count
            invariant
                i <= root_count,
                self.dependencies == old(self).dependencies,
                self.locked == old(self).locked,
                self.changed == old(self).changed,
                root_count == roots.len(),
                roots == keys_of(dependency_map_entries(self.dependencies)),
                names_view(required@) == roots.take(i as int),
                forall|a: int, b: int| 0 <= a < b < i ==> roots[a] != roots[b],
            decreases root_count - i,
        {
            let (name, _) = dependency_map_get_index(&self.dependencies, i);
            let ghost before = required@;
            let c = name.clone();
            required.push(c);
            proof {
                assert(names_view(required@) =~= names_view(before).push(c@));
                assert(names_view(required@) =~= roots.take(i + 1));
                assert forall|a: int, b: int| 0 <= a < b < i + 1 implies roots[a] != roots[b] by {
                    if b == i {
                        assert(dependency_map_entries(self.dependencies)[a].0 == roots[a]);
                    }
                }
            }
            i = i + 1;
        }
        proof {
            assert(roots.take(i as int) =~= roots);
            assert(names_view(required@).no_duplicates());
            assert forall|a: int| 0 <= a < required@.len() implies universe.contains(#[trigger] names_view(required@)[a]) by {
                assert(universe[a] == roots[a]);
            }
            lemma_required_bound(names_view(required@), universe);
            assert forall|a: int| 0 <= a < roots.len() implies names_view(required@).contains(#[trigger] roots[a]) by {
                assert(names_view(required@)[a] == roots[a]);
            }
            assert forall|a: int| 0 <= a < required@.len() implies reachable(roots, locked, #[trigger] names_view(required@)[a]) by {
                lemma_root_reachable(roots, locked, a);
            }
        }
        let mut added_prev: Vec<String> = copy_names(&required);
        proof {
            assert forall|a: int| 0 <= a < added_prev@.len() implies names_view(required@).contains(#[trigger] names_view(added_prev@)[a]) by {
                assert(names_view(required@)[a] == names_view(added_prev@)[a]);
            }
            assert forall|a: int| 0 <= a < required@.len() implies names_view(added_prev@).contains(#[trigger] names_view(required@)[a]) by {
                assert(names_view(added_prev@)[a] == names_view(required@)[a]);
            }
        }

        // mark: what the marked locked packages depend on, round by round
        while added_prev.len() > 0
            invariant
                self.dependencies == old(self).dependencies,
                self.locked == old(self).locked,
                self.changed == old(self).changed,
                locked == locked_map_entries(self.locked),
                roots == keys_of(dependency_map_entries(self.dependencies)),
                universe == roots + all_dependency_names(locked),
                names_view(required@).no_duplicates(),
                forall|a: int| 0 <= a < required@.len() ==> universe.contains(#[trigger] names_view(required@)[a]),
                required@.len() <= universe.len(),
                forall|a: int| 0 <= a < roots.len() ==> names_view(required@).contains(#[trigger] roots[a]),
                forall|a: int| 0 <= a < added_prev@.len() ==> names_view(required@).contains(#[trigger] names_view(added_prev@)[a]),
                forall|a: int| 0 <= a < required@.len() ==> reachable(roots, locked, #[trigger] names_view(required@)[a]),
                forall|a: int| 0 <= a < required@.len() ==> expanded(locked, #[trigger] names_view(required@)[a], names_view(required@))
                    || names_view(added_prev@).contains(names_view(required@)[a]),
            decreases 2 * (universe.len() - required@.len()) + if added_prev@.len() > 0 { 1int } else { 0int },
        {
            let ghost start = names_view(required@);
            let ghost start_len = required@.len();
            let mut added: Vec<String> = Vec::new();
            proof {
                assert(start + names_view(added@) =~= start);
                assert(names_view(added_prev@).skip(0) =~= names_view(added_prev@));
            }
            let mut k: usize = 0;
            while k < added_prev.len()
                invariant
                    k <= added_prev@.len(),
                    self.dependencies == old(self).dependencies,
                    self.locked == old(self).locked,
                    self.changed == old(self).changed,
                    locked == locked_map_entries(self.locked),
                    roots == keys_of(dependency_map_entries(self.dependencies)),
                    universe == roots + all_dependency_names(locked),
                    start.len() == start_len,
                    names_view(required@) == start + names_view(added@),
                    names_view(required@).no_duplicates(),
                    forall|a: int| 0 <= a < required@.len() ==> universe.contains(#[trigger] names_view(required@)[a]),
                    forall|a: int| 0 <= a < roots.len() ==> names_view(required@).contains(#[trigger] roots[a]),
                    forall|a: int| 0 <= a < added_prev@.len() ==> names_view(required@).contains(#[trigger] names_view(added_prev@)[a]),
                    forall|a: int| 0 <= a < required@.len() ==> reachable(roots, locked, #[trigger] names_view(required@)[a]),
                    forall|a: int| 0 <= a < required@.len() ==> expanded(locked, #[trigger] names_view(required@)[a], names_view(required@))
                        || names_view(added_prev@).skip(k as int).contains(names_view(required@)[a])
                        || names_view(added@).contains(names_view(required@)[a]),
                ensures
                    k >= added_prev@.len(),
                    names_view(required@) == start + names_view(added@),
                    names_view(required@).no_duplicates(),
                    forall|a: int| 0 <= a < required@.len() ==> universe.contains(#[trigger] names_view(required@)[a]),
                    forall|a: int| 0 <= a < roots.len() ==> names_view(required@).contains(#[trigger] roots[a]),
                    forall|a: int| 0 <= a < required@.len() ==> reachable(roots, locked, #[trigger] names_view(required@)[a]),
                    forall|a: int| 0 <= a < required@.len() ==> expanded(locked, #[trigger] names_view(required@)[a], names_view(required@))
                        || names_view(added_prev@).skip(k as int).contains(names_view(required@)[a])
                        || names_view(added@).contains(names_view(required@)[a]),
                decreases added_prev@.len() - k,
            {
                let ghost x = names_view(added_prev@)[k as int];
                let found = locked_map_get(&self.locked, added_prev[k].as_str());
                if let Some(dep) = found {
                    let ghost l = dep@;
                    let ghost lidx = crate::vpm::maps::index_of_key(locked, x)->0;
                    proof {
                        assert(value_of(locked, x) == Some(l));
                        assert(locked[lidx].0 == x);
                    }
                    let dep_count = range_map_len(&dep.dependencies);
                    let mut j: usize = 0;
                    while j < dep_count
                        invariant
                            j <= dep_count,
                            dep_count == l.dependencies.len(),
                            l == dep@,
                            value_of(locked, x) == Some(l),
                            0 <= lidx < locked.len(),
                            locked[lidx].1 == l,
                            locked[lidx].0 == x,
                            forall|a: int| 0 <= a < required@.len() ==> reachable(roots, locked, #[trigger] names_view(required@)[a]),
                            self.dependencies == old(self).dependencies,
                            self.locked == old(self).locked,
                            self.changed == old(self).changed,
                            locked == locked_map_entries(self.locked),
                            roots == keys_of(dependency_map_entries(self.dependencies)),
                            universe == roots + all_dependency_names(locked),
                            start.len() == start_len,
                            names_view(required@) == start + names_view(added@),
                            names_view(required@).no_duplicates(),
                            forall|a: int| 0 <= a < required@.len() ==> universe.contains(#[trigger] names_view(required@)[a]),
                            forall|a: int| 0 <= a < roots.len() ==> names_view(required@).contains(#[trigger] roots[a]),
                            forall|a: int| 0 <= a < added_prev@.len() ==> names_view(required@).contains(#[trigger] names_view(added_prev@)[a]),
                            forall|b: int| 0 <= b < j ==> names_view(required@).contains(#[trigger] l.dependencies[b].0),
                            k < added_prev@.len(),
                            x == names_view(added_prev@)[k as int],
                            forall|a: int| 0 <= a < required@.len() ==> expanded(locked, #[trigger] names_view(required@)[a], names_view(required@))
                                || names_view(added_prev@).skip(k as int).contains(names_view(required@)[a])
                                || names_view(added@).contains(names_view(required@)[a]),
                        decreases dep_count - j,
                    {
                        let (dep_name, _) = range_map_get_index(&dep.dependencies, j);
                        if !names_contain(&required, dep_name.as_str()) {
                            let ghost before = names_view(required@);
                            let ghost before_added = names_view(added@);
                            let ghost old_required = required@;
                            let ghost old_added = added@;
                            let c1 = dep_name.clone();
                            let c2 = dep_name.clone();
                            required.push(c1);
                            added.push(c2);
                            proof {
                                let now = names_view(required@);
                                let d = dep_name@;
                                assert(now =~= before.push(d));
                                assert(names_view(added@) =~= before_added.push(d));
                                assert(now =~= start + names_view(added@));
                                let s = locked.map_values(|e: (Seq<char>, LockedView)| keys_of(e.1.dependencies));
                                assert(s[lidx][j as int] == d);
                                lemma_flatten_has(s, lidx, j as int);
                                let f = all_dependency_names(locked);
                                let q = choose|q: int| 0 <= q < f.len() && f[q] == d;
                                assert(universe[roots.len() + q] == d);
                                assert(reachable(roots, locked, x)) by {
                                    assert(before.contains(x));
                                    let c = choose|c: int| 0 <= c < before.len() && before[c] == x;
                                    assert(names_view(old_required)[c] == x);
                                }
                                lemma_dependency_reachable(roots, locked, lidx, j as int);
                                assert(locked[lidx].1.dependencies[j as int].0 == d);
                                assert forall|a: int| 0 <= a < required@.len() implies reachable(roots, locked, #[trigger] now[a]) by {
                                    if a < before.len() {
                                        assert(now[a] == before[a]);
                                        assert(names_view(old_required)[a] == before[a]);
                                    }
                                }
                                assert forall|a: int| 0 <= a < required@.len() implies universe.contains(#[trigger] now[a]) by {
                                    if a < before.len() {
                                        assert(now[a] == before[a]);
                                    }
                                }
                                assert forall|a: int| 0 <= a < roots.len() implies now.contains(#[trigger] roots[a]) by {
                                    lemma_push_keeps(before, d, roots[a]);
                                }
                                assert forall|a: int| 0 <= a < added_prev@.len() implies now.contains(#[trigger] names_view(added_prev@)[a]) by {
                                    lemma_push_keeps(before, d, names_view(added_prev@)[a]);
                                }
                                assert forall|b: int| 0 <= b < j + 1 implies now.contains(#[trigger] l.dependencies[b].0) by {
                                    lemma_push_keeps(before, d, l.dependencies[b].0);
                                }
                                assert(now.no_duplicates()) by {
                                    assert forall|a: int, b: int| 0 <= a < b < now.len() implies now[a] != now[b] by {
                                        if b == before.len() {
                                            assert(now[a] == before[a]);
                                            assert(before.contains(before[a]));
                                        } else {
                                            assert(now[a] == before[a] && now[b] == before[b]);
                                        }
                                    }
                                }
                                assert forall|a: int| 0 <= a < required@.len() implies expanded(locked, #[trigger] now[a], now)
                                    || names_view(added_prev@).skip(k as int).contains(now[a])
                                    || names_view(added@).contains(now[a]) by {
                                    if a == before.len() {
                                        lemma_push_keeps(before_added, d, d);
                                    } else {
                                        let y = before[a];
                                        assert(now[a] == y);
                                        assert(old_required.len() == before.len());
                                        assert(names_view(old_required)[a] == y);
                                        if expanded(locked, y, before) {
                                            if let Some(m) = value_of(locked, y) {
                                                assert forall|c: int| 0 <= c < m.dependencies.len() implies now.contains(#[trigger] m.dependencies[c].0) by {
                                                    lemma_push_keeps(before, d, m.dependencies[c].0);
                                                }
                                            }
                                        } else if before_added.contains(y) {
                                            lemma_push_keeps(before_added, d, y);
                                        }
                                    }
                                }
                            }
                        }
                        j = j + 1;
                    }
                    proof {
                        assert(expanded(locked, x, names_view(required@)));
                    }
                } else {
                    proof {
                        assert(value_of(locked, x) is None);
                        assert(expanded(locked, x, names_view(required@)));
                    }
                }
                proof {
                    let now = names_view(required@);
                    let pending = names_view(added_prev@);
                    assert(expanded(locked, x, now));
                    assert(pending.skip(k as int) =~= seq![x] + pending.skip(k + 1));
                    assert forall|a: int| 0 <= a < required@.len() implies expanded(locked, #[trigger] now[a], now)
                        || pending.skip(k + 1).contains(now[a])
                        || names_view(added@).contains(now[a]) by {
                        if pending.skip(k as int).contains(now[a]) && now[a] != x {
                            let e = choose|e: int| 0 <= e < pending.skip(k as int).len() && pending.skip(k as int)[e] == now[a];
                            assert(e != 0);
                            assert(pending.skip(k + 1)[e - 1] == now[a]);
                        }
                    }
                }
                k = k + 1;
            }
            proof {
                let now = names_view(required@);
                lemma_required_bound(now, universe);
                assert forall|a: int| 0 <= a < added@.len() implies now.contains(#[trigger] names_view(added@)[a]) by {
                    assert(now[start.len() + a] == names_view(added@)[a]);
                }
                assert(names_view(added_prev@).skip(k as int) =~= Seq::<Seq<char>>::empty());
            }
            added_prev = added;
        }

        // sweep
        let mut removing: Vec<String> = Vec::new();
        let count = locked_map_len(&self.locked);
        let ghost req = names_view(required@);
        let mut i: usize = 0;
        while i < count
            invariant
                i <= count,
                self.dependencies == old(self).dependencies,
                self.locked == old(self).locked,
                self.changed == old(self).changed,
                count == locked.len(),
                locked == locked_map_entries(self.locked),
                req == names_view(required@),
                forall|a: int, b: int| 0 <= a < b < i ==> locked[a].0 != locked[b].0,
                names_view(removing@) == unrequired_keys(locked, req, i as int),
            decreases count - i,
        {
            let (name, _) = locked_map_get_index(&self.locked, i);
            let ghost before = removing@;
            if !names_contain(&required, name.as_str()) {
                let c = name.clone();
                removing.push(c);
                proof {
                    assert(names_view(removing@) =~= names_view(before).push(c@));
                }
            }
            proof {
                assert forall|a: int, b: int| 0 <= a < b < i + 1 implies locked[a].0 != locked[b].0 by {
                    if b == i {
                        assert(locked[a].0 != name@);
                    }
                }
            }
            i = i + 1;
        }
        proof {
            lemma_unrequired_keys(locked, req, count as int);
        }
        let ghost before_sweep = locked_map_entries(self.locked);
        let mut r: usize = 0;
        while r < removing.len()
            invariant
                r <= removing@.len(),
                self.dependencies == old(self).dependencies,
                self.changed == old(self).changed,
                locked_map_entries(self.locked) == removed_all(before_sweep, names_view(removing@).take(r as int)),
            decreases removing@.len() - r,
        {
            locked_map_remove(&mut self.locked, removing[r].as_str());
            proof {
                let all = names_view(removing@);
                assert(all.take(r + 1).drop_last() =~= all.take(r as int));
                assert(all.take(r + 1).last() == removing@[r as int]@);
            }
            r = r + 1;
        }
        proof {
            let rem = names_view(removing@);
            assert(rem.take(r as int) =~= rem);
            let after = locked_map_entries(self.locked);
            assert(before_sweep == locked);
            assert(after == removed_all(locked, rem));
            assert(rem == unrequired_keys(locked, req, count as int));
            assert(keys_distinct(locked));
            lemma_removed_all(locked, rem);
            assert forall|k: Seq<char>| rem.contains(k) implies has_key(locked, k) by {
                let a = choose|a: int| 0 <= a < count && (#[trigger] locked[a]).0 == k;
            }
            assert forall|k: Seq<char>| has_key(after, k) <==> (has_key(locked, k) && req.contains(k)) by {
                assert(has_key(after, k) <==> (has_key(locked, k) && !rem.contains(k)));
                assert(rem.contains(k) <==> (!req.contains(k) && exists|a: int| 0 <= a < count && (#[trigger] locked[a]).0 == k));
                if has_key(locked, k) && !req.contains(k) {
                    let a = choose|a: int| 0 <= a < locked.len() && (#[trigger] locked[a]).0 == k;
                    assert(rem.contains(k));
                }
            }
            assert forall|k: Seq<char>| has_key(after, k) implies reachable(roots, locked, k) by {
                assert(req.contains(k));
                let c = choose|c: int| 0 <= c < req.len() && req[c] == k;
                assert(reachable(roots, locked, names_view(required@)[c]));
            }
            assert forall|a: int| 0 <= a < roots.len() && has_key(locked, #[trigger] roots[a]) implies has_key(after, roots[a]) by {
                assert(req.contains(roots[a]));
            }
            assert(names_view(added_prev@).len() == 0);
            assert forall|a: int| 0 <= a < req.len() implies expanded(locked, #[trigger] req[a], req) by {
                assert(!names_view(added_prev@).contains(req[a]));
            }
            assert forall|k: Seq<char>| has_key(locked, k) && reachable(roots, locked, k) implies has_key(after, k) by {
                let n = choose|n: nat| #[trigger] reached(roots, locked, n).contains(k);
                lemma_reached_required(roots, locked, req, n);
            }
            if locked_closed(roots, locked) {
                assert forall|a: int| 0 <= a < roots.len() implies has_key(after, #[trigger] roots[a]) by {
                    assert(req.contains(roots[a]));
                }
                assert forall|a: int, b: int| 0 <= a < locked.len() && 0 <= b < locked[a].1.dependencies.len()
                    && has_key(after, locked[a].0) implies has_key(after, (#[trigger] locked[a].1.dependencies[b]).0) by {
                    let key = locked[a].0;
                    assert(req.contains(key));
                    let c = choose|c: int| 0 <= c < req.len() && req[c] == key;
                    assert(expanded(locked, req[c], req) || names_view(added_prev@).contains(req[c]));
                    crate::vpm::maps::lemma_index_of_key(locked, key);
                    assert(value_of(locked, key) == Some(locked[a].1));
                    assert(req.contains(locked[a].1.dependencies[b].0));
                }
                assert forall|k: Seq<char>| reachable(roots, locked, k) implies has_key(after, k) by {
                    let n = choose|n: nat| #[trigger] reached(roots, locked, n).contains(k);
                    lemma_reached_within(roots, locked, after, n);
                }
            }
        }
        removing
    }
}

} // verus!
