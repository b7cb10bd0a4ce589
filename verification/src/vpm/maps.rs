use vstd::prelude::*;
use indexmap::IndexMap;
use crate::version::comparator::ComparatorView;
use crate::version::range::VersionRange;
use crate::version::version::VersionView;
use crate::vpm::package::{VpmDependency, VpmLockedDependency};

verus! {

// ---------------------------------------------------------------------------------------
// Ordered maps keyed by text, as sequences of entries.

/// No key occurs twice.
pub open spec fn keys_distinct<V>(s: Seq<(Seq<char>, V)>) -> bool {
    forall|i: int, j: int| 0 <= i < j < s.len() ==> (#[trigger] s[i]).0 != (#[trigger] s[j]).0
}

/// Whether `key` is one of the keys.
pub open spec fn has_key<V>(s: Seq<(Seq<char>, V)>, key: Seq<char>) -> bool {
    exists|i: int| 0 <= i < s.len() && (#[trigger] s[i]).0 == key
}

/// The position of `key`, if it is one of the keys.
pub open spec fn index_of_key<V>(s: Seq<(Seq<char>, V)>, key: Seq<char>) -> Option<int> {
    if has_key(s, key) {
        Some(choose|i: int| 0 <= i < s.len() && (#[trigger] s[i]).0 == key)
    } else {
        None
    }
}

/// The value of `key`, if it is one of the keys.
pub open spec fn value_of<V>(s: Seq<(Seq<char>, V)>, key: Seq<char>) -> Option<V> {
    match index_of_key(s, key) {
        Some(i) => Some(s[i].1),
        None => None,
    }
}

/// `IndexMap::insert`: a present key keeps its place and takes the new value; a new key goes
/// last.
pub open spec fn inserted<V>(s: Seq<(Seq<char>, V)>, key: Seq<char>, value: V) -> Seq<(Seq<char>, V)> {
    match index_of_key(s, key) {
        Some(i) => s.update(i, (key, value)),
        None => s.push((key, value)),
    }
}

/// `IndexMap::swap_remove`: the entry of `key` is replaced by the last entry, which is
/// dropped from the end.
pub open spec fn swap_removed<V>(s: Seq<(Seq<char>, V)>, key: Seq<char>) -> Seq<(Seq<char>, V)> {
    match index_of_key(s, key) {
        Some(i) => if i == s.len() - 1 {
            s.drop_last()
        } else {
            s.drop_last().update(i, s.last())
        },
        None => s,
    }
}

/// The keys in order.
pub open spec fn keys_of<V>(s: Seq<(Seq<char>, V)>) -> Seq<Seq<char>> {
    s.map_values(|e: (Seq<char>, V)| e.0)
}

pub proof fn lemma_index_of_key<V>(s: Seq<(Seq<char>, V)>, key: Seq<char>)
    requires
        keys_distinct(s),
    ensures
        index_of_key(s, key) matches Some(i) ==> 0 <= i < s.len() && s[i].0 == key,
        forall|j: int| 0 <= j < s.len() && (#[trigger] s[j]).0 == key ==> index_of_key(s, key) == Some(j),
{
}

/// Removing a key keeps the keys distinct and leaves exactly the other keys.
pub proof fn lemma_swap_removed<V>(s: Seq<(Seq<char>, V)>, key: Seq<char>)
    requires
        keys_distinct(s),
    ensures
        keys_distinct(swap_removed(s, key)),
        forall|k: Seq<char>| #![trigger has_key(swap_removed(s, key), k)]
            has_key(swap_removed(s, key), k) <==> (has_key(s, k) && k != key),
        forall|k: Seq<char>| k != key ==> value_of(swap_removed(s, key), k) == value_of(s, k),
{
    let r = swap_removed(s, key);
    if let Some(i) = index_of_key(s, key) {
        assert forall|k: Seq<char>| has_key(r, k) <==> (has_key(s, k) && k != key) by {
            if has_key(r, k) {
                let j = choose|j: int| 0 <= j < r.len() && (#[trigger] r[j]).0 == k;
                if j == i && i != s.len() - 1 {
                    assert(s[s.len() - 1].0 == k);
                } else {
                    assert(s[j].0 == k);
                }
            }
            if has_key(s, k) && k != key {
                let j = choose|j: int| 0 <= j < s.len() && (#[trigger] s[j]).0 == k;
                if j == s.len() - 1 && i != s.len() - 1 {
                    assert(r[i].0 == k);
                } else {
                    assert(r[j].0 == k);
                }
            }
        }
        assert forall|k: Seq<char>| k != key implies value_of(r, k) == value_of(s, k) by {
            if has_key(s, k) {
                let j = choose|j: int| 0 <= j < s.len() && (#[trigger] s[j]).0 == k;
                if j == s.len() - 1 && i != s.len() - 1 {
                    assert(r[i].0 == k);
                    assert(index_of_key(r, k) == Some(i));
                } else {
                    assert(r[j].0 == k);
                    assert(index_of_key(r, k) == Some(j));
                }
            }
        }
    }
}

/// Inserting keeps the keys distinct, adds `key` with `value` and keeps the other entries.
pub proof fn lemma_inserted<V>(s: Seq<(Seq<char>, V)>, key: Seq<char>, value: V)
    requires
        keys_distinct(s),
    ensures
        keys_distinct(inserted(s, key, value)),
        value_of(inserted(s, key, value), key) == Some(value),
        forall|k: Seq<char>| k != key ==> value_of(inserted(s, key, value), k) == value_of(s, k),
{
    let r = inserted(s, key, value);
    if let Some(i) = index_of_key(s, key) {
        assert(r[i].0 == key);
        assert forall|k: Seq<char>| k != key implies value_of(r, k) == value_of(s, k) by {
            if has_key(s, k) {
                let j = choose|j: int| 0 <= j < s.len() && (#[trigger] s[j]).0 == k;
                assert(r[j].0 == k);
            }
            if has_key(r, k) {
                let j = choose|j: int| 0 <= j < r.len() && (#[trigger] r[j]).0 == k;
                assert(s[j].0 == k);
            }
        }
    } else {
        assert(r[s.len() as int].0 == key);
        assert forall|k: Seq<char>| k != key implies value_of(r, k) == value_of(s, k) by {
            if has_key(s, k) {
                let j = choose|j: int| 0 <= j < s.len() && (#[trigger] s[j]).0 == k;
                assert(r[j].0 == k);
            }
            if has_key(r, k) {
                let j = choose|j: int| 0 <= j < r.len() && (#[trigger] r[j]).0 == k;
                assert(s[j].0 == k);
            }
        }
    }
}

// ---------------------------------------------------------------------------------------
// `IndexMap<String, VersionRange>`: the ranges a package needs of other packages.

/// What a map from package names to ranges holds, in order.
pub uninterp spec fn range_map_entries(m: IndexMap<String, VersionRange>) -> Seq<(Seq<char>, Seq<Seq<ComparatorView>>)>;

/// `IndexMap::len`.
/// Claimed: the number of entries.
#[verifier::external_body]
pub fn range_map_len(m: &IndexMap<String, VersionRange>) -> (r: usize)
    ensures
        r == range_map_entries(*m).len(),
{
    m.len()
}

/// `IndexMap::get_index`.
/// Claimed: the key and value of the entry at position `i` in order; no other entry has
/// that key (the keys of an `IndexMap` are distinct).
#[verifier::external_body]
pub fn range_map_get_index(m: &IndexMap<String, VersionRange>, i: usize) -> (r: (&String, &VersionRange))
    requires
        i < range_map_entries(*m).len(),
    ensures
        r.0@ == range_map_entries(*m)[i as int].0,
        forall|j: int| 0 <= j < range_map_entries(*m).len() && j != i ==> (#[trigger] range_map_entries(*m)[j]).0 != r.0@,
        r.1@ == range_map_entries(*m)[i as int].1,
{
    m.get_index(i).unwrap()
}

/// `IndexMap::contains_key`.
/// Claimed: whether `key` is one of the keys.
#[verifier::external_body]
pub fn range_map_contains_key(m: &IndexMap<String, VersionRange>, key: &str) -> (r: bool)
    ensures
        r == has_key(range_map_entries(*m), key@),
{
    m.contains_key(key)
}

/// `IndexMap::new`.
/// Claimed: an empty map.
#[verifier::external_body]
fn range_map_new() -> (r: IndexMap<String, VersionRange>)
    ensures
        range_map_entries(r) == Seq::<(Seq<char>, Seq<Seq<ComparatorView>>)>::empty(),
{
    IndexMap::new()
}

/// `IndexMap::insert`, with the previous value dropped.
/// Claimed: a present key keeps its place and takes the new value; a new key goes last.
#[verifier::external_body]
fn range_map_insert(m: &mut IndexMap<String, VersionRange>, key: String, value: VersionRange)
    ensures
        range_map_entries(*final(m)) == inserted(range_map_entries(*old(m)), key@, value@),
{
    m.insert(key, value);
}

/// A copy of a map from package names to ranges: the same entries in the same order.
pub fn range_map_clone(m: &IndexMap<String, VersionRange>) -> (r: IndexMap<String, VersionRange>)
    ensures
        range_map_entries(r) == range_map_entries(*m),
{
    let ghost s = range_map_entries(*m);
    let n = range_map_len(m);
    let mut out = range_map_new();
    let mut i: usize = 0;
    assert(s.take(0) =~= Seq::<(Seq<char>, Seq<Seq<ComparatorView>>)>::empty());
    while i < n
        invariant
            i <= n,
            n == s.len(),
            s == range_map_entries(*m),
            range_map_entries(out) == s.take(i as int),
        decreases n - i,
    {
        let (key, value) = range_map_get_index(m, i);
        let ghost before = range_map_entries(out);
        assert(!has_key(before, key@)) by {
            if has_key(before, key@) {
                let j = choose|j: int| 0 <= j < before.len() && (#[trigger] before[j]).0 == key@;
                assert(before[j] == s[j]);
            }
        }
        range_map_insert(&mut out, key.clone(), value.clone());
        assert(range_map_entries(out) =~= s.take(i + 1));
        i = i + 1;
    }
    assert(s.take(n as int) =~= s);
    out
}

// ---------------------------------------------------------------------------------------
// `IndexMap<String, VpmDependency>`: the dependencies of a project.

/// What a project's dependency map holds, in order: names and least versions.
pub uninterp spec fn dependency_map_entries(m: IndexMap<String, VpmDependency>) -> Seq<(Seq<char>, VersionView)>;

/// `IndexMap::len`.
/// Claimed: the number of entries.
#[verifier::external_body]
pub fn dependency_map_len(m: &IndexMap<String, VpmDependency>) -> (r: usize)
    ensures
        r == dependency_map_entries(*m).len(),
{
    m.len()
}

/// `IndexMap::get_index`.
/// Claimed: the key and value of the entry at position `i` in order; no other entry has
/// that key (the keys of an `IndexMap` are distinct).
#[verifier::external_body]
pub fn dependency_map_get_index(m: &IndexMap<String, VpmDependency>, i: usize) -> (r: (&String, &VpmDependency))
    requires
        i < dependency_map_entries(*m).len(),
    ensures
        r.0@ == dependency_map_entries(*m)[i as int].0,
        forall|j: int| 0 <= j < dependency_map_entries(*m).len() && j != i ==> (#[trigger] dependency_map_entries(*m)[j]).0 != r.0@,
        r.1.version@ == dependency_map_entries(*m)[i as int].1,
{
    m.get_index(i).unwrap()
}

/// `IndexMap::get`.
/// Claimed: the value of `key`, `None` when it is not a key.
#[verifier::external_body]
pub fn dependency_map_get<'a>(m: &'a IndexMap<String, VpmDependency>, key: &str) -> (r: Option<&'a VpmDependency>)
    ensures
        match value_of(dependency_map_entries(*m), key@) {
            Some(v) => r is Some && r->0.version@ == v,
            None => r is None,
        },
{
    m.get(key)
}

/// `IndexMap::insert`, with the previous value dropped.
/// Claimed: a present key keeps its place and takes the new value; a new key goes last.
#[verifier::external_body]
pub fn dependency_map_insert(m: &mut IndexMap<String, VpmDependency>, key: String, value: VpmDependency)
    ensures
        dependency_map_entries(*final(m)) == inserted(dependency_map_entries(*old(m)), key@, value.version@),
{
    m.insert(key, value);
}

/// `IndexMap::remove` (that is `swap_remove`), with the removed value dropped.
/// Claimed: the entry of `key` is replaced by the last entry, which leaves the end.
#[verifier::external_body]
pub fn dependency_map_remove(m: &mut IndexMap<String, VpmDependency>, key: &str)
    ensures
        dependency_map_entries(*final(m)) == swap_removed(dependency_map_entries(*old(m)), key@),
{
    m.swap_remove(key);
}

// ---------------------------------------------------------------------------------------
// `IndexMap<String, VpmLockedDependency>`: the locked packages of a project.

/// The mathematical value of a [`VpmLockedDependency`].
pub ghost struct LockedView {
    pub version: VersionView,
    pub dependencies: Seq<(Seq<char>, Seq<Seq<ComparatorView>>)>,
}

impl View for VpmLockedDependency {
    type V = LockedView;

    open spec fn view(&self) -> LockedView {
        LockedView { version: self.version@, dependencies: range_map_entries(self.dependencies) }
    }
}

/// What a project's locked map holds, in order.
pub uninterp spec fn locked_map_entries(m: IndexMap<String, VpmLockedDependency>) -> Seq<(Seq<char>, LockedView)>;

/// `IndexMap::len`.
/// Claimed: the number of entries.
#[verifier::external_body]
pub fn locked_map_len(m: &IndexMap<String, VpmLockedDependency>) -> (r: usize)
    ensures
        r == locked_map_entries(*m).len(),
{
    m.len()
}

/// `IndexMap::get_index`.
/// Claimed: the key and value of the entry at position `i` in order; no other entry has
/// that key (the keys of an `IndexMap` are distinct).
#[verifier::external_body]
pub fn locked_map_get_index(m: &IndexMap<String, VpmLockedDependency>, i: usize) -> (r: (&String, &VpmLockedDependency))
    requires
        i < locked_map_entries(*m).len(),
    ensures
        r.0@ == locked_map_entries(*m)[i as int].0,
        forall|j: int| 0 <= j < locked_map_entries(*m).len() && j != i ==> (#[trigger] locked_map_entries(*m)[j]).0 != r.0@,
        r.1@ == locked_map_entries(*m)[i as int].1,
{
    m.get_index(i).unwrap()
}

/// `IndexMap::get`.
/// Claimed: the value of `key`, `None` when it is not a key.
#[verifier::external_body]
pub fn locked_map_get<'a>(m: &'a IndexMap<String, VpmLockedDependency>, key: &str) -> (r: Option<&'a VpmLockedDependency>)
    ensures
        match value_of(locked_map_entries(*m), key@) {
            Some(v) => r is Some && r->0@ == v,
            None => r is None,
        },
{
    m.get(key)
}

/// `IndexMap::insert`, with the previous value dropped.
/// Claimed: a present key keeps its place and takes the new value; a new key goes last.
#[verifier::external_body]
pub fn locked_map_insert(m: &mut IndexMap<String, VpmLockedDependency>, key: String, value: VpmLockedDependency)
    ensures
        locked_map_entries(*final(m)) == inserted(locked_map_entries(*old(m)), key@, value@),
{
    m.insert(key, value);
}

/// `IndexMap::remove` (that is `swap_remove`), with the removed value dropped.
/// Claimed: the entry of `key` is replaced by the last entry, which leaves the end.
#[verifier::external_body]
pub fn locked_map_remove(m: &mut IndexMap<String, VpmLockedDependency>, key: &str)
    ensures
        locked_map_entries(*final(m)) == swap_removed(locked_map_entries(*old(m)), key@),
{
    m.swap_remove(key);
}

} // verus!
