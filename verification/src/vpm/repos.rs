use vstd::prelude::*;
use crate::text::{ends_with, owned, str_strip_suffix};
use crate::version::buf::str_eq;
use crate::vpm::setting::{opt_view, UserRepoSetting};

verus! {

// ---------------------------------------------------------------------------------------
// Repository files in the `Repos` folder that no setting accounts for.

/// The file of the official repository in the `Repos` folder.
pub open spec fn official_repo_file() -> Seq<char> {
    seq!['v', 'r', 'c', '-', 'o', 'f', 'f', 'i', 'c', 'i', 'a', 'l', '.', 'j', 's', 'o', 'n']
}

/// The file of the curated repository in the `Repos` folder.
pub open spec fn curated_repo_file() -> Seq<char> {
    seq!['v', 'r', 'c', '-', 'c', 'u', 'r', 'a', 't', 'e', 'd', '.', 'j', 's', 'o', 'n']
}

/// The suffix of a JSON file.
pub open spec fn json_suffix() -> Seq<char> {
    seq!['.', 'j', 's', 'o', 'n']
}

/// Whether a file named `name` has the extension `json`: the name ends with `.json` after at
/// least one more character (a file named `.json` has no extension).
pub open spec fn json_file_name(name: Seq<char>) -> bool {
    name.len() > json_suffix().len() && ends_with(name, json_suffix())
}

/// The repository files that the settings account for: the official and the curated
/// repository, and the user's repositories stored directly in the folder.
pub open spec fn known_repo_files(user_files: Seq<Seq<char>>) -> Seq<Seq<char>> {
    seq![official_repo_file(), curated_repo_file()] + user_files
}

/// Whether an entry of the folder (its name, and whether it is a file) is a repository file
/// that no setting accounts for.
pub open spec fn is_undefined_repo(entry: (Seq<char>, bool), user_files: Seq<Seq<char>>) -> bool {
    entry.1 && json_file_name(entry.0) && !known_repo_files(user_files).contains(entry.0)
}

/// The names of the entries, in their order, that are repository files no setting accounts
/// for.
pub open spec fn undefined_repos(entries: Seq<(Seq<char>, bool)>, user_files: Seq<Seq<char>>) -> Seq<Seq<char>>
    decreases entries.len(),
{
    if entries.len() == 0 {
        Seq::empty()
    } else {
        let prev = undefined_repos(entries.drop_last(), user_files);
        if is_undefined_repo(entries.last(), user_files) {
            prev.push(entries.last().0)
        } else {
            prev
        }
    }
}

/// The texts of a list of strings.
pub open spec fn names_view(v: Seq<String>) -> Seq<Seq<char>> {
    v.map_values(|s: String| s@)
}

/// The entries of a folder by the text of their names.
pub open spec fn entries_view(v: Seq<(String, bool)>) -> Seq<(Seq<char>, bool)> {
    v.map_values(|e: (String, bool)| (e.0@, e.1))
}

/// Whether `name` has the extension `json`.
fn is_json_file_name(name: &str) -> (r: bool)
    ensures
        r == json_file_name(name@),
{
    proof {
        reveal_strlit(".json");
        assert(".json"@ =~= json_suffix());
    }
    match str_strip_suffix(name, ".json") {
        Some(stem) => !stem.is_empty(),
        None => false,
    }
}

/// Whether the settings account for a repository file named `name`.
fn is_known_repo_file(name: &str, user_files: &[String]) -> (r: bool)
    ensures
        r == known_repo_files(names_view(user_files@)).contains(name@),
{
    let ghost known = known_repo_files(names_view(user_files@));
    proof {
        reveal_strlit("vrc-official.json");
        reveal_strlit("vrc-curated.json");
        assert("vrc-official.json"@ =~= official_repo_file());
        assert("vrc-curated.json"@ =~= curated_repo_file());
        assert(known[0] == official_repo_file());
        assert(known[1] == curated_repo_file());
    }
    if str_eq(name, "vrc-official.json") || str_eq(name, "vrc-curated.json") {
        return true;
    }
    let mut i: usize = 0;
    while i < user_files.len()
        invariant
            i <= user_files@.len(),
            known == known_repo_files(names_view(user_files@)),
            name@ != official_repo_file(),
            name@ != curated_repo_file(),
            forall|j: int| 0 <= j < i ==> user_files@[j]@ != name@,
        decreases user_files@.len() - i,
    {
        if str_eq(user_files[i].as_str(), name) {
            assert(known[i + 2] == name@);
            return true;
        }
        i = i + 1;
    }
    assert forall|j: int| 0 <= j < known.len() implies known[j] != name@ by {
        if j >= 2 {
            assert(known[j] == user_files@[j - 2]@);
        }
    }
    false
}

/// The repository files among a folder's entries (each a name and whether it is a file) that
/// neither the official nor the curated repository nor one of the user's repositories
/// (`user_files`, the names of those stored directly in the folder) accounts for, in the
/// entries' order: the files that repository listings add as unnamed sources and that
/// `repo cleanup` removes.
pub fn undefined_repo_files(user_files: &[String], entries: &[(String, bool)]) -> (r: Vec<String>)
    ensures
        names_view(r@) == undefined_repos(entries_view(entries@), names_view(user_files@)),
{
    let ghost users = names_view(user_files@);
    let ghost es = entries_view(entries@);
    let mut out: Vec<String> = Vec::new();
    let mut i: usize = 0;
    assert(names_view(out@) =~= undefined_repos(es.take(0), users));
    while i < entries.len()
        invariant
            i <= entries@.len(),
            users == names_view(user_files@),
            es == entries_view(entries@),
            names_view(out@) == undefined_repos(es.take(i as int), users),
        decreases entries@.len() - i,
    {
        let entry = &entries[i];
        proof {
            assert(es.take(i + 1).drop_last() =~= es.take(i as int));
            assert(es.take(i + 1).last() == (entry.0@, entry.1));
        }
        if entry.1 && is_json_file_name(entry.0.as_str()) && !is_known_repo_file(entry.0.as_str(), user_files) {
            out.push(owned(entry.0.as_str()));
            assert(names_view(out@) =~= undefined_repos(es.take(i as int), users).push(entry.0@));
        }
        i = i + 1;
    }
    assert(es.take(entries@.len() as int) =~= es);
    out
}


// ---------------------------------------------------------------------------------------
// Finding the user's repositories.

/// Whether a repository was added with the URL `url`.
pub open spec fn has_url(r: UserRepoSetting, url: Seq<char>) -> bool {
    opt_view(r.url) == Some(url)
}

/// Whether a repository is named `name`.
pub open spec fn has_name(r: UserRepoSetting, name: Seq<char>) -> bool {
    opt_view(r.name) == Some(name)
}

/// The positions, in order, of the repositories that `pred` holds of.
pub open spec fn positions_where(repos: Seq<UserRepoSetting>, pred: spec_fn(UserRepoSetting) -> bool) -> Seq<usize>
    decreases repos.len(),
{
    if repos.len() == 0 {
        Seq::empty()
    } else {
        let prev = positions_where(repos.drop_last(), pred);
        if pred(repos.last()) {
            prev.push((repos.len() - 1) as usize)
        } else {
            prev
        }
    }
}

/// Whether the optional text `o` is `t`.
fn opt_is(o: &Option<String>, t: &str) -> (r: bool)
    ensures
        r == (opt_view(*o) == Some(t@)),
{
    match o {
        Some(s) => str_eq(s.as_str(), t),
        None => false,
    }
}

/// The positions of the user's repositories added with the URL `url`: a repository is added
/// only once with a URL, and `repo remove` with a URL removes these.
pub fn repos_with_url(repos: &[UserRepoSetting], url: &str) -> (r: Vec<usize>)
    ensures
        r@ == positions_where(repos@, |x: UserRepoSetting| has_url(x, url@)),
{
    let ghost pred = |x: UserRepoSetting| has_url(x, url@);
    let mut out: Vec<usize> = Vec::new();
    let mut i: usize = 0;
    assert(repos@.take(0) =~= Seq::<UserRepoSetting>::empty());
    while i < repos.len()
        invariant
            i <= repos@.len(),
            pred == (|x: UserRepoSetting| has_url(x, url@)),
            out@ == positions_where(repos@.take(i as int), pred),
        decreases repos@.len() - i,
    {
        proof {
            assert(repos@.take(i + 1).drop_last() =~= repos@.take(i as int));
            assert(repos@.take(i + 1).last() == repos@[i as int]);
        }
        if opt_is(&repos[i].url, url) {
            out.push(i);
        }
        i = i + 1;
    }
    assert(repos@.take(repos@.len() as int) =~= repos@);
    out
}

/// The positions of the user's repositories named `name`, which `repo remove` removes when it
/// finds none by URL or path.
pub fn repos_with_name(repos: &[UserRepoSetting], name: &str) -> (r: Vec<usize>)
    ensures
        r@ == positions_where(repos@, |x: UserRepoSetting| has_name(x, name@)),
{
    let ghost pred = |x: UserRepoSetting| has_name(x, name@);
    let mut out: Vec<usize> = Vec::new();
    let mut i: usize = 0;
    assert(repos@.take(0) =~= Seq::<UserRepoSetting>::empty());
    while i < repos.len()
        invariant
            i <= repos@.len(),
            pred == (|x: UserRepoSetting| has_name(x, name@)),
            out@ == positions_where(repos@.take(i as int), pred),
        decreases repos@.len() - i,
    {
        proof {
            assert(repos@.take(i + 1).drop_last() =~= repos@.take(i as int));
            assert(repos@.take(i + 1).last() == repos@[i as int]);
        }
        if opt_is(&repos[i].name, name) {
            out.push(i);
        }
        i = i + 1;
    }
    assert(repos@.take(repos@.len() as int) =~= repos@);
    out
}

} // verus!
