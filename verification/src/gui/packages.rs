use vstd::prelude::*;
use crate::text::owned;
use crate::version::buf::str_eq;
use crate::vpm::maps::{index_of_key, inserted, keys_distinct, lemma_inserted, lemma_index_of_key};
use crate::vpm::setting::UserRepoSetting;

verus! {

// ---------------------------------------------------------------------------------------
// Names under which downloaded repositories are reported.

/// The texts of a list of pairs of texts.
pub open spec fn pairs_view(v: Seq<(String, String)>) -> Seq<(Seq<char>, Seq<char>)> {
    v.map_values(|p: (String, String)| (p.0@, p.1@))
}

/// Sets `key` to `value` in a list of pairs whose keys are distinct, as a map does: a present
/// key keeps its place and takes the new value, a new one goes last.
pub fn insert_pair(v: &mut Vec<(String, String)>, key: String, value: String)
    requires
        keys_distinct(pairs_view(old(v)@)),
    ensures
        pairs_view(final(v)@) == inserted(pairs_view(old(v)@), key@, value@),
        keys_distinct(pairs_view(final(v)@)),
{
    let ghost s = pairs_view(v@);
    proof {
        lemma_inserted(s, key@, value@);
        lemma_index_of_key(s, key@);
    }
    let mut i: usize = 0;
    while i < v.len()
        invariant
            i <= v@.len(),
            s == pairs_view(v@),
            s == pairs_view(old(v)@),
            keys_distinct(s),
            forall|j: int| 0 <= j < i ==> (#[trigger] s[j]).0 != key@,
        decreases v@.len() - i,
    {
        if str_eq(v[i].0.as_str(), key.as_str()) {
            assert(s[i as int].0 == key@);
            assert(index_of_key(s, key@) == Some(i as int));
            v.set(i, (key, value));
            assert(pairs_view(v@) =~= s.update(i as int, (key@, value@)));
            return;
        }
        i = i + 1;
    }
    assert(index_of_key(s, key@) is None);
    v.push((key, value));
    assert(pairs_view(v@) =~= s.push((key@, value@)));
}

/// The address of the curated repository of VRChat.
pub open spec fn curated_url() -> Seq<char> {
    "https://packages.vrchat.com/curated?download"@
}

/// The address of the official repository of VRChat.
pub open spec fn official_url() -> Seq<char> {
    "https://packages.vrchat.com/official?download"@
}

/// The name of a repository with address `u`: its name, else its id, else the address.
pub open spec fn repo_display_name(r: UserRepoSetting, u: Seq<char>) -> Seq<char> {
    match r.name {
        Some(n) => n@,
        None => match r.id {
            Some(i) => i@,
            None => u,
        },
    }
}

/// Each address of the user's repositories with the name of the last repository that has it.
pub open spec fn repo_url_entries(repos: Seq<UserRepoSetting>) -> Seq<(Seq<char>, Seq<char>)>
    decreases repos.len(),
{
    if repos.len() == 0 {
        Seq::empty()
    } else {
        let prev = repo_url_entries(repos.drop_last());
        let r = repos.last();
        match r.url {
            Some(u) => inserted(prev, u@, repo_display_name(r, u@)),
            None => prev,
        }
    }
}

/// The names of repositories by address: the user's, then the curated repository unless it is
/// ignored, named `com.vrchat.repos.official`, then the official one unless it is ignored,
/// named `com.vrchat.repos.curated`.
pub open spec fn url_names(repos: Seq<UserRepoSetting>, ignore_curated: bool, ignore_official: bool) -> Seq<(Seq<char>, Seq<char>)> {
    let base = repo_url_entries(repos);
    let with_curated = if !ignore_curated {
        inserted(base, curated_url(), "com.vrchat.repos.official"@)
    } else {
        base
    };
    if !ignore_official {
        inserted(with_curated, official_url(), "com.vrchat.repos.curated"@)
    } else {
        with_curated
    }
}

/// The name of a repository with id `i`: its name, else the id.
pub open spec fn repo_id_name(r: UserRepoSetting, i: Seq<char>) -> Seq<char> {
    match r.name {
        Some(n) => n@,
        None => i,
    }
}

/// Each id of the user's repositories with the name of the last repository that has it.
pub open spec fn repo_id_entries(repos: Seq<UserRepoSetting>) -> Seq<(Seq<char>, Seq<char>)>
    decreases repos.len(),
{
    if repos.len() == 0 {
        Seq::empty()
    } else {
        let prev = repo_id_entries(repos.drop_last());
        let r = repos.last();
        match r.id {
            Some(i) => inserted(prev, i@, repo_id_name(r, i@)),
            None => prev,
        }
    }
}

/// The names of repositories by id: the user's, then the curated repository unless it is
/// ignored, then the official one unless it is ignored, each of these two named by its id.
pub open spec fn id_names(repos: Seq<UserRepoSetting>, ignore_curated: bool, ignore_official: bool) -> Seq<(Seq<char>, Seq<char>)> {
    let base = repo_id_entries(repos);
    let with_curated = if !ignore_curated {
        inserted(base, "com.vrchat.repos.curated"@, "com.vrchat.repos.curated"@)
    } else {
        base
    };
    if !ignore_official {
        inserted(with_curated, "com.vrchat.repos.official"@, "com.vrchat.repos.official"@)
    } else {
        with_curated
    }
}

fn clone_string(s: &String) -> (r: String)
    ensures
        r@ == s@,
{
    owned(s.as_str())
}

/// The names under which repositories are reported, by address.
pub fn user_repo_urls(repos: &[UserRepoSetting], ignore_curated_repository: bool, ignore_official_repository: bool) -> (r: Vec<(String, String)>)
    ensures
        pairs_view(r@) == url_names(repos@, ignore_curated_repository, ignore_official_repository),
        keys_distinct(pairs_view(r@)),
{
    let mut out: Vec<(String, String)> = Vec::new();
    let mut i: usize = 0;
    assert(pairs_view(out@) =~= Seq::<(Seq<char>, Seq<char>)>::empty());
    while i < repos.len()
        invariant
            i <= repos@.len(),
            pairs_view(out@) == repo_url_entries(repos@.take(i as int)),
            keys_distinct(pairs_view(out@)),
        decreases repos@.len() - i,
    {
        let r = &repos[i];
        proof {
            assert(repos@.take(i + 1).drop_last() =~= repos@.take(i as int));
            assert(repos@.take(i + 1).last() == *r);
        }
        if let Some(u) = &r.url {
            let name = match &r.name {
                Some(n) => clone_string(n),
                None => match &r.id {
                    Some(id) => clone_string(id),
                    None => clone_string(u),
                },
            };
            insert_pair(&mut out, clone_string(u), name);
        }
        i = i + 1;
    }
    assert(repos@.take(repos@.len() as int) =~= repos@);
    if !ignore_curated_repository {
        proof {
            reveal_strlit("https://packages.vrchat.com/curated?download");
            reveal_strlit("com.vrchat.repos.official");
        }
        insert_pair(&mut out, owned("https://packages.vrchat.com/curated?download"), owned("com.vrchat.repos.official"));
    }
    if !ignore_official_repository {
        proof {
            reveal_strlit("https://packages.vrchat.com/official?download");
            reveal_strlit("com.vrchat.repos.curated");
        }
        insert_pair(&mut out, owned("https://packages.vrchat.com/official?download"), owned("com.vrchat.repos.curated"));
    }
    out
}

/// The names under which repositories are reported, by id.
pub fn user_repo_ids(repos: &[UserRepoSetting], ignore_curated_repository: bool, ignore_official_repository: bool) -> (r: Vec<(String, String)>)
    ensures
        pairs_view(r@) == id_names(repos@, ignore_curated_repository, ignore_official_repository),
        keys_distinct(pairs_view(r@)),
{
    let mut out: Vec<(String, String)> = Vec::new();
    let mut i: usize = 0;
    assert(pairs_view(out@) =~= Seq::<(Seq<char>, Seq<char>)>::empty());
    while i < repos.len()
        invariant
            i <= repos@.len(),
            pairs_view(out@) == repo_id_entries(repos@.take(i as int)),
            keys_distinct(pairs_view(out@)),
        decreases repos@.len() - i,
    {
        let r = &repos[i];
        proof {
            assert(repos@.take(i + 1).drop_last() =~= repos@.take(i as int));
            assert(repos@.take(i + 1).last() == *r);
        }
        if let Some(id) = &r.id {
            let name = match &r.name {
                Some(n) => clone_string(n),
                None => clone_string(id),
            };
            insert_pair(&mut out, clone_string(id), name);
        }
        i = i + 1;
    }
    assert(repos@.take(repos@.len() as int) =~= repos@);
    if !ignore_curated_repository {
        insert_pair(&mut out, owned("com.vrchat.repos.curated"), owned("com.vrchat.repos.curated"));
    }
    if !ignore_official_repository {
        insert_pair(&mut out, owned("com.vrchat.repos.official"), owned("com.vrchat.repos.official"));
    }
    out
}

} // verus!
