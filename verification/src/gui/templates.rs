use vstd::prelude::*;
use crate::text::{owned, starts_with, str_strip_prefix, str_strip_suffix, str_trim, strip_trailing_char, trim_both};
use crate::version::number::{decimal, push_decimal, string_push};
use crate::vpm::setting::opt_view;

verus! {

// ---------------------------------------------------------------------------------------
// Files of project templates.

/// Whether Windows forbids `c` in a file name.
pub open spec fn banned_in_file_name(c: char) -> bool {
    c == '<' || c == '>' || c == ':' || c == '"' || c == '/' || c == '\\' || c == '|' || c == '?'
        || c == '*'
}

/// `s` without the characters that Windows forbids in a file name.
pub open spec fn without_banned(s: Seq<char>) -> Seq<char>
    decreases s.len(),
{
    if s.len() == 0 {
        Seq::empty()
    } else {
        let prev = without_banned(s.drop_last());
        if banned_in_file_name(s.last()) {
            prev
        } else {
            prev.push(s.last())
        }
    }
}

/// How many characters of a template's name its file name keeps at most.
pub const TEMPLATE_NAME_CHARS: usize = 100;

/// The first `n` characters of `s`, or all of them if there are fewer.
pub open spec fn first_chars(s: Seq<char>, n: nat) -> Seq<char> {
    if s.len() <= n {
        s
    } else {
        s.take(n as int)
    }
}

/// The file name (without extension) of a template named `name`: the name without the
/// characters Windows forbids, cut to its first hundred characters, without leading and
/// trailing whitespace, and without trailing dots.
pub open spec fn template_stem(name: Seq<char>) -> Seq<char> {
    strip_trailing_char(trim_both(first_chars(without_banned(name), TEMPLATE_NAME_CHARS as nat)), '.')
}

/// `s` with every trailing `.` removed.
fn trim_trailing_dots<'a>(s: &'a str) -> (r: &'a str)
    ensures
        r@ == strip_trailing_char(s@, '.'),
{
    proof {
        reveal_strlit(".");
        assert("."@ =~= seq!['.']);
    }
    let mut rest = s;
    loop
        invariant
            "."@ == seq!['.'],
            strip_trailing_char(s@, '.') == strip_trailing_char(rest@, '.'),
        decreases rest@.len(),
    {
        match str_strip_suffix(rest, ".") {
            Some(before) => {
                assert(rest@.last() == '.') by {
                    assert(rest@.skip(rest@.len() - 1)[0] == rest@.last());
                }
                assert(rest@.drop_last() =~= before@);
                rest = before;
            },
            None => {
                assert(!(rest@.len() > 0 && rest@.last() == '.')) by {
                    if rest@.len() > 0 && rest@.last() == '.' {
                        assert(rest@.skip(rest@.len() - 1) =~= "."@);
                    }
                }
                return rest;
            },
        }
    }
}

/// Whether Windows forbids `c` in a file name.
fn is_banned_in_file_name(c: char) -> (r: bool)
    ensures
        r == banned_in_file_name(c),
{
    c == '<' || c == '>' || c == ':' || c == '"' || c == '/' || c == '\\' || c == '|' || c == '?'
        || c == '*'
}

/// The file name (without extension) under which a template named `name` is saved first.
pub fn template_file_stem(name: &str) -> (r: String)
    ensures
        r@ == template_stem(name@),
{
    let n = name.unicode_len();
    let mut kept = String::new();
    let mut i: usize = 0;
    assert(kept@ =~= without_banned(name@.take(0)));
    while i < n
        invariant
            n == name@.len(),
            i <= n,
            kept@ == without_banned(name@.take(i as int)),
        decreases n - i,
    {
        let c = name.get_char(i);
        proof {
            assert(name@.take(i + 1).drop_last() =~= name@.take(i as int));
            assert(name@.take(i + 1).last() == c);
        }
        if !is_banned_in_file_name(c) {
            string_push(&mut kept, c);
        }
        i = i + 1;
    }
    assert(name@.take(n as int) =~= name@);
    let len = kept.as_str().unicode_len();
    let end = if len <= TEMPLATE_NAME_CHARS { len } else { TEMPLATE_NAME_CHARS };
    let cut = kept.as_str().substring_char(0, end);
    assert(cut@ =~= first_chars(kept@, TEMPLATE_NAME_CHARS as nat));
    let trimmed = str_trim(cut);
    owned(trim_trailing_dots(trimmed))
}

/// The file name (without extension) of the `i`-th other try: the stem, `_` and `i`.
pub open spec fn numbered_stem(stem: Seq<char>, i: nat) -> Seq<char> {
    stem + seq!['_'] + decimal(i)
}

/// How many numbered names are tried before a random one.
pub const NUMBERED_TRIES: u64 = 10;

/// The file names (without extension) tried in turn for a new template with file name `stem`,
/// before a random one: `stem` itself, then `stem_1` to `stem_10`.
pub fn template_file_candidates(stem: &str) -> (r: Vec<String>)
    ensures
        r@.len() == NUMBERED_TRIES + 1,
        r@[0]@ == stem@,
        forall|i: int| 1 <= i <= NUMBERED_TRIES ==> #[trigger] r@[i]@ == numbered_stem(stem@, i as nat),
{
    let mut out: Vec<String> = Vec::new();
    out.push(owned(stem));
    let mut i: u64 = 1;
    while i <= NUMBERED_TRIES
        invariant
            1 <= i <= NUMBERED_TRIES + 1,
            out@.len() == i,
            out@[0]@ == stem@,
            forall|j: int| 1 <= j < i ==> #[trigger] out@[j]@ == numbered_stem(stem@, j as nat),
        decreases NUMBERED_TRIES + 1 - i,
    {
        let mut name = owned(stem);
        string_push(&mut name, '_');
        push_decimal(&mut name, i);
        assert(name@ =~= numbered_stem(stem@, i as nat));
        out.push(name);
        i = i + 1;
    }
    out
}

/// The prefix of the ids that templates made by the user are known by.
pub open spec fn user_template_prefix() -> Seq<char> {
    "com.anatawa12.vrc-get.user."@
}

/// The id a saved template keeps: the one it was opened with, unless that is an id given to
/// a template made by the user.
pub open spec fn kept_id(id: Option<Seq<char>>) -> Option<Seq<char>> {
    match id {
        Some(i) => if starts_with(i, user_template_prefix()) {
            None
        } else {
            Some(i)
        },
        None => None,
    }
}

/// The id stored in a template that is saved, given the id it was opened with.
pub fn saved_template_id(id: &Option<String>) -> (r: Option<String>)
    ensures
        opt_view(r) == kept_id(opt_view(*id)),
{
    match id {
        Some(i) => match str_strip_prefix(i.as_str(), "com.anatawa12.vrc-get.user.") {
            Some(_) => None,
            None => Some(owned(i.as_str())),
        },
        None => None,
    }
}

} // verus!
