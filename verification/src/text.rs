use vstd::prelude::*;
use vstd::string::StrSliceExecFns;
use crate::version::buf::{chars_match_at, first_occurrence, is_ws_char, lemma_first_occurrence, split_once_str, trim_ws};
use crate::version::number::{string_push, string_push_str};

verus! {

// ---------------------------------------------------------------------------------------
// Plain text: prefixes, trimming and lines.

/// Whether `s` starts with `p`.
pub open spec fn starts_with(s: Seq<char>, p: Seq<char>) -> bool {
    p.len() <= s.len() && s.take(p.len() as int) == p
}

/// Whether `s` ends with `p`.
pub open spec fn ends_with(s: Seq<char>, p: Seq<char>) -> bool {
    p.len() <= s.len() && s.skip(s.len() - p.len()) == p
}

/// `s` with its trailing whitespace removed.
pub open spec fn trim_ws_end(s: Seq<char>) -> Seq<char>
    decreases s.len(),
{
    if s.len() > 0 && is_ws_char(s.last()) {
        trim_ws_end(s.drop_last())
    } else {
        s
    }
}

/// `s` with leading and trailing whitespace removed.
pub open spec fn trim_both(s: Seq<char>) -> Seq<char> {
    trim_ws_end(trim_ws(s))
}

/// `s` with every leading repetition of `p` removed (`str::trim_start_matches` with a text).
pub open spec fn strip_all_prefix(s: Seq<char>, p: Seq<char>) -> Seq<char>
    decreases s.len(),
{
    if p.len() > 0 && starts_with(s, p) {
        strip_all_prefix(s.skip(p.len() as int), p)
    } else {
        s
    }
}

/// `s` with every leading `c` removed.
pub open spec fn strip_leading_char(s: Seq<char>, c: char) -> Seq<char>
    decreases s.len(),
{
    if s.len() > 0 && s[0] == c {
        strip_leading_char(s.drop_first(), c)
    } else {
        s
    }
}

/// `s` with every trailing `c` removed.
pub open spec fn strip_trailing_char(s: Seq<char>, c: char) -> Seq<char>
    decreases s.len(),
{
    if s.len() > 0 && s.last() == c {
        strip_trailing_char(s.drop_last(), c)
    } else {
        s
    }
}

/// `str::trim_matches` with one character: every leading and trailing `c` removed.
pub open spec fn trim_char(s: Seq<char>, c: char) -> Seq<char> {
    strip_trailing_char(strip_leading_char(s, c), c)
}

/// A line without the carriage return that ended it, if one did.
pub open spec fn without_cr(l: Seq<char>) -> Seq<char> {
    if l.len() > 0 && l.last() == '\r' {
        l.drop_last()
    } else {
        l
    }
}

/// `str::lines`: the text cut at each line feed, a carriage return right before a line feed
/// going with it; a final line feed ends the last line and starts no new one.
pub open spec fn lines_of(s: Seq<char>) -> Seq<Seq<char>>
    decreases s.len(),
{
    if s.len() == 0 {
        Seq::empty()
    } else {
        match first_occurrence(s, seq!['\n']) {
            Some(i) => {
                proof {
                    lemma_first_occurrence(s, seq!['\n']);
                }
                seq![without_cr(s.take(i as int))] + lines_of(s.skip(i as int + 1))
            },
            None => seq![s],
        }
    }
}

/// The first of `lines` that starts with `p`.
pub open spec fn first_with_prefix(lines: Seq<Seq<char>>, p: Seq<char>) -> Option<Seq<char>>
    decreases lines.len(),
{
    if lines.len() == 0 {
        None
    } else if starts_with(lines[0], p) {
        Some(lines[0])
    } else {
        first_with_prefix(lines.drop_first(), p)
    }
}

/// The last of `lines` that starts with `p`.
pub open spec fn last_with_prefix(lines: Seq<Seq<char>>, p: Seq<char>) -> Option<Seq<char>>
    decreases lines.len(),
{
    if lines.len() == 0 {
        None
    } else if starts_with(lines.last(), p) {
        Some(lines.last())
    } else {
        last_with_prefix(lines.drop_last(), p)
    }
}

/// The texts that the slices hold.
pub open spec fn strs_view(v: Seq<&str>) -> Seq<Seq<char>> {
    v.map_values(|l: &str| l@)
}

/// `str::strip_prefix` with a text as the prefix: the rest of `s` after `prefix` when `s`
/// starts with it, `None` otherwise.
pub fn str_strip_prefix<'a>(s: &'a str, prefix: &str) -> (r: Option<&'a str>)
    ensures
        match r {
            Some(rest) => starts_with(s@, prefix@) && rest@ == s@.skip(prefix@.len() as int),
            None => !starts_with(s@, prefix@),
        },
{
    let n = s.unicode_len();
    let m = prefix.unicode_len();
    if m > n {
        return None;
    }
    if chars_match_at(s, prefix, 0) {
        assert(s@.subrange(0, 0 + m) =~= s@.take(m as int));
        let rest = s.substring_char(m, n);
        assert(rest@ =~= s@.skip(m as int));
        Some(rest)
    } else {
        assert(s@.subrange(0, 0 + m) =~= s@.take(m as int));
        None
    }
}

/// `str::strip_suffix` with a text as the suffix: `s` without `suffix` when `s` ends with it,
/// `None` otherwise.
pub fn str_strip_suffix<'a>(s: &'a str, suffix: &str) -> (r: Option<&'a str>)
    ensures
        match r {
            Some(rest) => ends_with(s@, suffix@) && rest@ == s@.take(s@.len() - suffix@.len()),
            None => !ends_with(s@, suffix@),
        },
{
    let n = s.unicode_len();
    let m = suffix.unicode_len();
    if m > n {
        return None;
    }
    let start = n - m;
    if chars_match_at(s, suffix, start) {
        assert(s@.subrange(start as int, start + m) =~= s@.skip(start as int));
        let rest = s.substring_char(0, start);
        assert(rest@ =~= s@.take(start as int));
        Some(rest)
    } else {
        assert(s@.subrange(start as int, start + m) =~= s@.skip(start as int));
        None
    }
}

/// `str::trim`.
/// Claimed: the slice without its leading and trailing whitespace (the Unicode `White_Space`
/// property).
#[verifier::external_body]
pub fn str_trim<'a>(s: &'a str) -> (r: &'a str)
    ensures
        r@ == trim_both(s@),
{
    s.trim()
}

/// The lines of a text, as `str::lines` gives them.
pub fn text_lines<'a>(s: &'a str) -> (r: Vec<&'a str>)
    ensures
        strs_view(r@) == lines_of(s@),
{
    let mut out: Vec<&'a str> = Vec::new();
    let mut rest = s;
    let nl = "\n";
    let cr = "\r";
    proof {
        reveal_strlit("\n");
        reveal_strlit("\r");
        assert(nl@ =~= seq!['\n']);
        assert(cr@ =~= seq!['\r']);
    }
    while !rest.is_empty()
        invariant
            nl@ == seq!['\n'],
            cr@ == seq!['\r'],
            lines_of(s@) == strs_view(out@) + lines_of(rest@),
        decreases rest@.len(),
    {
        let ghost before = rest@;
        proof {
            lemma_first_occurrence(before, seq!['\n']);
        }
        match split_once_str(rest, nl) {
            Some((line, after)) => {
                let ghost i = first_occurrence(before, seq!['\n'])->0;
                let kept = match str_strip_suffix(line, cr) {
                    Some(l) => l,
                    None => line,
                };
                assert(kept@ == without_cr(before.take(i as int))) by {
                    let t = before.take(i as int);
                    if t.len() > 0 && t.last() == '\r' {
                        assert(t.skip(t.len() - 1) =~= seq!['\r']);
                    } else if ends_with(t, seq!['\r']) {
                        assert(t.skip(t.len() - 1)[0] == t.last());
                    }
                }
                out.push(kept);
                rest = after;
                assert(strs_view(out@) =~= strs_view(out@.drop_last()) + seq![kept@]);
            },
            None => {
                out.push(rest);
                assert(strs_view(out@) =~= strs_view(out@.drop_last()) + seq![before]);
                let empty = "";
                proof {
                    reveal_strlit("");
                }
                rest = empty;
                assert(lines_of(rest@) =~= Seq::<Seq<char>>::empty());
            },
        }
    }
    assert(lines_of(rest@) =~= Seq::<Seq<char>>::empty());
    assert(strs_view(out@) + lines_of(rest@) =~= strs_view(out@));
    out
}

/// The first of the lines that starts with `p`.
pub fn find_first_with_prefix<'a>(lines: &Vec<&'a str>, p: &str) -> (r: Option<&'a str>)
    ensures
        match first_with_prefix(strs_view(lines@), p@) {
            Some(l) => r matches Some(x) && x@ == l,
            None => r is None,
        },
{
    let ghost all = strs_view(lines@);
    let mut i: usize = 0;
    assert(all.skip(0) =~= all);
    while i < lines.len()
        invariant
            i <= lines@.len(),
            all == strs_view(lines@),
            first_with_prefix(all, p@) == first_with_prefix(all.skip(i as int), p@),
        decreases lines@.len() - i,
    {
        let l = lines[i];
        proof {
            assert(all.skip(i as int)[0] == l@);
            assert(all.skip(i as int).drop_first() =~= all.skip(i + 1));
        }
        if str_strip_prefix(l, p).is_some() {
            return Some(l);
        }
        i = i + 1;
    }
    assert(all.skip(i as int) =~= Seq::<Seq<char>>::empty());
    None
}

/// The last of the lines that starts with `p`.
pub fn find_last_with_prefix<'a>(lines: &Vec<&'a str>, p: &str) -> (r: Option<&'a str>)
    ensures
        match last_with_prefix(strs_view(lines@), p@) {
            Some(l) => r matches Some(x) && x@ == l,
            None => r is None,
        },
{
    let ghost all = strs_view(lines@);
    let mut i: usize = lines.len();
    assert(all.take(i as int) =~= all);
    while i > 0
        invariant
            i <= lines@.len(),
            all == strs_view(lines@),
            last_with_prefix(all, p@) == last_with_prefix(all.take(i as int), p@),
        decreases i,
    {
        let l = lines[i - 1];
        proof {
            assert(all.take(i as int).last() == l@);
            assert(all.take(i as int).drop_last() =~= all.take(i - 1));
        }
        if str_strip_prefix(l, p).is_some() {
            return Some(l);
        }
        i = i - 1;
    }
    None
}

/// `str::trim_start_matches` with a non-empty text: every leading repetition of `p` removed.
pub fn strip_all<'a>(s: &'a str, p: &str) -> (r: &'a str)
    requires
        p@.len() > 0,
    ensures
        r@ == strip_all_prefix(s@, p@),
{
    let mut rest = s;
    loop
        invariant
            p@.len() > 0,
            strip_all_prefix(s@, p@) == strip_all_prefix(rest@, p@),
        decreases rest@.len(),
    {
        match str_strip_prefix(rest, p) {
            Some(after) => {
                rest = after;
            },
            None => {
                return rest;
            },
        }
    }
}

/// `str::trim_matches` with one character: every leading and trailing `c` removed.
pub fn trim_matching<'a>(s: &'a str, c: &str) -> (r: &'a str)
    requires
        c@.len() == 1,
    ensures
        r@ == trim_char(s@, c@[0]),
{
    let ghost ch = c@[0];
    let mut rest = s;
    loop
        invariant
            c@.len() == 1,
            ch == c@[0],
            strip_leading_char(s@, ch) == strip_leading_char(rest@, ch),
        ensures
            strip_leading_char(s@, ch) == rest@,
        decreases rest@.len(),
    {
        match str_strip_prefix(rest, c) {
            Some(after) => {
                assert(rest@[0] == ch) by {
                    assert(rest@.take(1)[0] == rest@[0]);
                }
                assert(rest@.drop_first() =~= after@);
                rest = after;
            },
            None => {
                assert(!(rest@.len() > 0 && rest@[0] == ch)) by {
                    if rest@.len() > 0 && rest@[0] == ch {
                        assert(rest@.take(1) =~= c@);
                    }
                }
                break;
            },
        }
    }
    let ghost front = rest@;
    loop
        invariant
            c@.len() == 1,
            ch == c@[0],
            front == strip_leading_char(s@, ch),
            strip_trailing_char(front, ch) == strip_trailing_char(rest@, ch),
        decreases rest@.len(),
    {
        match str_strip_suffix(rest, c) {
            Some(before) => {
                assert(rest@.last() == ch) by {
                    assert(rest@.skip(rest@.len() - 1)[0] == rest@.last());
                }
                assert(rest@.drop_last() =~= before@);
                rest = before;
            },
            None => {
                assert(!(rest@.len() > 0 && rest@.last() == ch)) by {
                    if rest@.len() > 0 && rest@.last() == ch {
                        assert(rest@.skip(rest@.len() - 1) =~= c@);
                    }
                }
                return rest;
            },
        }
    }
}

/// A `String` holding the text of `s`.
pub fn owned(s: &str) -> (r: String)
    ensures
        r@ == s@,
{
    let mut out = String::new();
    string_push_str(&mut out, s);
    out
}

/// `c` in lower case if it is an ASCII upper-case letter.
pub open spec fn ascii_lower(c: char) -> char {
    if 'A' <= c <= 'Z' {
        ((c as u32) + 32) as char
    } else {
        c
    }
}

pub open spec fn ascii_lowercase(s: Seq<char>) -> Seq<char> {
    s.map_values(|c: char| ascii_lower(c))
}

/// `c` in lower case if it is an ASCII upper-case letter.
fn ascii_lower_char(c: char) -> (r: char)
    ensures
        r == ascii_lower(c),
{
    if 'A' <= c && c <= 'Z' {
        let b = c as u8;
        proof {
            assert(b as u32 == c as u32);
        }
        ((b + 32) as char)
    } else {
        c
    }
}

/// `str::to_ascii_lowercase`: the text with each ASCII upper-case letter in lower case,
/// everything else as it is.
pub fn str_to_ascii_lowercase(s: &str) -> (r: String)
    ensures
        r@ == ascii_lowercase(s@),
{
    let n = s.unicode_len();
    let mut out = String::new();
    let mut i: usize = 0;
    while i < n
        invariant
            i <= n,
            n == s@.len(),
            out@ == ascii_lowercase(s@.take(i as int)),
        decreases n - i,
    {
        let c = s.get_char(i);
        string_push(&mut out, ascii_lower_char(c));
        proof {
            assert(s@.take(i + 1) =~= s@.take(i as int).push(c));
            assert(ascii_lowercase(s@.take(i + 1)) =~= ascii_lowercase(s@.take(i as int)).push(ascii_lower(c)));
        }
        i = i + 1;
    }
    assert(s@.take(n as int) =~= s@);
    out
}

} // verus!
