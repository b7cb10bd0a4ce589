use vstd::prelude::*;
use indexmap::IndexMap;
use crate::version::buf::{first_occurrence, split_once_str, str_eq};
use crate::vpm::maps::inserted;
use crate::text::owned;
use crate::version::number::{string_push, string_push_str};
use crate::address::{parsed_url, text_pairs, url_parse, UrlParts, UrlPartsView};

verus! {

/// What an `IndexMap` from texts to texts holds, in order.
pub uninterp spec fn text_map_entries(m: IndexMap<String, String>) -> Seq<(Seq<char>, Seq<char>)>;

/// `IndexMap::new`.
/// Claimed: an empty map.
#[verifier::external_body]
fn text_map_new() -> (r: IndexMap<String, String>)
    ensures
        text_map_entries(r) == Seq::<(Seq<char>, Seq<char>)>::empty(),
{
    IndexMap::new()
}

/// `IndexMap::insert`, with the previous value dropped.
/// Claimed: a present key keeps its place and takes the new value; a new key goes last.
#[verifier::external_body]
fn text_map_insert(m: &mut IndexMap<String, String>, key: String, value: String)
    ensures
        text_map_entries(*final(m)) == inserted(text_map_entries(*old(m)), key@, value@),
{
    m.insert(key, value);
}

// ---------------------------------------------------------------------------------------
// Links that open the application.

/// A request to add a repository: its address, and the headers to send for it.
#[derive(Debug)]
pub struct AddRepositoryInfo {
    pub url: String,
    pub headers: IndexMap<String, String>,
}

/// What a link asks of the application.
#[derive(Debug)]
pub enum DeepLink {
    AddRepository(AddRepositoryInfo),
}

/// The address of a repository to add, as written, and its headers in order.
pub ghost struct AddRepositoryView {
    pub url: Seq<char>,
    pub headers: Seq<(Seq<char>, Seq<char>)>,
}

/// The value of a link request.
pub open spec fn deep_link_view(d: Option<DeepLink>) -> Option<AddRepositoryView> {
    match d {
        Some(DeepLink::AddRepository(info)) => Some(
            AddRepositoryView { url: info.url@, headers: text_map_entries(info.headers) },
        ),
        None => None,
    }
}

/// Whether an address is one over HTTP or HTTPS.
pub open spec fn web_address(p: UrlPartsView) -> bool {
    p.scheme == "http"@ || p.scheme == "https"@
}

/// The text of an optional string.
pub open spec fn opt_text(o: Option<String>) -> Option<Seq<char>> {
    match o {
        Some(s) => Some(s@),
        None => None,
    }
}

/// One pair `(key, value)` of an `addRepo` link's query read after the address and headers
/// read so far: a `url` pair gives the repository's address (an HTTP or HTTPS address, at
/// most once), a `headers[]` pair `name:value` a header (split at its first colon, a later
/// name replacing an earlier one's value); other pairs are ignored. `None` when the pair is
/// refused.
pub open spec fn step_query(
    state: (Option<Seq<char>>, Seq<(Seq<char>, Seq<char>)>),
    key: Seq<char>,
    value: Seq<char>,
) -> Option<(Option<Seq<char>>, Seq<(Seq<char>, Seq<char>)>)> {
    let url = state.0;
    let headers = state.1;
    if key == "url"@ {
        if url is Some {
            None
        } else {
            match parsed_url(value) {
                Some(p) => if web_address(p) {
                    Some((Some(p.text), headers))
                } else {
                    None
                },
                None => None,
            }
        }
    } else if key == "headers[]"@ {
        match first_occurrence(value, seq![':']) {
            Some(i) => Some((url, inserted(headers, value.take(i as int), value.skip((i + 1) as int)))),
            None => None,
        }
    } else {
        Some((url, headers))
    }
}

/// The query pairs of an `addRepo` link read in order; `None` when one is refused.
pub open spec fn read_query(q: Seq<(Seq<char>, Seq<char>)>) -> Option<(Option<Seq<char>>, Seq<(Seq<char>, Seq<char>)>)>
    decreases q.len(),
{
    if q.len() == 0 {
        Some((None, Seq::empty()))
    } else {
        match read_query(q.drop_last()) {
            None => None,
            Some(state) => step_query(state, q.last().0, q.last().1),
        }
    }
}

/// What a link asks: for `vcc://vpm/addRepo`, to add the repository its query names (with the
/// headers it gives); any other link, or one whose query is refused or names no address,
/// asks nothing.
pub open spec fn link_request(link: UrlPartsView) -> Option<AddRepositoryView> {
    if link.scheme == "vcc"@ && link.host == Some("vpm"@) && link.path == "/addRepo"@ {
        match read_query(link.query) {
            Some((Some(url), headers)) => Some(AddRepositoryView { url, headers }),
            _ => None,
        }
    } else {
        None
    }
}

/// Reads one pair of an `addRepo` link's query after the address and headers read so far;
/// `false` when the pair is refused.
fn read_pair(key: &str, value: &str, url: &mut Option<String>, headers: &mut IndexMap<String, String>) -> (r: bool)
    ensures
        match step_query((opt_text(*old(url)), text_map_entries(*old(headers))), key@, value@) {
            Some(state) => r && opt_text(*final(url)) == state.0 && text_map_entries(*final(headers)) == state.1,
            None => !r,
        },
{
    proof {
        reveal_strlit("url");
        reveal_strlit("headers[]");
        reveal_strlit("http");
        reveal_strlit("https");
        reveal_strlit(":");
        assert(":"@ =~= seq![':']);
    }
    if str_eq(key, "url") {
        if url.is_some() {
            return false;
        }
        match url_parse(value) {
            Some(p) => {
                if str_eq(p.scheme.as_str(), "http") || str_eq(p.scheme.as_str(), "https") {
                    *url = Some(p.text);
                    true
                } else {
                    false
                }
            },
            None => false,
        }
    } else if str_eq(key, "headers[]") {
        match split_once_str(value, ":") {
            Some((name, rest)) => {
                text_map_insert(headers, owned(name), owned(rest));
                true
            },
            None => false,
        }
    } else {
        true
    }
}

/// What the link `deep_link` (as read by the `url` crate) asks of the application.
pub fn parse_deep_link(deep_link: &UrlParts) -> (r: Option<DeepLink>)
    ensures
        deep_link_view(r) == link_request(deep_link@),
{
    proof {
        reveal_strlit("vcc");
        reveal_strlit("vpm");
        reveal_strlit("/addRepo");
    }
    let host_ok = match &deep_link.host {
        Some(h) => str_eq(h.as_str(), "vpm"),
        None => false,
    };
    if !(str_eq(deep_link.scheme.as_str(), "vcc") && host_ok && str_eq(deep_link.path.as_str(), "/addRepo")) {
        return None;
    }
    let ghost q = deep_link@.query;
    let mut url: Option<String> = None;
    let mut headers = text_map_new();
    let mut i: usize = 0;
    assert(q.take(0) =~= Seq::<(Seq<char>, Seq<char>)>::empty());
    while i < deep_link.query.len()
        invariant
            i <= deep_link.query@.len(),
            q == text_pairs(deep_link.query@),
            read_query(q.take(i as int)) == Some((opt_text(url), text_map_entries(headers))),
        decreases deep_link.query@.len() - i,
    {
        let pair = &deep_link.query[i];
        proof {
            assert(q.take(i + 1).drop_last() =~= q.take(i as int));
            assert(q.take(i + 1).last() == (pair.0@, pair.1@));
        }
        if !read_pair(pair.0.as_str(), pair.1.as_str(), &mut url, &mut headers) {
            proof {
                lemma_refused_stays_refused(q, i as int + 1);
            }
            return None;
        }
        i = i + 1;
    }
    assert(q.take(q.len() as int) =~= q);
    match url {
        Some(u) => Some(DeepLink::AddRepository(AddRepositoryInfo { url: u, headers })),
        None => None,
    }
}

/// Once a pair is refused, the whole query is.
proof fn lemma_refused_stays_refused(q: Seq<(Seq<char>, Seq<char>)>, k: int)
    requires
        0 <= k <= q.len(),
        read_query(q.take(k)) is None,
    ensures
        read_query(q) is None,
    decreases q.len() - k,
{
    if k < q.len() {
        assert(q.take(k + 1).drop_last() =~= q.take(k));
        lemma_refused_stays_refused(q, k + 1);
    } else {
        assert(q.take(k) =~= q);
    }
}

/// What the link written `text` asks of the application; nothing when the `url` crate does
/// not read it as an address.
pub fn deep_link_request(text: &str) -> (r: Option<DeepLink>)
    ensures
        deep_link_view(r) == match parsed_url(text@) {
            Some(link) => link_request(link),
            None => None,
        },
{
    match url_parse(text) {
        Some(link) => parse_deep_link(&link),
        None => None,
    }
}

// ---------------------------------------------------------------------------------------
// The desktop entry that lets Linux open links with the application.

/// How a character of the program's path is written inside the double quotes of the `Exec`
/// key of a desktop entry: a backslash as four backslashes, and a backquote, a dollar sign
/// or a double quote after two backslashes.
pub open spec fn exec_escaped_char(c: char) -> Seq<char> {
    if c == '\\' {
        seq!['\\', '\\', '\\', '\\']
    } else if c == '`' || c == '$' || c == '"' {
        seq!['\\', '\\', c]
    } else {
        seq![c]
    }
}

/// A path as written inside the double quotes of the `Exec` key.
pub open spec fn exec_escaped(s: Seq<char>) -> Seq<char>
    decreases s.len(),
{
    if s.len() == 0 {
        Seq::empty()
    } else {
        exec_escaped(s.drop_last()) + exec_escaped_char(s.last())
    }
}

/// The path `s` as written inside the double quotes of the `Exec` key of a desktop entry.
pub fn exec_escape(s: &str) -> (r: String)
    ensures
        r@ == exec_escaped(s@),
{
    let n = s.unicode_len();
    let mut out = String::new();
    let mut i: usize = 0;
    assert(out@ =~= exec_escaped(s@.take(0)));
    while i < n
        invariant
            n == s@.len(),
            i <= n,
            out@ == exec_escaped(s@.take(i as int)),
        decreases n - i,
    {
        let c = s.get_char(i);
        let ghost before = out@;
        proof {
            assert(s@.take(i + 1).drop_last() =~= s@.take(i as int));
            assert(s@.take(i + 1).last() == c);
        }
        if c == '\\' {
            string_push(&mut out, '\\');
            string_push(&mut out, '\\');
            string_push(&mut out, '\\');
            string_push(&mut out, '\\');
        } else if c == '`' || c == '$' || c == '"' {
            string_push(&mut out, '\\');
            string_push(&mut out, '\\');
            string_push(&mut out, c);
        } else {
            string_push(&mut out, c);
        }
        assert(out@ =~= before + exec_escaped_char(c));
        i = i + 1;
    }
    assert(s@.take(n as int) =~= s@);
    out
}

/// The text of the desktop entry before the program's path.
pub open spec fn desktop_entry_head() -> Seq<char> {
    "[Desktop Entry]\nType=Application\nName=ALCOM\nExec=\""@
}

/// The text of the desktop entry after the program's path.
pub open spec fn desktop_entry_tail() -> Seq<char> {
    "\" link %u\nNoDisplay=true\nTerminal=false\nMimeType=x-scheme-handler/vcc\nCategories=Utility;\n"@
}

/// The desktop entry that opens `vcc:` links with the application image at `appimage_path`.
pub fn desktop_entry(appimage_path: &str) -> (r: String)
    ensures
        r@ == desktop_entry_head() + exec_escaped(appimage_path@) + desktop_entry_tail(),
{
    let mut out = String::new();
    string_push_str(&mut out, "[Desktop Entry]\nType=Application\nName=ALCOM\nExec=\"");
    let escaped = exec_escape(appimage_path);
    string_push_str(&mut out, escaped.as_str());
    string_push_str(&mut out, "\" link %u\nNoDisplay=true\nTerminal=false\nMimeType=x-scheme-handler/vcc\nCategories=Utility;\n");
    assert(out@ =~= desktop_entry_head() + exec_escaped(appimage_path@) + desktop_entry_tail());
    out
}

} // verus!
