use vstd::prelude::*;

verus! {

// ---------------------------------------------------------------------------------------
// Addresses, as the `url` crate reads them.

/// The parts of an address that the program looks at: its scheme, its host as written, its
/// path, its query as decoded pairs, and the whole address as the `url` crate writes it.
#[derive(Debug)]
pub struct UrlParts {
    pub scheme: String,
    pub host: Option<String>,
    pub path: String,
    pub query: Vec<(String, String)>,
    pub text: String,
}

/// The mathematical value of [`UrlParts`].
pub ghost struct UrlPartsView {
    pub scheme: Seq<char>,
    pub host: Option<Seq<char>>,
    pub path: Seq<char>,
    pub query: Seq<(Seq<char>, Seq<char>)>,
    pub text: Seq<char>,
}

/// The texts of a list of pairs of strings.
pub open spec fn text_pairs(v: Seq<(String, String)>) -> Seq<(Seq<char>, Seq<char>)> {
    v.map_values(|p: (String, String)| (p.0@, p.1@))
}

impl View for UrlParts {
    type V = UrlPartsView;

    open spec fn view(&self) -> UrlPartsView {
        UrlPartsView {
            scheme: self.scheme@,
            host: match self.host {
                Some(h) => Some(h@),
                None => None,
            },
            path: self.path@,
            query: text_pairs(self.query@),
            text: self.text@,
        }
    }
}

/// The parts of an optional address.
pub open spec fn opt_parts(u: Option<UrlParts>) -> Option<UrlPartsView> {
    match u {
        Some(p) => Some(p@),
        None => None,
    }
}

/// What `url::Url::parse` makes of a text: `None` when it refuses it.
pub uninterp spec fn parsed_url(text: Seq<char>) -> Option<UrlPartsView>;

/// `url::Url::parse`, then its `scheme`, `host_str`, `path`, `query_pairs` and `as_str`.
/// Claimed: the result is a function of the text alone (named `parsed_url`), `None` exactly
/// when the parser returns an error. Nothing more of the parser is stated.
#[verifier::external_body]
pub(crate) fn url_parse(text: &str) -> (r: Option<UrlParts>)
    ensures
        opt_parts(r) == parsed_url(text@),
{
    let url = url::Url::parse(text).ok()?;
    Some(UrlParts {
        scheme: url.scheme().to_owned(),
        host: url.host_str().map(str::to_owned),
        path: url.path().to_owned(),
        query: url.query_pairs().map(|(k, v)| (k.into_owned(), v.into_owned())).collect(),
        text: url.as_str().to_owned(),
    })
}

/// Whether the `url` crate reads `text` as an address (rather than, say, a path).
pub fn is_url(text: &str) -> (r: bool)
    ensures
        r == parsed_url(text@) is Some,
{
    url_parse(text).is_some()
}

/// The address `text` as the `url` crate writes it back (its scheme and host in lower case, a
/// path of at least `/`, ...); `None` when the crate does not read it as an address.
pub fn normalized_url(text: &str) -> (r: Option<String>)
    ensures
        opt_text_of(r) == match parsed_url(text@) {
            Some(p) => Some(p.text),
            None => None,
        },
{
    match url_parse(text) {
        Some(p) => Some(p.text),
        None => None,
    }
}

/// The text of an optional string.
pub open spec fn opt_text_of(o: Option<String>) -> Option<Seq<char>> {
    match o {
        Some(s) => Some(s@),
        None => None,
    }
}

} // verus!
