use vstd::prelude::*;
use std::cmp::Ordering;
use crate::version::buf::{lemma_char_eq, str_eq};
use crate::version::number::all_digits;
use crate::version::semver_text::{prerelease_text_valid, semver_accepts_prerelease, split_dots};
use crate::version::version::{Version, VersionView};

verus! {

/// -1, 0 or 1 for `Less`, `Equal`, `Greater`.
pub open spec fn ord_value(o: Ordering) -> int {
    match o {
        Ordering::Less => -1,
        Ordering::Equal => 0,
        Ordering::Greater => 1,
    }
}

/// The ordering whose value is the sign of `v`.
pub open spec fn ordering_of(v: int) -> Ordering {
    if v < 0 {
        Ordering::Less
    } else if v == 0 {
        Ordering::Equal
    } else {
        Ordering::Greater
    }
}

/// Lexicographic order of two texts by character code (for ASCII texts, the order of
/// `Ord` on `str`).
pub open spec fn lex_order(x: Seq<char>, y: Seq<char>) -> int
    decreases x.len(),
{
    if x.len() == 0 {
        if y.len() == 0 { 0 } else { -1 }
    } else if y.len() == 0 {
        1
    } else if (x[0] as u32) < (y[0] as u32) {
        -1
    } else if (x[0] as u32) > (y[0] as u32) {
        1
    } else {
        lex_order(x.drop_first(), y.drop_first())
    }
}

/// Order of two prerelease identifiers: all-digit ones by length and then as text, before
/// every other one; the others as text.
pub open spec fn ident_order(x: Seq<char>, y: Seq<char>) -> int {
    if all_digits(x) && all_digits(y) {
        if x.len() < y.len() {
            -1
        } else if x.len() > y.len() {
            1
        } else {
            lex_order(x, y)
        }
    } else if all_digits(x) {
        -1
    } else if all_digits(y) {
        1
    } else {
        lex_order(x, y)
    }
}

/// Lexicographic order of two identifier lists; a list before every longer list that
/// extends it.
pub open spec fn ids_order(xs: Seq<Seq<char>>, ys: Seq<Seq<char>>) -> int
    decreases xs.len(),
{
    if xs.len() == 0 {
        if ys.len() == 0 { 0 } else { -1 }
    } else if ys.len() == 0 {
        1
    } else {
        let o = ident_order(xs[0], ys[0]);
        if o != 0 {
            o
        } else {
            ids_order(xs.drop_first(), ys.drop_first())
        }
    }
}

/// The precedence of prerelease texts: equal texts are equal; no prerelease comes after
/// every prerelease; otherwise the identifier lists decide.
pub open spec fn pre_order(a: Seq<char>, b: Seq<char>) -> int {
    if a == b {
        0
    } else if a.len() == 0 {
        1
    } else if b.len() == 0 {
        -1
    } else {
        ids_order(split_dots(a), split_dots(b))
    }
}

/// `Ord::cmp` of `semver::Prerelease` on two texts that `semver` accepts.
/// Claimed: the order that `pre_order` states (the documented total order: lexicographic over
/// the dot-separated identifiers, numeric identifiers by length then text and before the
/// others, no prerelease after every prerelease).
#[verifier::external_body]
fn semver_prerelease_order(a: &str, b: &str) -> (r: Ordering)
    requires
        prerelease_text_valid(a@),
        prerelease_text_valid(b@),
    ensures
        ord_value(r) == pre_order(a@, b@),
{
    semver::Prerelease::new(a).unwrap().cmp(&semver::Prerelease::new(b).unwrap())
}

/// How two versions compare: by major, minor, patch, then prerelease; the build text is not
/// looked at.
pub open spec fn version_order(a: VersionView, b: VersionView) -> int {
    if a.major != b.major {
        if a.major < b.major { -1 } else { 1 }
    } else if a.minor != b.minor {
        if a.minor < b.minor { -1 } else { 1 }
    } else if a.patch != b.patch {
        if a.patch < b.patch { -1 } else { 1 }
    } else {
        pre_order(a.pre, b.pre)
    }
}


/// The dot-separated text made of `ids` (the inverse of `split_dots`).
pub open spec fn join_dots(ids: Seq<Seq<char>>) -> Seq<char>
    decreases ids.len(),
{
    if ids.len() == 0 {
        Seq::<char>::empty()
    } else if ids.len() == 1 {
        ids[0]
    } else {
        ids[0] + seq!['.'] + join_dots(ids.drop_first())
    }
}

proof fn lemma_split_dots_len(s: Seq<char>)
    ensures
        split_dots(s).len() >= 1,
    decreases s.len(),
{
    if s.len() > 0 {
        lemma_split_dots_len(s.drop_first());
    }
}

/// Joining the identifiers of a text with dots gives the text back.
pub proof fn lemma_join_split(s: Seq<char>)
    ensures
        join_dots(split_dots(s)) == s,
    decreases s.len(),
{
    if s.len() > 0 {
        let t = s.drop_first();
        let rest = split_dots(t);
        lemma_join_split(t);
        lemma_split_dots_len(t);
        assert(s =~= seq![s[0]] + t);
        if s[0] == '.' {
            let r = seq![Seq::<char>::empty()] + rest;
            assert(r.drop_first() =~= rest);
            assert(join_dots(r) =~= Seq::<char>::empty() + seq!['.'] + join_dots(rest));
        } else {
            let r = rest.update(0, seq![s[0]] + rest[0]);
            assert(r.drop_first() =~= rest.drop_first());
            if rest.len() == 1 {
                assert(join_dots(r) =~= seq![s[0]] + join_dots(rest));
            } else {
                assert(join_dots(r) =~= seq![s[0]] + join_dots(rest));
            }
        }
    }
}

proof fn lemma_lex_antisym(x: Seq<char>, y: Seq<char>)
    ensures
        lex_order(x, y) == -lex_order(y, x),
        -1 <= lex_order(x, y) <= 1,
    decreases x.len(),
{
    if x.len() > 0 && y.len() > 0 && (x[0] as u32) == (y[0] as u32) {
        lemma_lex_antisym(x.drop_first(), y.drop_first());
    }
}

proof fn lemma_lex_zero(x: Seq<char>, y: Seq<char>)
    ensures
        lex_order(x, y) == 0 <==> x == y,
    decreases x.len(),
{
    if x.len() > 0 && y.len() > 0 && (x[0] as u32) == (y[0] as u32) {
        lemma_lex_zero(x.drop_first(), y.drop_first());
        lemma_char_eq(x[0], y[0]);
        assert(x =~= seq![x[0]] + x.drop_first());
        assert(y =~= seq![y[0]] + y.drop_first());
    } else if x.len() > 0 && y.len() > 0 {
        assert(x[0] != y[0]);
    } else {
        assert(x.len() != y.len() || x =~= y);
    }
}

proof fn lemma_lex_trans(x: Seq<char>, y: Seq<char>, z: Seq<char>)
    requires
        lex_order(x, y) <= 0,
        lex_order(y, z) <= 0,
    ensures
        lex_order(x, z) <= 0,
    decreases x.len(),
{
    if x.len() > 0 && y.len() > 0 && z.len() > 0 && (x[0] as u32) == (z[0] as u32) {
        lemma_lex_trans(x.drop_first(), y.drop_first(), z.drop_first());
    }
}

proof fn lemma_ident_laws(x: Seq<char>, y: Seq<char>)
    ensures
        ident_order(x, y) == -ident_order(y, x),
        -1 <= ident_order(x, y) <= 1,
        ident_order(x, y) == 0 <==> x == y,
{
    lemma_lex_antisym(x, y);
    lemma_lex_zero(x, y);
}

proof fn lemma_ident_trans(x: Seq<char>, y: Seq<char>, z: Seq<char>)
    requires
        ident_order(x, y) <= 0,
        ident_order(y, z) <= 0,
    ensures
        ident_order(x, z) <= 0,
{
    if all_digits(x) && all_digits(y) && all_digits(z) && x.len() == y.len() && y.len() == z.len() {
        lemma_lex_trans(x, y, z);
    } else if !all_digits(x) && !all_digits(y) && !all_digits(z) {
        lemma_lex_trans(x, y, z);
    }
}

proof fn lemma_ids_laws(xs: Seq<Seq<char>>, ys: Seq<Seq<char>>)
    ensures
        ids_order(xs, ys) == -ids_order(ys, xs),
        -1 <= ids_order(xs, ys) <= 1,
        ids_order(xs, ys) == 0 <==> xs == ys,
    decreases xs.len(),
{
    if xs.len() > 0 && ys.len() > 0 {
        lemma_ident_laws(xs[0], ys[0]);
        lemma_ids_laws(xs.drop_first(), ys.drop_first());
        assert(xs =~= seq![xs[0]] + xs.drop_first());
        assert(ys =~= seq![ys[0]] + ys.drop_first());
    } else {
        assert(xs.len() != ys.len() || xs =~= ys);
    }
}

proof fn lemma_ids_trans(xs: Seq<Seq<char>>, ys: Seq<Seq<char>>, zs: Seq<Seq<char>>)
    requires
        ids_order(xs, ys) <= 0,
        ids_order(ys, zs) <= 0,
    ensures
        ids_order(xs, zs) <= 0,
    decreases xs.len(),
{
    if xs.len() > 0 && ys.len() > 0 && zs.len() > 0 {
        lemma_ident_laws(xs[0], ys[0]);
        lemma_ident_laws(ys[0], zs[0]);
        lemma_ident_laws(xs[0], zs[0]);
        if ident_order(xs[0], ys[0]) == 0 && ident_order(ys[0], zs[0]) == 0 {
            lemma_ids_trans(xs.drop_first(), ys.drop_first(), zs.drop_first());
        } else {
            lemma_ident_trans(xs[0], ys[0], zs[0]);
        }
    }
}

proof fn lemma_pre_laws(a: Seq<char>, b: Seq<char>)
    ensures
        pre_order(a, b) == -pre_order(b, a),
        -1 <= pre_order(a, b) <= 1,
        pre_order(a, b) == 0 <==> a == b,
{
    lemma_ids_laws(split_dots(a), split_dots(b));
    if split_dots(a) == split_dots(b) {
        lemma_join_split(a);
        lemma_join_split(b);
    }
}

proof fn lemma_pre_trans(a: Seq<char>, b: Seq<char>, c: Seq<char>)
    requires
        pre_order(a, b) <= 0,
        pre_order(b, c) <= 0,
    ensures
        pre_order(a, c) <= 0,
{
    lemma_pre_laws(a, b);
    lemma_pre_laws(b, c);
    lemma_pre_laws(a, c);
    if a != b && b != c && a != c && c.len() > 0 {
        lemma_ids_trans(split_dots(a), split_dots(b), split_dots(c));
    }
}

/// The fields that the order of versions looks at are equal: all but the build text.
pub open spec fn same_precedence(a: VersionView, b: VersionView) -> bool {
    a.major == b.major && a.minor == b.minor && a.patch == b.patch && a.pre == b.pre
}

/// Comparing two versions the other way round gives the opposite answer, and the answer is
/// `Equal` exactly when the versions differ at most in their build text.
pub proof fn lemma_version_order_antisymmetric(a: VersionView, b: VersionView)
    ensures
        version_order(a, b) == -version_order(b, a),
        -1 <= version_order(a, b) <= 1,
        version_order(a, b) == 0 <==> same_precedence(a, b),
{
    lemma_pre_laws(a.pre, b.pre);
}

/// The order of versions is transitive: `a <= b` and `b <= c` give `a <= c`, and the result
/// is strict when either step is.
pub proof fn lemma_version_order_transitive(a: VersionView, b: VersionView, c: VersionView)
    requires
        version_order(a, b) <= 0,
        version_order(b, c) <= 0,
    ensures
        version_order(a, c) <= 0,
        version_order(a, b) < 0 || version_order(b, c) < 0 ==> version_order(a, c) < 0,
{
    lemma_version_order_antisymmetric(a, b);
    lemma_version_order_antisymmetric(b, c);
    lemma_version_order_antisymmetric(a, c);
    if a.major == b.major && b.major == c.major && a.minor == b.minor && b.minor == c.minor
        && a.patch == b.patch && b.patch == c.patch {
        lemma_pre_trans(a.pre, b.pre, c.pre);
    }
}

/// Both prerelease texts are ones that `semver` accepts (always so for parsed versions).
pub open spec fn comparable(a: VersionView, b: VersionView) -> bool {
    prerelease_text_valid(a.pre) && prerelease_text_valid(b.pre)
}

impl Version {
    /// `Ord::cmp`: by major, minor, patch, then prerelease precedence; build metadata is ignored.
    pub fn cmp(&self, other: &Self) -> (r: Ordering)
        requires
            comparable(self@, other@),
        ensures
            ord_value(r) == version_order(self@, other@),
    {
        if self.major != other.major {
            if self.major < other.major { Ordering::Less } else { Ordering::Greater }
        } else if self.minor != other.minor {
            if self.minor < other.minor { Ordering::Less } else { Ordering::Greater }
        } else if self.patch != other.patch {
            if self.patch < other.patch { Ordering::Less } else { Ordering::Greater }
        } else {
            semver_prerelease_order(self.pre.as_str(), other.pre.as_str())
        }
    }
}

/// `a < b` for versions.
pub fn version_lt(a: &Version, b: &Version) -> (r: bool)
    requires
        comparable(a@, b@),
    ensures
        r == (version_order(a@, b@) < 0),
{
    match a.cmp(b) {
        Ordering::Less => true,
        _ => false,
    }
}

/// `a <= b` for versions.
pub fn version_le(a: &Version, b: &Version) -> (r: bool)
    requires
        comparable(a@, b@),
    ensures
        r == (version_order(a@, b@) <= 0),
{
    match a.cmp(b) {
        Ordering::Greater => false,
        _ => true,
    }
}

/// `a > b` for versions.
pub fn version_gt(a: &Version, b: &Version) -> (r: bool)
    requires
        comparable(a@, b@),
    ensures
        r == (version_order(a@, b@) > 0),
{
    match a.cmp(b) {
        Ordering::Greater => true,
        _ => false,
    }
}

/// `a >= b` for versions.
pub fn version_ge(a: &Version, b: &Version) -> (r: bool)
    requires
        comparable(a@, b@),
    ensures
        r == (version_order(a@, b@) >= 0),
{
    match a.cmp(b) {
        Ordering::Less => false,
        _ => true,
    }
}

/// `a.cmp(b).is_eq()` for versions.
pub fn version_same_precedence(a: &Version, b: &Version) -> (r: bool)
    requires
        comparable(a@, b@),
    ensures
        r == (version_order(a@, b@) == 0),
{
    match a.cmp(b) {
        Ordering::Equal => true,
        _ => false,
    }
}

/// Whether two versions are the same in all five parts, the build text included (`==` leaves
/// the build text out, as the order does).
pub fn version_identical(a: &Version, b: &Version) -> (r: bool)
    ensures
        r == (a@ == b@),
{
    a.major == b.major && a.minor == b.minor && a.patch == b.patch && str_eq(a.pre.as_str(), b.pre.as_str())
        && str_eq(a.build.as_str(), b.build.as_str())
}

/// `==` on versions: the same numbers and prerelease text; the build text is left out, so `==`
/// agrees with the order.
impl PartialEq for Version {
    fn eq(&self, other: &Self) -> (r: bool) {
        self.major == other.major && self.minor == other.minor && self.patch == other.patch
            && self.pre == other.pre
    }
}

impl vstd::std_specs::cmp::PartialEqSpecImpl for Version {
    open spec fn obeys_eq_spec() -> bool {
        true
    }

    open spec fn eq_spec(&self, other: &Version) -> bool {
        same_precedence(self@, other@)
    }
}

impl PartialOrd for Version {
    fn partial_cmp(&self, other: &Self) -> (r: Option<Ordering>) {
        if semver_accepts_prerelease(self.pre.as_str()) && semver_accepts_prerelease(other.pre.as_str()) {
            Some(self.cmp(other))
        } else {
            None
        }
    }
}

impl vstd::std_specs::cmp::PartialOrdSpecImpl for Version {
    open spec fn obeys_partial_cmp_spec() -> bool {
        true
    }

    open spec fn partial_cmp_spec(&self, other: &Version) -> Option<Ordering> {
        if comparable(self@, other@) {
            Some(ordering_of(version_order(self@, other@)))
        } else {
            None
        }
    }
}

} // verus!
