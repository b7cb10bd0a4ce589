//! The range syntax never reads a `|` as part of a comparator: a text that parses as one
//! comparator set holds no `|`.

use vstd::prelude::*;
use crate::version::buf::{is_ws_char, trim_ws};
use crate::version::comparator::{spec_bare_comparator, spec_comparator, with_operator, ComparatorView};
use crate::version::lexer::{
    digit_run, ident_run, lemma_digit_run, lemma_ident_run, spec_number, spec_parse_id, spec_range_segment,
    spec_version_segment,
};
use crate::version::partial::{drop_v, spec_partial_build, spec_partial_tail, spec_partial_version, PartialVersionView};
use crate::version::range::{spec_comparator_set, spec_comparator_set_text};
use crate::version::semver_text::is_ident_char;
use crate::version::step::Step;
use crate::version::version::spec_prerelease;

verus! {

/// `rest` is what is left of `s` after a prefix that holds no `|`.
pub open spec fn eats(s: Seq<char>, rest: Seq<char>) -> bool {
    &&& rest.len() <= s.len()
    &&& rest == s.skip(s.len() - rest.len())
    &&& forall|i: int| 0 <= i < s.len() - rest.len() ==> #[trigger] s[i] != '|'
}

proof fn lemma_eats_refl(s: Seq<char>)
    ensures
        eats(s, s),
{
    assert(s.skip(0) =~= s);
}

proof fn lemma_eats_trans(s: Seq<char>, r1: Seq<char>, r2: Seq<char>)
    requires
        eats(s, r1),
        eats(r1, r2),
    ensures
        eats(s, r2),
{
    let k1 = s.len() - r1.len();
    let k2 = r1.len() - r2.len();
    assert(r2 =~= s.skip(k1 + k2));
    assert forall|i: int| 0 <= i < k1 + k2 implies #[trigger] s[i] != '|' by {
        if i >= k1 {
            assert(r1[i - k1] == s[i]);
        }
    }
}

/// Dropping a prefix with no `|`.
proof fn lemma_eats_skip(s: Seq<char>, k: int)
    requires
        0 <= k <= s.len(),
        forall|i: int| 0 <= i < k ==> #[trigger] s[i] != '|',
    ensures
        eats(s, s.skip(k)),
{
}

proof fn lemma_eats_first(s: Seq<char>)
    requires
        s.len() > 0,
        s[0] != '|',
    ensures
        eats(s, s.drop_first()),
{
    assert(s.drop_first() =~= s.skip(1));
}

proof fn lemma_eats_trim(s: Seq<char>)
    ensures
        eats(s, trim_ws(s)),
    decreases s.len(),
{
    if s.len() > 0 && is_ws_char(s[0]) {
        lemma_eats_trim(s.drop_first());
        lemma_eats_first(s);
        lemma_eats_trans(s, s.drop_first(), trim_ws(s.drop_first()));
    } else {
        lemma_eats_refl(s);
    }
}

proof fn lemma_eats_number(s: Seq<char>)
    requires
        spec_number(s) is Ok,
    ensures
        eats(s, spec_number(s)->Ok_0.1),
{
    lemma_digit_run(s);
    lemma_eats_skip(s, digit_run(s) as int);
}

proof fn lemma_eats_version_segment(s: Seq<char>)
    requires
        spec_version_segment(s) is Ok,
    ensures
        eats(s, spec_version_segment(s)->Ok_0.1),
{
    if s.len() > 0 && crate::version::number::is_digit(s[0]) && s[0] != '0' {
        lemma_eats_number(s);
    } else {
        lemma_eats_first(s);
    }
}

proof fn lemma_eats_range_segment(s: Seq<char>)
    requires
        spec_range_segment(s) is Ok,
    ensures
        eats(s, spec_range_segment(s)->Ok_0.1),
{
    if s.len() > 0 && (s[0] == 'x' || s[0] == 'X' || s[0] == '*') {
        lemma_eats_first(s);
    } else {
        lemma_eats_version_segment(s);
    }
}

proof fn lemma_eats_parse_id(s: Seq<char>, allow_leading_zero: bool)
    requires
        spec_parse_id(s, allow_leading_zero) is Ok,
    ensures
        eats(s, spec_parse_id(s, allow_leading_zero)->Ok_0.1),
    decreases s.len(),
{
    let k = ident_run(s) as int;
    lemma_ident_run(s);
    assert forall|i: int| 0 <= i < k implies #[trigger] s[i] != '|' by {
        assert(is_ident_char(s[i]));
    }
    if k < s.len() && s[k] == '.' {
        let t = s.skip(k + 1);
        lemma_eats_parse_id(t, allow_leading_zero);
        lemma_eats_skip(s, k + 1);
        lemma_eats_trans(s, t, spec_parse_id(t, allow_leading_zero)->Ok_0.1);
    } else {
        lemma_eats_skip(s, k);
    }
}

proof fn lemma_eats_prerelease(s: Seq<char>)
    requires
        spec_prerelease(s) is Parsed,
    ensures
        eats(s, spec_prerelease(s)->Parsed_1),
{
    if s.len() > 0 && s[0] == '-' {
        lemma_eats_first(s);
        lemma_eats_parse_id(s.drop_first(), false);
        lemma_eats_trans(s, s.drop_first(), spec_parse_id(s.drop_first(), false)->Ok_0.1);
    } else {
        lemma_eats_refl(s);
    }
}

proof fn lemma_eats_partial_build(s: Seq<char>)
    requires
        spec_partial_build(s) is Parsed,
    ensures
        eats(s, spec_partial_build(s)->Parsed_1),
{
    if s.len() > 0 && s[0] == '+' {
        lemma_eats_first(s);
        lemma_eats_parse_id(s.drop_first(), false);
        lemma_eats_trans(s, s.drop_first(), spec_parse_id(s.drop_first(), false)->Ok_0.1);
    } else {
        lemma_eats_refl(s);
    }
}

proof fn lemma_eats_partial_tail(major: u64, minor: u64, patch: u64, s: Seq<char>)
    requires
        spec_partial_tail(major, minor, patch, s) is Parsed,
    ensures
        eats(s, spec_partial_tail(major, minor, patch, s)->Parsed_1),
{
    lemma_eats_prerelease(s);
    let r1 = spec_prerelease(s)->Parsed_1;
    lemma_eats_partial_build(r1);
    lemma_eats_trans(s, r1, spec_partial_build(r1)->Parsed_1);
}

proof fn lemma_eats_drop_v(s: Seq<char>)
    ensures
        eats(s, drop_v(s)),
{
    let t = trim_ws(s);
    lemma_eats_trim(s);
    if t.len() > 0 && t[0] == 'v' {
        lemma_eats_first(t);
        lemma_eats_trans(s, t, t.drop_first());
    }
}

proof fn lemma_eats_partial(s: Seq<char>)
    requires
        spec_partial_version(s) is Parsed,
    ensures
        eats(s, spec_partial_version(s)->Parsed_1),
{
    let t = drop_v(s);
    lemma_eats_drop_v(s);
    lemma_eats_range_segment(t);
    let r1 = spec_range_segment(t)->Ok_0.1;
    lemma_eats_trans(s, t, r1);
    let r2 = if r1.len() > 0 && r1[0] == '.' {
        lemma_eats_first(r1);
        lemma_eats_range_segment(r1.drop_first());
        lemma_eats_trans(r1, r1.drop_first(), spec_range_segment(r1.drop_first())->Ok_0.1);
        spec_range_segment(r1.drop_first())->Ok_0.1
    } else {
        lemma_eats_refl(r1);
        r1
    };
    lemma_eats_trans(s, r1, r2);
    if r2.len() > 0 && r2[0] == '.' {
        lemma_eats_first(r2);
        lemma_eats_range_segment(r2.drop_first());
        let (patch, r3) = spec_range_segment(r2.drop_first())->Ok_0;
        lemma_eats_trans(r2, r2.drop_first(), r3);
        lemma_eats_trans(s, r2, r3);
        let major = spec_range_segment(t)->Ok_0.0;
        let minor = if r1.len() > 0 && r1[0] == '.' { spec_range_segment(r1.drop_first())->Ok_0.0 } else {
            crate::version::lexer::NOT_EXISTS
        };
        lemma_eats_partial_tail(major, minor, patch, r3);
        lemma_eats_trans(s, r3, spec_partial_tail(major, minor, patch, r3)->Parsed_1);
    }
}

proof fn lemma_eats_operator(s: Seq<char>, make: spec_fn(PartialVersionView) -> ComparatorView)
    requires
        with_operator(spec_partial_version(s), make) is Parsed,
    ensures
        eats(s, with_operator(spec_partial_version(s), make)->Parsed_1),
{
    lemma_eats_partial(s);
}

proof fn lemma_eats_bare(t: Seq<char>)
    requires
        spec_bare_comparator(t) is Parsed,
    ensures
        eats(t, spec_bare_comparator(t)->Parsed_1),
{
    lemma_eats_partial(t);
    let first = spec_partial_version(t)->Parsed_0;
    let r = spec_partial_version(t)->Parsed_1;
    let r2 = trim_ws(r);
    lemma_eats_trim(r);
    lemma_eats_trans(t, r, r2);
    if r2.len() > 0 && r2[0] == '-' {
        lemma_eats_first(r2);
        lemma_eats_trans(t, r2, r2.drop_first());
        lemma_eats_partial(r2.drop_first());
        lemma_eats_trans(t, r2.drop_first(), spec_partial_version(r2.drop_first())->Parsed_1);
    }
}

proof fn lemma_eats_comparator(s: Seq<char>)
    requires
        spec_comparator(s) is Parsed,
    ensures
        eats(s, spec_comparator(s)->Parsed_1),
{
    let t = trim_ws(s);
    lemma_eats_trim(s);
    if t[0] == '~' || t[0] == '^' || t[0] == '=' {
        lemma_eats_first(t);
        lemma_eats_partial(t.drop_first());
        lemma_eats_trans(t, t.drop_first(), spec_partial_version(t.drop_first())->Parsed_1);
        lemma_eats_trans(s, t, spec_partial_version(t.drop_first())->Parsed_1);
    } else if t[0] == '>' || t[0] == '<' {
        let u = t.drop_first();
        lemma_eats_first(t);
        let v = if u.len() > 0 && u[0] == '=' {
            lemma_eats_first(u);
            lemma_eats_trans(t, u, u.drop_first());
            u.drop_first()
        } else {
            u
        };
        lemma_eats_trim(v);
        lemma_eats_trans(t, v, trim_ws(v));
        lemma_eats_partial(trim_ws(v));
        lemma_eats_trans(t, trim_ws(v), spec_partial_version(trim_ws(v))->Parsed_1);
        lemma_eats_trans(s, t, spec_partial_version(trim_ws(v))->Parsed_1);
    } else {
        lemma_eats_bare(t);
        lemma_eats_trans(s, t, spec_bare_comparator(t)->Parsed_1);
    }
}

proof fn lemma_eats_set(s: Seq<char>)
    requires
        spec_comparator_set(s) is Parsed,
    ensures
        eats(s, spec_comparator_set(s)->Parsed_1),
    decreases s.len(),
{
    if s.len() == 0 {
        lemma_eats_refl(s);
    } else {
        lemma_eats_comparator(s);
        let r = spec_comparator(s)->Parsed_1;
        let r2 = trim_ws(r);
        lemma_eats_trim(r);
        lemma_eats_trans(s, r, r2);
        if r2.len() < s.len() {
            lemma_eats_set(r2);
            lemma_eats_trans(s, r2, spec_comparator_set(r2)->Parsed_1);
        }
    }
}

/// A text that parses as one whole comparator set holds no `|`.
pub proof fn lemma_set_text_has_no_bar(s: Seq<char>)
    requires
        spec_comparator_set_text(s) is Parsed,
    ensures
        !s.contains('|'),
{
    lemma_eats_set(s);
    if s.contains('|') {
        let i = choose|i: int| 0 <= i < s.len() && s[i] == '|';
        assert(s[i] != '|');
    }
}

} // verus!
