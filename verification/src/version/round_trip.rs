use vstd::prelude::*;
use crate::version::buf::{first_occurrence, is_ws_char, trim_ws};
use crate::version::comparator::{comparator_text, spec_bare_comparator, spec_comparator, ComparatorView};
use crate::version::range::{
    bars, join_with, prepend_comparators, prepend_sets, range_text, set_text, spec_comparator_set,
    spec_comparator_set_text, spec_range, spec_sets, split_bars,
};
use crate::version::error::ParseRangeError;
use crate::version::lexer::{
    digit_run, has_nondigit, ident_run, spec_parse_id, spec_range_segment, spec_version_segment, LOWER_X,
    NOT_EXISTS, STAR, UPPER_X, VERSION_SEGMENT_MAX,
};
use crate::version::partial::{
    drop_v, partial_text, segment_text, spec_partial_build, spec_partial_tail, spec_partial_version,
    PartialVersionView,
};
use crate::version::number::{all_digits, decimal, digit_char, digit_value, digits_value, is_digit, unsigned_text_value};
use crate::version::step::Step;
use crate::version::unity_version::{
    first_release_char, release_type_char, release_type_of, spec_unity_tail, spec_unity_version, u16_text, u8_text,
    unity_version_text, ReleaseType, UnityVersion,
};
use crate::version::version::{
    spec_build, spec_prerelease, spec_read, spec_version, spec_version_numbers, spec_version_text, version_text,
    VersionView,
};
use crate::version::semver_text::{
    build_text_valid, is_ident_char, is_identifier, prerelease_text_valid, split_dots,
};

verus! {

// ---------------------------------------------------------------------------------------
// Reading back the text a version is written as.

proof fn lemma_digit_char(d: nat)
    requires
        d < 10,
    ensures
        is_digit(digit_char(d)),
        digit_value(digit_char(d)) == d,
        (digit_char(d) == '0') == (d == 0),
{
}

proof fn lemma_decimal(n: nat)
    ensures
        decimal(n).len() >= 1,
        all_digits(decimal(n)),
        digits_value(decimal(n)) == n,
        n == 0 ==> decimal(n) == seq!['0'],
        n > 0 ==> decimal(n)[0] != '0',
    decreases n,
{
    if n < 10 {
        lemma_digit_char(n);
        let s = seq![digit_char(n)];
        assert(decimal(n) == s);
        assert(s.drop_last() =~= Seq::<char>::empty());
        assert(digits_value(Seq::<char>::empty()) == 0);
        assert(digits_value(s) == digits_value(s.drop_last()) * 10 + digit_value(s.last()));
    } else {
        lemma_decimal(n / 10);
        lemma_digit_char(n % 10);
        let d = decimal(n / 10);
        let s = d.push(digit_char(n % 10));
        assert(s.drop_last() =~= d);
        assert(s.last() == digit_char(n % 10));
        assert(digits_value(s) == digits_value(d) * 10 + digit_value(s.last()));
        assert((n / 10) * 10 + n % 10 == n);
        assert(decimal(n) == s);
        assert(s[0] == d[0]);
        assert forall|i: int| 0 <= i < s.len() implies is_digit(#[trigger] s[i]) by {
            if i < d.len() {
                assert(s[i] == d[i]);
            }
        }
    }
}

proof fn lemma_digit_run_concat(a: Seq<char>, b: Seq<char>)
    requires
        all_digits(a),
    ensures
        digit_run(a + b) == a.len() + digit_run(b),
    decreases a.len(),
{
    if a.len() == 0 {
        assert(a + b =~= b);
    } else {
        assert((a + b).drop_first() =~= a.drop_first() + b);
        assert((a + b)[0] == a[0]);
        assert forall|i: int| 0 <= i < a.drop_first().len() implies is_digit(#[trigger] a.drop_first()[i]) by {
            assert(a.drop_first()[i] == a[i + 1]);
        }
        lemma_digit_run_concat(a.drop_first(), b);
    }
}

proof fn lemma_ident_run_concat(a: Seq<char>, b: Seq<char>)
    requires
        forall|i: int| 0 <= i < a.len() ==> is_ident_char(#[trigger] a[i]),
    ensures
        ident_run(a + b) == a.len() + ident_run(b),
    decreases a.len(),
{
    if a.len() == 0 {
        assert(a + b =~= b);
    } else {
        assert((a + b).drop_first() =~= a.drop_first() + b);
        assert((a + b)[0] == a[0]);
        assert forall|i: int| 0 <= i < a.drop_first().len() implies is_ident_char(#[trigger] a.drop_first()[i]) by {
            assert(a.drop_first()[i] == a[i + 1]);
        }
        lemma_ident_run_concat(a.drop_first(), b);
    }
}

/// A segment written in decimal, followed by a non-digit, reads as its number.
proof fn lemma_segment_of_decimal(n: nat, rest: Seq<char>)
    requires
        n <= VERSION_SEGMENT_MAX,
        rest.len() == 0 || !is_digit(rest[0]),
    ensures
        spec_version_segment(decimal(n) + rest) == Ok::<(u64, Seq<char>), ParseRangeError>((n as u64, rest)),
{
    lemma_decimal(n);
    let d = decimal(n);
    let s = d + rest;
    assert(s[0] == d[0]);
    if n == 0 {
        assert(s.drop_first() =~= rest);
    } else {
        lemma_digit_run_concat(d, rest);
        assert(digit_run(rest) == 0);
        assert(s.take(d.len() as int) =~= d);
        assert(s.skip(d.len() as int) =~= rest);
    }
}

/// The number of characters before the first `.` of `s` (all of them when there is none).
spec fn dot_index(s: Seq<char>) -> nat
    decreases s.len(),
{
    if s.len() == 0 || s[0] == '.' {
        0
    } else {
        1 + dot_index(s.drop_first())
    }
}

proof fn lemma_dot_index(s: Seq<char>)
    ensures
        dot_index(s) <= s.len(),
        forall|i: int| 0 <= i < dot_index(s) ==> #[trigger] s[i] != '.',
        dot_index(s) < s.len() ==> s[dot_index(s) as int] == '.',
    decreases s.len(),
{
    if s.len() > 0 && s[0] != '.' {
        lemma_dot_index(s.drop_first());
        assert forall|i: int| 0 <= i < dot_index(s) implies #[trigger] s[i] != '.' by {
            if i > 0 {
                assert(s[i] == s.drop_first()[i - 1]);
            }
        }
        if dot_index(s) < s.len() {
            assert(s[dot_index(s) as int] == s.drop_first()[dot_index(s) - 1]);
        }
    }
}

/// The identifiers of a text whose first `.` is at `k`: the text before it, then those of
/// the text after it.
proof fn lemma_split_dots_first(s: Seq<char>, k: int)
    requires
        0 <= k <= s.len(),
        forall|i: int| 0 <= i < k ==> #[trigger] s[i] != '.',
        k == s.len() || s[k] == '.',
    ensures
        k == s.len() ==> split_dots(s) == seq![s],
        k < s.len() ==> split_dots(s) == seq![s.take(k)] + split_dots(s.skip(k + 1)),
    decreases k,
{
    if k == 0 {
        if s.len() == 0 {
            assert(s =~= Seq::<char>::empty());
        } else {
            assert(s.take(0) =~= Seq::<char>::empty());
            assert(s.skip(1) =~= s.drop_first());
        }
    } else {
        let t = s.drop_first();
        assert forall|i: int| 0 <= i < k - 1 implies #[trigger] t[i] != '.' by {
            assert(t[i] == s[i + 1]);
        }
        if k < s.len() {
            assert(t[k - 1] == s[k]);
        }
        lemma_split_dots_first(t, k - 1);
        let rest = split_dots(t);
        assert(s[0] != '.');
        assert(split_dots(s) == rest.update(0, seq![s[0]] + rest[0]));
        if k == s.len() {
            assert(seq![s[0]] + t =~= s);
            assert(rest.update(0, seq![s[0]] + rest[0]) =~= seq![s]);
        } else {
            assert(seq![s[0]] + t.take(k - 1) =~= s.take(k));
            assert(t.skip(k) =~= s.skip(k + 1));
            assert(rest.update(0, seq![s[0]] + rest[0]) =~= seq![s.take(k)] + split_dots(s.skip(k + 1)));
        }
    }
}

/// A non-empty dot-separated list of identifiers.
pub open spec fn dotted_identifiers(s: Seq<char>) -> bool {
    forall|i: int| 0 <= i < split_dots(s).len() ==> is_identifier(#[trigger] split_dots(s)[i])
}

/// An identifier that starts with `0` and holds a character that is not a digit.
pub open spec fn zero_led_alphanumeric(id: Seq<char>) -> bool {
    id.len() > 0 && id[0] == '0' && has_nondigit(id)
}

/// Whether no identifier of a dot-separated text starts with `0` and holds a character that is
/// not a digit (`semver` accepts such a prerelease identifier, the version syntax does not).
pub open spec fn no_zero_led_alphanumeric(s: Seq<char>) -> bool {
    forall|i: int| 0 <= i < split_dots(s).len() ==> !zero_led_alphanumeric(#[trigger] split_dots(s)[i])
}

/// A dot-separated list of identifiers, followed by neither an identifier character nor a dot,
/// reads as itself.
proof fn lemma_parse_id_of_dotted(id: Seq<char>, rest: Seq<char>, allow_leading_zero: bool)
    requires
        dotted_identifiers(id),
        allow_leading_zero || no_zero_led_alphanumeric(id),
        rest.len() == 0 || (!is_ident_char(rest[0]) && rest[0] != '.'),
    ensures
        spec_parse_id(id + rest, allow_leading_zero) == Ok::<(Seq<char>, Seq<char>), ParseRangeError>((id, rest)),
    decreases id.len(),
{
    let k = dot_index(id) as int;
    lemma_dot_index(id);
    lemma_split_dots_first(id, k);
    let ids = split_dots(id);
    let first = id.take(k);
    assert(ids[0] == first) by {
        if k == id.len() {
            assert(id.take(k) =~= id);
        }
    }
    assert(is_identifier(ids[0]));
    if !allow_leading_zero {
        assert(!zero_led_alphanumeric(ids[0]));
    }
    let s = id + rest;
    let after = id.skip(k) + rest;
    assert(s =~= first + after);
    lemma_ident_run_concat(first, after);
    if k < id.len() {
        assert(after[0] == '.');
    } else {
        assert(after =~= rest);
    }
    assert(ident_run(after) == 0);
    assert(ident_run(s) == k);
    assert(s.take(k) =~= first);
    assert(s[0] == first[0]);
    if k < id.len() {
        let tail = id.skip(k + 1);
        assert(s[k] == '.');
        assert(s.skip(k + 1) =~= tail + rest);
        let tids = split_dots(tail);
        assert(ids == seq![first] + tids);
        assert forall|i: int| 0 <= i < tids.len() implies is_identifier(#[trigger] tids[i]) by {
            assert(tids[i] == ids[i + 1]);
        }
        if !allow_leading_zero {
            assert forall|i: int| 0 <= i < tids.len() implies !zero_led_alphanumeric(#[trigger] tids[i]) by {
                assert(tids[i] == ids[i + 1]);
            }
        }
        lemma_parse_id_of_dotted(tail, rest, allow_leading_zero);
        assert(s.take(k + 1) + tail =~= id);
    } else {
        assert(s.skip(k) =~= rest);
        if k < s.len() {
            assert(s[k] == rest[0]);
        }
    }
}

/// A version whose text reads back as itself: each number at most `VERSION_SEGMENT_MAX`, a
/// prerelease and a build text that `semver` accepts, and no prerelease identifier that starts
/// with `0` and holds a letter or `-`.
pub open spec fn reads_back(v: VersionView) -> bool {
    &&& v.major <= VERSION_SEGMENT_MAX
    &&& v.minor <= VERSION_SEGMENT_MAX
    &&& v.patch <= VERSION_SEGMENT_MAX
    &&& prerelease_text_valid(v.pre)
    &&& no_zero_led_alphanumeric(v.pre)
    &&& build_text_valid(v.build)
}

/// The build part of a version's text, `+` and the build text, reads as the build text.
proof fn lemma_build_part(build: Seq<char>)
    requires
        build_text_valid(build),
    ensures
        spec_build(if build.len() > 0 { seq!['+'] + build } else { Seq::<char>::empty() })
            == Step::Parsed(build, Seq::<char>::empty()),
{
    if build.len() > 0 {
        let b = seq!['+'] + build;
        assert(b.drop_first() =~= build + Seq::<char>::empty());
        assert(dotted_identifiers(build));
        lemma_parse_id_of_dotted(build, Seq::<char>::empty(), true);
    } else {
        assert(build =~= Seq::<char>::empty());
    }
}

/// Reading the text a version is written as gives the version back, with nothing left over:
/// what `Version::from_str` reads of what `Version::to_string` writes.
pub proof fn lemma_version_text_round_trip(v: VersionView)
    requires
        reads_back(v),
    ensures
        spec_version_text(version_text(v)) == Step::Parsed(v, Seq::<char>::empty()),
{
    let dma = decimal(v.major as nat);
    let dmi = decimal(v.minor as nat);
    let dpa = decimal(v.patch as nat);
    let b = if v.build.len() > 0 { seq!['+'] + v.build } else { Seq::<char>::empty() };
    let p = if v.pre.len() > 0 { seq!['-'] + v.pre } else { Seq::<char>::empty() };
    let r5 = p + b;
    let r4 = dpa + r5;
    let r3 = seq!['.'] + r4;
    let r2 = dmi + r3;
    let r1 = seq!['.'] + r2;
    let text = version_text(v);
    assert(text =~= dma + r1);
    lemma_decimal(v.major as nat);
    lemma_decimal(v.minor as nat);
    lemma_decimal(v.patch as nat);
    assert(text[0] == dma[0]);
    assert(trim_ws(text) == text);
    lemma_segment_of_decimal(v.major as nat, r1);
    assert(r1.drop_first() =~= r2);
    assert(spec_read(r1, '.') == Ok::<Seq<char>, ParseRangeError>(r2));
    lemma_segment_of_decimal(v.minor as nat, r3);
    assert(r3.drop_first() =~= r4);
    assert(spec_read(r3, '.') == Ok::<Seq<char>, ParseRangeError>(r4));
    assert(r5.len() == 0 || r5[0] == '-' || r5[0] == '+');
    lemma_segment_of_decimal(v.patch as nat, r5);
    assert(spec_version_numbers(text) == Ok::<(u64, u64, u64, Seq<char>), ParseRangeError>((v.major, v.minor, v.patch, r5)));
    if v.pre.len() > 0 {
        assert(r5[0] == '-');
        assert(r5.drop_first() =~= v.pre + b);
        assert(dotted_identifiers(v.pre));
        assert(b.len() == 0 || b[0] == '+');
        lemma_parse_id_of_dotted(v.pre, b, false);
        assert(spec_prerelease(r5) == Step::Parsed(v.pre, b));
    } else {
        assert(r5 =~= b);
        assert(v.pre =~= Seq::<char>::empty());
        assert(spec_prerelease(r5) == Step::Parsed(v.pre, b));
    }
    lemma_build_part(v.build);
    assert(spec_version(text) == Step::Parsed(v, Seq::<char>::empty()));
}

/// A prerelease text read without leading zeros allowed holds no identifier that starts with
/// `0` and holds a character that is not a digit.
proof fn lemma_parsed_id_no_zero_led(s: Seq<char>)
    requires
        spec_parse_id(s, false) is Ok,
    ensures
        no_zero_led_alphanumeric(spec_parse_id(s, false)->Ok_0.0),
    decreases s.len(),
{
    let k = ident_run(s) as int;
    crate::version::lexer::lemma_ident_run(s);
    let first = s.take(k);
    assert(!zero_led_alphanumeric(first)) by {
        if first.len() > 0 {
            assert(first[0] == s[0]);
        }
    }
    if k < s.len() && s[k] == '.' {
        let tail = s.skip(k + 1);
        lemma_parsed_id_no_zero_led(tail);
        let id2 = spec_parse_id(tail, false)->Ok_0.0;
        let id = s.take(k + 1) + id2;
        assert(spec_parse_id(s, false)->Ok_0.0 == id);
        assert forall|i: int| 0 <= i < k implies #[trigger] id[i] != '.' by {
            assert(id[i] == s[i]);
            assert(is_ident_char(s[i]));
        }
        assert(id[k] == s[k]);
        lemma_split_dots_first(id, k);
        assert(id.take(k) =~= first);
        assert(id.skip(k + 1) =~= id2);
        let ids = split_dots(id);
        assert forall|i: int| 0 <= i < ids.len() implies !zero_led_alphanumeric(#[trigger] ids[i]) by {
            if i > 0 {
                assert(ids[i] == split_dots(id2)[i - 1]);
            }
        }
    } else {
        assert(spec_parse_id(s, false)->Ok_0.0 == first);
        assert forall|i: int| 0 <= i < k implies #[trigger] first[i] != '.' by {
            assert(is_ident_char(s[i]));
        }
        lemma_split_dots_first(first, k);
    }
}

/// Every version that reads from a text is one whose text reads back as itself.
pub proof fn lemma_parsed_version_reads_back(s: Seq<char>)
    requires
        spec_version(s) is Parsed,
    ensures
        reads_back(spec_version(s)->Parsed_0),
{
    let (major, minor, patch, r5) = spec_version_numbers(s)->Ok_0;
    let pre = spec_prerelease(r5)->Parsed_0;
    if r5.len() > 0 && r5[0] == '-' {
        lemma_parsed_id_no_zero_led(r5.drop_first());
    } else {
        assert(split_dots(pre) == seq![pre]) by {
            lemma_split_dots_first(pre, 0);
        }
        assert(!zero_led_alphanumeric(pre));
    }
}

/// Whatever text a version was read from, the text it is written as reads back as the same
/// version, with nothing left over.
pub proof fn lemma_parsed_version_round_trip(s: Seq<char>)
    requires
        spec_version_text(s) is Parsed,
    ensures
        spec_version_text(version_text(spec_version_text(s)->Parsed_0))
            == Step::Parsed(spec_version_text(s)->Parsed_0, Seq::<char>::empty()),
{
    lemma_parsed_version_reads_back(s);
    lemma_version_text_round_trip(spec_version_text(s)->Parsed_0);
}

// ---------------------------------------------------------------------------------------
// Reading back the text a partial version is written as.

/// A segment that a partial version writes and reads back: a number up to
/// `VERSION_SEGMENT_MAX`, or one of the wildcards.
pub open spec fn seg_writable(x: u64) -> bool {
    x <= VERSION_SEGMENT_MAX || x == STAR || x == UPPER_X || x == LOWER_X
}

/// A character that starts the text of a segment.
pub open spec fn seg_start(c: char) -> bool {
    is_digit(c) || c == 'x' || c == 'X' || c == '*'
}

/// The text of a segment that is there is its prefix and its text without prefix; a segment
/// that reads back starts with a digit or a wildcard and reads as itself.
proof fn lemma_segment_text(x: u64, prefix: Seq<char>, rest: Seq<char>)
    requires
        seg_writable(x),
        rest.len() == 0 || !is_digit(rest[0]),
    ensures
        segment_text(x, prefix) == prefix + segment_text(x, Seq::<char>::empty()),
        segment_text(x, Seq::<char>::empty()).len() > 0,
        seg_start(segment_text(x, Seq::<char>::empty())[0]),
        spec_range_segment(segment_text(x, Seq::<char>::empty()) + rest)
            == Ok::<(u64, Seq<char>), ParseRangeError>((x, rest)),
{
    let e = Seq::<char>::empty();
    let t = segment_text(x, e);
    let s = t + rest;
    if x == STAR {
        assert(t =~= seq!['*']);
        assert(s.drop_first() =~= rest);
    } else if x == UPPER_X {
        assert(t =~= seq!['X']);
        assert(s.drop_first() =~= rest);
    } else if x == LOWER_X {
        assert(t =~= seq!['x']);
        assert(s.drop_first() =~= rest);
    } else {
        assert(t =~= decimal(x as nat));
        lemma_decimal(x as nat);
        lemma_segment_of_decimal(x as nat, rest);
        assert(s[0] == t[0]);
        assert(is_digit(t[0]));
    }
    assert(segment_text(x, prefix) =~= prefix + t);
}

/// A partial version that its text reads back as: every segment that is there one that reads
/// back, no patch without a minor segment, no prerelease or build text without a patch, and
/// prerelease and build texts that `semver` accepts without an identifier that starts with
/// `0` and holds a letter or `-`.
#[verifier::opaque]
pub open spec fn partial_reads_back(p: PartialVersionView) -> bool {
    &&& seg_writable(p.major)
    &&& p.minor == NOT_EXISTS ==> p.patch == NOT_EXISTS
    &&& p.minor != NOT_EXISTS ==> seg_writable(p.minor)
    &&& p.patch != NOT_EXISTS ==> seg_writable(p.patch)
    &&& p.patch == NOT_EXISTS ==> p.pre.len() == 0 && p.build.len() == 0
    &&& prerelease_text_valid(p.pre)
    &&& no_zero_led_alphanumeric(p.pre)
    &&& build_text_valid(p.build)
    &&& no_zero_led_alphanumeric(p.build)
}

/// What may follow the text of a partial version for it to read back: anything but a digit or
/// a dot after a version without a patch segment, and otherwise neither an identifier
/// character nor `.` nor `+`.
pub open spec fn may_follow_partial(p: PartialVersionView, rest: Seq<char>) -> bool {
    rest.len() == 0 || if p.patch == NOT_EXISTS {
        !is_digit(rest[0]) && rest[0] != '.'
    } else {
        !is_ident_char(rest[0]) && rest[0] != '.' && rest[0] != '+'
    }
}

/// After the patch segment, the prerelease and build parts read as themselves.
proof fn lemma_partial_tail(p: PartialVersionView, rest: Seq<char>)
    requires
        partial_reads_back(p),
        p.patch != NOT_EXISTS,
        may_follow_partial(p, rest),
    ensures
        spec_partial_tail(p.major, p.minor, p.patch, version_suffix(p.pre, p.build) + rest) == Step::Parsed(p, rest),
{
    reveal(partial_reads_back);
    let e = Seq::<char>::empty();
    let b = if p.build.len() > 0 { seq!['+'] + p.build } else { e };
    let pr = if p.pre.len() > 0 { seq!['-'] + p.pre } else { e };
    let tail = version_suffix(p.pre, p.build) + rest;
    assert(tail =~= pr + (b + rest));
    let after_pre = b + rest;
    if p.pre.len() > 0 {
        assert(tail[0] == '-');
        assert(tail.drop_first() =~= p.pre + after_pre);
        assert(dotted_identifiers(p.pre));
        lemma_parse_id_of_dotted(p.pre, after_pre, false);
    } else {
        assert(tail =~= after_pre);
        assert(p.pre =~= e);
    }
    assert(spec_prerelease(tail) == Step::Parsed(p.pre, after_pre));
    if p.build.len() > 0 {
        assert(after_pre[0] == '+');
        assert(after_pre.drop_first() =~= p.build + rest);
        assert(dotted_identifiers(p.build));
        lemma_parse_id_of_dotted(p.build, rest, false);
    } else {
        assert(after_pre =~= rest);
        assert(p.build =~= e);
    }
    assert(spec_partial_build(after_pre) == Step::Parsed(p.build, rest));
}

/// The `-pre` and `+build` parts of a version's text.
pub open spec fn version_suffix(pre: Seq<char>, build: Seq<char>) -> Seq<char> {
    (if pre.len() > 0 { seq!['-'] + pre } else { Seq::<char>::empty() })
        + (if build.len() > 0 { seq!['+'] + build } else { Seq::<char>::empty() })
}

/// From the minor segment on, the text reads as the rest of the partial version.
#[verifier::spinoff_prover]
#[verifier::rlimit(30)]
proof fn lemma_partial_after_major(p: PartialVersionView, rest: Seq<char>)
    requires
        partial_reads_back(p),
        p.minor != NOT_EXISTS,
        may_follow_partial(p, rest),
    ensures
        ({
            let r1 = segment_text(p.minor, seq!['.']) + segment_text(p.patch, seq!['.'])
                + version_suffix(p.pre, p.build) + rest;
            &&& r1.len() > 0 && r1[0] == '.'
            &&& spec_range_segment(r1.drop_first()) matches Ok((minor, r2)) && minor == p.minor && {
                if r2.len() > 0 && r2[0] == '.' {
                    spec_range_segment(r2.drop_first()) matches Ok((patch, r3)) && patch == p.patch
                        && spec_partial_tail(p.major, p.minor, patch, r3) == Step::Parsed(p, rest)
                } else {
                    p.patch == NOT_EXISTS && p.pre.len() == 0 && p.build.len() == 0 && r2 == rest
                }
            }
        }),
{
    reveal(partial_reads_back);
    let e = Seq::<char>::empty();
    let suffix = version_suffix(p.pre, p.build);
    let pt = segment_text(p.patch, seq!['.']);
    let r2 = pt + suffix + rest;
    let smi = segment_text(p.minor, e);
    if p.patch == NOT_EXISTS {
        assert(pt =~= e);
        assert(suffix =~= e);
        assert(r2 =~= rest);
    } else {
        lemma_segment_text(p.patch, seq!['.'], e);
        assert(r2[0] == '.');
    }
    lemma_segment_text(p.minor, seq!['.'], r2);
    let r1 = segment_text(p.minor, seq!['.']) + pt + suffix + rest;
    assert(r1 =~= seq!['.'] + (smi + r2));
    assert(r1.drop_first() =~= smi + r2);
    if p.patch != NOT_EXISTS {
        let spa = segment_text(p.patch, e);
        let tail = suffix + rest;
        assert(tail.len() == 0 || !is_digit(tail[0])) by {
            if p.pre.len() > 0 {
                assert(tail[0] == '-');
            } else if p.build.len() > 0 {
                assert(tail[0] == '+');
            } else {
                assert(tail =~= rest);
            }
        }
        lemma_segment_text(p.patch, seq!['.'], tail);
        assert(r2 =~= seq!['.'] + (spa + tail));
        assert(r2.drop_first() =~= spa + tail);
        lemma_partial_tail(p, rest);
    }
}

/// Whether a partial version is read at the start of `s` as `p`, with `rest` left.
#[verifier::opaque]
pub open spec fn partial_reads_as(s: Seq<char>, p: PartialVersionView, rest: Seq<char>) -> bool {
    spec_partial_version(s) == Step::Parsed(p, rest)
}

/// The text of a partial version, followed by what may follow it, reads as the partial version.
proof fn lemma_partial_round_trip(p: PartialVersionView, rest: Seq<char>)
    requires
        partial_reads_back(p),
        may_follow_partial(p, rest),
    ensures
        partial_text(p).len() > 0,
        seg_start(partial_text(p)[0]),
        partial_reads_as(partial_text(p) + rest, p, rest),
{
    reveal(partial_reads_back);
    reveal(partial_reads_as);
    let e = Seq::<char>::empty();
    let smaj = segment_text(p.major, e);
    let r1 = segment_text(p.minor, seq!['.']) + segment_text(p.patch, seq!['.']) + version_suffix(p.pre, p.build) + rest;
    let text = partial_text(p);
    assert(text =~= smaj + segment_text(p.minor, seq!['.']) + segment_text(p.patch, seq!['.']) + version_suffix(p.pre, p.build));
    assert(text + rest =~= smaj + r1);
    if p.minor == NOT_EXISTS {
        assert(segment_text(p.minor, seq!['.']) =~= e);
        assert(segment_text(p.patch, seq!['.']) =~= e);
        assert(version_suffix(p.pre, p.build) =~= e);
        assert(r1 =~= rest);
        assert(p.pre =~= e && p.build =~= e);
    } else {
        lemma_partial_after_major(p, rest);
    }
    lemma_segment_text(p.major, e, r1);
    assert(text[0] == smaj[0]);
    let s = text + rest;
    assert(s[0] == smaj[0]);
    assert(drop_v(s) == s);
    assert(spec_range_segment(drop_v(s)) == Ok::<(u64, Seq<char>), ParseRangeError>((p.major, r1)));
    if p.minor == NOT_EXISTS {
        assert(!(r1.len() > 0 && r1[0] == '.'));
        assert(spec_partial_version(s) == Step::Parsed(
            PartialVersionView { major: p.major, minor: NOT_EXISTS, patch: NOT_EXISTS, pre: e, build: e },
            r1,
        ));
    } else {
        let r2 = spec_range_segment(r1.drop_first())->Ok_0.1;
        if r2.len() > 0 && r2[0] == '.' {
            let r3 = spec_range_segment(r2.drop_first())->Ok_0.1;
            assert(spec_partial_version(s) == spec_partial_tail(p.major, p.minor, p.patch, r3));
        } else {
            assert(spec_partial_version(s) == Step::Parsed(
                PartialVersionView { major: p.major, minor: p.minor, patch: NOT_EXISTS, pre: e, build: e },
                r2,
            ));
            assert(p.pre =~= e && p.build =~= e);
        }
    }
}

// ---------------------------------------------------------------------------------------
// Reading back the text a comparator is written as.

/// A comparator whose text reads back as itself: its versions read back, and the first
/// version of a hyphen range has no patch segment (after one, the `-` would start a
/// prerelease text).
pub open spec fn comparator_reads_back(c: ComparatorView) -> bool {
    match c {
        ComparatorView::Hyphen(a, b) => partial_reads_back(a) && a.patch == NOT_EXISTS && partial_reads_back(b),
        _ => partial_reads_back(c.operand()),
    }
}

/// Whether every character of `w` is a space.
pub open spec fn all_spaces(w: Seq<char>) -> bool {
    forall|i: int| 0 <= i < w.len() ==> #[trigger] w[i] == ' '
}

/// Leading spaces do not change what is left once whitespace is skipped.
proof fn lemma_trim_spaces(w: Seq<char>, x: Seq<char>)
    requires
        all_spaces(w),
    ensures
        trim_ws(w + x) == trim_ws(x),
    decreases w.len(),
{
    if w.len() > 0 {
        assert((w + x)[0] == ' ');
        assert((w + x).drop_first() =~= w.drop_first() + x);
        assert(all_spaces(w.drop_first())) by {
            assert forall|i: int| 0 <= i < w.drop_first().len() implies #[trigger] w.drop_first()[i] == ' ' by {
                assert(w.drop_first()[i] == w[i + 1]);
            }
        }
        lemma_trim_spaces(w.drop_first(), x);
    } else {
        assert(w + x =~= x);
    }
}

/// Skipping whitespace twice skips no more.
proof fn lemma_trim_twice(x: Seq<char>)
    ensures
        trim_ws(trim_ws(x)) == trim_ws(x),
    decreases x.len(),
{
    if x.len() > 0 && is_ws_char(x[0]) {
        lemma_trim_twice(x.drop_first());
    }
}

/// A character that starts the text of a comparator.
pub open spec fn comparator_start(c: char) -> bool {
    seg_start(c) || c == '~' || c == '^' || c == '=' || c == '>' || c == '<'
}

/// What may follow the text of a comparator: nothing, or spaces and then anything but `-`.
pub open spec fn may_follow_comparator(rest: Seq<char>) -> bool {
    &&& rest.len() == 0 || rest[0] == ' '
    &&& trim_ws(rest).len() == 0 || trim_ws(rest)[0] != '-'
}

/// Whether `spec_comparator` reads `c` from `s` and leaves what `rest` leaves once whitespace
/// is skipped.
pub open spec fn reads_comparator(s: Seq<char>, c: ComparatorView, rest: Seq<char>) -> bool {
    spec_comparator(s) matches Step::Parsed(c2, r) && c2 == c && trim_ws(r) == trim_ws(rest)
}

proof fn lemma_bare_hyphen(s: Seq<char>, a: PartialVersionView, b: PartialVersionView, after_a: Seq<char>, rest: Seq<char>)
    requires
        partial_reads_as(s, a, after_a),
        trim_ws(after_a) == after_a,
        after_a.len() > 0,
        after_a[0] == '-',
        partial_reads_as(after_a.drop_first(), b, rest),
    ensures
        spec_bare_comparator(s) == Step::Parsed(ComparatorView::Hyphen(a, b), rest),
{
    reveal(partial_reads_as);
}

proof fn lemma_hyphen_parts(a: PartialVersionView, b: PartialVersionView, rest: Seq<char>)
    requires
        comparator_reads_back(ComparatorView::Hyphen(a, b)),
        may_follow_comparator(rest),
    ensures
        ({
            let after_a = seq!['-'] + partial_text(b) + rest;
            let s = comparator_text(ComparatorView::Hyphen(a, b)) + rest;
            &&& s.len() > 0 && seg_start(s[0])
            &&& trim_ws(s) == s
            &&& partial_reads_as(s, a, after_a)
            &&& trim_ws(after_a) == after_a
            &&& after_a.len() > 0 && after_a[0] == '-'
            &&& partial_reads_as(after_a.drop_first(), b, rest)
        }),
{
    let s = comparator_text(ComparatorView::Hyphen(a, b)) + rest;
    let after_a = seq!['-'] + partial_text(b) + rest;
    assert(may_follow_partial(b, rest));
    lemma_partial_round_trip(b, rest);
    assert(after_a.drop_first() =~= partial_text(b) + rest);
    assert(after_a.len() > 0 && after_a[0] == '-');
    assert(trim_ws(after_a) == after_a);
    assert(s =~= partial_text(a) + after_a);
    assert(may_follow_partial(a, after_a));
    lemma_partial_round_trip(a, after_a);
    assert(s[0] == partial_text(a)[0]);
    assert(trim_ws(s) == s);
}

proof fn lemma_hyphen_round_trip(a: PartialVersionView, b: PartialVersionView, rest: Seq<char>)
    requires
        comparator_reads_back(ComparatorView::Hyphen(a, b)),
        may_follow_comparator(rest),
    ensures
        comparator_text(ComparatorView::Hyphen(a, b)).len() > 0,
        comparator_start(comparator_text(ComparatorView::Hyphen(a, b))[0]),
        reads_comparator(comparator_text(ComparatorView::Hyphen(a, b)) + rest, ComparatorView::Hyphen(a, b), rest),
{
    let c = ComparatorView::Hyphen(a, b);
    let s = comparator_text(c) + rest;
    let after_a = seq!['-'] + partial_text(b) + rest;
    lemma_hyphen_parts(a, b, rest);
    lemma_bare_hyphen(s, a, b, after_a, rest);
    assert(s[0] == comparator_text(c)[0]);
    assert(spec_comparator(s) == spec_bare_comparator(s));
}

proof fn lemma_star_round_trip(p: PartialVersionView, rest: Seq<char>)
    requires
        partial_reads_back(p),
        may_follow_comparator(rest),
    ensures
        comparator_text(ComparatorView::Star(p)).len() > 0,
        comparator_start(comparator_text(ComparatorView::Star(p))[0]),
        reads_comparator(comparator_text(ComparatorView::Star(p)) + rest, ComparatorView::Star(p), rest),
{
    let c = ComparatorView::Star(p);
    let text = comparator_text(c);
    let s = text + rest;
    lemma_partial_round_trip(p, rest);
    reveal(partial_reads_as);
    assert(s[0] == text[0]);
    assert(trim_ws(s) == s);
    lemma_trim_twice(rest);
    assert(spec_bare_comparator(s) == Step::Parsed(c, trim_ws(rest)));
}

/// A comparator written with a one-character operator.
proof fn lemma_short_op_round_trip(c: ComparatorView, rest: Seq<char>)
    requires
        c is Tilde || c is Caret || c is Exact || c is GreaterThan || c is LessThan,
        partial_reads_back(c.operand()),
        may_follow_comparator(rest),
    ensures
        comparator_text(c).len() > 0,
        comparator_start(comparator_text(c)[0]),
        reads_comparator(comparator_text(c) + rest, c, rest),
{
    let p = c.operand();
    let text = comparator_text(c);
    let s = text + rest;
    lemma_partial_round_trip(p, rest);
    reveal(partial_reads_as);
    let pt = partial_text(p);
    assert(text =~= seq![text[0]] + pt);
    assert(s[0] == text[0]);
    assert(trim_ws(s) == s);
    assert(s.drop_first() =~= pt + rest);
    assert((pt + rest)[0] == pt[0]);
    assert(trim_ws(pt + rest) == pt + rest);
}

/// A comparator written with `>=` or `<=`.
proof fn lemma_long_op_round_trip(c: ComparatorView, rest: Seq<char>)
    requires
        c is GreaterThanOrEqual || c is LessThanOrEqual,
        partial_reads_back(c.operand()),
        may_follow_comparator(rest),
    ensures
        comparator_text(c).len() > 0,
        comparator_start(comparator_text(c)[0]),
        reads_comparator(comparator_text(c) + rest, c, rest),
{
    let p = c.operand();
    let text = comparator_text(c);
    let s = text + rest;
    lemma_partial_round_trip(p, rest);
    reveal(partial_reads_as);
    let pt = partial_text(p);
    assert(text =~= seq![text[0], '='] + pt);
    assert(s[0] == text[0]);
    assert(trim_ws(s) == s);
    assert(s.drop_first()[0] == '=');
    assert(s.drop_first().drop_first() =~= pt + rest);
    assert((pt + rest)[0] == pt[0]);
    assert(trim_ws(pt + rest) == pt + rest);
}

/// The text of a comparator, followed by what may follow it, reads as the comparator.
proof fn lemma_comparator_round_trip(c: ComparatorView, rest: Seq<char>)
    requires
        comparator_reads_back(c),
        may_follow_comparator(rest),
    ensures
        comparator_text(c).len() > 0,
        comparator_start(comparator_text(c)[0]),
        reads_comparator(comparator_text(c) + rest, c, rest),
{
    match c {
        ComparatorView::Hyphen(a, b) => lemma_hyphen_round_trip(a, b, rest),
        ComparatorView::Star(p) => lemma_star_round_trip(p, rest),
        ComparatorView::GreaterThanOrEqual(_) => lemma_long_op_round_trip(c, rest),
        ComparatorView::LessThanOrEqual(_) => lemma_long_op_round_trip(c, rest),
        _ => lemma_short_op_round_trip(c, rest),
    }
}

// ---------------------------------------------------------------------------------------
// Reading back the text a comparator set is written as.

proof fn lemma_trim_shorter(x: Seq<char>)
    ensures
        trim_ws(x).len() <= x.len(),
    decreases x.len(),
{
    if x.len() > 0 && is_ws_char(x[0]) {
        lemma_trim_shorter(x.drop_first());
    }
}

/// Joining two or more parts: the first, the separator, then the others joined.
proof fn lemma_join_front(parts: Seq<Seq<char>>, sep: Seq<char>)
    requires
        parts.len() >= 2,
    ensures
        join_with(parts, sep) == parts[0] + sep + join_with(parts.drop_first(), sep),
    decreases parts.len(),
{
    if parts.len() == 2 {
        assert(parts.drop_last().len() == 1);
        assert(parts.drop_first().len() == 1);
        assert(join_with(parts.drop_last(), sep) == parts[0]);
        assert(join_with(parts.drop_first(), sep) == parts[1]);
    } else {
        lemma_join_front(parts.drop_last(), sep);
        assert(parts.drop_last().drop_first() =~= parts.drop_first().drop_last());
        assert(parts.drop_first().last() == parts.last());
    }
}

/// The text of a set: its first comparator, then a space and the text of the others.
proof fn lemma_set_text_front(cs: Seq<ComparatorView>)
    requires
        cs.len() >= 1,
    ensures
        set_text(cs) == comparator_text(cs[0]) + if cs.len() == 1 {
            Seq::<char>::empty()
        } else {
            seq![' '] + set_text(cs.drop_first())
        },
{
    let parts = cs.map_values(|c: ComparatorView| comparator_text(c));
    if cs.len() >= 2 {
        lemma_join_front(parts, seq![' ']);
        assert(parts.drop_first() =~= cs.drop_first().map_values(|c: ComparatorView| comparator_text(c)));
    } else {
        assert(set_text(cs) == parts[0]);
        assert(set_text(cs) =~= comparator_text(cs[0]) + Seq::<char>::empty());
    }
}

/// Every comparator of a set reads back.
pub open spec fn set_reads_back(cs: Seq<ComparatorView>) -> bool {
    forall|i: int| 0 <= i < cs.len() ==> comparator_reads_back(#[trigger] cs[i])
}

/// The text of a non-empty set, between spaces, reads as the set with nothing left.
#[verifier::spinoff_prover]
#[verifier::rlimit(80)]
proof fn lemma_set_round_trip(cs: Seq<ComparatorView>, lead: Seq<char>, trail: Seq<char>)
    requires
        cs.len() > 0,
        set_reads_back(cs),
        all_spaces(lead),
        all_spaces(trail),
    ensures
        spec_comparator_set(lead + set_text(cs) + trail) == Step::Parsed(cs, Seq::<char>::empty()),
    decreases cs.len(),
{
    let e = Seq::<char>::empty();
    let s = lead + set_text(cs) + trail;
    lemma_set_text_front(cs);
    let c0 = cs[0];
    assert(comparator_reads_back(c0));
    let t0 = comparator_text(c0);
    let tail = cs.drop_first();
    let rest = if cs.len() == 1 { trail } else { seq![' '] + set_text(tail) + trail };
    assert(s =~= lead + (t0 + rest));
    lemma_trim_spaces(lead, t0 + rest);
    if cs.len() == 1 {
        lemma_trim_spaces(trail, e);
        assert(trail + e =~= trail);
        assert(trim_ws(rest).len() == 0);
    } else {
        assert(comparator_reads_back(tail[0]));
        lemma_comparator_round_trip(tail[0], e);
        lemma_set_text_front(tail);
        let after = set_text(tail) + trail;
        assert(after[0] == comparator_text(tail[0])[0]);
        lemma_trim_spaces(seq![' '], after);
        assert(rest =~= seq![' '] + after);
        assert(trim_ws(after) == after);
    }
    lemma_comparator_round_trip(c0, rest);
    assert(t0[0] == (t0 + rest)[0]);
    assert(trim_ws(t0 + rest) == t0 + rest);
    assert(trim_ws(s) == t0 + rest);
    assert(spec_comparator(s) == spec_comparator(t0 + rest));
    let r = spec_comparator(s)->Parsed_1;
    lemma_trim_shorter(rest);
    assert(trim_ws(r).len() < s.len());
    assert(spec_comparator_set(s) == prepend_comparators(seq![c0], spec_comparator_set(trim_ws(r))));
    if cs.len() == 1 {
        assert(trim_ws(r) =~= e);
        assert(spec_comparator_set(trim_ws(r)) == Step::Parsed(Seq::<ComparatorView>::empty(), e));
        assert(seq![c0] + Seq::<ComparatorView>::empty() =~= cs);
    } else {
        assert(set_reads_back(tail)) by {
            assert forall|i: int| 0 <= i < tail.len() implies comparator_reads_back(#[trigger] tail[i]) by {
                assert(tail[i] == cs[i + 1]);
            }
        }
        lemma_set_round_trip(tail, e, trail);
        assert(e + set_text(tail) + trail =~= set_text(tail) + trail);
        assert(seq![c0] + tail =~= cs);
    }
}

// ---------------------------------------------------------------------------------------
// Reading back the text a range is written as.

/// No `|` occurs in `s`.
pub open spec fn no_bar(s: Seq<char>) -> bool {
    forall|i: int| 0 <= i < s.len() ==> #[trigger] s[i] != '|'
}

/// A dot-separated list of identifiers holds identifier characters and dots only.
proof fn lemma_dotted_chars(s: Seq<char>)
    requires
        dotted_identifiers(s),
    ensures
        forall|i: int| 0 <= i < s.len() ==> is_ident_char(#[trigger] s[i]) || s[i] == '.',
    decreases s.len(),
{
    let k = dot_index(s) as int;
    lemma_dot_index(s);
    lemma_split_dots_first(s, k);
    let ids = split_dots(s);
    assert(ids[0] == s.take(k)) by {
        if k == s.len() {
            assert(s.take(k) =~= s);
        }
    }
    assert(is_identifier(ids[0]));
    if k < s.len() {
        let tail = s.skip(k + 1);
        let tids = split_dots(tail);
        assert(ids == seq![s.take(k)] + tids);
        assert forall|i: int| 0 <= i < tids.len() implies is_identifier(#[trigger] tids[i]) by {
            assert(tids[i] == ids[i + 1]);
        }
        lemma_dotted_chars(tail);
        assert forall|i: int| 0 <= i < s.len() implies is_ident_char(#[trigger] s[i]) || s[i] == '.' by {
            if i < k {
                assert(s[i] == ids[0][i]);
            } else if i > k {
                assert(s[i] == tail[i - k - 1]);
            }
        }
    } else {
        assert forall|i: int| 0 <= i < s.len() implies is_ident_char(#[trigger] s[i]) || s[i] == '.' by {
            assert(s[i] == ids[0][i]);
        }
    }
}

/// The `-pre` and `+build` parts of a text hold no `|`.
proof fn lemma_suffix_no_bar(pre: Seq<char>, build: Seq<char>)
    requires
        prerelease_text_valid(pre),
        build_text_valid(build),
    ensures
        no_bar(version_suffix(pre, build)),
{
    let e = Seq::<char>::empty();
    let pr = if pre.len() > 0 { seq!['-'] + pre } else { e };
    let b = if build.len() > 0 { seq!['+'] + build } else { e };
    if pre.len() > 0 {
        assert(dotted_identifiers(pre));
        lemma_dotted_chars(pre);
    }
    if build.len() > 0 {
        assert(dotted_identifiers(build));
        lemma_dotted_chars(build);
    }
    assert forall|i: int| 0 <= i < pr.len() implies #[trigger] pr[i] != '|' by {
        if i > 0 {
            assert(pr[i] == pre[i - 1]);
        }
    }
    assert forall|i: int| 0 <= i < b.len() implies #[trigger] b[i] != '|' by {
        if i > 0 {
            assert(b[i] == build[i - 1]);
        }
    }
    let t = version_suffix(pre, build);
    assert(t == pr + b);
    assert forall|i: int| 0 <= i < t.len() implies #[trigger] t[i] != '|' by {
        if i < pr.len() {
            assert(t[i] == pr[i]);
        } else {
            assert(t[i] == b[i - pr.len()]);
        }
    }
}

proof fn lemma_segment_no_bar(x: u64, prefix: Seq<char>)
    requires
        x == NOT_EXISTS || seg_writable(x),
        no_bar(prefix),
    ensures
        no_bar(segment_text(x, prefix)),
{
    let t = segment_text(x, prefix);
    if x != NOT_EXISTS {
        lemma_segment_text(x, prefix, Seq::<char>::empty());
        let u = segment_text(x, Seq::<char>::empty());
        assert forall|i: int| 0 <= i < u.len() implies #[trigger] u[i] != '|' by {
            if x <= VERSION_SEGMENT_MAX {
                lemma_decimal(x as nat);
                assert(u =~= decimal(x as nat));
                assert(is_digit(u[i]));
            }
        }
        assert forall|i: int| 0 <= i < t.len() implies #[trigger] t[i] != '|' by {
            if i < prefix.len() {
                assert(t[i] == prefix[i]);
            } else {
                assert(t[i] == u[i - prefix.len()]);
            }
        }
    }
}

proof fn lemma_concat_no_bar(a: Seq<char>, b: Seq<char>)
    requires
        no_bar(a),
        no_bar(b),
    ensures
        no_bar(a + b),
{
    assert forall|i: int| 0 <= i < (a + b).len() implies #[trigger] (a + b)[i] != '|' by {
        if i < a.len() {
            assert((a + b)[i] == a[i]);
        } else {
            assert((a + b)[i] == b[i - a.len()]);
        }
    }
}

proof fn lemma_partial_no_bar(p: PartialVersionView)
    requires
        partial_reads_back(p),
    ensures
        no_bar(partial_text(p)),
{
    reveal(partial_reads_back);
    let e = Seq::<char>::empty();
    lemma_segment_no_bar(p.major, e);
    lemma_segment_no_bar(p.minor, seq!['.']);
    lemma_segment_no_bar(p.patch, seq!['.']);
    lemma_suffix_no_bar(p.pre, p.build);
    let a = segment_text(p.major, e);
    let b = segment_text(p.minor, seq!['.']);
    let c = segment_text(p.patch, seq!['.']);
    let d = version_suffix(p.pre, p.build);
    lemma_concat_no_bar(a, b);
    lemma_concat_no_bar(a + b, c);
    lemma_concat_no_bar(a + b + c, d);
    assert(partial_text(p) =~= a + b + c + d);
}

proof fn lemma_comparator_no_bar(c: ComparatorView)
    requires
        comparator_reads_back(c),
    ensures
        no_bar(comparator_text(c)),
{
    match c {
        ComparatorView::Hyphen(a, b) => {
            lemma_partial_no_bar(a);
            lemma_partial_no_bar(b);
            lemma_concat_no_bar(partial_text(a), seq!['-']);
            lemma_concat_no_bar(partial_text(a) + seq!['-'], partial_text(b));
        },
        _ => {
            let p = c.operand();
            lemma_partial_no_bar(p);
            let op = match c {
                ComparatorView::Tilde(_) => seq!['~'],
                ComparatorView::Caret(_) => seq!['^'],
                ComparatorView::Exact(_) => seq!['='],
                ComparatorView::GreaterThan(_) => seq!['>'],
                ComparatorView::GreaterThanOrEqual(_) => seq!['>', '='],
                ComparatorView::LessThan(_) => seq!['<'],
                ComparatorView::LessThanOrEqual(_) => seq!['<', '='],
                _ => Seq::<char>::empty(),
            };
            assert(no_bar(op));
            lemma_concat_no_bar(op, partial_text(p));
            assert(comparator_text(c) =~= op + partial_text(p));
        },
    }
}

proof fn lemma_set_no_bar(cs: Seq<ComparatorView>)
    requires
        set_reads_back(cs),
    ensures
        no_bar(set_text(cs)),
    decreases cs.len(),
{
    if cs.len() == 0 {
        assert(set_text(cs) =~= Seq::<char>::empty());
    } else {
        lemma_set_text_front(cs);
        assert(comparator_reads_back(cs[0]));
        lemma_comparator_no_bar(cs[0]);
        if cs.len() > 1 {
            let tail = cs.drop_first();
            assert(set_reads_back(tail)) by {
                assert forall|i: int| 0 <= i < tail.len() implies comparator_reads_back(#[trigger] tail[i]) by {
                    assert(tail[i] == cs[i + 1]);
                }
            }
            lemma_set_no_bar(tail);
            lemma_concat_no_bar(seq![' '], set_text(tail));
            lemma_concat_no_bar(comparator_text(cs[0]), seq![' '] + set_text(tail));
        } else {
            assert(comparator_text(cs[0]) + Seq::<char>::empty() =~= comparator_text(cs[0]));
        }
    }
}

proof fn lemma_no_bars_found(a: Seq<char>)
    requires
        no_bar(a),
    ensures
        first_occurrence(a, bars()) is None,
    decreases a.len(),
{
    if a.len() >= 2 {
        assert(a.take(2)[0] == a[0]);
        assert(a.take(2) != bars());
        assert(no_bar(a.drop_first())) by {
            assert forall|i: int| 0 <= i < a.drop_first().len() implies #[trigger] a.drop_first()[i] != '|' by {
                assert(a.drop_first()[i] == a[i + 1]);
            }
        }
        lemma_no_bars_found(a.drop_first());
    }
}

proof fn lemma_bars_found(a: Seq<char>, b: Seq<char>)
    requires
        no_bar(a),
        b.len() >= 2,
        b[0] == '|',
        b[1] == '|',
    ensures
        first_occurrence(a + b, bars()) == Some(a.len()),
    decreases a.len(),
{
    let s = a + b;
    if a.len() == 0 {
        assert(s =~= b);
        assert(s.take(2) =~= bars());
    } else {
        assert(s[0] == a[0]);
        assert(s.take(2)[0] == s[0]);
        assert(s.take(2) != bars());
        assert(s.drop_first() =~= a.drop_first() + b);
        assert(no_bar(a.drop_first())) by {
            assert forall|i: int| 0 <= i < a.drop_first().len() implies #[trigger] a.drop_first()[i] != '|' by {
                assert(a.drop_first()[i] == a[i + 1]);
            }
        }
        lemma_bars_found(a.drop_first(), b);
    }
}

/// The text of a range: its first set, then ` || ` and the text of the others.
proof fn lemma_range_text_front(r: Seq<Seq<ComparatorView>>)
    requires
        r.len() >= 1,
    ensures
        range_text(r) == set_text(r[0]) + if r.len() == 1 {
            Seq::<char>::empty()
        } else {
            seq![' ', '|', '|', ' '] + range_text(r.drop_first())
        },
{
    let parts = r.map_values(|cs: Seq<ComparatorView>| set_text(cs));
    if r.len() >= 2 {
        lemma_join_front(parts, seq![' ', '|', '|', ' ']);
        assert(parts.drop_first() =~= r.drop_first().map_values(|cs: Seq<ComparatorView>| set_text(cs)));
    } else {
        assert(range_text(r) == parts[0]);
        assert(range_text(r) =~= set_text(r[0]) + Seq::<char>::empty());
    }
}

/// A range whose text reads back as itself: at least one set, every comparator one that reads
/// back, and, when there are two or more sets, none of them empty.
pub open spec fn range_reads_back(r: Seq<Seq<ComparatorView>>) -> bool {
    &&& r.len() >= 1
    &&& forall|i: int| 0 <= i < r.len() ==> set_reads_back(#[trigger] r[i])
    &&& r.len() == 1 || forall|i: int| 0 <= i < r.len() ==> (#[trigger] r[i]).len() > 0
}

/// The text of one set, between spaces, reads as the set.
proof fn lemma_piece_round_trip(cs: Seq<ComparatorView>, lead: Seq<char>, trail: Seq<char>)
    requires
        set_reads_back(cs),
        all_spaces(lead),
        all_spaces(trail),
        cs.len() > 0 || (lead.len() == 0 && trail.len() == 0),
    ensures
        spec_comparator_set_text(lead + set_text(cs) + trail) == Step::Parsed(cs, Seq::<char>::empty()),
{
    let s = lead + set_text(cs) + trail;
    if cs.len() > 0 {
        lemma_set_round_trip(cs, lead, trail);
    } else {
        assert(set_text(cs) =~= Seq::<char>::empty());
        assert(s =~= Seq::<char>::empty());
        assert(cs =~= Seq::<ComparatorView>::empty());
    }
    assert(spec_comparator_set(s) == Step::Parsed(cs, Seq::<char>::empty()));
}

#[verifier::spinoff_prover]
#[verifier::rlimit(40)]
proof fn lemma_sets_round_trip(r: Seq<Seq<ComparatorView>>, lead: Seq<char>)
    requires
        range_reads_back(r),
        all_spaces(lead),
        lead.len() == 0 || forall|i: int| 0 <= i < r.len() ==> (#[trigger] r[i]).len() > 0,
    ensures
        spec_sets(split_bars(lead + range_text(r))) == Step::Parsed(r, Seq::<char>::empty()),
    decreases r.len(),
{
    let e = Seq::<char>::empty();
    lemma_range_text_front(r);
    let first = set_text(r[0]);
    assert(set_reads_back(r[0]));
    lemma_set_no_bar(r[0]);
    let s = lead + range_text(r);
    assert(no_bar(lead)) by {
        assert forall|i: int| 0 <= i < lead.len() implies #[trigger] lead[i] != '|' by {
            assert(lead[i] == ' ');
        }
    }
    if r.len() == 1 {
        assert(s =~= lead + first + e);
        lemma_concat_no_bar(lead, first);
        assert(lead + first =~= s);
        lemma_no_bars_found(s);
        assert(split_bars(s) == seq![s]);
        lemma_piece_round_trip(r[0], lead, e);
        assert(spec_sets(seq![s]) == prepend_sets(seq![r[0]], spec_sets(seq![s].drop_first())));
        assert(seq![s].drop_first() =~= Seq::<Seq<char>>::empty());
        assert(seq![r[0]] + Seq::<Seq<ComparatorView>>::empty() =~= r);
    } else {
        let tail = r.drop_first();
        let a = lead + first + seq![' '];
        let b = seq!['|', '|', ' '] + range_text(tail);
        assert(s =~= a + b);
        lemma_concat_no_bar(lead, first);
        lemma_concat_no_bar(lead + first, seq![' ']);
        lemma_bars_found(a, b);
        assert(s.take(a.len() as int) =~= a);
        let next = s.skip((a.len() + 2) as int);
        assert(next =~= seq![' '] + range_text(tail));
        assert(split_bars(s) == seq![a] + split_bars(next));
        assert(all_spaces(seq![' ']));
        lemma_piece_round_trip(r[0], lead, seq![' ']);
        assert(range_reads_back(tail)) by {
            assert forall|i: int| 0 <= i < tail.len() implies set_reads_back(#[trigger] tail[i]) by {
                assert(tail[i] == r[i + 1]);
            }
        }
        assert forall|i: int| 0 <= i < tail.len() implies (#[trigger] tail[i]).len() > 0 by {
            assert(tail[i] == r[i + 1]);
        }
        lemma_sets_round_trip(tail, seq![' ']);
        let pieces = seq![a] + split_bars(next);
        assert(pieces[0] == a);
        assert(pieces.drop_first() =~= split_bars(next));
        assert(spec_sets(pieces) == prepend_sets(seq![r[0]], spec_sets(pieces.drop_first())));
        assert(seq![r[0]] + tail =~= r);
    }
}

/// Reading the text a range is written as gives the range back: what
/// `VersionRange::from_str` reads of what `VersionRange::to_string` writes. This holds for
/// every range whose comparators read back (a hyphen range whose first version has a patch
/// segment does not: its `-` starts a prerelease text) and that has a set, and no empty set
/// beside others.
pub proof fn lemma_range_text_round_trip(r: Seq<Seq<ComparatorView>>)
    requires
        range_reads_back(r),
    ensures
        spec_range(range_text(r)) == Step::Parsed(r, Seq::<char>::empty()),
{
    lemma_sets_round_trip(r, Seq::<char>::empty());
    assert(Seq::<char>::empty() + range_text(r) =~= range_text(r));
}

// ---------------------------------------------------------------------------------------
// Reading back the text a Unity version is written as.

/// The first occurrence of `c` in `a + b`, when `a` holds none and `b` starts with it, is
/// where `b` starts.
proof fn lemma_char_found(a: Seq<char>, c: char, b: Seq<char>)
    requires
        forall|i: int| 0 <= i < a.len() ==> #[trigger] a[i] != c,
        b.len() > 0,
        b[0] == c,
    ensures
        first_occurrence(a + b, seq![c]) == Some(a.len()),
    decreases a.len(),
{
    let s = a + b;
    if a.len() == 0 {
        assert(s =~= b);
        assert(s.take(1) =~= seq![c]);
    } else {
        assert(s[0] == a[0]);
        assert(s.take(1)[0] == s[0]);
        assert(s.take(1) != seq![c]);
        assert(s.drop_first() =~= a.drop_first() + b);
        assert forall|i: int| 0 <= i < a.drop_first().len() implies #[trigger] a.drop_first()[i] != c by {
            assert(a.drop_first()[i] == a[i + 1]);
        }
        lemma_char_found(a.drop_first(), c, b);
    }
}

/// No `c` in `a`: no occurrence.
proof fn lemma_char_not_found(a: Seq<char>, c: char)
    requires
        forall|i: int| 0 <= i < a.len() ==> #[trigger] a[i] != c,
    ensures
        first_occurrence(a, seq![c]) is None,
    decreases a.len(),
{
    if a.len() >= 1 {
        assert(a.take(1)[0] == a[0]);
        assert(a.take(1) != seq![c]);
        assert forall|i: int| 0 <= i < a.drop_first().len() implies #[trigger] a.drop_first()[i] != c by {
            assert(a.drop_first()[i] == a[i + 1]);
        }
        lemma_char_not_found(a.drop_first(), c);
    }
}

/// A number written in decimal reads as itself.
proof fn lemma_unsigned_of_decimal(n: nat)
    ensures
        unsigned_text_value(decimal(n)) == Some(n),
        forall|i: int| 0 <= i < decimal(n).len() ==> #[trigger] is_digit(decimal(n)[i]),
{
    lemma_decimal(n);
    assert(decimal(n)[0] != '+') by {
        assert(is_digit(decimal(n)[0]));
    }
}

/// No release type letter is a digit: in digits followed by a letter, the letter comes first.
proof fn lemma_release_char_found(a: Seq<char>, t: ReleaseType, b: Seq<char>)
    requires
        forall|i: int| 0 <= i < a.len() ==> #[trigger] is_digit(a[i]),
    ensures
        first_release_char(a + seq![release_type_char(t)] + b) == Some(a.len()),
    decreases a.len(),
{
    let s = a + seq![release_type_char(t)] + b;
    if a.len() == 0 {
        assert(s[0] == release_type_char(t));
    } else {
        assert(s[0] == a[0]);
        assert(is_digit(a[0]));
        assert(release_type_of(s[0]) is None);
        assert(s.drop_first() =~= a.drop_first() + seq![release_type_char(t)] + b);
        assert forall|i: int| 0 <= i < a.drop_first().len() implies #[trigger] is_digit(a.drop_first()[i]) by {
            assert(a.drop_first()[i] == a[i + 1]);
        }
        lemma_release_char_found(a.drop_first(), t, b);
    }
}

/// Digits are not `c` when `c` is no digit.
proof fn lemma_digits_avoid(a: Seq<char>, c: char)
    requires
        forall|i: int| 0 <= i < a.len() ==> #[trigger] is_digit(a[i]),
        !is_digit(c),
    ensures
        forall|i: int| 0 <= i < a.len() ==> #[trigger] a[i] != c,
{
    assert forall|i: int| 0 <= i < a.len() implies #[trigger] a[i] != c by {
        assert(is_digit(a[i]));
    }
}

/// After the second dot: revision, release type letter and increment read back.
#[verifier::spinoff_prover]
proof fn lemma_unity_tail_round_trip(v: UnityVersion)
    ensures
        spec_unity_tail(
            v.major,
            v.minor,
            decimal(v.revision as nat) + seq![release_type_char(v.type_)] + decimal(v.increment as nat),
        ) == Some(v),
{
    let dre = decimal(v.revision as nat);
    let din = decimal(v.increment as nat);
    let t = release_type_char(v.type_);
    lemma_unsigned_of_decimal(v.revision as nat);
    lemma_unsigned_of_decimal(v.increment as nat);
    let tail = dre + seq![t] + din;
    lemma_release_char_found(dre, v.type_, din);
    assert(tail.take(dre.len() as int) =~= dre);
    assert(u8_text(dre) == Some(v.revision));
    assert(tail[dre.len() as int] == t);
    assert(release_type_of(t) == Some(v.type_));
    assert(tail.skip(dre.len() + 1int) =~= din);
    lemma_digits_avoid(din, '-');
    lemma_char_not_found(din, '-');
    assert(u8_text(din) == Some(v.increment));
}

/// Reading the text a Unity version is written as gives the version back: what
/// `UnityVersion::parse` reads of what `UnityVersion::to_string` writes, for every version.
#[verifier::spinoff_prover]
pub proof fn lemma_unity_version_round_trip(v: UnityVersion)
    ensures
        spec_unity_version(unity_version_text(v)) == Some(v),
{
    let dma = decimal(v.major as nat);
    let dmi = decimal(v.minor as nat);
    lemma_unsigned_of_decimal(v.major as nat);
    lemma_unsigned_of_decimal(v.minor as nat);
    let tail = decimal(v.revision as nat) + seq![release_type_char(v.type_)] + decimal(v.increment as nat);
    let r1 = dmi + seq!['.'] + tail;
    let text = unity_version_text(v);
    assert(text =~= dma + (seq!['.'] + r1));
    lemma_digits_avoid(dma, '.');
    lemma_char_found(dma, '.', seq!['.'] + r1);
    assert(text.take(dma.len() as int) =~= dma);
    assert(text.skip(dma.len() + 1int) =~= r1);
    assert(u16_text(dma) == Some(v.major));
    lemma_digits_avoid(dmi, '.');
    lemma_char_found(dmi, '.', seq!['.'] + tail);
    assert(r1 =~= dmi + (seq!['.'] + tail));
    assert(r1.take(dmi.len() as int) =~= dmi);
    assert(r1.skip(dmi.len() + 1int) =~= tail);
    assert(u8_text(dmi) == Some(v.minor));
    lemma_unity_tail_round_trip(v);
}

} // verus!
