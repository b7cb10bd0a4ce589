use vstd::prelude::*;
use vstd::utf8::*;
use vstd::string::StringSliceAdditionalSpecFns;
use crate::version::buf::{
    ParsingBuf, all_ascii, byte_at, first_byte, is_ascii_char, lead_byte, lemma_encode_ascii_prefix,
    lemma_lead_byte, lemma_encode_len, lemma_char_eq,
};
use crate::version::error::ParseRangeError;
use crate::version::number::{all_digits, digits_value, is_digit, u64_from_str, unsigned_text_value};
use crate::version::semver_text::is_ident_char;
use crate::version::step::{ParseStop, Step};

verus! {

broadcast use vstd::utf8::group_utf8_lib;

} // verus!

verus! {

/// A segment value that stands for "no segment".
pub const NOT_EXISTS: u64 = 0xFFFF_FFFF_FFFF_FFFF;
/// A segment written `*`.
pub const STAR: u64 = 0xFFFF_FFFF_FFFF_FFFE;
/// A segment written `X`.
pub const UPPER_X: u64 = 0xFFFF_FFFF_FFFF_FFFD;
/// A segment written `x`.
pub const LOWER_X: u64 = 0xFFFF_FFFF_FFFF_FFFC;
/// The largest number a version segment may hold.
pub const VERSION_SEGMENT_MAX: u64 = 0xFFFF_FFFF_FFFF_FFFB;

/// The number of leading decimal digits of `s`.
pub open spec fn digit_run(s: Seq<char>) -> nat
    decreases s.len(),
{
    if s.len() > 0 && is_digit(s[0]) {
        1 + digit_run(s.drop_first())
    } else {
        0
    }
}

/// The number of leading identifier characters of `s`.
pub open spec fn ident_run(s: Seq<char>) -> nat
    decreases s.len(),
{
    if s.len() > 0 && is_ident_char(s[0]) {
        1 + ident_run(s.drop_first())
    } else {
        0
    }
}

pub proof fn lemma_digit_run(s: Seq<char>)
    ensures
        digit_run(s) <= s.len(),
        forall|i: int| 0 <= i < digit_run(s) ==> is_digit(#[trigger] s[i]),
        digit_run(s) < s.len() ==> !is_digit(s[digit_run(s) as int]),
    decreases s.len(),
{
    if s.len() > 0 && is_digit(s[0]) {
        lemma_digit_run(s.drop_first());
        assert forall|i: int| 0 <= i < digit_run(s) implies is_digit(#[trigger] s[i]) by {
            if i > 0 {
                assert(s[i] == s.drop_first()[i - 1]);
            }
        }
    }
}

pub proof fn lemma_ident_run(s: Seq<char>)
    ensures
        ident_run(s) <= s.len(),
        forall|i: int| 0 <= i < ident_run(s) ==> is_ident_char(#[trigger] s[i]),
        ident_run(s) < s.len() ==> !is_ident_char(s[ident_run(s) as int]),
    decreases s.len(),
{
    if s.len() > 0 && is_ident_char(s[0]) {
        lemma_ident_run(s.drop_first());
        assert forall|i: int| 0 <= i < ident_run(s) implies is_ident_char(#[trigger] s[i]) by {
            if i > 0 {
                assert(s[i] == s.drop_first()[i - 1]);
            }
        }
    }
}

/// A run of digits starting with `1`..`9`: its value, refused when it is larger than
/// `VERSION_SEGMENT_MAX`.
pub open spec fn spec_number(s: Seq<char>) -> Result<(u64, Seq<char>), ParseRangeError> {
    let i = digit_run(s) as int;
    let v = digits_value(s.take(i));
    if v > VERSION_SEGMENT_MAX {
        Err(ParseRangeError::too_big_spec())
    } else {
        Ok((v as u64, s.skip(i)))
    }
}

/// A segment of a full version: `0` or a number without leading zero.
pub open spec fn spec_version_segment(s: Seq<char>) -> Result<(u64, Seq<char>), ParseRangeError> {
    if s.len() == 0 {
        Err(ParseRangeError::unexpected_end_spec())
    } else if is_digit(s[0]) && s[0] != '0' {
        spec_number(s)
    } else if s[0] == '0' {
        let r = s.drop_first();
        if r.len() > 0 && is_digit(r[0]) {
            Err(ParseRangeError::invalid_char_spec(r[0]))
        } else {
            Ok((0u64, r))
        }
    } else {
        Err(ParseRangeError::invalid_char_spec(s[0]))
    }
}

/// A segment of a partial version: like a full version's, or one of `x`, `X`, `*`.
pub open spec fn spec_range_segment(s: Seq<char>) -> Result<(u64, Seq<char>), ParseRangeError> {
    if s.len() > 0 && s[0] == 'x' {
        Ok((LOWER_X, s.drop_first()))
    } else if s.len() > 0 && s[0] == 'X' {
        Ok((UPPER_X, s.drop_first()))
    } else if s.len() > 0 && s[0] == '*' {
        Ok((STAR, s.drop_first()))
    } else {
        spec_version_segment(s)
    }
}

pub open spec fn has_nondigit(s: Seq<char>) -> bool {
    exists|i: int| 0 <= i < s.len() && !is_digit(#[trigger] s[i])
}

/// A dot-separated identifier list (prerelease or build text). Without `allow_leading_zero`,
/// an identifier that starts with `0` and holds a non-digit is refused.
pub open spec fn spec_parse_id(s: Seq<char>, allow_leading_zero: bool) -> Result<(Seq<char>, Seq<char>), ParseRangeError>
    decreases s.len(),
{
    if s.len() == 0 {
        Err(ParseRangeError::unexpected_end_spec())
    } else {
        let k = ident_run(s) as int;
        if k == 0 {
            if s[0] == '.' {
                Err(ParseRangeError::invalid_char_spec('.'))
            } else {
                Err(ParseRangeError::invalid_char_spec(s[0]))
            }
        } else if !allow_leading_zero && s[0] == '0' && has_nondigit(s.take(k)) {
            Err(ParseRangeError::invalid_char_spec('0'))
        } else if k < s.len() && s[k] == '.' {
            match spec_parse_id(s.skip(k + 1), allow_leading_zero) {
                Ok((id, rest)) => Ok((s.take(k + 1) + id, rest)),
                Err(e) => Err(e),
            }
        } else {
            Ok((s.take(k), s.skip(k)))
        }
    }
}

/// Reads a run of digits that starts with `1`..`9`.
pub fn parse_number(bytes: &mut ParsingBuf) -> (r: Result<u64, ParseRangeError>)
    requires
        old(bytes)@.len() > 0,
        is_digit(old(bytes)@[0]) && old(bytes)@[0] != '0',
    ensures
        match spec_number(old(bytes)@) {
            Ok((v, rest)) => r == Ok::<u64, ParseRangeError>(v) && final(bytes)@ == rest,
            Err(e) => r == Err::<u64, ParseRangeError>(e),
        },
{
    let ghost s = bytes@;
    proof {
        lemma_digit_run(s);
    }
    let mut i: usize = 1;
    loop
        invariant
            bytes@ == s,
            1 <= i <= digit_run(s),
            digit_run(s) <= s.len(),
            forall|j: int| 0 <= j < digit_run(s) ==> is_digit(#[trigger] s[j]),
            digit_run(s) < s.len() ==> !is_digit(s[digit_run(s) as int]),
        ensures
            i == digit_run(s),
        decreases s.len() - i,
    {
        proof {
            assert(all_ascii(s.take(i as int))) by {
                assert forall|j: int| 0 <= j < i implies is_ascii_char(#[trigger] s.take(i as int)[j]) by {
                    assert(is_digit(s[j]));
                }
            }
            lemma_encode_ascii_prefix(s, i as int);
            if (i as int) < s.len() {
                lemma_lead_byte(s[i as int]);
            }
        }
        match bytes.get(i) {
            Some(b) => {
                if 0x30u8 <= b && b <= 0x39u8 {
                    assert(b == lead_byte(s[i as int]));
                    assert(is_ascii_char(s[i as int]));
                    assert(s[i as int] as u32 == b as u32);
                    assert(is_digit(s[i as int]));
                    i = i + 1;
                } else {
                    proof {
                        assert((i as int) < s.len());
                        if is_digit(s[i as int]) {
                            assert(is_ascii_char(s[i as int]));
                            assert(s[i as int] as u32 == b as u32);
                        }
                        if (i as int) < digit_run(s) {
                            assert(is_digit(s[i as int]));
                        }
                    }
                    break;
                }
            },
            None => {
                assert(i as int >= s.len());
                break;
            },
        }
    }
    assert(i == digit_run(s));
    proof {
        assert(all_ascii(s.take(i as int))) by {
            assert forall|j: int| 0 <= j < i implies is_ascii_char(#[trigger] s.take(i as int)[j]) by {
                assert(is_digit(s[j]));
            }
        }
        lemma_encode_ascii_prefix(s, i as int);
    }
    let text = bytes.take(i);
    proof {
        assert(text@ == s.take(i as int));
        assert(all_digits(text@));
        assert(text@[0] != '+');
        assert(unsigned_text_value(text@) == Some(digits_value(text@)));
    }
    match u64_from_str(text) {
        None => Err(ParseRangeError::too_big()),
        Some(value) => {
            if value > VERSION_SEGMENT_MAX {
                Err(ParseRangeError::too_big())
            } else {
                Ok(value)
            }
        },
    }
}

} // verus!

verus! {

/// Puts `prefix` in front of the identifier text that `r` holds, if any.
pub open spec fn lift_id(prefix: Seq<char>, r: Result<(Seq<char>, Seq<char>), ParseRangeError>) -> Result<(Seq<char>, Seq<char>), ParseRangeError> {
    match r {
        Ok((id, rest)) => Ok((prefix + id, rest)),
        Err(e) => Err(e),
    }
}

proof fn lemma_ascii_byte(s: Seq<char>, b: u8)
    requires
        s.len() > 0,
        b == lead_byte(s[0]),
    ensures
        b < 0x80 ==> b as u32 == s[0] as u32,
        is_ascii_char(s[0]) ==> b as u32 == s[0] as u32,
        b < 0x80 <==> is_ascii_char(s[0]),
{
    lemma_lead_byte(s[0]);
}

/// Reads a segment of a full version.
pub fn parse_version_segment(bytes: &mut ParsingBuf) -> (r: Result<u64, ParseRangeError>)
    ensures
        match spec_version_segment(old(bytes)@) {
            Ok((v, rest)) => r == Ok::<u64, ParseRangeError>(v) && final(bytes)@ == rest,
            Err(e) => r == Err::<u64, ParseRangeError>(e),
        },
{
    let ghost s = bytes@;
    match bytes.first() {
        None => Err(ParseRangeError::unexpected_end()),
        Some(b) => {
            proof {
                lemma_ascii_byte(s, b);
            }
            if 0x31u8 <= b && b <= 0x39u8 {
                assert(is_digit(s[0]) && s[0] != '0');
                parse_number(bytes)
            } else if b == 0x30u8 {
                proof { lemma_char_eq(s[0], '0'); }
                bytes.skip();
                let ghost t = bytes@;
                match bytes.first() {
                    Some(c) => {
                        proof {
                            lemma_ascii_byte(t, c);
                        }
                        if 0x30u8 <= c && c <= 0x39u8 {
                            Err(ParseRangeError::invalid_char(bytes.first_char()))
                        } else {
                            Ok(0)
                        }
                    },
                    None => Ok(0),
                }
            } else {
                assert(!is_digit(s[0]));
                Err(ParseRangeError::invalid_char(bytes.first_char()))
            }
        },
    }
}

/// Reads a segment of a partial version.
pub fn parse_range_segment(bytes: &mut ParsingBuf) -> (r: Result<u64, ParseRangeError>)
    ensures
        match spec_range_segment(old(bytes)@) {
            Ok((v, rest)) => r == Ok::<u64, ParseRangeError>(v) && final(bytes)@ == rest,
            Err(e) => r == Err::<u64, ParseRangeError>(e),
        },
{
    let ghost s = bytes@;
    match bytes.first() {
        Some(b) => {
            proof {
                lemma_ascii_byte(s, b);
            }
            if b == 0x78u8 {
                proof { lemma_char_eq(s[0], 'x'); }
                bytes.skip();
                Ok(LOWER_X)
            } else if b == 0x58u8 {
                proof { lemma_char_eq(s[0], 'X'); }
                bytes.skip();
                Ok(UPPER_X)
            } else if b == 0x2Au8 {
                proof { lemma_char_eq(s[0], '*'); }
                bytes.skip();
                Ok(STAR)
            } else {
                parse_version_segment(bytes)
            }
        },
        None => parse_version_segment(bytes),
    }
}

/// Reads the identifier characters at the start of the text: how many there are, and whether
/// one of them is not a digit.
fn scan_ident(bytes: &mut ParsingBuf) -> (r: (usize, bool))
    requires
        old(bytes)@.len() > 0,
        is_ident_char(old(bytes)@[0]),
    ensures
        r.0 == ident_run(old(bytes)@),
        r.1 == has_nondigit(old(bytes)@.take(r.0 as int)),
        final(bytes)@ == old(bytes)@.skip(r.0 as int),
        all_ascii(old(bytes)@.take(r.0 as int)),
        1 <= r.0 <= old(bytes)@.len(),
{
    let ghost t = bytes@;
    let total = bytes.buf.as_bytes().len();
    proof {
        lemma_ident_run(t);
        lemma_encode_len(t);
    }
    let mut j: usize = 0;
    let mut alnum = false;
    loop
        invariant
            ident_run(t) <= t.len(),
            t.len() <= total,
            forall|i: int| 0 <= i < ident_run(t) ==> is_ident_char(#[trigger] t[i]),
            ident_run(t) < t.len() ==> !is_ident_char(t[ident_run(t) as int]),
            0 < ident_run(t),
            j <= ident_run(t),
            alnum == has_nondigit(t.take(j as int)),
            bytes@ == t.skip(j as int),
        ensures
            j == ident_run(t),
            alnum == has_nondigit(t.take(j as int)),
            bytes@ == t.skip(j as int),
        decreases t.len() - j,
    {
        let ghost u = bytes@;
        match bytes.first() {
            Some(b) => {
                proof {
                    lemma_ascii_byte(u, b);
                    assert(u[0] == t[j as int]);
                }
                let digit = 0x30u8 <= b && b <= 0x39u8;
                let letter = (0x61u8 <= b && b <= 0x7Au8) || (0x41u8 <= b && b <= 0x5Au8) || b == 0x2Du8;
                if digit || letter {
                    proof {
                        assert(is_ident_char(t[j as int]));
                        if (j as int) == ident_run(t) {
                            assert(false);
                        }
                        assert(t.take(j + 1) =~= t.take(j as int).push(t[j as int]));
                        assert(has_nondigit(t.take(j + 1)) == (has_nondigit(t.take(j as int)) || !is_digit(t[j as int]))) by {
                            if has_nondigit(t.take(j + 1)) {
                                let w = choose|w: int| 0 <= w < j + 1 && !is_digit(#[trigger] t.take(j + 1)[w]);
                                if w < j {
                                    assert(t.take(j as int)[w] == t.take(j + 1)[w]);
                                }
                            }
                            if has_nondigit(t.take(j as int)) {
                                let w = choose|w: int| 0 <= w < j && !is_digit(#[trigger] t.take(j as int)[w]);
                                assert(t.take(j + 1)[w] == t.take(j as int)[w]);
                            }
                            if !is_digit(t[j as int]) {
                                assert(t.take(j + 1)[j as int] == t[j as int]);
                            }
                        }
                        assert(u.drop_first() =~= t.skip(j + 1));
                    }
                    bytes.skip();
                    if letter {
                        alnum = true;
                    }
                    j = j + 1;
                } else {
                    proof {
                        if (j as int) < ident_run(t) {
                            assert(is_ident_char(t[j as int]));
                        }
                    }
                    break;
                }
            },
            None => {
                break;
            },
        }
    }
    proof {
        assert forall|i: int| 0 <= i < j implies is_ascii_char(#[trigger] t.take(j as int)[i]) by {
            assert(is_ident_char(t[i]));
        }
    }
    (j, alnum)
}

/// Reads a dot-separated identifier list and returns the text it covers.
pub fn parse_id<'a>(bytes: &mut ParsingBuf<'a>, allow_leading_zero: bool) -> (r: Result<&'a str, ParseRangeError>)
    ensures
        match spec_parse_id(old(bytes)@, allow_leading_zero) {
            Ok((id, rest)) => r is Ok && r->Ok_0@ == id && final(bytes)@ == rest,
            Err(e) => r == Err::<&'a str, ParseRangeError>(e),
        },
{
    let ghost s0 = bytes@;
    let start = bytes.buf;
    let total = start.as_bytes().len();
    proof {
        lemma_encode_len(s0);
    }
    let mut n: usize = 0;
    loop
        invariant_except_break
            spec_parse_id(s0, allow_leading_zero) == lift_id(s0.take(n as int), spec_parse_id(bytes@, allow_leading_zero)),
        invariant
            s0 == old(bytes)@,
            start@ == s0,
            s0.len() <= total,
            n <= s0.len(),
            bytes@ == s0.skip(n as int),
            all_ascii(s0.take(n as int)),
        ensures
            n <= s0.len(),
            bytes@ == s0.skip(n as int),
            all_ascii(s0.take(n as int)),
            spec_parse_id(s0, allow_leading_zero) == Ok::<(Seq<char>, Seq<char>), ParseRangeError>((s0.take(n as int), bytes@)),
        decreases s0.len() - n,
    {
        let ghost t = bytes@;
        proof {
            lemma_ident_run(t);
        }
        let first = bytes.first();
        let b = match first {
            None => {
                assert(spec_parse_id(t, allow_leading_zero) == Err::<(Seq<char>, Seq<char>), ParseRangeError>(ParseRangeError::unexpected_end_spec()));
                return Err(ParseRangeError::unexpected_end());
            },
            Some(b) => b,
        };
        proof {
            lemma_ascii_byte(t, b);
        }
        let is_ident = (0x30u8 <= b && b <= 0x39u8) || (0x61u8 <= b && b <= 0x7Au8) || (0x41u8 <= b && b <= 0x5Au8) || b == 0x2Du8;
        if !is_ident {
            assert(!is_ident_char(t[0]));
            if b == 0x2Eu8 {
                proof { lemma_char_eq(t[0], '.'); }
                assert(ident_run(t) == 0);
                assert(spec_parse_id(t, allow_leading_zero) == Err::<(Seq<char>, Seq<char>), ParseRangeError>(ParseRangeError::invalid_char_spec('.')));
                assert(lift_id(s0.take(n as int), spec_parse_id(t, allow_leading_zero)) == Err::<(Seq<char>, Seq<char>), ParseRangeError>(ParseRangeError::invalid_char_spec('.')));
                return Err(ParseRangeError::invalid_char('.'));
            } else {
                return Err(ParseRangeError::invalid_char(bytes.first_char()));
            }
        }
        let leading_zero = b == 0x30u8;
        proof {
            if leading_zero {
                lemma_char_eq(t[0], '0');
            }
        }
        let (j, alnum) = scan_ident(bytes);
        let bad = !allow_leading_zero && alnum && leading_zero;
        let ghost u = bytes@;
        let next = bytes.first();
        let mut is_dot = false;
        match next {
            Some(c) => {
                proof {
                    lemma_ascii_byte(u, c);
                    assert(u[0] == t[j as int]);
                }
                is_dot = c == 0x2Eu8;
                proof {
                    if is_dot {
                        lemma_char_eq(u[0], '.');
                    }
                }
            },
            None => {},
        }
        if is_dot {
            bytes.skip();
        }
        if bad {
            return Err(ParseRangeError::invalid_char('0'));
        }
        proof {
            let k = j as int;
            assert(forall|i: int| 0 <= i < k ==> #[trigger] s0.take(n + k)[i] == (if i < n { s0.take(n as int)[i] } else { t[i - n] }));
            assert forall|i: int| 0 <= i < n + k implies is_ascii_char(#[trigger] s0.take(n + k)[i]) by {
                if i < n {
                    assert(s0.take(n + k)[i] == s0.take(n as int)[i]);
                } else {
                    assert(s0.take(n + k)[i] == t[i - n]);
                    assert(is_ident_char(t[i - n]));
                }
            }
            assert(s0.take(n as int) + t.take(k) =~= s0.take(n + k));
            assert(s0.skip(n + k) =~= t.skip(k));
            if is_dot {
                assert(t[k] == '.');
                assert(s0.take(n as int) + t.take(k + 1) =~= s0.take(n + k + 1));
                assert(s0.skip(n + k + 1) =~= t.skip(k + 1));
                assert(u.drop_first() =~= t.skip(k + 1));
                assert forall|i: int| 0 <= i < n + k + 1 implies is_ascii_char(#[trigger] s0.take(n + k + 1)[i]) by {
                    if i < n + k {
                        assert(s0.take(n + k + 1)[i] == s0.take(n + k)[i]);
                    } else {
                        assert(s0.take(n + k + 1)[i] == t[k]);
                    }
                }
                let x = spec_parse_id(t.skip(k + 1), allow_leading_zero);
                match x {
                    Ok((id, rest)) => {
                        assert(s0.take(n as int) + (t.take(k + 1) + id) =~= s0.take(n + k + 1) + id);
                    },
                    Err(e) => {},
                }
            }
        }
        if is_dot {
            n = n + j + 1;
        } else {
            n = n + j;
            break;
        }
    }
    proof {
        lemma_encode_ascii_prefix(s0, n as int);
    }
    let (a, _) = start.split_at(n);
    proof {
        assert(a.spec_bytes() =~= encode_utf8(s0.take(n as int)));
        assert(decode_utf8(encode_utf8(a@)) == a@);
        assert(decode_utf8(encode_utf8(s0.take(n as int))) == s0.take(n as int));
    }
    Ok(a)
}

} // verus!
