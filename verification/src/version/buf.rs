use vstd::prelude::*;
use vstd::utf8::*;
use vstd::string::*;
use crate::version::error::ParseRangeError;

verus! {

broadcast use vstd::utf8::group_utf8_lib, vstd::string::group_string_axioms;

/// A character with the Unicode `White_Space` property (what `char::is_whitespace` tests).
pub open spec fn is_ws_char(c: char) -> bool {
    let u = c as u32;
    (0x09 <= u <= 0x0D) || u == 0x20 || u == 0x85 || u == 0xA0 || u == 0x1680
        || (0x2000 <= u <= 0x200A) || u == 0x2028 || u == 0x2029 || u == 0x202F
        || u == 0x205F || u == 0x3000
}

/// `s` with its leading whitespace removed.
pub open spec fn trim_ws(s: Seq<char>) -> Seq<char>
    decreases s.len(),
{
    if s.len() > 0 && is_ws_char(s[0]) {
        trim_ws(s.drop_first())
    } else {
        s
    }
}

/// `str::trim_start`: the slice with the leading whitespace (`White_Space` property) removed.
#[verifier::external_body]
pub fn str_trim_start<'a>(s: &'a str) -> (r: &'a str)
    ensures
        r@ == trim_ws(s@),
{
    s.trim_start()
}

/// The first byte of the UTF-8 encoding of `c`.
pub open spec fn lead_byte(c: char) -> u8 {
    encode_scalar(c as u32)[0]
}

pub open spec fn is_ascii_char(c: char) -> bool {
    (c as u32) < 0x80
}

pub open spec fn all_ascii(s: Seq<char>) -> bool {
    forall|i: int| 0 <= i < s.len() ==> is_ascii_char(#[trigger] s[i])
}

/// The first byte of the UTF-8 encoding of `s`, if any.
pub open spec fn first_byte(s: Seq<char>) -> Option<u8> {
    if s.len() == 0 {
        None
    } else {
        Some(lead_byte(s[0]))
    }
}

/// The byte at `index` of `bytes`, if any.
pub open spec fn byte_at(bytes: Seq<u8>, index: int) -> Option<u8> {
    if 0 <= index < bytes.len() {
        Some(bytes[index])
    } else {
        None
    }
}

/// The leading byte of a character is ASCII exactly when the character is; then it is the
/// character itself.
pub proof fn lemma_lead_byte(c: char)
    ensures
        is_ascii_char(c) ==> lead_byte(c) == (c as u32) as u8,
        is_ascii_char(c) ==> lead_byte(c) as u32 == c as u32,
        is_ascii_char(c) <==> lead_byte(c) < 0x80,
        (c as u32) as u8 == c as u8,
{
    let u = c as u32;
    char_is_scalar(c);
    if has_width_1_encoding(u) {
        assert((u & 0x7F) as u8 == u as u8) by (bit_vector)
            requires u <= 0x7F;
        assert(((u & 0x7F) as u8) as u32 == u) by (bit_vector)
            requires u <= 0x7F;
    } else if has_width_2_encoding(u) {
        assert((0xC0 | ((u >> 6) & 0x1F) as u8) >= 0x80) by (bit_vector);
    } else if has_width_3_encoding(u) {
        assert((0xE0 | ((u >> 12) & 0x0F) as u8) >= 0x80) by (bit_vector);
    } else {
        assert((0xF0 | ((u >> 18) & 0x7) as u8) >= 0x80) by (bit_vector);
    }
}

/// The UTF-8 encoding of an ASCII prefix followed by the rest.
pub proof fn lemma_encode_ascii_prefix(s: Seq<char>, k: int)
    requires
        0 <= k <= s.len(),
        all_ascii(s.take(k)),
    ensures
        encode_utf8(s) =~= encode_utf8(s.take(k)) + encode_utf8(s.skip(k)),
        encode_utf8(s.take(k)).len() == k,
        forall|i: int| 0 <= i < k ==> #[trigger] encode_utf8(s)[i] == s[i] as u8,
        k < s.len() ==> encode_utf8(s)[k] == lead_byte(s[k]),
        k < s.len() <==> k < encode_utf8(s).len(),
        is_char_boundary(encode_utf8(s), k),
    decreases k,
{
    if k == 0 {
        assert(s.take(0) =~= Seq::<char>::empty());
        assert(s.skip(0) =~= s);
        if s.len() > 0 {
            assert(encode_utf8(s)[0] == encode_scalar(s[0] as u32)[0]);
            assert(encode_scalar(s[0] as u32).len() >= 1);
        }
    } else {
        let t = s.drop_first();
        assert(is_ascii_char(s.take(k)[0]));
        lemma_lead_byte(s[0]);
        assert(t.take(k - 1) =~= s.take(k).drop_first());
        assert forall|i: int| 0 <= i < k - 1 implies is_ascii_char(#[trigger] t.take(k - 1)[i]) by {
            assert(t.take(k - 1)[i] == s.take(k)[i + 1]);
        }
        lemma_encode_ascii_prefix(t, k - 1);
        assert(t.skip(k - 1) =~= s.skip(k));
        assert(encode_scalar(s[0] as u32) =~= seq![s[0] as u8]) by {
            let u = s[0] as u32;
            assert((u & 0x7F) as u8 == u as u8) by (bit_vector)
                requires u <= 0x7F;
        }
        assert(encode_utf8(s) =~= seq![s[0] as u8] + encode_utf8(t));
        assert(encode_utf8(s.take(k)) =~= seq![s[0] as u8] + encode_utf8(t.take(k - 1))) by {
            assert(s.take(k)[0] == s[0]);
            assert(s.take(k).drop_first() =~= t.take(k - 1));
        }
        assert forall|i: int| 0 <= i < k implies #[trigger] encode_utf8(s)[i] == s[i] as u8 by {
            if i > 0 {
                assert(encode_utf8(s)[i] == encode_utf8(t)[i - 1]);
                assert(s[i] == t[i - 1]);
            }
        }
        if k < s.len() {
            assert(encode_utf8(s)[k] == encode_utf8(t)[k - 1]);
        }
        let e = encode_utf8(s);
        if k < e.len() {
            assert(e[k] == lead_byte(s[k]));
            lemma_lead_byte_not_continuation(s[k]);
        }
    }
}

proof fn lemma_lead_byte_not_continuation(c: char)
    ensures
        !is_continuation_byte(lead_byte(c)),
{
    let u = c as u32;
    char_is_scalar(c);
    if has_width_1_encoding(u) {
        assert(((u & 0x7F) as u8) < 0x80) by (bit_vector);
    } else if has_width_2_encoding(u) {
        assert((0xC0 | ((u >> 6) & 0x1F) as u8) >= 0xC0) by (bit_vector);
    } else if has_width_3_encoding(u) {
        assert((0xE0 | ((u >> 12) & 0x0F) as u8) >= 0xC0) by (bit_vector);
    } else {
        assert((0xF0 | ((u >> 18) & 0x7) as u8) >= 0xC0) by (bit_vector);
    }
}

/// Two characters with the same code are equal.
pub proof fn lemma_char_eq(a: char, b: char)
    requires
        a as u32 == b as u32,
    ensures
        a == b,
{
    char_u32_cast(a, a as u32);
    char_u32_cast(b, b as u32);
}

/// A text is at least as long in UTF-8 bytes as in characters.
pub proof fn lemma_encode_len(s: Seq<char>)
    ensures
        encode_utf8(s).len() >= s.len(),
    decreases s.len(),
{
    if s.len() > 0 {
        lemma_encode_len(s.drop_first());
    }
}


/// Where the first occurrence of `sep` in `s` starts, if any.
pub open spec fn first_occurrence(s: Seq<char>, sep: Seq<char>) -> Option<nat>
    decreases s.len(),
{
    if s.len() < sep.len() {
        None
    } else if s.take(sep.len() as int) == sep {
        Some(0)
    } else if s.len() == 0 {
        None
    } else {
        match first_occurrence(s.drop_first(), sep) {
            Some(i) => Some(i + 1),
            None => None,
        }
    }
}

pub proof fn lemma_first_occurrence(s: Seq<char>, sep: Seq<char>)
    ensures
        first_occurrence(s, sep) matches Some(i) ==> i + sep.len() <= s.len()
            && s.subrange(i as int, (i + sep.len()) as int) == sep,
    decreases s.len(),
{
    if s.len() >= sep.len() && s.take(sep.len() as int) != sep && s.len() > 0 {
        lemma_first_occurrence(s.drop_first(), sep);
        if let Some(i) = first_occurrence(s.drop_first(), sep) {
            assert(s.subrange((i + 1) as int, (i + 1 + sep.len()) as int) =~= s.drop_first().subrange(i as int, (i + sep.len()) as int));
        }
    }
}

/// Whether the characters of `s` from `i` on begin with those of `p`.
pub fn chars_match_at(s: &str, p: &str, i: usize) -> (r: bool)
    requires
        i + p@.len() <= s@.len(),
    ensures
        r == (s@.subrange(i as int, i + p@.len()) == p@),
{
    let m = p.unicode_len();
    let n = s.unicode_len();
    let mut k: usize = 0;
    while k < m
        invariant
            m == p@.len(),
            n == s@.len(),
            k <= m,
            i + m <= s@.len(),
            forall|j: int| 0 <= j < k ==> s@[i + j] == p@[j],
        decreases m - k,
    {
        if s.get_char(i + k) != p.get_char(k) {
            proof {
                assert(s@.subrange(i as int, i + m)[k as int] == s@[i + k]);
            }
            return false;
        }
        k = k + 1;
    }
    assert(s@.subrange(i as int, i + m) =~= p@);
    true
}

/// With `sep` not empty: a match at `i` and none before it is the first occurrence.
proof fn lemma_first_occurrence_at(s: Seq<char>, sep: Seq<char>, i: int)
    requires
        sep.len() > 0,
        0 <= i,
        i + sep.len() <= s.len(),
        s.subrange(i, i + sep.len()) == sep,
        forall|j: int| 0 <= j < i ==> #[trigger] s.subrange(j, j + sep.len()) != sep,
    ensures
        first_occurrence(s, sep) == Some(i as nat),
    decreases i,
{
    let m = sep.len() as int;
    assert(s.take(m) =~= s.subrange(0, m));
    if i > 0 {
        assert(s.subrange(0, 0 + m) != sep);
        let t = s.drop_first();
        assert forall|j: int| 0 <= j < i - 1 implies #[trigger] t.subrange(j, j + m) != sep by {
            assert(t.subrange(j, j + m) =~= s.subrange(j + 1, j + 1 + m));
        }
        assert(t.subrange(i - 1, i - 1 + m) =~= s.subrange(i, i + m));
        lemma_first_occurrence_at(t, sep, i - 1);
    }
}

/// With `sep` not empty: no match anywhere means no occurrence.
proof fn lemma_first_occurrence_none(s: Seq<char>, sep: Seq<char>)
    requires
        sep.len() > 0,
        forall|j: int| 0 <= j && j + sep.len() <= s.len() ==> #[trigger] s.subrange(j, j + sep.len()) != sep,
    ensures
        first_occurrence(s, sep) is None,
    decreases s.len(),
{
    let m = sep.len() as int;
    if s.len() >= m {
        assert(s.take(m) =~= s.subrange(0, 0 + m));
        let t = s.drop_first();
        assert forall|j: int| 0 <= j && j + m <= t.len() implies #[trigger] t.subrange(j, j + m) != sep by {
            assert(t.subrange(j, j + m) =~= s.subrange(j + 1, j + 1 + m));
        }
        lemma_first_occurrence_none(t, sep);
    }
}

/// `str::split_once` with a non-empty text as the separator: the text before the first
/// occurrence of `sep` and the text after it; `None` when `sep` does not occur.
pub fn split_once_str<'a>(s: &'a str, sep: &str) -> (r: Option<(&'a str, &'a str)>)
    requires
        sep@.len() > 0,
    ensures
        match first_occurrence(s@, sep@) {
            Some(i) => r matches Some((before, after)) && before@ == s@.take(i as int)
                && after@ == s@.skip((i + sep@.len()) as int),
            None => r is None,
        },
{
    let n = s.unicode_len();
    let m = sep.unicode_len();
    if m > n {
        proof {
            lemma_first_occurrence_none(s@, sep@);
        }
        return None;
    }
    let mut i: usize = 0;
    while i <= n - m
        invariant
            n == s@.len(),
            m == sep@.len(),
            m > 0,
            m <= n,
            i <= n - m + 1,
            forall|j: int| 0 <= j < i ==> #[trigger] s@.subrange(j, j + m) != sep@,
        decreases n - m + 1 - i,
    {
        if chars_match_at(s, sep, i) {
            proof {
                lemma_first_occurrence_at(s@, sep@, i as int);
            }
            let before = s.substring_char(0, i);
            let after = s.substring_char(i + m, n);
            proof {
                assert(before@ =~= s@.take(i as int));
                assert(after@ =~= s@.skip(i + m));
            }
            return Some((before, after));
        }
        i = i + 1;
    }
    proof {
        lemma_first_occurrence_none(s@, sep@);
    }
    None
}

/// The UTF-8 encoding of a text is that of its first `k` characters followed by that of the
/// rest, and the place where they meet is a character boundary.
pub proof fn lemma_encode_split(s: Seq<char>, k: int)
    requires
        0 <= k <= s.len(),
    ensures
        encode_utf8(s) =~= encode_utf8(s.take(k)) + encode_utf8(s.skip(k)),
        is_char_boundary(encode_utf8(s), encode_utf8(s.take(k)).len() as int),
        k < s.len() ==> encode_utf8(s)[encode_utf8(s.take(k)).len() as int] == lead_byte(s[k]),
    decreases k,
{
    let e = encode_utf8(s);
    if k == 0 {
        assert(s.take(0) =~= Seq::<char>::empty());
        assert(s.skip(0) =~= s);
        if s.len() > 0 {
            assert(e[0] == encode_scalar(s[0] as u32)[0]);
        }
    } else {
        let t = s.drop_first();
        lemma_encode_split(t, k - 1);
        assert(t.skip(k - 1) =~= s.skip(k));
        assert(s.take(k).drop_first() =~= t.take(k - 1));
        assert(encode_utf8(s.take(k)) =~= encode_scalar(s[0] as u32) + encode_utf8(t.take(k - 1)));
        if k < s.len() {
            let n = encode_utf8(s.take(k)).len() as int;
            assert(e[n] == encode_utf8(t)[encode_utf8(t.take(k - 1)).len() as int]);
        }
    }
    let n = encode_utf8(s.take(k)).len() as int;
    if k < s.len() {
        assert(encode_utf8(s.skip(k)) =~= encode_scalar(s[k] as u32) + encode_utf8(s.skip(k).drop_first())) by {
            assert(s.skip(k)[0] == s[k]);
        }
        assert(e[n] == encode_utf8(s.skip(k))[0]);
        lemma_lead_byte_not_continuation(s[k]);
        lemma_encode_len(s.skip(k));
    } else {
        assert(s.skip(k) =~= Seq::<char>::empty());
    }
}

/// Whether two texts are equal, compared byte by byte.
pub fn str_eq(a: &str, b: &str) -> (r: bool)
    ensures
        r == (a@ == b@),
{
    let x = a.as_bytes();
    let y = b.as_bytes();
    proof {
        assert(x@ == encode_utf8(a@));
        assert(y@ == encode_utf8(b@));
        assert(decode_utf8(encode_utf8(a@)) == a@);
        assert(decode_utf8(encode_utf8(b@)) == b@);
    }
    if x.len() != y.len() {
        return false;
    }
    let mut i: usize = 0;
    while i < x.len()
        invariant
            i <= x@.len(),
            x@.len() == y@.len(),
            x@ == encode_utf8(a@),
            y@ == encode_utf8(b@),
            forall|j: int| 0 <= j < i ==> x@[j] == y@[j],
        decreases x@.len() - i,
    {
        if x[i] != y[i] {
            return false;
        }
        i = i + 1;
    }
    proof {
        assert(x@ =~= y@);
    }
    true
}

/// A cursor over the text being parsed.
pub struct ParsingBuf<'a> {
    pub buf: &'a str,
}

impl<'a> View for ParsingBuf<'a> {
    type V = Seq<char>;

    open spec fn view(&self) -> Seq<char> {
        self.buf@
    }
}

impl<'a> ParsingBuf<'a> {
    pub fn new(source: &'a str) -> (r: ParsingBuf<'a>)
        ensures
            r@ == source@,
    {
        ParsingBuf { buf: source }
    }

    pub fn is_empty(&self) -> (r: bool)
        ensures
            r == (self@.len() == 0),
    {
        self.buf.is_empty()
    }

    /// The first byte of the remaining text.
    pub fn first(&self) -> (r: Option<u8>)
        ensures
            r == first_byte(self@),
    {
        let b = self.buf.as_bytes();
        proof {
            if self@.len() > 0 {
                assert(encode_utf8(self@)[0] == encode_scalar(self@[0] as u32)[0]);
                lemma_lead_byte_not_continuation(self@[0]);
            }
        }
        if b.len() == 0 {
            None
        } else {
            Some(b[0])
        }
    }

    /// The first character of the remaining text.
    pub fn first_char(&self) -> (r: char)
        requires
            self@.len() > 0,
        ensures
            r == self@[0],
    {
        let mut chars = self.buf.chars();
        match chars.next() {
            Some(c) => c,
            None => {
                assert(false);
                ' '
            },
        }
    }

    /// The byte at `index` of the UTF-8 encoding of the remaining text.
    pub fn get(&self, index: usize) -> (r: Option<u8>)
        ensures
            r == byte_at(encode_utf8(self@), index as int),
            encode_utf8(self@).len() <= usize::MAX,
    {
        let b = self.buf.as_bytes();
        if index < b.len() {
            Some(b[index])
        } else {
            None
        }
    }

    /// Drops the first character, which must be ASCII.
    pub fn skip(&mut self)
        requires
            old(self)@.len() == 0 || is_ascii_char(old(self)@[0]),
        ensures
            final(self)@ == if old(self)@.len() == 0 {
                old(self)@
            } else {
                old(self)@.drop_first()
            },
    {
        if !self.buf.is_empty() {
            proof {
                lemma_encode_ascii_prefix(self@, 1);
                assert(self@.skip(1) =~= self@.drop_first());
            }
            let (_, rest) = self.buf.split_at(1);
            proof {
                assert(rest.spec_bytes() =~= encode_utf8(self@.drop_first()));
                assert(decode_utf8(encode_utf8(rest@)) == rest@);
                assert(decode_utf8(encode_utf8(self@.drop_first())) == self@.drop_first());
            }
            self.buf = rest;
        }
    }

    /// Drops the leading whitespace.
    pub fn skip_ws(&mut self)
        ensures
            final(self)@ == trim_ws(old(self)@),
    {
        self.buf = str_trim_start(self.buf);
    }

    /// Splits off the text up to byte `count`, which must fall on a character boundary: what
    /// comes back is the text before it, and the text after it stays.
    pub fn take(&mut self, count: usize) -> (r: &'a str)
        requires
            is_char_boundary(encode_utf8(old(self)@), count as int),
        ensures
            r@ + final(self)@ == old(self)@,
            encode_utf8(r@).len() == count,
            count <= old(self)@.len() && all_ascii(old(self)@.take(count as int)) ==> r@ == old(self)@.take(count as int),
    {
        let ghost s = self@;
        let ghost bytes = self.buf.spec_bytes();
        proof {
            assert(bytes == encode_utf8(s));
                vstd::utf8::decode_utf8_split(bytes, count as int);
            vstd::utf8::valid_utf8_split(bytes, count as int);
        }
        let (a, b) = self.buf.split_at(count);
        proof {
            assert(a.spec_bytes() =~= bytes.subrange(0, count as int));
            assert(b.spec_bytes() =~= bytes.subrange(count as int, bytes.len() as int));
            assert(decode_utf8(a.spec_bytes()) == a@);
            assert(decode_utf8(b.spec_bytes()) == b@);
            assert(decode_utf8(encode_utf8(s)) == s);
            if count <= s.len() && all_ascii(s.take(count as int)) {
                lemma_encode_ascii_prefix(s, count as int);
                assert(a.spec_bytes() =~= encode_utf8(s.take(count as int)));
                assert(decode_utf8(encode_utf8(s.take(count as int))) == s.take(count as int));
            }
        }
        self.buf = b;
        a
    }

    /// Consumes `ch`, which must be ASCII, if the text starts with it.
    pub fn read(&mut self, ch: char) -> (r: Result<(), ParseRangeError>)
        requires
            is_ascii_char(ch),
        ensures
            old(self)@.len() == 0 ==> r == Err::<(), ParseRangeError>(ParseRangeError::unexpected_end_spec()),
            old(self)@.len() > 0 && old(self)@[0] == ch ==> r is Ok && final(self)@ == old(self)@.drop_first(),
            old(self)@.len() > 0 && old(self)@[0] != ch ==> r == Err::<(), ParseRangeError>(
                ParseRangeError::invalid_char_spec(old(self)@[0])),
            r is Err ==> final(self)@ == old(self)@,
    {
        if self.buf.is_empty() {
            return Err(ParseRangeError::unexpected_end());
        }
        let c = self.first_char();
        if c == ch {
            self.skip();
            Ok(())
        } else {
            Err(ParseRangeError::invalid_char(c))
        }
    }
}

} // verus!
