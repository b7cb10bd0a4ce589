use vstd::prelude::*;
use vstd::string::{StrSliceExecFns, StringSliceAdditionalSpecFns};
use vstd::utf8::{decode_utf8, encode_utf8};
use crate::version::buf::{
    first_occurrence, is_ascii_char, lead_byte, lemma_char_eq, lemma_encode_ascii_prefix,
    lemma_encode_split, lemma_first_occurrence, lemma_lead_byte, split_once_str,
};
use crate::version::number::{
    push_decimal, string_push, u16_from_str, u8_from_str, unsigned_text_value,
};

verus! {

broadcast use vstd::utf8::group_utf8_lib, vstd::string::group_string_axioms;

/// The release type of a Unity editor version: `a`, `b`, `f`, `c`, `p` or `x`.
#[derive(Clone, Copy, Debug, PartialEq, Eq, Structural)]
pub enum ReleaseType {
    Alpha,
    Beta,
    Normal,
    China,
    Patch,
    Experimental,
}

/// A byte that names no release type.
#[derive(Debug)]
pub struct ReleaseTypeError(pub ());

/// A Unity editor version `major.minor.revision` + release type + increment, such as
/// `2022.3.22f1`.
#[derive(Clone, Copy, Debug, PartialEq, Eq, Structural)]
pub struct UnityVersion {
    /// Such as 2019, 2022 or 6; a value above 2000 is a year release.
    pub major: u16,
    pub minor: u8,
    pub revision: u8,
    pub type_: ReleaseType,
    pub increment: u8,
}

/// The release type a character names.
pub open spec fn release_type_of(c: char) -> Option<ReleaseType> {
    if c == 'a' {
        Some(ReleaseType::Alpha)
    } else if c == 'b' {
        Some(ReleaseType::Beta)
    } else if c == 'f' {
        Some(ReleaseType::Normal)
    } else if c == 'c' {
        Some(ReleaseType::China)
    } else if c == 'p' {
        Some(ReleaseType::Patch)
    } else if c == 'x' {
        Some(ReleaseType::Experimental)
    } else {
        None
    }
}

/// The letter of a release type.
pub open spec fn release_type_char(t: ReleaseType) -> char {
    match t {
        ReleaseType::Alpha => 'a',
        ReleaseType::Beta => 'b',
        ReleaseType::Normal => 'f',
        ReleaseType::China => 'c',
        ReleaseType::Patch => 'p',
        ReleaseType::Experimental => 'x',
    }
}

/// Where the first release type letter of `s` is, if any.
pub open spec fn first_release_char(s: Seq<char>) -> Option<nat>
    decreases s.len(),
{
    if s.len() == 0 {
        None
    } else if release_type_of(s[0]) is Some {
        Some(0)
    } else {
        match first_release_char(s.drop_first()) {
            Some(i) => Some(i + 1),
            None => None,
        }
    }
}

proof fn lemma_first_release_char(s: Seq<char>)
    ensures
        first_release_char(s) matches Some(i) ==> i < s.len() && release_type_of(s[i as int]) is Some,
    decreases s.len(),
{
    if s.len() > 0 {
        lemma_first_release_char(s.drop_first());
    }
}

/// What `u16::from_str` gives for a text.
pub open spec fn u16_text(s: Seq<char>) -> Option<u16> {
    match unsigned_text_value(s) {
        Some(v) => if v <= u16::MAX { Some(v as u16) } else { None },
        None => None,
    }
}

/// What `u8::from_str` gives for a text.
pub open spec fn u8_text(s: Seq<char>) -> Option<u8> {
    match unsigned_text_value(s) {
        Some(v) => if v <= u8::MAX { Some(v as u8) } else { None },
        None => None,
    }
}

/// After the second `.`: the revision, the release type letter and the increment, which
/// ends at the first `-` if there is one.
pub open spec fn spec_unity_tail(major: u16, minor: u8, s: Seq<char>) -> Option<UnityVersion> {
    match first_release_char(s) {
        None => None,
        Some(k) => match u8_text(s.take(k as int)) {
            None => None,
            Some(revision) => {
                let rest = s.skip(k + 1int);
                let inc_text = match first_occurrence(rest, seq!['-']) {
                    Some(l) => rest.take(l as int),
                    None => rest,
                };
                match u8_text(inc_text) {
                    None => None,
                    Some(increment) => Some(UnityVersion {
                        major,
                        minor,
                        revision,
                        type_: release_type_of(s[k as int])->0,
                        increment,
                    }),
                }
            },
        },
    }
}

/// `major.minor.revision` + release type letter + increment, with anything after a `-` that
/// follows the increment ignored.
pub open spec fn spec_unity_version(s: Seq<char>) -> Option<UnityVersion> {
    match first_occurrence(s, seq!['.']) {
        None => None,
        Some(i) => match u16_text(s.take(i as int)) {
            None => None,
            Some(major) => {
                let rest = s.skip(i + 1int);
                match first_occurrence(rest, seq!['.']) {
                    None => None,
                    Some(j) => match u8_text(rest.take(j as int)) {
                        None => None,
                        Some(minor) => spec_unity_tail(major, minor, rest.skip(j + 1int)),
                    },
                }
            },
        },
    }
}

/// Whether `c` is one of the release type letters.
pub fn is_release_type_char(c: char) -> (r: bool)
    ensures
        r == (release_type_of(c) is Some),
{
    c == 'a' || c == 'b' || c == 'f' || c == 'c' || c == 'p' || c == 'x'
}

proof fn lemma_first_release_char_at(s: Seq<char>, i: int)
    requires
        0 <= i <= s.len(),
        forall|j: int| 0 <= j < i ==> !(release_type_of(#[trigger] s[j]) is Some),
        i < s.len() ==> release_type_of(s[i]) is Some,
    ensures
        i < s.len() ==> first_release_char(s) == Some(i as nat),
        i == s.len() ==> first_release_char(s) is None,
    decreases i,
{
    if i > 0 {
        let t = s.drop_first();
        assert forall|j: int| 0 <= j < i - 1 implies !(release_type_of(#[trigger] t[j]) is Some) by {
            assert(t[j] == s[j + 1]);
        }
        if i < s.len() {
            assert(t[i - 1] == s[i]);
        }
        lemma_first_release_char_at(t, i - 1);
        assert(!(release_type_of(s[0]) is Some));
    }
}

/// `str::find` with `is_release_type_char` as the pattern: the byte index of the first
/// character that is a release type letter (the length of the UTF-8 encoding of the characters
/// before it); `None` when there is none.
fn find_release_type_char(s: &str) -> (r: Option<usize>)
    ensures
        match first_release_char(s@) {
            Some(k) => r == Some(encode_utf8(s@.take(k as int)).len() as usize),
            None => r is None,
        },
{
    let n = s.unicode_len();
    let mut i: usize = 0;
    while i < n
        invariant
            n == s@.len(),
            i <= n,
            forall|j: int| 0 <= j < i ==> !(release_type_of(#[trigger] s@[j]) is Some),
        decreases n - i,
    {
        if is_release_type_char(s.get_char(i)) {
            proof {
                lemma_first_release_char_at(s@, i as int);
            }
            let head = s.substring_char(0, i);
            proof {
                assert(head@ =~= s@.take(i as int));
            }
            return Some(head.len());
        }
        i = i + 1;
    }
    proof {
        lemma_first_release_char_at(s@, i as int);
    }
    None
}

impl ReleaseType {
    /// `TryFrom<u8>`: the release type a byte names.
    pub fn try_from(value: u8) -> (r: Result<ReleaseType, ReleaseTypeError>)
        ensures
            match release_type_of(value as char) {
                Some(t) => r == Ok::<ReleaseType, ReleaseTypeError>(t),
                None => r is Err,
            },
    {
        if value == 0x61u8 {
            Ok(ReleaseType::Alpha)
        } else if value == 0x62u8 {
            Ok(ReleaseType::Beta)
        } else if value == 0x66u8 {
            Ok(ReleaseType::Normal)
        } else if value == 0x63u8 {
            Ok(ReleaseType::China)
        } else if value == 0x70u8 {
            Ok(ReleaseType::Patch)
        } else if value == 0x78u8 {
            Ok(ReleaseType::Experimental)
        } else {
            proof {
                let c = value as char;
                assert(c as u32 == value as u32);
                if release_type_of(c) is Some {
                    assert(c == 'a' || c == 'b' || c == 'f' || c == 'c' || c == 'p' || c == 'x');
                }
            }
            Err(ReleaseTypeError(()))
        }
    }

    /// The letter `Display` writes.
    pub fn to_char(self) -> (r: char)
        ensures
            r == release_type_char(self),
    {
        match self {
            ReleaseType::Alpha => 'a',
            ReleaseType::Beta => 'b',
            ReleaseType::Normal => 'f',
            ReleaseType::China => 'c',
            ReleaseType::Patch => 'p',
            ReleaseType::Experimental => 'x',
        }
    }
}

/// The text `Display` writes for a Unity version.
pub open spec fn unity_version_text(v: UnityVersion) -> Seq<char> {
    crate::version::number::decimal(v.major as nat) + seq!['.'] + crate::version::number::decimal(v.minor as nat)
        + seq!['.'] + crate::version::number::decimal(v.revision as nat) + seq![release_type_char(v.type_)]
        + crate::version::number::decimal(v.increment as nat)
}

impl UnityVersion {
    pub fn new(major: u16, minor: u8, revision: u8, type_: ReleaseType, increment: u8) -> (r: UnityVersion)
        ensures
            r == (UnityVersion { major, minor, revision, type_, increment }),
    {
        UnityVersion { major, minor, revision, type_, increment }
    }

    /// Parses `major.minor.revision[type]increment`, such as `2022.3.22f1`; what follows a `-`
    /// after the increment is ignored.
    pub fn parse(input: &str) -> (r: Option<UnityVersion>)
        ensures
            r == spec_unity_version(input@),
    {
        proof {
            reveal_strlit(".");
            reveal_strlit("-");
            assert("."@ =~= seq!['.']);
            assert("-"@ =~= seq!['-']);
        }
        let (major_text, rest) = match split_once_str(input, ".") {
            Some(p) => p,
            None => return None,
        };
        let major = match u16_from_str(major_text) {
            Some(v) => v,
            None => return None,
        };
        let (minor_text, rest) = match split_once_str(rest, ".") {
            Some(p) => p,
            None => return None,
        };
        let minor = match u8_from_str(minor_text) {
            Some(v) => v,
            None => return None,
        };
        let ghost s = rest@;
        let delimiter = match find_release_type_char(rest) {
            Some(d) => d,
            None => return None,
        };
        let ghost k = first_release_char(s)->0 as int;
        let rest_bytes = rest.as_bytes();
        let byte_count = rest_bytes.len();
        proof {
            lemma_first_release_char(s);
            lemma_encode_split(s, k);
            assert(rest_bytes@ == encode_utf8(s));
            assert(rest_bytes@.len() == encode_utf8(s.take(k)).len() + encode_utf8(s.skip(k)).len());
            assert(byte_count as int == rest_bytes@.len());
            assert(delimiter as int == encode_utf8(s.take(k)).len());
        }
        let (revision_text, type_and_rest) = rest.split_at(delimiter);
        proof {
            assert(revision_text.spec_bytes() =~= encode_utf8(s.take(k)));
            assert(type_and_rest.spec_bytes() =~= encode_utf8(s.skip(k)));
            assert(decode_utf8(encode_utf8(revision_text@)) == revision_text@);
            assert(decode_utf8(encode_utf8(type_and_rest@)) == type_and_rest@);
            assert(decode_utf8(encode_utf8(s.take(k))) == s.take(k));
            assert(decode_utf8(encode_utf8(s.skip(k))) == s.skip(k));
        }
        let revision = match u8_from_str(revision_text) {
            Some(v) => v,
            None => return None,
        };
        let type_byte = rest_bytes[delimiter];
        proof {
            let c = s[k];
            assert(c == 'a' || c == 'b' || c == 'f' || c == 'c' || c == 'p' || c == 'x');
            assert(is_ascii_char(c));
            lemma_lead_byte(c);
            assert(type_byte == lead_byte(c));
            assert(type_byte as u32 == c as u32);
            lemma_char_eq(type_byte as char, c);
        }
        let type_ = match ReleaseType::try_from(type_byte) {
            Ok(t) => t,
            Err(_) => return None,
        };
        proof {
            let t = type_and_rest@;
            assert(t[0] == s[k]);
            assert(t.take(1)[0] == s[k]);
            lemma_encode_ascii_prefix(t, 1);
        }
        let (_, after) = type_and_rest.split_at(1);
        proof {
            let t = type_and_rest@;
            assert(after.spec_bytes() =~= encode_utf8(t.skip(1)));
            assert(decode_utf8(encode_utf8(after@)) == after@);
            assert(decode_utf8(encode_utf8(t.skip(1))) == t.skip(1));
            assert(t.skip(1) =~= s.skip(k + 1));
        }
        let increment_text = match split_once_str(after, "-") {
            Some((before, _)) => before,
            None => after,
        };
        let increment = match u8_from_str(increment_text) {
            Some(v) => v,
            None => return None,
        };
        Some(UnityVersion { major, minor, revision, type_, increment })
    }

    pub fn major(self) -> (r: u16)
        ensures
            r == self.major,
    {
        self.major
    }

    pub fn minor(self) -> (r: u8)
        ensures
            r == self.minor,
    {
        self.minor
    }

    /// The text `Display` writes: `major.minor.revision`, the release type letter, the
    /// increment.
    pub fn to_string(&self) -> (r: String)
        ensures
            r@ == unity_version_text(*self),
    {
        let mut out = String::new();
        push_decimal(&mut out, self.major as u64);
        string_push(&mut out, '.');
        push_decimal(&mut out, self.minor as u64);
        string_push(&mut out, '.');
        push_decimal(&mut out, self.revision as u64);
        string_push(&mut out, self.type_.to_char());
        push_decimal(&mut out, self.increment as u64);
        assert(out@ =~= unity_version_text(*self));
        out
    }
}

} // verus!
