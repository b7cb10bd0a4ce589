use vstd::prelude::*;
use vstd::utf8::*;
use vstd::string::*;
use crate::text::{str_trim, trim_both};
use crate::version::buf::{first_occurrence, lemma_char_eq, split_once_str};

verus! {

broadcast use vstd::utf8::group_utf8_lib, vstd::string::group_string_axioms;

// ---------------------------------------------------------------------------------------
// Checking the name of a new project's folder.

/// What the name of a new project's folder is found to be.
#[derive(Clone, Copy, Debug, PartialEq, Eq, Structural)]
pub enum TauriProjectDirCheckResult {
    /// Not a name a folder can have on every system.
    InvalidNameForFolderName,
    /// Holds a `%`, which some tools on Windows expand.
    MayCompatibilityProblem,
    /// Holds a character outside ASCII, which some tools on Windows mishandle.
    WideChar,
    /// A folder of that name is already there.
    AlreadyExists,
    /// Nothing stands against the name.
    Usable,
}

/// Whether an upper-cased name is a device name that Windows reserves: `CON`, `PRN`, `AUX`,
/// `NUL`, or `COM` or `LPT` followed by one digit.
pub open spec fn is_reserved_device_name(u: Seq<char>) -> bool {
    ||| u == seq!['C', 'O', 'N']
    ||| u == seq!['P', 'R', 'N']
    ||| u == seq!['A', 'U', 'X']
    ||| u == seq!['N', 'U', 'L']
    ||| u.len() == 4 && (u.take(3) == seq!['C', 'O', 'M'] || u.take(3) == seq!['L', 'P', 'T'])
        && '0' <= u[3] <= '9'
}

/// The characters that Windows refuses in a file name.
pub open spec fn is_windows_reserved_char(c: char) -> bool {
    c == '/' || c == '\\' || c == '<' || c == '>' || c == ':' || c == '"' || c == '|' || c == '?'
        || c == '*'
}

/// `c` in upper case if it is an ASCII lower-case letter.
pub open spec fn ascii_upper(c: char) -> char {
    if 'a' <= c <= 'z' {
        ((c as u32) - 32) as char
    } else {
        c
    }
}

pub open spec fn ascii_uppercase(s: Seq<char>) -> Seq<char> {
    s.map_values(|c: char| ascii_upper(c))
}

/// Whether a (trimmed) name can name a folder on every system: it is not empty, at most 255
/// bytes long, no reserved device name in any case, and without reserved characters.
pub open spec fn folder_name_valid(name: Seq<char>) -> bool {
    &&& name.len() > 0
    &&& encode_utf8(name).len() <= 255
    &&& !is_reserved_device_name(ascii_uppercase(name))
    &&& !(exists|i: int| 0 <= i < name.len() && is_windows_reserved_char(#[trigger] name[i]))
}

/// What a new project's folder is found to be, given its trimmed name, whether it exists, and
/// whether the system is Windows: an invalid name first, then an existing folder, then on
/// Windows a `%` in the name, then a character outside ASCII.
pub open spec fn project_dir_verdict(name: Seq<char>, exists: bool, windows: bool) -> TauriProjectDirCheckResult {
    if !folder_name_valid(name) {
        TauriProjectDirCheckResult::InvalidNameForFolderName
    } else if exists {
        TauriProjectDirCheckResult::AlreadyExists
    } else if windows && name.contains('%') {
        TauriProjectDirCheckResult::MayCompatibilityProblem
    } else if windows && !is_ascii_chars(name) {
        TauriProjectDirCheckResult::WideChar
    } else {
        TauriProjectDirCheckResult::Usable
    }
}

proof fn lemma_first_occurrence_char(s: Seq<char>, c: char)
    ensures
        first_occurrence(s, seq![c]) is Some <==> s.contains(c),
    decreases s.len(),
{
    if s.len() > 0 {
        lemma_first_occurrence_char(s.drop_first(), c);
        if s.take(1) == seq![c] {
            assert(s[0] == s.take(1)[0]);
        } else {
            assert(s[0] != c) by {
                if s[0] == c {
                    assert(s.take(1) =~= seq![c]);
                }
            }
            if s.contains(c) {
                let i = choose|i: int| 0 <= i < s.len() && s[i] == c;
                assert(s.drop_first()[i - 1] == c);
            }
            if s.drop_first().contains(c) {
                let i = choose|i: int| 0 <= i < s.len() - 1 && s.drop_first()[i] == c;
                assert(s[i + 1] == c);
            }
        }
    }
}

/// Whether the text holds the one character of `needle`.
pub fn holds_char(s: &str, needle: &str) -> (r: bool)
    requires
        needle@.len() == 1,
    ensures
        r == s@.contains(needle@[0]),
{
    proof {
        assert(needle@ =~= seq![needle@[0]]);
        lemma_first_occurrence_char(s@, needle@[0]);
    }
    split_once_str(s, needle).is_some()
}

fn upper_byte(b: u8) -> (r: u8)
    ensures
        r == (if 0x61 <= b <= 0x7a { (b - 32) as u8 } else { b }),
{
    if 0x61 <= b && b <= 0x7a {
        b - 32
    } else {
        b
    }
}

/// Whether the name, upper-cased, is a device name that Windows reserves.
fn is_reserved_name(name: &str) -> (r: bool)
    ensures
        r == is_reserved_device_name(ascii_uppercase(name@)),
{
    let ghost u = ascii_uppercase(name@);
    if !name.is_ascii() {
        proof {
            let i = choose|i: int| 0 <= i < name@.len() && !('\0' <= #[trigger] name@[i] <= '\u{7f}');
            assert(u[i] == ascii_upper(name@[i]));
            assert(!(u[i] as u32 <= 0x7f));
            if u.len() == 4 {
                if i < 3 {
                    assert(u.take(3)[i] == u[i]);
                }
            }
        }
        return false;
    }
    let b = name.as_bytes();
    proof {
        is_ascii_spec_bytes(name);
        assert forall|j: int| 0 <= j < b@.len() implies (#[trigger] u[j]) as u32 == (if 0x61 <= b@[j] <= 0x7a { b@[j] - 32 } else { b@[j] as int }) by {
            assert(b@[j] == name@[j] as u8);
            assert((name@[j] as u32) < 0x80);
        }
    }
    if b.len() == 3 {
        let x = upper_byte(b[0]);
        let y = upper_byte(b[1]);
        let z = upper_byte(b[2]);
        let r = (x == 0x43 && y == 0x4f && z == 0x4e) || (x == 0x50 && y == 0x52 && z == 0x4e)
            || (x == 0x41 && y == 0x55 && z == 0x58) || (x == 0x4e && y == 0x55 && z == 0x4c);
        proof {
            assert(u[0] as u32 == x as u32);
            assert(u[1] as u32 == y as u32);
            assert(u[2] as u32 == z as u32);
            if r {
                if x == 0x43 && y == 0x4f && z == 0x4e {
                    assert(u =~= seq!['C', 'O', 'N']);
                } else if x == 0x50 && y == 0x52 && z == 0x4e {
                    assert(u =~= seq!['P', 'R', 'N']);
                } else if x == 0x41 && y == 0x55 && z == 0x58 {
                    assert(u =~= seq!['A', 'U', 'X']);
                } else {
                    assert(u =~= seq!['N', 'U', 'L']);
                }
            }
        }
        return r;
    }
    if b.len() == 4 {
        let x = upper_byte(b[0]);
        let y = upper_byte(b[1]);
        let z = upper_byte(b[2]);
        let d = upper_byte(b[3]);
        let r = ((x == 0x43 && y == 0x4f && z == 0x4d) || (x == 0x4c && y == 0x50 && z == 0x54))
            && 0x30 <= d && d <= 0x39;
        proof {
            assert(u[0] as u32 == x as u32);
            assert(u[1] as u32 == y as u32);
            assert(u[2] as u32 == z as u32);
            assert(u[3] as u32 == d as u32);
            assert(u.take(3)[0] == u[0]);
            assert(u.take(3)[1] == u[1]);
            assert(u.take(3)[2] == u[2]);
            if x == 0x43 && y == 0x4f && z == 0x4d {
                assert(u.take(3) =~= seq!['C', 'O', 'M']);
            }
            if x == 0x4c && y == 0x50 && z == 0x54 {
                assert(u.take(3) =~= seq!['L', 'P', 'T']);
            }
        }
        return r;
    }
    false
}

/// The name of a new project's folder, trimmed, if it can name a folder on every system.
pub fn project_folder_name(project_name: &str) -> (r: Option<&str>)
    ensures
        match r {
            Some(n) => n@ == trim_both(project_name@) && folder_name_valid(n@),
            None => !folder_name_valid(trim_both(project_name@)),
        },
{
    let name = str_trim(project_name);
    if name.is_empty() || name.as_bytes().len() > 255 || is_reserved_name(name) {
        return None;
    }
    proof {
        reveal_strlit("/");
        reveal_strlit("\\");
        reveal_strlit("<");
        reveal_strlit(">");
        reveal_strlit(":");
        reveal_strlit("\"");
        reveal_strlit("|");
        reveal_strlit("?");
        reveal_strlit("*");
    }
    if holds_char(name, "/") || holds_char(name, "\\") || holds_char(name, "<")
        || holds_char(name, ">") || holds_char(name, ":") || holds_char(name, "\"")
        || holds_char(name, "|") || holds_char(name, "?") || holds_char(name, "*") {
        return None;
    }
    assert forall|i: int| 0 <= i < name@.len() implies !is_windows_reserved_char(#[trigger] name@[i]) by {
        assert(name@.contains(name@[i]));
    }
    Some(name)
}

/// What a new project's folder is found to be, given the trimmed name that
/// `project_folder_name` accepted, whether a folder of that name exists, and whether the system
/// is Windows.
pub fn project_dir_check(name: &str, exists: bool, windows: bool) -> (r: TauriProjectDirCheckResult)
    requires
        folder_name_valid(name@),
    ensures
        r == project_dir_verdict(name@, exists, windows),
{
    if exists {
        return TauriProjectDirCheckResult::AlreadyExists;
    }
    if windows {
        let percent = "%";
        proof {
            reveal_strlit("%");
        }
        if holds_char(name, percent) {
            return TauriProjectDirCheckResult::MayCompatibilityProblem;
        }
        if !name.is_ascii() {
            return TauriProjectDirCheckResult::WideChar;
        }
    }
    TauriProjectDirCheckResult::Usable
}

// ---------------------------------------------------------------------------------------
// Making the base folder of a new project absolute.

/// The kind of a leading component of a path, as far as making it absolute is concerned.
#[derive(Clone, Copy, Debug, PartialEq, Eq, Structural)]
pub enum LeadingComponent {
    /// A drive, such as `C:`.
    DiskPrefix,
    /// Any other prefix, such as `\\?\` or a UNC share.
    OtherPrefix,
    /// The root directory.
    RootDir,
    /// Anything else.
    Other,
}

/// Where a root directory goes among the components of the base folder of a new project so that
/// the project lands at an absolute place: after a drive that no root directory follows
/// (`C:path`), or in front of a relative path; nowhere for a path that has a root, starts with a
/// drive and a root directory, another prefix or a root directory, or is empty.
pub open spec fn root_position(
    has_root: bool,
    first: Option<LeadingComponent>,
    second: Option<LeadingComponent>,
) -> Option<nat> {
    if has_root {
        None
    } else {
        match (first, second) {
            (Some(LeadingComponent::DiskPrefix), Some(LeadingComponent::RootDir)) => None,
            (Some(LeadingComponent::DiskPrefix), _) => Some(1),
            (Some(LeadingComponent::OtherPrefix), _) => None,
            (Some(LeadingComponent::RootDir), _) => None,
            (Some(LeadingComponent::Other), _) => Some(0),
            (None, _) => None,
        }
    }
}

/// Where a root directory goes among the components of the base folder of a new project, given
/// whether the folder has a root and its first two components.
pub fn root_insertion(
    has_root: bool,
    first: Option<LeadingComponent>,
    second: Option<LeadingComponent>,
) -> (r: Option<usize>)
    ensures
        match root_position(has_root, first, second) {
            Some(p) => r == Some(p as usize),
            None => r is None,
        },
{
    if has_root {
        return None;
    }
    match (first, second) {
        (Some(LeadingComponent::DiskPrefix), Some(LeadingComponent::RootDir)) => None,
        (Some(LeadingComponent::DiskPrefix), _) => Some(1),
        (Some(LeadingComponent::OtherPrefix), _) => None,
        (Some(LeadingComponent::RootDir), _) => None,
        (Some(LeadingComponent::Other), _) => Some(0),
        (None, _) => None,
    }
}

} // verus!
