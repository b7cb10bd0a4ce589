use vstd::prelude::*;
use sha2::Digest;
use std::io::Read;
use crate::version::number::{string_push, string_push_str};
use crate::version::version::{Version, version_text};

verus! {

/// The value of an ASCII hexadecimal digit (either case).
pub open spec fn hex_value(c: u8) -> Option<u8> {
    if 0x30 <= c <= 0x39 {
        Some((c - 0x30) as u8)
    } else if 0x61 <= c <= 0x66 {
        Some((c - 0x61 + 10) as u8)
    } else if 0x41 <= c <= 0x46 {
        Some((c - 0x41 + 10) as u8)
    } else {
        None
    }
}

/// The lower-case ASCII hexadecimal digit of `d` (below 16).
pub open spec fn hex_digit(d: u8) -> u8 {
    if d < 10 {
        (0x30 + d) as u8
    } else {
        (0x61 + d - 10) as u8
    }
}

/// The lower-case hexadecimal text of `data`, two digits per byte, as ASCII codes.
pub open spec fn hex_bytes(data: Seq<u8>) -> Seq<u8>
    decreases data.len(),
{
    if data.len() == 0 {
        Seq::<u8>::empty()
    } else {
        hex_bytes(data.drop_last()) + seq![hex_digit(data.last() / 16), hex_digit(data.last() % 16)]
    }
}

/// The bytes that 64 hexadecimal digits write, two digits per byte; `None` when one of them is
/// not a hexadecimal digit.
pub open spec fn parsed_hex(hex: Seq<u8>) -> Option<Seq<u8>> {
    if forall|i: int| 0 <= i < hex.len() ==> (#[trigger] hex_value(hex[i])) is Some {
        Some(Seq::new(
            (hex.len() / 2) as nat,
            |i: int| (hex_value(hex[2 * i])->0 * 16 + hex_value(hex[2 * i + 1])->0) as u8,
        ))
    } else {
        None
    }
}

/// The SHA-256 digest of `data`.
pub uninterp spec fn sha256(data: Seq<u8>) -> Seq<u8>;

/// `sha2::Sha256::digest`.
/// Claimed: the 32-byte SHA-256 digest of `data`, a function of `data` alone.
#[verifier::external_body]
pub fn sha256_digest(data: &[u8]) -> (r: [u8; 32])
    ensures
        r@ == sha256(data@),
{
    sha2::Sha256::digest(data).into()
}

fn hex_digit_value(c: u8) -> (r: Option<u8>)
    ensures
        r == hex_value(c),
{
    if 0x30u8 <= c && c <= 0x39u8 {
        Some(c - 0x30u8)
    } else if 0x61u8 <= c && c <= 0x66u8 {
        Some(c - 0x61u8 + 10)
    } else if 0x41u8 <= c && c <= 0x46u8 {
        Some(c - 0x41u8 + 10)
    } else {
        None
    }
}

/// Reads the 32 bytes that 64 hexadecimal digits (either case) write; `None` if one of them is
/// not a hexadecimal digit.
pub fn parse_hex(hex: [u8; 64]) -> (r: Option<[u8; 32]>)
    ensures
        match parsed_hex(hex@) {
            Some(bytes) => r is Some && r->0@ == bytes,
            None => r is None,
        },
{
    let mut result = [0u8; 32];
    let mut i: usize = 0;
    while i < 32
        invariant
            i <= 32,
            hex@.len() == 64,
            result@.len() == 32,
            forall|j: int| 0 <= j < 2 * i ==> (#[trigger] hex_value(hex@[j])) is Some,
            forall|j: int| 0 <= j < i ==> #[trigger] result@[j] == (hex_value(hex@[2 * j])->0 * 16
                + hex_value(hex@[2 * j + 1])->0) as u8,
        decreases 32 - i,
    {
        let upper = match hex_digit_value(hex[i * 2]) {
            Some(v) => v,
            None => {
                proof {
                    assert(hex_value(hex@[2 * i as int]) is None);
                }
                return None;
            },
        };
        let lower = match hex_digit_value(hex[i * 2 + 1]) {
            Some(v) => v,
            None => {
                proof {
                    assert(hex_value(hex@[2 * i as int + 1]) is None);
                }
                return None;
            },
        };
        assert(upper < 16 && lower < 16);
        let byte = upper << 4 | lower;
        assert(byte == (upper * 16 + lower) as u8) by (bit_vector)
            requires
                upper < 16,
                lower < 16,
                byte == upper << 4 | lower;
        result[i] = byte;
        proof {
            assert forall|j: int| 0 <= j < 2 * (i + 1) implies (#[trigger] hex_value(hex@[j])) is Some by {
                if j == 2 * i || j == 2 * i + 1 {
                } else {
                    assert(j < 2 * i);
                }
            }
        }
        i = i + 1;
    }
    proof {
        assert(result@ =~= parsed_hex(hex@)->0);
    }
    Some(result)
}

fn hex_char(d: u8) -> (c: char)
    requires
        d < 16,
    ensures
        c as u32 == hex_digit(d) as u32,
{
    if d < 10 {
        ((0x30u8 + d) as char)
    } else {
        ((0x61u8 + d - 10) as char)
    }
}

/// The text of `bytes`, which are ASCII codes.
pub open spec fn ascii_text(bytes: Seq<u8>) -> Seq<char> {
    bytes.map_values(|b: u8| b as char)
}

/// Writes `data` as lower-case hexadecimal, two digits per byte.
pub fn to_hex(data: &[u8]) -> (r: String)
    ensures
        r@ == ascii_text(hex_bytes(data@)),
{
    let mut result = String::new();
    let mut i: usize = 0;
    while i < data.len()
        invariant
            i <= data@.len(),
            result@ == ascii_text(hex_bytes(data@.take(i as int))),
        decreases data@.len() - i,
    {
        let b = data[i];
        let hi_digit = (b >> 4) & 0xf;
        let lo_digit = b & 0xf;
        assert(hi_digit == b / 16 && hi_digit < 16) by (bit_vector)
            requires
                hi_digit == (b >> 4) & 0xf;
        assert(lo_digit == b % 16 && lo_digit < 16) by (bit_vector)
            requires
                lo_digit == b & 0xf;
        let hi = hex_char(hi_digit);
        let lo = hex_char(lo_digit);
        string_push(&mut result, hi);
        string_push(&mut result, lo);
        proof {
            let t = data@.take(i + 1);
            assert(t.drop_last() =~= data@.take(i as int));
            assert(t.last() == b);
            let h = hex_digit(b / 16);
            let l = hex_digit(b % 16);
            vstd::utf8::char_u32_cast(hi, h as u32);
            vstd::utf8::char_u32_cast(lo, l as u32);
            assert(hi == h as char);
            assert(lo == l as char);
            assert(ascii_text(hex_bytes(t)) =~= ascii_text(hex_bytes(data@.take(i as int))) + seq![hi, lo]);
        }
        i = i + 1;
    }
    proof {
        assert(data@.take(i as int) =~= data@);
    }
    result
}

proof fn lemma_hex_bytes_len(data: Seq<u8>)
    ensures
        hex_bytes(data).len() == 2 * data.len(),
    decreases data.len(),
{
    if data.len() > 0 {
        lemma_hex_bytes_len(data.drop_last());
    }
}

proof fn lemma_hex_bytes_index(data: Seq<u8>, k: int)
    requires
        0 <= k < data.len(),
    ensures
        hex_bytes(data)[2 * k] == hex_digit(data[k] / 16),
        hex_bytes(data)[2 * k + 1] == hex_digit(data[k] % 16),
    decreases data.len(),
{
    lemma_hex_bytes_len(data.drop_last());
    if k < data.len() - 1 {
        lemma_hex_bytes_index(data.drop_last(), k);
    }
}

/// Reading back what `to_hex` writes gives the bytes again: a digest written to a `.sha256`
/// file is found again by `parse_hex`.
pub proof fn lemma_parse_hex_of_to_hex(data: Seq<u8>)
    ensures
        parsed_hex(hex_bytes(data)) == Some(data),
{
    let h = hex_bytes(data);
    lemma_hex_bytes_len(data);
    assert forall|i: int| 0 <= i < h.len() implies (#[trigger] hex_value(h[i])) is Some by {
        let k = i / 2;
        lemma_hex_bytes_index(data, k);
        let hi = data[k] / 16;
        let lo = data[k] % 16;
        assert(hi < 16 && lo < 16);
    }
    assert forall|k: int| 0 <= k < data.len() implies
        #[trigger] data[k] == (hex_value(h[2 * k])->0 * 16 + hex_value(h[2 * k + 1])->0) as u8 by {
        lemma_hex_bytes_index(data, k);
        assert(data[k] == (data[k] / 16) * 16 + data[k] % 16);
    }
    assert(parsed_hex(h)->0 =~= data);
}

/// Whether a cached file matches the digest recorded for it: the first 64 bytes of its
/// `.sha256` file are hexadecimal digits that write the SHA-256 digest of `content`.
pub open spec fn cache_is_valid(content: Seq<u8>, sha_head: Seq<u8>) -> bool {
    parsed_hex(sha_head) == Some(sha256(content))
}

/// Checks a cached download against the first 64 bytes of its `.sha256` file.
pub fn check_cached_digest(content: &[u8], sha_head: [u8; 64]) -> (r: bool)
    ensures
        r == cache_is_valid(content@, sha_head@),
{
    let expected = match parse_hex(sha_head) {
        Some(h) => h,
        None => return false,
    };
    let actual = sha256_digest(content);
    let mut i: usize = 0;
    while i < 32
        invariant
            i <= 32,
            expected@.len() == 32,
            actual@.len() == 32,
            parsed_hex(sha_head@) == Some(expected@),
            actual@ == sha256(content@),
            forall|j: int| 0 <= j < i ==> expected@[j] == actual@[j],
        decreases 32 - i,
    {
        if expected[i] != actual[i] {
            proof {
                assert(expected@[i as int] != actual@[i as int]);
                assert(expected@ != actual@);
            }
            return false;
        }
        i = i + 1;
    }
    assert(expected@ =~= actual@);
    true
}

/// The name of the cached download of a package version: `vrc-get-{name}-{version}.zip`.
pub open spec fn zip_file_name_text(name: Seq<char>, version: Seq<char>) -> Seq<char> {
    seq!['v', 'r', 'c', '-', 'g', 'e', 't', '-'] + name + seq!['-'] + version + seq!['.', 'z', 'i', 'p']
}

/// The name of the cached download of a package version: `vrc-get-{name}-{version}.zip`.
pub fn zip_file_name(name: &str, version: &Version) -> (r: String)
    ensures
        r@ == zip_file_name_text(name@, version_text(version@)),
{
    let mut out = String::new();
    string_push_str(&mut out, "vrc-get-");
    string_push_str(&mut out, name);
    string_push(&mut out, '-');
    string_push_str(&mut out, version.to_string().as_str());
    string_push_str(&mut out, ".zip");
    proof {
        reveal_strlit("vrc-get-");
        reveal_strlit(".zip");
        assert(out@ =~= zip_file_name_text(name@, version_text(version@)));
    }
    out
}

/// The content of a `.sha256` file: the hexadecimal digest, a space, the file name, a newline.
pub fn sha_file_content(content: &[u8], zip_file_name: &str) -> (r: String)
    ensures
        r@ == ascii_text(hex_bytes(sha256(content@))) + seq![' '] + zip_file_name@ + seq!['\n'],
{
    let digest = sha256_digest(content);
    let mut out = to_hex(&digest);
    string_push(&mut out, ' ');
    string_push_str(&mut out, zip_file_name);
    string_push(&mut out, '\n');
    out
}

/// A downloaded file checks against the `.sha256` file written for it: its first 64 bytes are
/// the hexadecimal digest, which reads back as the digest of the content.
pub proof fn lemma_written_digest_checks(content: Seq<u8>)
    requires
        sha256(content).len() == 32,
    ensures
        hex_bytes(sha256(content)).len() == 64,
        cache_is_valid(content, hex_bytes(sha256(content))),
{
    lemma_hex_bytes_len(sha256(content));
    lemma_parse_hex_of_to_hex(sha256(content));
}

/// What a path inside a package archive is made of, component by component.
#[derive(Clone, Copy, Debug, PartialEq, Eq, Structural)]
pub enum PathComponent {
    /// A Windows prefix such as `C:`.
    Prefix,
    /// The root directory.
    RootDir,
    /// `.`
    CurDir,
    /// `..`
    ParentDir,
    /// A plain name.
    Normal,
}

/// A component that could lead outside the folder a package is extracted into.
pub open spec fn escapes(c: PathComponent) -> bool {
    c is Prefix || c is RootDir || c is ParentDir
}

/// Whether a path inside an archive stays inside the extraction folder: no prefix, no root,
/// no `..`.
pub fn check_path(components: &[PathComponent]) -> (r: bool)
    ensures
        r == forall|i: int| 0 <= i < components@.len() ==> !escapes(#[trigger] components@[i]),
{
    let mut i: usize = 0;
    while i < components.len()
        invariant
            i <= components@.len(),
            forall|j: int| 0 <= j < i ==> !escapes(#[trigger] components@[j]),
        decreases components@.len() - i,
    {
        match components[i] {
            PathComponent::Prefix => return false,
            PathComponent::RootDir => return false,
            PathComponent::ParentDir => return false,
            PathComponent::CurDir => {},
            PathComponent::Normal => {},
        }
        i = i + 1;
    }
    true
}


// ---------------------------------------------------------------------------------------
// Reading a package archive and deciding what of it to extract.

/// One entry of a package archive: its name as stored, whether it is a folder, and its bytes.
#[derive(Debug)]
pub struct ZipEntry {
    pub name: String,
    pub is_dir: bool,
    pub data: Vec<u8>,
}

/// The entries of an archive by their name, kind and bytes.
pub open spec fn entries_view(v: Vec<ZipEntry>) -> Seq<(Seq<char>, bool, Seq<u8>)> {
    v@.map_values(|e: ZipEntry| (e.name@, e.is_dir, e.data@))
}

/// What the `zip` crate reads from an archive: `None` when it refuses the archive itself; else
/// the entries in order, each with its name, whether it is a folder and its (uncompressed)
/// bytes, up to the first entry it cannot read, and whether it read them all.
pub uninterp spec fn zip_entries_of(archive: Seq<u8>) -> Option<(Seq<(Seq<char>, bool, Seq<u8>)>, bool)>;

/// The entries the `zip` crate reads from an archive (none when it refuses the archive).
pub open spec fn read_entries(archive: Seq<u8>) -> Seq<(Seq<char>, bool, Seq<u8>)> {
    match zip_entries_of(archive) {
        Some((es, _)) => es,
        None => Seq::empty(),
    }
}

/// Whether the `zip` crate reads every entry of an archive.
pub open spec fn read_all(archive: Seq<u8>) -> bool {
    match zip_entries_of(archive) {
        Some((_, complete)) => complete,
        None => false,
    }
}

/// `zip::ZipArchive::new` on the bytes, then for each entry in order `by_index`, `name`,
/// `is_dir` and `read_to_end`, stopping at the first entry that gives an error.
/// Claimed: the result is a function of the bytes alone (named `zip_entries_of`): `None` when
/// `ZipArchive::new` returns an error; else the entries read and whether none gave an error.
/// Nothing more of the format is stated.
#[verifier::external_body]
fn read_zip_entries(archive: &[u8]) -> (r: Option<(Vec<ZipEntry>, bool)>)
    ensures
        match r {
            Some((v, complete)) => zip_entries_of(archive@) == Some((entries_view(v), complete)),
            None => zip_entries_of(archive@) is None,
        },
{
    let mut zip = zip::ZipArchive::new(std::io::Cursor::new(archive)).ok()?;
    let mut out = Vec::new();
    for i in 0..zip.len() {
        let mut entry = match zip.by_index(i) {
            Ok(entry) => entry,
            Err(_) => return Some((out, false)),
        };
        let mut data = Vec::new();
        if entry.read_to_end(&mut data).is_err() {
            return Some((out, false));
        }
        out.push(ZipEntry { name: entry.name().to_owned(), is_dir: entry.is_dir(), data });
    }
    Some((out, true))
}

/// A name with no `\` that does not start with `//`: on every platform its components lie
/// between `/` separators, with no Windows prefix (those need `\` or a leading `//`, or are a
/// drive letter and `:` inside the first segment).
pub open spec fn slash_separated(name: Seq<char>) -> bool {
    &&& !name.contains('\\')
    &&& !(name.len() >= 2 && name[0] == '/' && name[1] == '/')
}

/// Whether `..` stands as a whole segment of `name`, between `/` separators or the ends.
pub open spec fn has_parent_segment(name: Seq<char>) -> bool {
    exists|i: int| 0 <= i && i + 2 <= name.len() && #[trigger] name[i] == '.' && name[i + 1] == '.'
        && (i == 0 || name[i - 1] == '/') && (i + 2 == name.len() || name[i + 2] == '/')
}

/// A name that leaves the extraction folder whatever the platform: a slash-separated name that
/// starts at the root or holds a `..` segment.
pub open spec fn plainly_escapes(name: Seq<char>) -> bool {
    &&& slash_separated(name)
    &&& ((name.len() > 0 && name[0] == '/') || has_parent_segment(name))
}

/// A name that stays inside the extraction folder whatever the platform: `/`-separated
/// segments, none of them `..`, with no leading `/`, no `\` and no `:` (so no Windows prefix).
pub open spec fn plainly_inside(name: Seq<char>) -> bool {
    &&& !name.contains('\\')
    &&& !name.contains(':')
    &&& !(name.len() > 0 && name[0] == '/')
    &&& !has_parent_segment(name)
}

/// `Path::components` on an entry's name, each component by its kind.
/// Claimed only what holds on every platform. For a name with no `\` that does not start
/// with `//`: a `..` segment gives a `ParentDir` component, and a leading `/` makes the first
/// component `RootDir`. For a name made of `/`-separated segments, none of them `..`, with no
/// leading `/`, no `\` and no `:`: every component is a plain name or `.`. How other names
/// split depends on the platform (`\` and prefixes on Windows) and is not stated.
#[verifier::external_body]
fn path_components(name: &str) -> (r: Vec<PathComponent>)
    ensures
        slash_separated(name@) && has_parent_segment(name@) ==> r@.contains(PathComponent::ParentDir),
        slash_separated(name@) && name@.len() > 0 && name@[0] == '/' ==> r@.len() > 0 && r@[0] == PathComponent::RootDir,
        plainly_inside(name@) ==> forall|i: int| 0 <= i < r@.len()
            ==> (#[trigger] r@[i] == PathComponent::Normal || r@[i] == PathComponent::CurDir),
{
    std::path::Path::new(name)
        .components()
        .map(|c| match c {
            std::path::Component::Prefix(_) => PathComponent::Prefix,
            std::path::Component::RootDir => PathComponent::RootDir,
            std::path::Component::CurDir => PathComponent::CurDir,
            std::path::Component::ParentDir => PathComponent::ParentDir,
            std::path::Component::Normal(_) => PathComponent::Normal,
        })
        .collect()
}

/// Whether a path, by its components, stays inside the extraction folder.
pub open spec fn stays_inside(p: Seq<PathComponent>) -> bool {
    forall|i: int| 0 <= i < p.len() ==> !escapes(#[trigger] p[i])
}

/// The plan of extracting entries whose paths (one per entry) are `paths`: `Err(i)` for the
/// first entry whose path would leave the package's folder (the entries before it are
/// extracted first, then extraction stops with an error), `Ok(n)` to extract all `n` entries in
/// order when every path stays inside.
pub fn extraction_plan(entries: &[ZipEntry], paths: &[Vec<PathComponent>]) -> (r: Result<usize, usize>)
    requires
        paths@.len() == entries@.len(),
    ensures
        match r {
            Ok(n) => n == entries@.len() && forall|i: int| 0 <= i < paths@.len() ==> stays_inside(#[trigger] paths@[i]@),
            Err(i) => 0 <= i < entries@.len() && !stays_inside(paths@[i as int]@)
                && forall|j: int| 0 <= j < i ==> stays_inside(#[trigger] paths@[j]@),
        },
{
    let mut i: usize = 0;
    while i < paths.len()
        invariant
            i <= paths@.len(),
            paths@.len() == entries@.len(),
            forall|j: int| 0 <= j < i ==> stays_inside(#[trigger] paths@[j]@),
        decreases paths@.len() - i,
    {
        if !check_path(paths[i].as_slice()) {
            return Err(i);
        }
        i = i + 1;
    }
    Ok(entries.len())
}

/// Why an archive is not extracted whole.
#[derive(Clone, Copy, Debug, PartialEq, Eq, Structural)]
pub enum ExtractError {
    /// The `zip` crate refuses the archive.
    BadArchive,
    /// The entry at this position would leave the package's folder; those before it are
    /// extracted.
    Traversal(usize),
    /// The `zip` crate cannot read the entry at this position; those before it are extracted.
    BadEntry(usize),
}

/// Reads a package archive and plans its extraction: the entries the `zip` crate reads, with
/// the number of them to extract in order, or the error that stops the extraction. An entry
/// whose name plainly leaves the package's folder (from the root, or through a `..` segment)
/// stops the extraction at it or before it; an archive whose entries all read and plainly stay
/// inside is extracted whole.
pub fn plan_extraction(archive: &[u8]) -> (r: Result<(Vec<ZipEntry>, usize), (Vec<ZipEntry>, ExtractError)>)
    ensures
        zip_entries_of(archive@) is None <==> r matches Err((_, ExtractError::BadArchive)),
        match r {
            Ok((entries, n)) => zip_entries_of(archive@) == Some((entries_view(entries), true)) && n == entries@.len(),
            Err((entries, ExtractError::Traversal(i))) => zip_entries_of(archive@) is Some
                && read_entries(archive@) == entries_view(entries) && i < entries@.len(),
            Err((entries, ExtractError::BadEntry(i))) => zip_entries_of(archive@) == Some((entries_view(entries), false))
                && i == entries@.len(),
            Err((entries, ExtractError::BadArchive)) => entries@.len() == 0,
        },
        forall|i: int| #![trigger read_entries(archive@)[i]]
            zip_entries_of(archive@) is Some && 0 <= i < read_entries(archive@).len()
            && plainly_escapes(read_entries(archive@)[i].0)
            ==> (r matches Err((_, ExtractError::Traversal(j))) && j <= i),
        zip_entries_of(archive@) is Some
            && (forall|i: int| 0 <= i < read_entries(archive@).len() ==> plainly_inside(#[trigger] read_entries(archive@)[i].0))
            ==> if read_all(archive@) {
                r matches Ok((entries, n)) && n == read_entries(archive@).len()
            } else {
                r matches Err((_, ExtractError::BadEntry(n))) && n == read_entries(archive@).len()
            },
{
    let (entries, complete) = match read_zip_entries(archive) {
        Some(e) => e,
        None => return Err((Vec::new(), ExtractError::BadArchive)),
    };
    let ghost es = read_entries(archive@);
    assert(es == entries_view(entries));
    let mut paths: Vec<Vec<PathComponent>> = Vec::new();
    let mut i: usize = 0;
    while i < entries.len()
        invariant
            i <= entries@.len(),
            paths@.len() == i,
            forall|j: int| 0 <= j < i && plainly_escapes(entries@[j].name@) ==> !stays_inside(#[trigger] paths@[j]@),
            forall|j: int| 0 <= j < i && plainly_inside(entries@[j].name@) ==> stays_inside(#[trigger] paths@[j]@),
        decreases entries@.len() - i,
    {
        let components = path_components(entries[i].name.as_str());
        proof {
            let n = entries@[i as int].name@;
            if plainly_escapes(n) {
                if n.len() > 0 && n[0] == '/' {
                    assert(escapes(components@[0]));
                } else {
                    let k = choose|k: int| 0 <= k < components@.len() && components@[k] == PathComponent::ParentDir;
                    assert(escapes(components@[k]));
                }
            }
            if plainly_inside(n) {
                assert forall|k: int| 0 <= k < components@.len() implies !escapes(#[trigger] components@[k]) by {
                    assert(components@[k] == PathComponent::Normal || components@[k] == PathComponent::CurDir);
                }
            }
        }
        let ghost before = paths@;
        paths.push(components);
        proof {
            assert forall|j: int| 0 <= j < i + 1 && plainly_escapes(entries@[j].name@) implies !stays_inside(#[trigger] paths@[j]@) by {
                if j < i {
                    assert(paths@[j] == before[j]);
                }
            }
            assert forall|j: int| 0 <= j < i + 1 && plainly_inside(entries@[j].name@) implies stays_inside(#[trigger] paths@[j]@) by {
                if j < i {
                    assert(paths@[j] == before[j]);
                }
            }
        }
        i = i + 1;
    }
    match extraction_plan(entries.as_slice(), paths.as_slice()) {
        Ok(n) => {
            proof {
                assert forall|k: int| 0 <= k < es.len() implies !plainly_escapes(#[trigger] es[k].0) by {
                    assert(es[k].0 == entries@[k].name@);
                    assert(stays_inside(paths@[k]@));
                }
            }
            if complete {
                Ok((entries, n))
            } else {
                Err((entries, ExtractError::BadEntry(n)))
            }
        },
        Err(k) => {
            proof {
                assert forall|m: int| 0 <= m < es.len() && plainly_escapes(#[trigger] es[m].0) implies k <= m by {
                    assert(es[m].0 == entries@[m].name@);
                    if m < k {
                        assert(stays_inside(paths@[m]@));
                    }
                }
                assert(es[k as int].0 == entries@[k as int].name@);
                if forall|m: int| 0 <= m < es.len() ==> plainly_inside(#[trigger] es[m].0) {
                    assert(plainly_inside(es[k as int].0));
                }
            }
            Err((entries, ExtractError::Traversal(k)))
        },
    }
}

} // verus!
