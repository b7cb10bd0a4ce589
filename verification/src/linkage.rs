use vstd::prelude::*;
use vstd::utf8::*;
use vstd::string::*;
use crate::gui::logging::bytes_equal;
use object::read::elf::{FileHeader, ProgramHeader};
use object::read::macho::{LoadCommandVariant, MachHeader};
use object::Object;

verus! {

broadcast use vstd::utf8::group_utf8_lib, vstd::string::group_string_axioms;

// ---------------------------------------------------------------------------------------
// Checking that a built program links only to libraries every system has.

/// `LC_SYMTAB`.
pub const LC_SYMTAB: u32 = 0x2;
/// `LC_DYSYMTAB`.
pub const LC_DYSYMTAB: u32 = 0xb;
/// `LC_LOAD_DYLIB`: a dynamic library the program needs.
pub const LC_LOAD_DYLIB: u32 = 0xc;
/// `LC_LOAD_DYLINKER`: the dynamic linker the program needs.
pub const LC_LOAD_DYLINKER: u32 = 0xe;
/// `LC_SEGMENT_64`.
pub const LC_SEGMENT_64: u32 = 0x19;
/// `LC_UUID`.
pub const LC_UUID: u32 = 0x1b;
/// `LC_CODE_SIGNATURE`.
pub const LC_CODE_SIGNATURE: u32 = 0x1d;
/// `LC_FUNCTION_STARTS`.
pub const LC_FUNCTION_STARTS: u32 = 0x26;
/// `LC_MAIN`.
pub const LC_MAIN: u32 = 0x8000_0028;
/// `LC_DATA_IN_CODE`.
pub const LC_DATA_IN_CODE: u32 = 0x29;
/// `LC_SOURCE_VERSION`.
pub const LC_SOURCE_VERSION: u32 = 0x2a;
/// `LC_BUILD_VERSION`.
pub const LC_BUILD_VERSION: u32 = 0x32;
/// `LC_DYLD_EXPORTS_TRIE`.
pub const LC_DYLD_EXPORTS_TRIE: u32 = 0x8000_0033;
/// `LC_DYLD_CHAINED_FIXUPS`.
pub const LC_DYLD_CHAINED_FIXUPS: u32 = 0x8000_0034;

/// The load commands of a Mach-O program that say nothing about what it links to.
pub open spec fn is_ignored_command(cmd: u32) -> bool {
    cmd == LC_SEGMENT_64 || cmd == LC_DYLD_EXPORTS_TRIE || cmd == LC_DYLD_CHAINED_FIXUPS
        || cmd == LC_SYMTAB || cmd == LC_DYSYMTAB || cmd == LC_UUID || cmd == LC_BUILD_VERSION
        || cmd == LC_SOURCE_VERSION || cmd == LC_MAIN || cmd == LC_FUNCTION_STARTS
        || cmd == LC_DATA_IN_CODE || cmd == LC_CODE_SIGNATURE
}

/// The libraries of macOS a program may link to: Security, CoreFoundation, `libiconv.2` and
/// `libSystem.B`.
pub open spec fn is_macos_system_dylib(path: Seq<u8>) -> bool {
    ||| path == encode_utf8("/System/Library/Frameworks/Security.framework/Versions/A/Security"@)
    ||| path == encode_utf8("/System/Library/Frameworks/CoreFoundation.framework/Versions/A/CoreFoundation"@)
    ||| path == encode_utf8("/usr/lib/libiconv.2.dylib"@)
    ||| path == encode_utf8("/usr/lib/libSystem.B.dylib"@)
}

/// What the check makes of one load command of a Mach-O program.
#[derive(Clone, Copy, Debug, PartialEq, Eq, Structural)]
pub enum MachVerdict {
    /// A command that says nothing about linking.
    Ignored,
    /// The system's dynamic linker, `/usr/lib/dyld`.
    SystemDylinker,
    /// Another dynamic linker.
    BadDylinker,
    /// A library of the system.
    SystemDylib,
    /// A library the system may not have.
    UnknownDylib,
    /// A command the check does not know.
    UnknownCommand,
}

/// What the check makes of a load command of kind `cmd` that names `path` (for a linker or a
/// library; empty otherwise).
pub open spec fn mach_verdict(cmd: u32, path: Seq<u8>) -> MachVerdict {
    if is_ignored_command(cmd) {
        MachVerdict::Ignored
    } else if cmd == LC_LOAD_DYLINKER {
        if path == encode_utf8("/usr/lib/dyld"@) {
            MachVerdict::SystemDylinker
        } else {
            MachVerdict::BadDylinker
        }
    } else if cmd == LC_LOAD_DYLIB {
        if is_macos_system_dylib(path) {
            MachVerdict::SystemDylib
        } else {
            MachVerdict::UnknownDylib
        }
    } else {
        MachVerdict::UnknownCommand
    }
}

/// Whether a load command passes the check.
pub open spec fn verdict_passes(v: MachVerdict) -> bool {
    v == MachVerdict::Ignored || v == MachVerdict::SystemDylinker || v == MachVerdict::SystemDylib
}

fn equals_text(b: &[u8], t: &str) -> (r: bool)
    ensures
        r == (b@ == encode_utf8(t@)),
{
    bytes_equal(b, t.as_bytes())
}

/// Whether `path` is a library of macOS a program may link to.
pub fn is_known_macos_dylib(path: &[u8]) -> (r: bool)
    ensures
        r == is_macos_system_dylib(path@),
{
    equals_text(path, "/System/Library/Frameworks/Security.framework/Versions/A/Security")
        || equals_text(path, "/System/Library/Frameworks/CoreFoundation.framework/Versions/A/CoreFoundation")
        || equals_text(path, "/usr/lib/libiconv.2.dylib")
        || equals_text(path, "/usr/lib/libSystem.B.dylib")
}

/// What the check makes of a load command of kind `cmd` that names `path`.
pub fn mach_command_verdict(cmd: u32, path: &[u8]) -> (r: MachVerdict)
    ensures
        r == mach_verdict(cmd, path@),
{
    if cmd == LC_SEGMENT_64 || cmd == LC_DYLD_EXPORTS_TRIE || cmd == LC_DYLD_CHAINED_FIXUPS
        || cmd == LC_SYMTAB || cmd == LC_DYSYMTAB || cmd == LC_UUID || cmd == LC_BUILD_VERSION
        || cmd == LC_SOURCE_VERSION || cmd == LC_MAIN || cmd == LC_FUNCTION_STARTS
        || cmd == LC_DATA_IN_CODE || cmd == LC_CODE_SIGNATURE {
        MachVerdict::Ignored
    } else if cmd == LC_LOAD_DYLINKER {
        if equals_text(path, "/usr/lib/dyld") {
            MachVerdict::SystemDylinker
        } else {
            MachVerdict::BadDylinker
        }
    } else if cmd == LC_LOAD_DYLIB {
        if is_known_macos_dylib(path) {
            MachVerdict::SystemDylib
        } else {
            MachVerdict::UnknownDylib
        }
    } else {
        MachVerdict::UnknownCommand
    }
}

/// Whether a load command passes the check.
pub fn mach_verdict_passes(v: MachVerdict) -> (r: bool)
    ensures
        r == verdict_passes(v),
{
    match v {
        MachVerdict::Ignored | MachVerdict::SystemDylinker | MachVerdict::SystemDylib => true,
        _ => false,
    }
}

/// `b` in lower case if it is an ASCII upper-case letter.
pub open spec fn ascii_lower_byte(b: u8) -> u8 {
    if 0x41 <= b <= 0x5a {
        (b + 32) as u8
    } else {
        b
    }
}

/// A name with its ASCII upper-case letters in lower case.
pub open spec fn lowered(b: Seq<u8>) -> Seq<u8> {
    b.map_values(|c: u8| ascii_lower_byte(c))
}

/// The libraries of Windows a program may import from, in lower case: bcrypt, ntdll,
/// kernel32, advapi32, ws2_32, secur32 and crypt32.
pub open spec fn is_windows_system_dll(lower: Seq<u8>) -> bool {
    ||| lower == encode_utf8("advapi32.dll"@)
    ||| lower == encode_utf8("kernel32.dll"@)
    ||| lower == encode_utf8("bcrypt.dll"@)
    ||| lower == encode_utf8("ntdll.dll"@)
    ||| lower == encode_utf8("secur32.dll"@)
    ||| lower == encode_utf8("ws2_32.dll"@)
    ||| lower == encode_utf8("crypt32.dll"@)
}

/// Whether a library a Windows program imports from is one of the system, its name compared in
/// lower case.
pub fn is_known_windows_dll(name: &[u8]) -> (r: bool)
    ensures
        r == is_windows_system_dll(lowered(name@)),
{
    let mut lower: Vec<u8> = Vec::new();
    let mut i: usize = 0;
    while i < name.len()
        invariant
            i <= name@.len(),
            lower@ == lowered(name@.take(i as int)),
        decreases name@.len() - i,
    {
        let b = name[i];
        let l = if 0x41 <= b && b <= 0x5a { b + 32 } else { b };
        lower.push(l);
        proof {
            assert(name@.take(i + 1) =~= name@.take(i as int).push(b));
        }
        i = i + 1;
        assert(lower@ =~= lowered(name@.take(i as int)));
    }
    assert(name@.take(name@.len() as int) =~= name@);
    let l = lower.as_slice();
    equals_text(l, "advapi32.dll") || equals_text(l, "kernel32.dll") || equals_text(l, "bcrypt.dll")
        || equals_text(l, "ntdll.dll") || equals_text(l, "secur32.dll") || equals_text(l, "ws2_32.dll")
        || equals_text(l, "crypt32.dll")
}

/// `PT_INTERP`: the program header that names an ELF program's interpreter.
pub const PT_INTERP: u32 = 3;

/// Whether an ELF program is linked statically: it imports no symbol and no program header
/// names an interpreter.
pub fn elf_is_static(imported_symbols: usize, segment_types: &[u32]) -> (r: bool)
    ensures
        r == (imported_symbols == 0 && !segment_types@.contains(PT_INTERP)),
{
    let mut i: usize = 0;
    while i < segment_types.len()
        invariant
            i <= segment_types@.len(),
            forall|j: int| 0 <= j < i ==> segment_types@[j] != PT_INTERP,
        decreases segment_types@.len() - i,
    {
        if segment_types[i] == PT_INTERP {
            assert(segment_types@[i as int] == PT_INTERP);
            return false;
        }
        i = i + 1;
    }
    imported_symbols == 0
}


// ---------------------------------------------------------------------------------------
// Reading a built program with the `object` crate.

/// The kinds of program the check knows.
#[derive(Clone, Copy, Debug, PartialEq, Eq, Structural)]
pub enum BinaryKind {
    MachO64,
    Pe64,
    Elf64,
    /// Any other kind the `object` crate recognises.
    Other,
}

/// What `object::FileKind::parse` makes of a program's bytes.
pub uninterp spec fn file_kind_of(binary: Seq<u8>) -> Option<BinaryKind>;

/// `object::FileKind::parse`.
/// Claimed: a function of the bytes alone (named `file_kind_of`), `None` when the crate
/// returns an error.
#[verifier::external_body]
fn binary_kind(binary: &[u8]) -> (r: Option<BinaryKind>)
    ensures
        r == file_kind_of(binary@),
{
    match object::FileKind::parse(binary).ok()? {
        object::FileKind::MachO64 => Some(BinaryKind::MachO64),
        object::FileKind::Pe64 => Some(BinaryKind::Pe64),
        object::FileKind::Elf64 => Some(BinaryKind::Elf64),
        _ => Some(BinaryKind::Other),
    }
}

/// The byte strings of an optional list.
pub open spec fn bytes_views(r: Option<Vec<Vec<u8>>>) -> Option<Seq<Seq<u8>>> {
    match r {
        Some(v) => Some(v@.map_values(|b: Vec<u8>| b@)),
        None => None,
    }
}

/// The names of the libraries a PE32+ program imports from, in the order of its import
/// table, as `object` reads them.
pub uninterp spec fn pe_imports(binary: Seq<u8>) -> Option<Seq<Seq<u8>>>;

/// `object::read::pe::PeFile64::parse`, `import_table`, `descriptors` and `ImportTable::name`.
/// Claimed: a function of the bytes alone (named `pe_imports`), `None` when a call returns an
/// error or the program has no import table.
#[verifier::external_body]
fn pe_imported_dlls(binary: &[u8]) -> (r: Option<Vec<Vec<u8>>>)
    ensures
        bytes_views(r) == pe_imports(binary@),
{
    let parsed = object::read::pe::PeFile64::parse(binary).ok()?;
    let table = parsed.import_table().ok()??;
    let mut descriptors = table.descriptors().ok()?;
    let mut out = Vec::new();
    while let Some(d) = descriptors.next().ok()? {
        out.push(table.name(d.name.get(object::LittleEndian)).ok()?.to_vec());
    }
    Some(out)
}

/// The load commands of a program by kind and path.
pub open spec fn command_views(r: Option<Vec<(u32, Vec<u8>)>>) -> Option<Seq<(u32, Seq<u8>)>> {
    match r {
        Some(v) => Some(v@.map_values(|c: (u32, Vec<u8>)| (c.0, c.1@))),
        None => None,
    }
}

/// The load commands of a 64-bit Mach-O program as `object` reads them, in order: each kind
/// with the path it names (the library of a dylib command, the linker of `LC_LOAD_DYLINKER`,
/// empty for the others).
pub uninterp spec fn mach_commands_of(binary: Seq<u8>) -> Option<Seq<(u32, Seq<u8>)>>;

/// `object::macho::MachHeader64::parse`, `endian`, `load_commands`, then for each command
/// `cmd`, `variant` and `string`.
/// Claimed: a function of the bytes alone (named `mach_commands_of`), `None` when a call
/// returns an error.
#[verifier::external_body]
fn mach_load_commands(binary: &[u8]) -> (r: Option<Vec<(u32, Vec<u8>)>>)
    ensures
        command_views(r) == mach_commands_of(binary@),
{
    let header = object::macho::MachHeader64::<object::Endianness>::parse(binary, 0).ok()?;
    let endian = header.endian().ok()?;
    let mut commands = header.load_commands(endian, binary, 0).ok()?;
    let mut out = Vec::new();
    while let Some(command) = commands.next().ok()? {
        let path: &[u8] = match command.variant().ok()? {
            LoadCommandVariant::Dylib(d) => command.string(endian, d.dylib.name).ok()?,
            LoadCommandVariant::LoadDylinker(d) => command.string(endian, d.name).ok()?,
            _ => &[],
        };
        out.push((command.cmd(), path.to_vec()));
    }
    Some(out)
}

/// What an ELF program tells the check, as `object` reads it: how many symbols it imports,
/// and the types of its program headers in order.
pub uninterp spec fn elf_facts_of(binary: Seq<u8>) -> Option<(usize, Seq<u32>)>;

/// `object::read::elf::ElfFile64::parse`, `imports`, `elf_program_headers` and `p_type`.
/// Claimed: a function of the bytes alone (named `elf_facts_of`), `None` when a call returns
/// an error.
#[verifier::external_body]
fn elf_facts(binary: &[u8]) -> (r: Option<(usize, Vec<u32>)>)
    ensures
        match r {
            Some((n, types)) => elf_facts_of(binary@) == Some((n, types@)),
            None => elf_facts_of(binary@) is None,
        },
{
    let parsed = object::read::elf::ElfFile64::<object::Endianness>::parse(binary).ok()?;
    let imports = parsed.imports().ok()?.len();
    let types = parsed.elf_program_headers().iter().map(|h| h.p_type(parsed.endian())).collect();
    Some((imports, types))
}

/// Whether every library in a list is a system one, its name compared in lower case.
pub open spec fn only_system_dlls(dlls: Seq<Seq<u8>>) -> bool {
    forall|i: int| 0 <= i < dlls.len() ==> is_windows_system_dll(lowered(#[trigger] dlls[i]))
}

/// Whether every load command in a list, by kind and path, passes the check.
pub open spec fn only_passing_commands(cmds: Seq<(u32, Seq<u8>)>) -> bool {
    forall|i: int| 0 <= i < cmds.len() ==> verdict_passes(mach_verdict((#[trigger] cmds[i]).0, cmds[i].1))
}

/// The libraries a PE32+ program imports from; `None` when `object` cannot read them.
pub fn pe_dlls(binary: &[u8]) -> (r: Option<Vec<Vec<u8>>>)
    ensures
        bytes_views(r) == pe_imports(binary@),
{
    pe_imported_dlls(binary)
}

/// The load commands of a 64-bit Mach-O program; `None` when `object` cannot read them.
pub fn mach_commands(binary: &[u8]) -> (r: Option<Vec<(u32, Vec<u8>)>>)
    ensures
        command_views(r) == mach_commands_of(binary@),
{
    mach_load_commands(binary)
}

/// Whether every library a PE32+ program imports from is a system one (names compared in
/// lower case); `None` when `object` cannot read the imports.
pub fn pe_is_static(binary: &[u8]) -> (r: Option<bool>)
    ensures
        r == match pe_imports(binary@) {
            Some(dlls) => Some(only_system_dlls(dlls)),
            None => None::<bool>,
        },
{
    let dlls = match pe_imported_dlls(binary) {
        Some(d) => d,
        None => return None,
    };
    let ghost views = dlls@.map_values(|b: Vec<u8>| b@);
    assert(pe_imports(binary@) == Some(views));
    let mut i: usize = 0;
    while i < dlls.len()
        invariant
            i <= dlls@.len(),
            views == dlls@.map_values(|b: Vec<u8>| b@),
            pe_imports(binary@) == Some(views),
            forall|j: int| 0 <= j < i ==> is_windows_system_dll(lowered(#[trigger] views[j])),
        decreases dlls@.len() - i,
    {
        assert(views[i as int] == dlls@[i as int]@);
        if !is_known_windows_dll(dlls[i].as_slice()) {
            assert(!is_windows_system_dll(lowered(views[i as int])));
            assert(!only_system_dlls(views));
            return Some(false);
        }
        assert(views[i as int] == dlls@[i as int]@);
        i = i + 1;
    }
    Some(true)
}

/// Whether every load command of a 64-bit Mach-O program passes the check; `None` when
/// `object` cannot read them.
pub fn mach_is_static(binary: &[u8]) -> (r: Option<bool>)
    ensures
        r == match mach_commands_of(binary@) {
            Some(cmds) => Some(only_passing_commands(cmds)),
            None => None::<bool>,
        },
{
    let cmds = match mach_load_commands(binary) {
        Some(c) => c,
        None => return None,
    };
    let ghost views = cmds@.map_values(|c: (u32, Vec<u8>)| (c.0, c.1@));
    assert(mach_commands_of(binary@) == Some(views));
    let mut i: usize = 0;
    while i < cmds.len()
        invariant
            i <= cmds@.len(),
            views == cmds@.map_values(|c: (u32, Vec<u8>)| (c.0, c.1@)),
            mach_commands_of(binary@) == Some(views),
            forall|j: int| 0 <= j < i ==> verdict_passes(mach_verdict((#[trigger] views[j]).0, views[j].1)),
        decreases cmds@.len() - i,
    {
        let verdict = mach_command_verdict(cmds[i].0, cmds[i].1.as_slice());
        assert(views[i as int] == (cmds@[i as int].0, cmds@[i as int].1@));
        if !mach_verdict_passes(verdict) {
            assert(!verdict_passes(mach_verdict(views[i as int].0, views[i as int].1)));
            assert(!only_passing_commands(views));
            return Some(false);
        }
        i = i + 1;
    }
    Some(true)
}

/// Whether an ELF program is linked statically: it imports no symbol and no program header
/// names an interpreter; `None` when `object` cannot read it.
pub fn elf_binary_is_static(binary: &[u8]) -> (r: Option<bool>)
    ensures
        r == match elf_facts_of(binary@) {
            Some((n, types)) => Some(n == 0 && !types.contains(PT_INTERP)),
            None => None::<bool>,
        },
{
    match elf_facts(binary) {
        Some((n, types)) => Some(elf_is_static(n, types.as_slice())),
        None => None,
    }
}

/// Whether a built program links only to libraries every system has, by its kind; `None` when
/// `object` cannot read it or it is of another kind.
pub fn binary_is_static(binary: &[u8]) -> (r: Option<bool>)
    ensures
        r == match file_kind_of(binary@) {
            Some(BinaryKind::MachO64) => match mach_commands_of(binary@) {
                Some(cmds) => Some(only_passing_commands(cmds)),
                None => None::<bool>,
            },
            Some(BinaryKind::Pe64) => match pe_imports(binary@) {
                Some(dlls) => Some(only_system_dlls(dlls)),
                None => None::<bool>,
            },
            Some(BinaryKind::Elf64) => match elf_facts_of(binary@) {
                Some((n, types)) => Some(n == 0 && !types.contains(PT_INTERP)),
                None => None::<bool>,
            },
            _ => None::<bool>,
        },
{
    match binary_kind(binary) {
        Some(BinaryKind::MachO64) => mach_is_static(binary),
        Some(BinaryKind::Pe64) => pe_is_static(binary),
        Some(BinaryKind::Elf64) => elf_binary_is_static(binary),
        _ => None,
    }
}

} // verus!
