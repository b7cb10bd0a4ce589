use vrc_get::linkage::{
    binary_is_static, elf_binary_is_static, elf_is_static, mach_commands, pe_dlls, is_known_macos_dylib, is_known_windows_dll, mach_command_verdict,
    mach_verdict_passes, MachVerdict, LC_LOAD_DYLIB, LC_LOAD_DYLINKER, LC_MAIN, PT_INTERP,
};

#[test]
fn mach_o_commands() {
    assert_eq!(mach_command_verdict(LC_MAIN, b""), MachVerdict::Ignored);
    assert_eq!(mach_command_verdict(LC_LOAD_DYLINKER, b"/usr/lib/dyld"), MachVerdict::SystemDylinker);
    assert_eq!(mach_command_verdict(LC_LOAD_DYLINKER, b"/opt/dyld"), MachVerdict::BadDylinker);
    assert_eq!(mach_command_verdict(LC_LOAD_DYLIB, b"/usr/lib/libSystem.B.dylib"), MachVerdict::SystemDylib);
    assert_eq!(mach_command_verdict(LC_LOAD_DYLIB, b"/usr/local/lib/libssl.dylib"), MachVerdict::UnknownDylib);
    assert_eq!(mach_command_verdict(0x22, b""), MachVerdict::UnknownCommand);
    assert!(mach_verdict_passes(MachVerdict::SystemDylib));
    assert!(!mach_verdict_passes(MachVerdict::UnknownCommand));
    assert!(is_known_macos_dylib(b"/System/Library/Frameworks/Security.framework/Versions/A/Security"));
    assert!(is_known_macos_dylib(b"/usr/lib/libiconv.2.dylib"));
    assert!(!is_known_macos_dylib(b"/System/Library/Frameworks/Foundation.framework/Versions/C/Foundation"));
    assert!(!is_known_macos_dylib(b"/usr/lib/libobjc.A.dylib"));
}

#[test]
fn windows_imports() {
    assert!(is_known_windows_dll(b"KERNEL32.dll"));
    assert!(is_known_windows_dll(b"ws2_32.dll"));
    assert!(is_known_windows_dll(b"Secur32.dll"));
    assert!(!is_known_windows_dll(b"shell32.dll"));
    assert!(!is_known_windows_dll(b"ole32.dll"));
    assert!(!is_known_windows_dll(b"VCRUNTIME140.dll"));
}

#[test]
fn elf_programs() {
    assert!(elf_is_static(0, &[1, 2, 6]));
    assert!(!elf_is_static(0, &[1, PT_INTERP]));
    assert!(!elf_is_static(2, &[1]));
}

/// A little-endian 64-bit ELF header, optionally followed by one program header of `p_type`.
fn tiny_elf(program_header: Option<u32>) -> Vec<u8> {
    let mut b: Vec<u8> = vec![0x7f, b'E', b'L', b'F', 2, 1, 1, 0];
    b.extend_from_slice(&[0u8; 8]);
    b.extend_from_slice(&2u16.to_le_bytes()); // e_type: executable
    b.extend_from_slice(&0x3eu16.to_le_bytes()); // e_machine: x86-64
    b.extend_from_slice(&1u32.to_le_bytes()); // e_version
    b.extend_from_slice(&0u64.to_le_bytes()); // e_entry
    let phoff: u64 = if program_header.is_some() { 64 } else { 0 };
    b.extend_from_slice(&phoff.to_le_bytes()); // e_phoff
    b.extend_from_slice(&0u64.to_le_bytes()); // e_shoff
    b.extend_from_slice(&0u32.to_le_bytes()); // e_flags
    b.extend_from_slice(&64u16.to_le_bytes()); // e_ehsize
    b.extend_from_slice(&56u16.to_le_bytes()); // e_phentsize
    let phnum: u16 = if program_header.is_some() { 1 } else { 0 };
    b.extend_from_slice(&phnum.to_le_bytes()); // e_phnum
    b.extend_from_slice(&64u16.to_le_bytes()); // e_shentsize
    b.extend_from_slice(&0u16.to_le_bytes()); // e_shnum
    b.extend_from_slice(&0u16.to_le_bytes()); // e_shstrndx
    if let Some(p_type) = program_header {
        b.extend_from_slice(&p_type.to_le_bytes());
        b.extend_from_slice(&4u32.to_le_bytes());
        b.extend_from_slice(&[0u8; 48]);
    }
    b
}

#[test]
fn unreadable_binaries_have_no_verdict() {
    assert_eq!(binary_is_static(b"not a binary at all"), None);
    assert_eq!(pe_dlls(b"not a binary at all"), None);
    assert_eq!(mach_commands(b"not a binary at all"), None);
    assert_eq!(elf_binary_is_static(b"not a binary at all"), None);
}

#[test]
fn elf_binaries_are_read_and_judged() {
    assert_eq!(binary_is_static(&tiny_elf(None)), Some(true));
    assert_eq!(binary_is_static(&tiny_elf(Some(1))), Some(true));
    assert_eq!(binary_is_static(&tiny_elf(Some(PT_INTERP))), Some(false));
    assert_eq!(elf_binary_is_static(&tiny_elf(Some(PT_INTERP))), Some(false));
    // An ELF file is no PE32+ or Mach-O program.
    assert_eq!(pe_dlls(&tiny_elf(None)), None);
    assert_eq!(mach_commands(&tiny_elf(None)), None);
}
