use vrc_get::installer::{
    command_line_passthrough, command_line_tail, installer_platforms, is_success_with_body,
    machine_to_arch, pick_platform, processor_arch_to_arch, quote_arg, HostArch,
};

fn wide(s: &str) -> Vec<u16> {
    s.encode_utf16().collect()
}

#[test]
fn architectures() {
    assert_eq!(machine_to_arch(0x8664), HostArch::X64);
    assert_eq!(machine_to_arch(0x014c), HostArch::X86);
    assert_eq!(machine_to_arch(0xaa64), HostArch::Arm64);
    assert_eq!(machine_to_arch(0x01c4), HostArch::Arm);
    assert_eq!(machine_to_arch(0x01c0), HostArch::Arm);
    assert_eq!(machine_to_arch(0x0200), HostArch::Unknown(0x0200));
    assert_eq!(processor_arch_to_arch(9), HostArch::X64);
    assert_eq!(processor_arch_to_arch(0), HostArch::X86);
    assert_eq!(processor_arch_to_arch(12), HostArch::Arm64);
    assert_eq!(processor_arch_to_arch(5), HostArch::Arm);
    assert_eq!(processor_arch_to_arch(6), HostArch::Unknown(6));
}

#[test]
fn platforms_and_statuses() {
    assert_eq!(installer_platforms(HostArch::X64), vec!["windows-x86_64"]);
    assert_eq!(installer_platforms(HostArch::Arm64), vec!["windows-aarch64", "windows-x86_64"]);
    assert!(installer_platforms(HostArch::X86).is_empty());
    assert!(is_success_with_body(200));
    assert!(is_success_with_body(299));
    assert!(!is_success_with_body(204));
    assert!(!is_success_with_body(301));
    assert!(!is_success_with_body(199));
}

#[test]
fn argument_quoting() {
    assert_eq!(quote_arg(&wide("plain")), wide("plain"));
    assert_eq!(quote_arg(&wide("")), wide("\"\""));
    assert_eq!(quote_arg(&wide("C:\\Program Files\\a.exe")), wide("\"C:\\Program Files\\a.exe\""));
    assert_eq!(quote_arg(&wide("a\\\"b c")), wide("\"a\\\\\\\"b c\""));
    assert_eq!(quote_arg(&wide("say \"x\"")), wide("\"say \\\"x\\\"\""));
    assert_eq!(quote_arg(&wide("dir x\\")), wide("\"dir x\\\\\""));
}

#[test]
fn command_line_tails() {
    assert_eq!(command_line_tail(&wide("\"C:\\a b\\x.exe\" --flag")), wide(" --flag").as_slice());
    assert_eq!(command_line_tail(&wide("x.exe\t-a -b")), wide("\t-a -b").as_slice());
    assert_eq!(command_line_tail(&wide("\"unterminated")), wide("").as_slice());
    assert_eq!(command_line_tail(&wide("")), wide("").as_slice());
    let mut expected = wide("\"C:\\t e\\i.exe\" -x");
    expected.push(0);
    assert_eq!(command_line_passthrough(&wide("C:\\t e\\i.exe"), &wide("online.exe -x")), expected);
}

#[test]
fn the_first_offered_platform_that_runs_is_picked() {
    let offered = |names: &[&str]| -> Vec<String> { names.iter().map(|n| n.to_string()).collect() };
    assert_eq!(pick_platform(HostArch::Arm64, &offered(&["linux-x86_64", "windows-x86_64"])), Some("windows-x86_64"));
    assert_eq!(
        pick_platform(HostArch::Arm64, &offered(&["windows-x86_64", "windows-aarch64"])),
        Some("windows-aarch64")
    );
    assert_eq!(pick_platform(HostArch::X64, &offered(&["windows-aarch64"])), None);
    assert_eq!(pick_platform(HostArch::X86, &offered(&["windows-x86_64"])), None);
    assert_eq!(pick_platform(HostArch::X64, &offered(&[])), None);
}

/// Reads one whole argument the way the Windows C runtime splits a command line.
fn read_back(s: &[u16]) -> Vec<u16> {
    let (bs, q) = (0x5cu16, 0x22u16);
    let mut out = Vec::new();
    let mut quoted = false;
    let mut n = 0usize;
    let mut i = 0usize;
    while i < s.len() {
        let c = s[i];
        if c == bs {
            n += 1;
        } else if c == q {
            out.extend(std::iter::repeat(bs).take(n / 2));
            if n % 2 == 1 {
                out.push(q);
            } else if quoted && i + 1 < s.len() && s[i + 1] == q {
                out.push(q);
                i += 1;
            } else {
                quoted = !quoted;
            }
            n = 0;
        } else {
            out.extend(std::iter::repeat(bs).take(n));
            n = 0;
            out.push(c);
        }
        i += 1;
    }
    out.extend(std::iter::repeat(bs).take(n));
    out
}

#[test]
fn quoted_arguments_read_back() {
    for text in ["plain", "", "two words", r"C:\Program Files\a.exe", r#"a\"b c"#, r"dir x\", r#"say "hi""#, r"\\server\share x\\"] {
        let wide: Vec<u16> = text.encode_utf16().collect();
        assert_eq!(read_back(&quote_arg(&wide)), wide, "{}", text);
    }
}
