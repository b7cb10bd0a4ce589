use vstd::prelude::*;
use vstd::utf8::*;
use vstd::string::*;
use crate::text::{
    find_first_with_prefix, find_last_with_prefix, first_with_prefix, last_with_prefix, lines_of,
    owned, str_trim, strip_all, strip_all_prefix, strs_view, text_lines, trim_both, trim_char,
    trim_matching,
};
use crate::version::number::{string_push, string_push_str};
use crate::vpm::setting::opt_view;

verus! {

broadcast use vstd::utf8::group_utf8_lib, vstd::string::group_string_axioms;

// ---------------------------------------------------------------------------------------
// `cmd.exe /c start` command lines on Windows, escaped as the BatBadBut advisory describes.

/// `%%cd:~,%` in UTF-16: what a `%` becomes, so that `cmd.exe` expands no variable.
pub open spec fn percent_escaped() -> Seq<u16> {
    seq![0x25u16, 0x25, 0x63, 0x64, 0x3a, 0x7e, 0x2c, 0x25]
}

/// The number of backslashes (`0x5c`) that `s` ends with.
pub open spec fn trailing_backslashes(s: Seq<u16>) -> nat
    decreases s.len(),
{
    if s.len() > 0 && s.last() == 0x5c {
        trailing_backslashes(s.drop_last()) + 1
    } else {
        0
    }
}

/// `n` backslashes.
pub open spec fn backslashes(n: nat) -> Seq<u16> {
    Seq::new(n, |_i: int| 0x5cu16)
}

/// What the unit `x` of an argument becomes when `n` backslashes come right before it: a `%`
/// becomes `%%cd:~,%`; a double quote is doubled and the backslashes before it are doubled as
/// well; a line feed is dropped; anything else stays.
pub open spec fn escaped_unit(x: u16, n: nat) -> Seq<u16> {
    if x == 0x25 {
        percent_escaped()
    } else if x == 0x22 {
        backslashes(n) + seq![0x22u16, 0x22]
    } else if x == 0x0a {
        Seq::empty()
    } else {
        seq![x]
    }
}

/// The units of an argument, each escaped.
pub open spec fn escaped_units(s: Seq<u16>) -> Seq<u16>
    decreases s.len(),
{
    if s.len() == 0 {
        Seq::empty()
    } else {
        escaped_units(s.drop_last()) + escaped_unit(s.last(), trailing_backslashes(s.drop_last()))
    }
}

/// An argument as `cmd.exe` must receive it: escaped, between double quotes.
pub open spec fn cmd_quoted(s: Seq<u16>) -> Seq<u16> {
    seq![0x22u16] + escaped_units(s) + seq![0x22u16]
}

/// Appends `arg` to `args`, escaped for `cmd.exe` and between double quotes.
pub fn append_cmd_escaped(args: &mut Vec<u16>, arg: &[u16])
    ensures
        final(args)@ == old(args)@ + cmd_quoted(arg@),
{
    let ghost start = args@;
    args.push(0x22);
    let mut backslash: usize = 0;
    let mut i: usize = 0;
    assert(arg@.take(0) =~= Seq::<u16>::empty());
    assert(args@ =~= start + seq![0x22u16] + escaped_units(arg@.take(0)));
    while i < arg.len()
        invariant
            i <= arg@.len(),
            backslash <= i,
            backslash == trailing_backslashes(arg@.take(i as int)),
            args@ == start + seq![0x22u16] + escaped_units(arg@.take(i as int)),
        decreases arg@.len() - i,
    {
        let x = arg[i];
        let ghost before = args@;
        if x == 0x25 {
            args.push(0x25);
            args.push(0x25);
            args.push(0x63);
            args.push(0x64);
            args.push(0x3a);
            args.push(0x7e);
            args.push(0x2c);
            args.push(0x25);
            assert(args@ =~= before + percent_escaped());
        } else if x == 0x22 {
            let mut k: usize = 0;
            while k < backslash
                invariant
                    k <= backslash,
                    args@ == before + backslashes(k as nat),
                decreases backslash - k,
            {
                args.push(0x5c);
                k = k + 1;
                assert(args@ =~= before + backslashes(k as nat));
            }
            args.push(0x22);
            args.push(0x22);
            assert(args@ =~= before + (backslashes(backslash as nat) + seq![0x22u16, 0x22]));
        } else if x == 0x0a {
            assert(args@ =~= before + Seq::<u16>::empty());
        } else {
            args.push(x);
            assert(args@ =~= before + seq![x]);
        }
        proof {
            let t = arg@.take(i + 1);
            assert(t.drop_last() =~= arg@.take(i as int));
            assert(t.last() == x);
        }
        if x == 0x5c {
            backslash = backslash + 1;
        } else {
            backslash = 0;
        }
        i = i + 1;
    }
    assert(arg@.take(arg@.len() as int) =~= arg@);
    args.push(0x22);
    assert(args@ =~= start + cmd_quoted(arg@));
}

/// The UTF-16 units of an ASCII text.
pub open spec fn ascii_units(s: Seq<char>) -> Seq<u16> {
    s.map_values(|c: char| c as u16)
}

/// Appends the UTF-16 units of the ASCII text `s`.
fn push_ascii(out: &mut Vec<u16>, s: &str)
    requires
        is_ascii(s),
    ensures
        final(out)@ == old(out)@ + ascii_units(s@),
{
    let ghost start = out@;
    let bytes = s.as_bytes();
    proof {
        is_ascii_spec_bytes(s);
    }
    let mut i: usize = 0;
    while i < bytes.len()
        invariant
            i <= bytes@.len(),
            bytes@.len() == s@.len(),
            forall|j: int| 0 <= j < s@.len() ==> bytes@[j] == #[trigger] s@[j] as u8,
            is_ascii(s),
            out@ == start + ascii_units(s@.take(i as int)),
        decreases bytes@.len() - i,
    {
        let b = bytes[i];
        proof {
            let c = s@[i as int];
            assert((c as u32) < 0x80);
            assert(b as u16 == c as u16);
            assert(s@.take(i + 1) =~= s@.take(i as int).push(c));
        }
        out.push(b as u16);
        i = i + 1;
        assert(out@ =~= start + ascii_units(s@.take(i as int)));
    }
    assert(s@.take(s@.len() as int) =~= s@);
}

/// The arguments, each after a space and quoted for `cmd.exe`.
pub open spec fn quoted_args(args: Seq<Seq<u16>>) -> Seq<u16>
    decreases args.len(),
{
    if args.len() == 0 {
        Seq::empty()
    } else {
        quoted_args(args.drop_last()) + seq![0x20u16] + cmd_quoted(args.last())
    }
}

/// The switches that start the command line: no command extensions turned off, no delayed
/// expansion, no AutoRun, and `start` without a new window.
pub open spec fn start_switches() -> Seq<char> {
    "/E:ON /V:OFF /d /c start /b "@
}

/// The arguments given to `cmd.exe` to start `path` with `args` under the window title `name`:
/// the switches, then the title, the program and each argument, quoted and separated by
/// spaces.
pub fn windows_start_command_line(name: &[u16], path: &[u16], args: &[Vec<u16>]) -> (r: Vec<u16>)
    ensures
        r@ == ascii_units(start_switches()) + cmd_quoted(name@) + seq![0x20u16]
            + cmd_quoted(path@) + quoted_args(args@.map_values(|a: Vec<u16>| a@)),
{
    let mut cmd_args: Vec<u16> = Vec::new();
    let switches = "/E:ON /V:OFF /d /c start /b ";
    proof {
        reveal_strlit("/E:ON /V:OFF /d /c start /b ");
    }
    push_ascii(&mut cmd_args, switches);
    append_cmd_escaped(&mut cmd_args, name);
    cmd_args.push(0x20);
    append_cmd_escaped(&mut cmd_args, path);
    let ghost head = cmd_args@;
    let ghost all = args@.map_values(|a: Vec<u16>| a@);
    let mut i: usize = 0;
    assert(all.take(0) =~= Seq::<Seq<u16>>::empty());
    assert(cmd_args@ =~= head + quoted_args(all.take(0)));
    while i < args.len()
        invariant
            i <= args@.len(),
            all == args@.map_values(|a: Vec<u16>| a@),
            cmd_args@ == head + quoted_args(all.take(i as int)),
        decreases args@.len() - i,
    {
        cmd_args.push(0x20);
        append_cmd_escaped(&mut cmd_args, args[i].as_slice());
        proof {
            let t = all.take(i + 1);
            assert(t.drop_last() =~= all.take(i as int));
            assert(t.last() == args@[i as int]@);
        }
        i = i + 1;
        assert(cmd_args@ =~= head + quoted_args(all.take(i as int)));
    }
    assert(all.take(args@.len() as int) =~= all);
    cmd_args
}

// ---------------------------------------------------------------------------------------
// Describing a Linux system.

/// The value of the last line of an `os-release` file that starts with `key`: every leading
/// `key` and every surrounding double quote removed.
pub open spec fn os_release_field(lines: Seq<Seq<char>>, key: Seq<char>) -> Option<Seq<char>> {
    match last_with_prefix(lines, key) {
        Some(l) => Some(trim_char(strip_all_prefix(l, key), '"')),
        None => None,
    }
}

/// The distribution an `os-release` file names: its `PRETTY_NAME`; else its `NAME` and
/// `VERSION` with a space between them; else its `NAME`.
pub open spec fn os_release_name(file: Seq<char>) -> Option<Seq<char>> {
    let lines = lines_of(file);
    match os_release_field(lines, "PRETTY_NAME="@) {
        Some(p) => Some(p),
        None => match (os_release_field(lines, "NAME="@), os_release_field(lines, "VERSION="@)) {
            (Some(n), Some(v)) => Some(n + seq![' '] + v),
            (Some(n), None) => Some(n),
            _ => None,
        },
    }
}

/// The description that the output of `lsb_release -d` gives: its first line that starts with
/// `Description:` and a tab, without that label and trimmed.
pub open spec fn lsb_description(output: Seq<char>) -> Option<Seq<char>> {
    match first_with_prefix(lines_of(output), "Description:\t"@) {
        Some(l) => Some(trim_both(strip_all_prefix(l, "Description:\t"@))),
        None => None,
    }
}

/// How the system is described: `Linux`, the kernel release (`(unknown kernel)` when it could
/// not be read), a comma, then the description of `lsb_release`, else the name in
/// `os-release`, else `Unknown Distribution`.
pub open spec fn linux_info(
    kernel: Option<Seq<char>>,
    lsb_output: Option<Seq<char>>,
    os_release: Option<Seq<char>>,
) -> Seq<char> {
    let k = match kernel {
        Some(k) => k,
        None => "(unknown kernel)"@,
    };
    let lsb = match lsb_output {
        Some(o) => lsb_description(o),
        None => None,
    };
    let release = match os_release {
        Some(f) => os_release_name(f),
        None => None,
    };
    let distribution = match lsb {
        Some(d) => d,
        None => match release {
            Some(n) => n,
            None => "Unknown Distribution"@,
        },
    };
    "Linux "@ + k + ", "@ + distribution
}

pub open spec fn opt_str_view(o: Option<&str>) -> Option<Seq<char>> {
    match o {
        Some(s) => Some(s@),
        None => None,
    }
}

fn os_release_field_of<'a>(lines: &Vec<&'a str>, key: &str) -> (r: Option<&'a str>)
    requires
        key@.len() > 0,
    ensures
        opt_str_view(r) == os_release_field(strs_view(lines@), key@),
{
    match find_last_with_prefix(lines, key) {
        Some(l) => {
            let quote = "\"";
            proof {
                reveal_strlit("\"");
            }
            Some(trim_matching(strip_all(l, key), quote))
        },
        None => None,
    }
}

/// The distribution an `os-release` file names, if it names one.
pub fn os_release_description(file: &str) -> (r: Option<String>)
    ensures
        opt_view(r) == os_release_name(file@),
{
    let lines = text_lines(file);
    let pretty_key = "PRETTY_NAME=";
    let name_key = "NAME=";
    let version_key = "VERSION=";
    proof {
        reveal_strlit("PRETTY_NAME=");
        reveal_strlit("NAME=");
        reveal_strlit("VERSION=");
    }
    if let Some(p) = os_release_field_of(&lines, pretty_key) {
        return Some(owned(p));
    }
    let name = os_release_field_of(&lines, name_key);
    let version = os_release_field_of(&lines, version_key);
    match (name, version) {
        (Some(n), Some(v)) => {
            let mut out = owned(n);
            string_push(&mut out, ' ');
            string_push_str(&mut out, v);
            assert(out@ =~= n@ + seq![' '] + v@);
            Some(out)
        },
        (Some(n), None) => Some(owned(n)),
        _ => None,
    }
}

/// The description in the output of `lsb_release -d`, if there is one.
pub fn lsb_release_description(output: &str) -> (r: Option<String>)
    ensures
        opt_view(r) == lsb_description(output@),
{
    let lines = text_lines(output);
    let label = "Description:\t";
    proof {
        reveal_strlit("Description:\t");
    }
    match find_first_with_prefix(&lines, label) {
        Some(l) => Some(owned(str_trim(strip_all(l, label)))),
        None => None,
    }
}

/// How a Linux system is described, from the kernel release, the output of `lsb_release -d`
/// and the content of `/etc/os-release` (each `None` where it could not be had).
pub fn linux_os_info(kernel: Option<&str>, lsb_output: Option<&str>, os_release: Option<&str>) -> (r: String)
    ensures
        r@ == linux_info(opt_str_view(kernel), opt_str_view(lsb_output), opt_str_view(os_release)),
{
    let mut out = String::new();
    let linux = "Linux ";
    let comma = ", ";
    let unknown_kernel = "(unknown kernel)";
    let unknown = "Unknown Distribution";
    proof {
        reveal_strlit("Linux ");
        reveal_strlit(", ");
        reveal_strlit("(unknown kernel)");
        reveal_strlit("Unknown Distribution");
    }
    string_push_str(&mut out, linux);
    match kernel {
        Some(k) => string_push_str(&mut out, k),
        None => string_push_str(&mut out, unknown_kernel),
    }
    string_push_str(&mut out, comma);
    let lsb = match lsb_output {
        Some(o) => lsb_release_description(o),
        None => None,
    };
    match lsb {
        Some(d) => string_push_str(&mut out, d.as_str()),
        None => {
            let release = match os_release {
                Some(f) => os_release_description(f),
                None => None,
            };
            match release {
                Some(n) => string_push_str(&mut out, n.as_str()),
                None => string_push_str(&mut out, unknown),
            }
        },
    }
    out
}

// ---------------------------------------------------------------------------------------
// Undoing what an AppImage launcher did to the environment.

/// Whether `v` starts with `p`.
pub open spec fn bytes_start_with(v: Seq<u8>, p: Seq<u8>) -> bool {
    p.len() <= v.len() && v.take(p.len() as int) == p
}

/// The position of the first `:` (`0x3a`) in `v`.
pub open spec fn first_colon(v: Seq<u8>) -> Option<nat>
    decreases v.len(),
{
    if v.len() == 0 {
        None
    } else if v[0] == 0x3a {
        Some(0)
    } else {
        match first_colon(v.drop_first()) {
            Some(i) => Some(i + 1),
            None => None,
        }
    }
}

proof fn lemma_first_colon(v: Seq<u8>, k: int)
    requires
        0 <= k <= v.len(),
        forall|j: int| 0 <= j < k ==> v[j] != 0x3a,
    ensures
        k < v.len() && v[k] == 0x3a ==> first_colon(v) == Some(k as nat),
        k == v.len() ==> first_colon(v) is None,
    decreases k,
{
    if k > 0 {
        let t = v.drop_first();
        assert forall|j: int| 0 <= j < k - 1 implies t[j] != 0x3a by {
            assert(t[j] == v[j + 1]);
        }
        lemma_first_colon(t, k - 1);
    }
}

pub proof fn lemma_first_colon_bound(v: Seq<u8>)
    ensures
        first_colon(v) matches Some(i) ==> i < v.len(),
    decreases v.len(),
{
    if v.len() > 0 && v[0] != 0x3a {
        lemma_first_colon_bound(v.drop_first());
    }
}

/// A search path from which every leading entry inside the AppImage directory `appdir` is
/// removed: while the value starts with `appdir`, everything up to and with the first `:`
/// goes, or the whole value when there is none.
pub open spec fn strip_appdir_entries(v: Seq<u8>, appdir: Seq<u8>) -> Seq<u8>
    decreases v.len(),
{
    if appdir.len() > 0 && bytes_start_with(v, appdir) {
        match first_colon(v) {
            Some(i) => {
                proof {
                    lemma_first_colon_bound(v);
                }
                strip_appdir_entries(v.skip(i as int + 1), appdir)
            },
            None => Seq::empty(),
        }
    } else {
        v
    }
}

/// Whether the AppImage directory can be taken out of search paths: it is not empty and holds
/// no `:`.
pub open spec fn appdir_usable(appdir: Seq<u8>) -> bool {
    appdir.len() > 0 && !appdir.contains(0x3a)
}

/// What to do with a variable that the launched program would inherit.
pub enum EnvFix {
    /// Leave it as it is.
    Keep,
    /// Set it to this value.
    SetTo(Vec<u8>),
    /// Remove it.
    Remove,
}

/// Whether `fix` is what becomes of a variable with value `v`: a value that does not start with
/// `appdir` is kept; one that does loses its entries inside `appdir` and is set to what is
/// left, or removed when nothing is.
pub open spec fn is_env_fix(fix: EnvFix, appdir: Seq<u8>, v: Seq<u8>) -> bool {
    let left = strip_appdir_entries(v, appdir);
    match fix {
        EnvFix::Keep => !bytes_start_with(v, appdir),
        EnvFix::SetTo(n) => bytes_start_with(v, appdir) && left.len() > 0 && n@ == left,
        EnvFix::Remove => bytes_start_with(v, appdir) && left.len() == 0,
    }
}

/// Whether the AppImage directory can be taken out of search paths.
pub fn appdir_is_usable(appdir: &[u8]) -> (r: bool)
    ensures
        r == appdir_usable(appdir@),
{
    if appdir.len() == 0 {
        return false;
    }
    let mut i: usize = 0;
    while i < appdir.len()
        invariant
            i <= appdir@.len(),
            forall|j: int| 0 <= j < i ==> appdir@[j] != 0x3a,
        decreases appdir@.len() - i,
    {
        if appdir[i] == 0x3a {
            assert(appdir@.contains(0x3a)) by {
                assert(appdir@[i as int] == 0x3a);
            }
            return false;
        }
        i = i + 1;
    }
    true
}

fn starts_with_at(v: &[u8], start: usize, p: &[u8]) -> (r: bool)
    requires
        start <= v@.len(),
    ensures
        r == bytes_start_with(v@.skip(start as int), p@),
{
    if v.len() - start < p.len() {
        return false;
    }
    let mut i: usize = 0;
    while i < p.len()
        invariant
            start + p@.len() <= v@.len(),
            v@.len() == v.len(),
            i <= p@.len(),
            forall|j: int| 0 <= j < i ==> v@[start + j] == p@[j],
        decreases p@.len() - i,
    {
        if v[start + i] != p[i] {
            assert(v@.skip(start as int).take(p@.len() as int)[i as int] == v@[start + i]);
            return false;
        }
        i = i + 1;
    }
    assert(v@.skip(start as int).take(p@.len() as int) =~= p@);
    true
}

/// What becomes of an inherited variable with value `value` once the entries inside the
/// AppImage directory `appdir` are taken out of it.
pub fn appdir_env_fix(appdir: &[u8], value: &[u8]) -> (r: EnvFix)
    requires
        appdir@.len() > 0,
    ensures
        is_env_fix(r, appdir@, value@),
{
    if !starts_with_at(value, 0, appdir) {
        assert(value@.skip(0) =~= value@);
        return EnvFix::Keep;
    }
    assert(value@.skip(0) =~= value@);
    let n = value.len();
    let mut start: usize = 0;
    loop
        invariant
            start <= n,
            n == value@.len(),
            appdir@.len() > 0,
            bytes_start_with(value@, appdir@),
            strip_appdir_entries(value@, appdir@) == strip_appdir_entries(value@.skip(start as int), appdir@),
        ensures
            start <= n,
            bytes_start_with(value@, appdir@),
            strip_appdir_entries(value@, appdir@) == value@.skip(start as int),
        decreases n - start,
    {
        if !starts_with_at(value, start, appdir) {
            break;
        }
        let ghost rest = value@.skip(start as int);
        let mut k: usize = start;
        while k < n && value[k] != 0x3a
            invariant
                start <= k <= n,
                n == value@.len(),
                forall|j: int| start <= j < k ==> value@[j] != 0x3a,
            decreases n - k,
        {
            k = k + 1;
        }
        proof {
            assert forall|j: int| 0 <= j < k - start implies rest[j] != 0x3a by {
                assert(rest[j] == value@[start + j]);
            }
            lemma_first_colon(rest, k - start);
        }
        if k == n {
            start = n;
            assert(value@.skip(n as int) =~= Seq::<u8>::empty());
            break;
        }
        assert(rest.skip(k - start + 1) =~= value@.skip(k + 1));
        start = k + 1;
    }
    let left = value.len() - start;
    if left == 0 {
        assert(value@.skip(start as int) =~= Seq::<u8>::empty());
        return EnvFix::Remove;
    }
    let mut out: Vec<u8> = Vec::new();
    let mut i: usize = start;
    while i < n
        invariant
            start <= i <= n,
            n == value@.len(),
            out@ == value@.subrange(start as int, i as int),
        decreases n - i,
    {
        out.push(value[i]);
        i = i + 1;
        assert(out@ =~= value@.subrange(start as int, i as int));
    }
    assert(out@ =~= value@.skip(start as int));
    EnvFix::SetTo(out)
}

} // verus!
