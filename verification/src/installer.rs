use vstd::prelude::*;
use crate::gui::os::{backslashes, trailing_backslashes};
use crate::version::buf::str_eq;

verus! {

// ---------------------------------------------------------------------------------------
// The machine the online installer runs on.

/// The processor architecture of a Windows machine.
#[derive(Clone, Copy, Debug, PartialEq, Eq, Structural)]
pub enum HostArch {
    X86,
    X64,
    Arm,
    Arm64,
    Unknown(u16),
}

/// `IMAGE_FILE_MACHINE_AMD64`.
pub const IMAGE_FILE_MACHINE_AMD64: u16 = 0x8664;
/// `IMAGE_FILE_MACHINE_I386`.
pub const IMAGE_FILE_MACHINE_I386: u16 = 0x014c;
/// `IMAGE_FILE_MACHINE_ARM64`.
pub const IMAGE_FILE_MACHINE_ARM64: u16 = 0xaa64;
/// `IMAGE_FILE_MACHINE_ARM`.
pub const IMAGE_FILE_MACHINE_ARM: u16 = 0x01c0;
/// `IMAGE_FILE_MACHINE_ARMNT`: ARM Thumb-2, little endian.
pub const IMAGE_FILE_MACHINE_ARMNT: u16 = 0x01c4;

/// `PROCESSOR_ARCHITECTURE_AMD64`.
pub const PROCESSOR_ARCHITECTURE_AMD64: u16 = 9;
/// `PROCESSOR_ARCHITECTURE_INTEL`.
pub const PROCESSOR_ARCHITECTURE_INTEL: u16 = 0;
/// `PROCESSOR_ARCHITECTURE_ARM64`.
pub const PROCESSOR_ARCHITECTURE_ARM64: u16 = 12;
/// `PROCESSOR_ARCHITECTURE_ARM`.
pub const PROCESSOR_ARCHITECTURE_ARM: u16 = 5;

/// The architecture that an `IMAGE_FILE_MACHINE_*` value (as `IsWow64Process2` reports the
/// native machine) stands for.
pub fn machine_to_arch(machine: u16) -> (r: HostArch)
    ensures
        r == (if machine == IMAGE_FILE_MACHINE_AMD64 {
            HostArch::X64
        } else if machine == IMAGE_FILE_MACHINE_I386 {
            HostArch::X86
        } else if machine == IMAGE_FILE_MACHINE_ARM64 {
            HostArch::Arm64
        } else if machine == IMAGE_FILE_MACHINE_ARM || machine == IMAGE_FILE_MACHINE_ARMNT {
            HostArch::Arm
        } else {
            HostArch::Unknown(machine)
        }),
{
    if machine == IMAGE_FILE_MACHINE_AMD64 {
        HostArch::X64
    } else if machine == IMAGE_FILE_MACHINE_I386 {
        HostArch::X86
    } else if machine == IMAGE_FILE_MACHINE_ARM64 {
        HostArch::Arm64
    } else if machine == IMAGE_FILE_MACHINE_ARM || machine == IMAGE_FILE_MACHINE_ARMNT {
        HostArch::Arm
    } else {
        HostArch::Unknown(machine)
    }
}

/// The architecture that a `PROCESSOR_ARCHITECTURE_*` value (as `GetNativeSystemInfo` reports
/// it) stands for.
pub fn processor_arch_to_arch(pa: u16) -> (r: HostArch)
    ensures
        r == (if pa == PROCESSOR_ARCHITECTURE_AMD64 {
            HostArch::X64
        } else if pa == PROCESSOR_ARCHITECTURE_INTEL {
            HostArch::X86
        } else if pa == PROCESSOR_ARCHITECTURE_ARM64 {
            HostArch::Arm64
        } else if pa == PROCESSOR_ARCHITECTURE_ARM {
            HostArch::Arm
        } else {
            HostArch::Unknown(pa)
        }),
{
    if pa == PROCESSOR_ARCHITECTURE_AMD64 {
        HostArch::X64
    } else if pa == PROCESSOR_ARCHITECTURE_INTEL {
        HostArch::X86
    } else if pa == PROCESSOR_ARCHITECTURE_ARM64 {
        HostArch::Arm64
    } else if pa == PROCESSOR_ARCHITECTURE_ARM {
        HostArch::Arm
    } else {
        HostArch::Unknown(pa)
    }
}

/// The platforms of the release whose installer can run on `arch`, preferred first: x64 takes
/// the x64 build; ARM64 takes its own build, else the x64 one under emulation; other machines
/// take none.
pub open spec fn platforms_for(arch: HostArch) -> Seq<Seq<char>> {
    match arch {
        HostArch::X64 => seq!["windows-x86_64"@],
        HostArch::Arm64 => seq!["windows-aarch64"@, "windows-x86_64"@],
        _ => Seq::empty(),
    }
}

/// The platforms of the release whose installer can run on `arch`, preferred first.
pub fn installer_platforms(arch: HostArch) -> (r: Vec<&'static str>)
    ensures
        r@.map_values(|p: &'static str| p@) == platforms_for(arch),
{
    let x64 = "windows-x86_64";
    let arm64 = "windows-aarch64";
    let mut r: Vec<&'static str> = Vec::new();
    match arch {
        HostArch::X64 => {
            r.push(x64);
        },
        HostArch::Arm64 => {
            r.push(arm64);
            r.push(x64);
        },
        _ => {},
    }
    assert(r@.map_values(|p: &'static str| p@) =~= platforms_for(arch));
    r
}

/// The first of `preferred` that `available` holds.
pub open spec fn first_available(preferred: Seq<Seq<char>>, available: Seq<Seq<char>>) -> Option<Seq<char>>
    decreases preferred.len(),
{
    if preferred.len() == 0 {
        None
    } else if available.contains(preferred[0]) {
        Some(preferred[0])
    } else {
        first_available(preferred.drop_first(), available)
    }
}

/// The platform whose installer is downloaded: the first of those that can run on `arch`
/// (preferred first) that the release offers; `None` when the release offers none of them.
pub fn pick_platform(arch: HostArch, offered: &[String]) -> (r: Option<&'static str>)
    ensures
        r matches Some(p) ==> first_available(platforms_for(arch), offered@.map_values(|s: String| s@)) == Some(p@),
        r is None ==> first_available(platforms_for(arch), offered@.map_values(|s: String| s@)) is None,
{
    let ghost avail = offered@.map_values(|s: String| s@);
    let preferred = installer_platforms(arch);
    let ghost prefs = preferred@.map_values(|p: &'static str| p@);
    assert(prefs.skip(0) =~= prefs);
    let mut i: usize = 0;
    while i < preferred.len()
        invariant
            i <= preferred@.len(),
            prefs == preferred@.map_values(|p: &'static str| p@),
            avail == offered@.map_values(|s: String| s@),
            first_available(platforms_for(arch), avail) == first_available(prefs.skip(i as int), avail),
        decreases preferred@.len() - i,
    {
        let candidate = preferred[i];
        let mut j: usize = 0;
        while j < offered.len()
            invariant
                j <= offered@.len(),
                i < preferred@.len(),
                candidate == preferred@[i as int],
                avail == offered@.map_values(|s: String| s@),
                prefs == preferred@.map_values(|p: &'static str| p@),
                first_available(platforms_for(arch), avail) == first_available(prefs.skip(i as int), avail),
                forall|k: int| 0 <= k < j ==> avail[k] != candidate@,
            decreases offered@.len() - j,
        {
            if str_eq(offered[j].as_str(), candidate) {
                proof {
                    assert(avail[j as int] == candidate@);
                    assert(prefs.skip(i as int)[0] == candidate@);
                    assert(avail.contains(prefs.skip(i as int)[0]));
                }
                return Some(candidate);
            }
            j = j + 1;
        }
        proof {
            let rest = prefs.skip(i as int);
            assert(rest[0] == candidate@);
            assert(!avail.contains(rest[0]));
            assert(rest.drop_first() =~= prefs.skip(i + 1));
        }
        i = i + 1;
    }
    proof {
        assert(prefs.skip(i as int).len() == 0);
    }
    None
}

/// Whether an HTTP status promises a body: a success (`2xx`) other than `204 No Content`.
pub fn is_success_with_body(status: u16) -> (r: bool)
    ensures
        r == (200 <= status < 300 && status != 204),
{
    !(status < 200 || status >= 300 || status == 204)
}

// ---------------------------------------------------------------------------------------
// Handing the command line on to the offline installer.

/// The position in `s` of the first `"` (`0x22`) at or after `i`, or the length of `s`.
pub open spec fn scan_to_quote(s: Seq<u16>, i: int) -> int
    decreases s.len() - i,
{
    if i >= s.len() || i < 0 {
        s.len() as int
    } else if s[i] == 0x22 {
        i
    } else {
        scan_to_quote(s, i + 1)
    }
}

/// The position in `s` of the first space or tab at or after `i`, or the length of `s`.
pub open spec fn scan_to_blank(s: Seq<u16>, i: int) -> int
    decreases s.len() - i,
{
    if i >= s.len() || i < 0 {
        s.len() as int
    } else if s[i] == 0x20 || s[i] == 0x09 {
        i
    } else {
        scan_to_blank(s, i + 1)
    }
}

/// Where the arguments start in a raw command line: after a quoted program name and its
/// closing quote, or after an unquoted program name, which ends at the first space or tab.
pub open spec fn tail_start(full: Seq<u16>) -> int {
    if full.len() > 0 && full[0] == 0x22 {
        let close = scan_to_quote(full, 1);
        if close < full.len() {
            close + 1
        } else {
            close
        }
    } else {
        scan_to_blank(full, 0)
    }
}

proof fn lemma_scan_bounds(s: Seq<u16>, i: int)
    requires
        0 <= i <= s.len(),
    ensures
        i <= scan_to_quote(s, i) <= s.len(),
        i <= scan_to_blank(s, i) <= s.len(),
    decreases s.len() - i,
{
    if i < s.len() {
        lemma_scan_bounds(s, i + 1);
    }
}

/// The raw arguments of a command line: everything after the program name, the spaces before
/// the first argument included.
pub fn command_line_tail(full: &[u16]) -> (r: &[u16])
    ensures
        0 <= tail_start(full@) <= full@.len(),
        r@ == full@.skip(tail_start(full@)),
{
    let n = full.len();
    let mut i: usize = 0;
    proof {
        lemma_scan_bounds(full@, 0);
        if full@.len() > 0 {
            lemma_scan_bounds(full@, 1);
        }
    }
    if n > 0 && full[0] == 0x22 {
        i = 1;
        while i < n && full[i] != 0x22
            invariant
                1 <= i <= n,
                n == full@.len(),
                full@[0] == 0x22,
                scan_to_quote(full@, i as int) == scan_to_quote(full@, 1),
            decreases n - i,
        {
            i = i + 1;
        }
        if i < n {
            i = i + 1;
        }
    } else {
        while i < n && full[i] != 0x20 && full[i] != 0x09
            invariant
                i <= n,
                n == full@.len(),
                scan_to_blank(full@, i as int) == scan_to_blank(full@, 0),
            decreases n - i,
        {
            i = i + 1;
        }
    }
    let r = &full[i..n];
    assert(r@ =~= full@.skip(tail_start(full@)));
    r
}

/// Whether an argument needs quotes: it is empty or holds a space, a tab or a double quote.
pub open spec fn needs_quotes(w: Seq<u16>) -> bool {
    w.len() == 0 || w.contains(0x20) || w.contains(0x09) || w.contains(0x22)
}

/// What the unit `c` of a quoted argument becomes when `n` backslashes (already written) come
/// right before it: a double quote gets one more backslash for each of those and one of its
/// own, so that the backslashes before it are read as themselves and the quote as a quote; any
/// other unit, a backslash included, is written as it is (a backslash that is not followed by
/// a double quote stands for itself).
pub open spec fn quoted_unit(c: u16, n: nat) -> Seq<u16> {
    if c == 0x22 {
        backslashes(n + 1) + seq![0x22u16]
    } else {
        seq![c]
    }
}

/// The units of an argument inside quotes.
pub open spec fn quoted_units(w: Seq<u16>) -> Seq<u16>
    decreases w.len(),
{
    if w.len() == 0 {
        Seq::empty()
    } else {
        quoted_units(w.drop_last()) + quoted_unit(w.last(), trailing_backslashes(w.drop_last()))
    }
}

/// An argument as the command line of a Windows program carries it, so that the program's
/// splitting of its command line (backslashes stand for themselves except before a double
/// quote, where each pair stands for one and an odd one makes the quote a literal one) gives
/// the argument back: unchanged when it needs no quotes, else between double quotes, with the
/// backslashes it ends with doubled before the closing quote.
pub open spec fn crt_quoted(w: Seq<u16>) -> Seq<u16> {
    if !needs_quotes(w) {
        w
    } else {
        seq![0x22u16] + quoted_units(w) + backslashes(trailing_backslashes(w)) + seq![0x22u16]
    }
}

/// `units` in front of what `r` holds, if anything.
pub open spec fn prepend_units(units: Seq<u16>, r: Option<Seq<u16>>) -> Option<Seq<u16>> {
    match r {
        Some(rest) => Some(units + rest),
        None => None,
    }
}

/// The argument the Windows C runtime reads from `s` when `s` is all of it: a run of
/// backslashes before a double quote stands for half as many backslashes, and an odd one makes
/// the quote a literal one; otherwise a double quote opens or closes quotes (inside quotes, two
/// in a row stand for one literal quote); other backslashes stand for themselves; a space or tab
/// outside quotes ends the argument, which gives `None` here. `quoted`: inside quotes; `n`:
/// backslashes read and not yet written.
pub open spec fn crt_read(s: Seq<u16>, quoted: bool, n: nat) -> Option<Seq<u16>>
    decreases s.len(),
{
    if s.len() == 0 {
        Some(backslashes(n))
    } else if s[0] == 0x5c {
        crt_read(s.drop_first(), quoted, n + 1)
    } else if s[0] == 0x22 {
        if n % 2 == 1 {
            prepend_units(backslashes(n / 2) + seq![0x22u16], crt_read(s.drop_first(), quoted, 0))
        } else if quoted && s.len() > 1 && s[1] == 0x22 {
            prepend_units(backslashes(n / 2) + seq![0x22u16], crt_read(s.skip(2), quoted, 0))
        } else {
            prepend_units(backslashes(n / 2), crt_read(s.drop_first(), !quoted, 0))
        }
    } else if !quoted && (s[0] == 0x20 || s[0] == 0x09) {
        None
    } else {
        prepend_units(backslashes(n) + seq![s[0]], crt_read(s.drop_first(), quoted, 0))
    }
}

/// The quoted units of `w` when `n` backslashes come right before it (read left to right).
spec fn units_after(w: Seq<u16>, n: nat) -> Seq<u16>
    decreases w.len(),
{
    if w.len() == 0 {
        Seq::empty()
    } else {
        quoted_unit(w[0], n) + units_after(w.drop_first(), if w[0] == 0x5c { n + 1 } else { 0 })
    }
}

/// The backslashes that end `w` when `n` backslashes come right before it.
spec fn trailing_after(w: Seq<u16>, n: nat) -> nat
    decreases w.len(),
{
    if w.len() == 0 {
        n
    } else {
        trailing_after(w.drop_first(), if w[0] == 0x5c { n + 1 } else { 0 })
    }
}

proof fn lemma_units_split(p: Seq<u16>, q: Seq<u16>)
    ensures
        quoted_units(p + q) == quoted_units(p) + units_after(q, trailing_backslashes(p)),
        trailing_backslashes(p + q) == trailing_after(q, trailing_backslashes(p)),
    decreases q.len(),
{
    if q.len() == 0 {
        assert(p + q =~= p);
        assert(quoted_units(p) + units_after(q, trailing_backslashes(p)) =~= quoted_units(p));
    } else {
        let c = q[0];
        let p2 = p.push(c);
        let q2 = q.drop_first();
        assert(p + q =~= p2 + q2);
        assert(p2.drop_last() =~= p);
        lemma_units_split(p2, q2);
        assert(quoted_units(p2) == quoted_units(p) + quoted_unit(c, trailing_backslashes(p)));
        assert(trailing_backslashes(p2) == if c == 0x5c { trailing_backslashes(p) + 1 } else { 0 });
        assert(quoted_units(p) + units_after(q, trailing_backslashes(p))
            =~= quoted_units(p) + quoted_unit(c, trailing_backslashes(p)) + units_after(q2, trailing_backslashes(p2)));
    }
}

proof fn lemma_read_backslashes(k: nat, s: Seq<u16>, quoted: bool, n: nat)
    ensures
        crt_read(backslashes(k) + s, quoted, n) == crt_read(s, quoted, n + k),
    decreases k,
{
    if k > 0 {
        let t = backslashes(k) + s;
        assert(t[0] == 0x5c);
        assert(t.drop_first() =~= backslashes((k - 1) as nat) + s);
        lemma_read_backslashes((k - 1) as nat, s, quoted, n + 1);
    } else {
        assert(backslashes(0) + s =~= s);
    }
}

proof fn lemma_backslashes_add(a: nat, b: nat)
    ensures
        backslashes(a) + backslashes(b) == backslashes(a + b),
{
    assert(backslashes(a) + backslashes(b) =~= backslashes(a + b));
}

/// Inside quotes, the quoted units of `w` after `n` pending backslashes, the doubled trailing
/// backslashes and the closing quote read as those backslashes followed by `w`.
proof fn lemma_read_quoted(w: Seq<u16>, n: nat)
    ensures
        crt_read(units_after(w, n) + backslashes(trailing_after(w, n)) + seq![0x22u16], true, n)
            == Some(backslashes(n) + w),
    decreases w.len(),
{
    let close = seq![0x22u16];
    if w.len() == 0 {
        let s = units_after(w, n) + backslashes(trailing_after(w, n)) + close;
        assert(s =~= backslashes(n) + close);
        lemma_read_backslashes(n, close, true, n);
        assert((n + n) % 2 == 0);
        assert((n + n) / 2 == n);
        assert(close.drop_first() =~= Seq::<u16>::empty());
        assert(backslashes(n) + backslashes(0) =~= backslashes(n));
        assert(crt_read(Seq::<u16>::empty(), false, 0) == Some(backslashes(0)));
        assert(crt_read(close, true, n + n) == prepend_units(backslashes(n), crt_read(close.drop_first(), false, 0)));
        assert(crt_read(close, true, n + n) == Some(backslashes(n)));
        assert(backslashes(n) + w =~= backslashes(n));
    } else {
        let c = w[0];
        let w2 = w.drop_first();
        let m: nat = if c == 0x5c { n + 1 } else { 0 };
        let tail = units_after(w2, m) + backslashes(trailing_after(w2, m)) + close;
        lemma_read_quoted(w2, m);
        let s = units_after(w, n) + backslashes(trailing_after(w, n)) + close;
        assert(s =~= quoted_unit(c, n) + tail);
        if c == 0x5c {
            assert(s[0] == 0x5c);
            assert(s.drop_first() =~= tail);
            assert(backslashes(n) + w =~= backslashes(n + 1) + w2);
        } else if c == 0x22 {
            assert(quoted_unit(c, n) + tail =~= backslashes(n + 1) + (close + tail));
            lemma_read_backslashes(n + 1, close + tail, true, n);
            assert((close + tail)[0] == 0x22);
            assert((n + (n + 1)) % 2 == 1);
            assert((n + (n + 1)) / 2 == n);
            assert((close + tail).drop_first() =~= tail);
            assert(backslashes(0) + w2 =~= w2);
            assert(crt_read(close + tail, true, n + (n + 1))
                == prepend_units(backslashes(n) + seq![0x22u16], crt_read(tail, true, 0)));
            assert(backslashes(n) + seq![0x22u16] + w2 =~= backslashes(n) + w);
        } else {
            assert(s[0] == c);
            assert(s.drop_first() =~= tail);
            assert(backslashes(0) + w2 =~= w2);
            assert(crt_read(s, true, n) == prepend_units(backslashes(n) + seq![c], crt_read(tail, true, 0)));
            assert(backslashes(n) + seq![c] + w2 =~= backslashes(n) + w);
        }
    }
}

/// Outside quotes, an argument with no blank and no double quote after `n` pending
/// backslashes reads as those backslashes followed by it.
proof fn lemma_read_plain(w: Seq<u16>, n: nat)
    requires
        !w.contains(0x20) && !w.contains(0x09) && !w.contains(0x22),
    ensures
        crt_read(w, false, n) == Some(backslashes(n) + w),
    decreases w.len(),
{
    if w.len() == 0 {
        assert(backslashes(n) + w =~= backslashes(n));
    } else {
        let c = w[0];
        let w2 = w.drop_first();
        assert(w.contains(c));
        assert forall|x: u16| w2.contains(x) implies w.contains(x) by {
            let j = choose|j: int| 0 <= j < w2.len() && w2[j] == x;
            assert(w[j + 1] == x);
        }
        if c == 0x5c {
            lemma_read_plain(w2, n + 1);
            assert(backslashes(n) + w =~= backslashes(n + 1) + w2);
        } else {
            lemma_read_plain(w2, 0);
            assert(backslashes(0) + w2 =~= w2);
            assert(backslashes(n) + seq![c] + w2 =~= backslashes(n) + w);
        }
    }
}

/// The Windows C runtime reads the quoted form of any argument back as that argument.
pub proof fn lemma_quote_arg_reads_back(w: Seq<u16>)
    ensures
        crt_read(crt_quoted(w), false, 0) == Some(w),
{
    if !needs_quotes(w) {
        lemma_read_plain(w, 0);
        assert(backslashes(0) + w =~= w);
    } else {
        lemma_units_split(Seq::empty(), w);
        assert(Seq::<u16>::empty() + w =~= w);
        assert(quoted_units(Seq::<u16>::empty()) =~= Seq::<u16>::empty());
        lemma_read_quoted(w, 0);
        let body = units_after(w, 0) + backslashes(trailing_after(w, 0)) + seq![0x22u16];
        let s = crt_quoted(w);
        assert(s =~= seq![0x22u16] + body);
        assert(s[0] == 0x22);
        assert(s.drop_first() =~= body);
        if s.len() > 1 && s[1] == 0x22 {
            assert(body[0] == 0x22);
        }
        assert(backslashes(0) + w =~= w);
        assert(backslashes(0) =~= Seq::<u16>::empty());
    }
}

fn push_backslashes(out: &mut Vec<u16>, n: usize)
    ensures
        final(out)@ == old(out)@ + backslashes(n as nat),
{
    let ghost start = out@;
    let mut k: usize = 0;
    while k < n
        invariant
            k <= n,
            out@ == start + backslashes(k as nat),
        decreases n - k,
    {
        out.push(0x5c);
        k = k + 1;
        assert(out@ =~= start + backslashes(k as nat));
    }
}

fn needs_quoting(w: &[u16]) -> (r: bool)
    ensures
        r == needs_quotes(w@),
{
    if w.len() == 0 {
        return true;
    }
    let mut i: usize = 0;
    while i < w.len()
        invariant
            i <= w@.len(),
            forall|j: int| 0 <= j < i ==> w@[j] != 0x20 && w@[j] != 0x09 && w@[j] != 0x22,
        decreases w@.len() - i,
    {
        let c = w[i];
        if c == 0x20 || c == 0x09 || c == 0x22 {
            assert(w@[i as int] == c);
            return true;
        }
        i = i + 1;
    }
    assert(!w@.contains(0x20) && !w@.contains(0x09) && !w@.contains(0x22));
    false
}

/// One argument quoted so that a Windows program's splitting of its command line gives it back.
pub fn quote_arg(wide: &[u16]) -> (r: Vec<u16>)
    requires
        2 * wide@.len() + 2 <= usize::MAX,
    ensures
        r@ == crt_quoted(wide@),
{
    let mut out: Vec<u16> = Vec::new();
    if !needs_quoting(wide) {
        let mut i: usize = 0;
        while i < wide.len()
            invariant
                i <= wide@.len(),
                out@ == wide@.take(i as int),
            decreases wide@.len() - i,
        {
            out.push(wide[i]);
            i = i + 1;
            assert(out@ =~= wide@.take(i as int));
        }
        assert(wide@.take(wide@.len() as int) =~= wide@);
        return out;
    }
    out.push(0x22);
    let mut backslash: usize = 0;
    let mut i: usize = 0;
    assert(wide@.take(0) =~= Seq::<u16>::empty());
    assert(out@ =~= seq![0x22u16] + quoted_units(wide@.take(0)));
    while i < wide.len()
        invariant
            i <= wide@.len(),
            2 * wide@.len() + 2 <= usize::MAX,
            backslash <= i,
            backslash == trailing_backslashes(wide@.take(i as int)),
            out@ == seq![0x22u16] + quoted_units(wide@.take(i as int)),
        decreases wide@.len() - i,
    {
        let c = wide[i];
        let ghost before = out@;
        if c == 0x22 {
            push_backslashes(&mut out, backslash + 1);
            out.push(0x22);
            assert(out@ =~= before + quoted_unit(c, backslash as nat));
        } else {
            out.push(c);
            assert(out@ =~= before + quoted_unit(c, backslash as nat));
        }
        proof {
            let t = wide@.take(i + 1);
            assert(t.drop_last() =~= wide@.take(i as int));
            assert(t.last() == c);
        }
        if c == 0x5c {
            backslash = backslash + 1;
        } else {
            backslash = 0;
        }
        i = i + 1;
    }
    assert(wide@.take(wide@.len() as int) =~= wide@);
    push_backslashes(&mut out, backslash);
    out.push(0x22);
    out
}

/// The command line that starts the offline installer: its path quoted as the program name,
/// the arguments of this process's own command line `full` as they were, and a terminating
/// zero.
pub fn command_line_passthrough(exe_path: &[u16], full: &[u16]) -> (r: Vec<u16>)
    requires
        2 * exe_path@.len() + 2 <= usize::MAX,
    ensures
        r@ == crt_quoted(exe_path@) + full@.skip(tail_start(full@)) + seq![0u16],
{
    let mut cmdline = quote_arg(exe_path);
    let ghost head = cmdline@;
    let tail = command_line_tail(full);
    let mut i: usize = 0;
    while i < tail.len()
        invariant
            i <= tail@.len(),
            cmdline@ == head + tail@.take(i as int),
        decreases tail@.len() - i,
    {
        cmdline.push(tail[i]);
        i = i + 1;
        assert(cmdline@ =~= head + tail@.take(i as int));
    }
    assert(tail@.take(tail@.len() as int) =~= tail@);
    cmdline.push(0);
    cmdline
}


proof fn lemma_scan_to_quote_at(s: Seq<u16>, i: int, k: int)
    requires
        0 <= i <= k <= s.len(),
        forall|j: int| i <= j < k ==> #[trigger] s[j] != 0x22,
        k == s.len() || s[k] == 0x22,
    ensures
        scan_to_quote(s, i) == k,
    decreases k - i,
{
    if i < k {
        lemma_scan_to_quote_at(s, i + 1, k);
    }
}

proof fn lemma_scan_to_blank_at(s: Seq<u16>, i: int, k: int)
    requires
        0 <= i <= k <= s.len(),
        forall|j: int| i <= j < k ==> #[trigger] s[j] != 0x20 && s[j] != 0x09,
        k == s.len() || s[k] == 0x20 || s[k] == 0x09,
    ensures
        scan_to_blank(s, i) == k,
    decreases k - i,
{
    if i < k {
        lemma_scan_to_blank_at(s, i + 1, k);
    }
}

/// An argument without double quotes has none inside its quotes either.
proof fn lemma_quoted_units_no_quote(w: Seq<u16>)
    requires
        !w.contains(0x22),
    ensures
        forall|j: int| 0 <= j < quoted_units(w).len() ==> #[trigger] quoted_units(w)[j] != 0x22,
    decreases w.len(),
{
    if w.len() > 0 {
        let p = w.drop_last();
        assert(!p.contains(0x22)) by {
            if p.contains(0x22) {
                let j = choose|j: int| 0 <= j < p.len() && p[j] == 0x22;
                assert(w[j] == 0x22);
            }
        }
        lemma_quoted_units_no_quote(p);
        let c = w.last();
        assert(c != 0x22) by {
            assert(w[w.len() - 1] == c);
        }
        let u = quoted_unit(c, trailing_backslashes(p));
        assert forall|j: int| 0 <= j < u.len() implies #[trigger] u[j] != 0x22 by {
            assert(u == seq![c]);
        }
        let q = quoted_units(p);
        assert(quoted_units(w) == q + u);
        assert forall|j: int| 0 <= j < quoted_units(w).len() implies #[trigger] quoted_units(w)[j] != 0x22 by {
            if j < q.len() {
                assert(quoted_units(w)[j] == q[j]);
            } else {
                assert(quoted_units(w)[j] == u[j - q.len()]);
            }
        }
    }
}

/// The program started with the passed-through command line finds the arguments of this
/// process as they were: read the same way, its command line has the same tail. This holds
/// when the program's path is quoted, and when the arguments start with a space or a tab or
/// there are none (they follow an unquoted program name, or a quoted one and a blank).
pub proof fn lemma_passthrough_keeps_arguments(exe: Seq<u16>, full: Seq<u16>)
    requires
        !exe.contains(0x22),
        needs_quotes(exe) || {
            let t = full.skip(tail_start(full));
            t.len() == 0 || t[0] == 0x20 || t[0] == 0x09
        },
    ensures
        ({
            let line = crt_quoted(exe) + full.skip(tail_start(full));
            line.skip(tail_start(line)) == full.skip(tail_start(full))
        }),
{
    let t = full.skip(tail_start(full));
    let q = crt_quoted(exe);
    let line = q + t;
    if needs_quotes(exe) {
        let units = quoted_units(exe);
        let b = backslashes(trailing_backslashes(exe));
        lemma_quoted_units_no_quote(exe);
        let k = (1 + units.len() + b.len()) as int;
        assert(q == seq![0x22u16] + units + b + seq![0x22u16]);
        assert(line[0] == 0x22);
        assert(line[k] == 0x22);
        assert forall|j: int| 1 <= j < k implies #[trigger] line[j] != 0x22 by {
            if j < 1 + units.len() {
                assert(line[j] == units[j - 1]);
            } else {
                assert(line[j] == b[j - 1 - units.len()]);
            }
        }
        lemma_scan_to_quote_at(line, 1, k);
        assert(tail_start(line) == k + 1);
        assert(line.skip(k + 1) =~= t);
    } else {
        assert(q == exe);
        assert(exe.len() > 0);
        assert(line[0] == exe[0]);
        assert(line[0] != 0x22) by {
            assert(exe[0] == exe[0]);
            if exe[0] == 0x22 {
                assert(exe.contains(0x22));
            }
        }
        assert forall|j: int| 0 <= j < exe.len() implies #[trigger] line[j] != 0x20 && line[j] != 0x09 by {
            assert(line[j] == exe[j]);
            if exe[j] == 0x20 {
                assert(exe.contains(0x20));
            }
            if exe[j] == 0x09 {
                assert(exe.contains(0x09));
            }
        }
        if t.len() > 0 {
            assert(line[exe.len() as int] == t[0]);
        }
        lemma_scan_to_blank_at(line, 0, exe.len() as int);
        assert(line.skip(exe.len() as int) =~= t);
    }
}

} // verus!
