use vstd::prelude::*;
use crate::text::{ascii_lowercase, str_to_ascii_lowercase};
use crate::version::buf::str_eq;
use crate::version::number::{decimal, push_decimal, string_push, string_push_str};

verus! {

// ---------------------------------------------------------------------------------------
// Backups of projects.

/// How the files of a backup archive are stored.
#[derive(Clone, Copy, Debug, PartialEq, Eq, Structural)]
pub enum BackupCompression {
    /// Stored as they are.
    Stored,
    /// Deflated at this level.
    Deflate(u8),
}

/// How a backup in the format of the settings is compressed (the format compared in lower
/// case): `default` and `zip-store` store the files, `zip-fast` deflates at level 1,
/// `zip-best` at level 9; any other format is taken as `zip-fast`.
pub open spec fn compression_for(format: Seq<char>) -> BackupCompression {
    let f = ascii_lowercase(format);
    if f == "default"@ || f == "zip-store"@ {
        BackupCompression::Stored
    } else if f == "zip-fast"@ {
        BackupCompression::Deflate(1)
    } else if f == "zip-best"@ {
        BackupCompression::Deflate(9)
    } else {
        BackupCompression::Deflate(1)
    }
}

/// How a backup in the given format is compressed.
pub fn backup_compression(format: &str) -> (r: BackupCompression)
    ensures
        r == compression_for(format@),
{
    let f = str_to_ascii_lowercase(format);
    if str_eq(f.as_str(), "default") || str_eq(f.as_str(), "zip-store") {
        BackupCompression::Stored
    } else if str_eq(f.as_str(), "zip-fast") {
        BackupCompression::Deflate(1)
    } else if str_eq(f.as_str(), "zip-best") {
        BackupCompression::Deflate(9)
    } else {
        BackupCompression::Deflate(1)
    }
}

/// `d` written with at least `width` digits, zeros in front.
pub open spec fn zero_padded(n: nat, width: nat) -> Seq<char> {
    let d = decimal(n);
    if d.len() >= width {
        d
    } else {
        Seq::new((width - d.len()) as nat, |_i: int| '0') + d
    }
}

proof fn lemma_decimal_len(n: nat)
    ensures
        n < 10 ==> decimal(n).len() == 1,
        10 <= n < 100 ==> decimal(n).len() == 2,
        100 <= n < 1000 ==> decimal(n).len() == 3,
        n >= 1000 ==> decimal(n).len() >= 4,
    decreases n,
{
    if n >= 10 {
        lemma_decimal_len(n / 10);
    }
}

fn push_padded(out: &mut String, n: u64, width: usize)
    requires
        width <= 4,
    ensures
        final(out)@ == old(out)@ + zero_padded(n as nat, width as nat),
{
    let ghost start = out@;
    proof {
        lemma_decimal_len(n as nat);
    }
    let digits: usize = if n < 10 {
        1
    } else if n < 100 {
        2
    } else if n < 1000 {
        3
    } else {
        4
    };
    assert(digits >= 4 ==> decimal(n as nat).len() >= 4);
    assert(digits < 4 ==> decimal(n as nat).len() == digits);
    let mut pad: usize = digits;
    while pad < width
        invariant
            digits <= pad <= 4,
            width <= 4,
            pad == digits || pad <= width,
            digits < 4 ==> decimal(n as nat).len() == digits,
            out@ == start + Seq::new((pad - digits) as nat, |_i: int| '0'),
        decreases width - pad,
    {
        string_push(out, '0');
        pad = pad + 1;
        assert(out@ =~= start + Seq::new((pad - digits) as nat, |_i: int| '0'));
    }
    let ghost zeros = out@;
    push_decimal(out, n);
    if digits >= width {
        assert(zeros =~= start);
    } else {
        assert(pad == width);
    }
    assert(out@ =~= start + zero_padded(n as nat, width as nat));
}

/// The time stamp in the name of a backup, `%Y-%m-%dT%H-%M-%S`: the year with at least four
/// digits, the other fields with two.
pub open spec fn backup_timestamp_text(year: nat, month: nat, day: nat, hour: nat, minute: nat, second: nat) -> Seq<char> {
    zero_padded(year, 4) + seq!['-'] + zero_padded(month, 2) + seq!['-'] + zero_padded(day, 2)
        + seq!['T'] + zero_padded(hour, 2) + seq!['-'] + zero_padded(minute, 2) + seq!['-']
        + zero_padded(second, 2)
}

/// The name of the backup archive of a project made at a given local time:
/// `{project}-{timestamp}.zip`.
pub open spec fn backup_name_text(project: Seq<char>, timestamp: Seq<char>) -> Seq<char> {
    project + seq!['-'] + timestamp + ".zip"@
}

fn push_timestamp(out: &mut String, year: u32, month: u8, day: u8, hour: u8, minute: u8, second: u8)
    ensures
        final(out)@ == old(out)@ + backup_timestamp_text(
            year as nat,
            month as nat,
            day as nat,
            hour as nat,
            minute as nat,
            second as nat,
        ),
{
    let ghost start = out@;
    push_padded(out, year as u64, 4);
    let ghost a = zero_padded(year as nat, 4) + seq!['-'];
    string_push(out, '-');
    assert(out@ =~= start + a);
    push_padded(out, month as u64, 2);
    string_push(out, '-');
    let ghost b = a + zero_padded(month as nat, 2) + seq!['-'];
    assert(out@ =~= start + b);
    push_padded(out, day as u64, 2);
    string_push(out, 'T');
    let ghost c = b + zero_padded(day as nat, 2) + seq!['T'];
    assert(out@ =~= start + c);
    push_padded(out, hour as u64, 2);
    string_push(out, '-');
    let ghost d = c + zero_padded(hour as nat, 2) + seq!['-'];
    assert(out@ =~= start + d);
    push_padded(out, minute as u64, 2);
    string_push(out, '-');
    let ghost e = d + zero_padded(minute as nat, 2) + seq!['-'];
    assert(out@ =~= start + e);
    push_padded(out, second as u64, 2);
    assert(out@ =~= start + (e + zero_padded(second as nat, 2)));
}

/// The name of the backup archive of `project_name` made at the given local time.
pub fn backup_file_name(project_name: &str, year: u32, month: u8, day: u8, hour: u8, minute: u8, second: u8) -> (r: String)
    ensures
        r@ == backup_name_text(
            project_name@,
            backup_timestamp_text(year as nat, month as nat, day as nat, hour as nat, minute as nat, second as nat),
        ),
{
    let mut out = String::new();
    string_push_str(&mut out, project_name);
    string_push(&mut out, '-');
    push_timestamp(&mut out, year, month, day, hour, minute, second);
    let zip = ".zip";
    string_push_str(&mut out, zip);
    out
}

} // verus!
