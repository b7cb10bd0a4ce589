use vstd::prelude::*;
use crate::gui::project::holds_char;
use crate::text::owned;
use crate::version::number::{string_push, string_push_str};

verus! {

// ---------------------------------------------------------------------------------------
// The update descriptions published with a release of the graphical front end.

/// Whether a version of the front end is a beta: it has a prerelease part.
pub open spec fn is_beta_version(version: Seq<char>) -> bool {
    version.contains('-')
}

/// Whether a version of the front end is a beta.
pub fn is_beta(version: &str) -> (r: bool)
    ensures
        r == is_beta_version(version@),
{
    proof {
        reveal_strlit("-");
    }
    holds_char(version, "-")
}

/// The text without its dots.
pub open spec fn without_dots(s: Seq<char>) -> Seq<char> {
    s.filter(|c: char| c != '.')
}

/// The notes of an update: for a beta, a pointer to the unreleased part of the change log; else
/// a pointer to the section of the version, named by the version without dots and the date
/// (`YYYY-MM-DD`) of the release.
pub open spec fn release_notes_text(version: Seq<char>, date: Seq<char>) -> Seq<char> {
    if is_beta_version(version) {
        "Please read changelog at https://github.com/vrc-get/vrc-get/blob/master/CHANGELOG-gui.md#unreleased"@
    } else {
        "Please read changelog at https://github.com/vrc-get/vrc-get/blob/master/CHANGELOG-gui.md#"@
            + without_dots(version) + "---"@ + date
    }
}

fn push_without_dots(out: &mut String, s: &str)
    ensures
        final(out)@ == old(out)@ + without_dots(s@),
{
    let ghost start = out@;
    let mut rest = s;
    let dot = ".";
    proof {
        reveal_strlit(".");
    }
    let mut done: Ghost<Seq<char>> = Ghost(Seq::empty());
    assert(s@ =~= done@ + rest@);
    assert(without_dots(Seq::<char>::empty()) =~= Seq::<char>::empty()) by {
        reveal(Seq::filter);
    }
    loop
        invariant
            dot@ == seq!['.'],
            start == old(out)@,
            s@ == done@ + rest@,
            out@ == start + without_dots(done@),
        decreases rest@.len(),
    {
        match crate::version::buf::split_once_str(rest, dot) {
            Some((before, after)) => {
                let ghost i = crate::version::buf::first_occurrence(rest@, seq!['.'])->0;
                proof {
                    crate::version::buf::lemma_first_occurrence(rest@, seq!['.']);
                    lemma_no_dot_before(rest@, i as int);
                    assert(rest@ =~= before@ + seq!['.'] + after@);
                    lemma_without_dots_add(done@, before@);
                    lemma_without_dots_add(done@ + before@, seq!['.']);
                    assert(without_dots(seq!['.']) =~= Seq::<char>::empty()) by {
                        reveal_with_fuel(Seq::filter, 2);
                        assert(seq!['.'].drop_last() =~= Seq::<char>::empty());
                    }
                    assert(without_dots(before@) =~= before@) by {
                        lemma_without_dots_plain(before@);
                    }
                }
                string_push_str(out, before);
                proof {
                    done@ = done@ + before@ + seq!['.'];
                    assert(s@ =~= done@ + after@);
                    assert(out@ =~= start + without_dots(done@));
                }
                rest = after;
            },
            None => {
                proof {
                    crate::version::buf::lemma_first_occurrence(rest@, seq!['.']);
                    lemma_no_dot_when_none(rest@);
                    lemma_without_dots_plain(rest@);
                    lemma_without_dots_add(done@, rest@);
                }
                string_push_str(out, rest);
                assert(out@ =~= start + without_dots(s@));
                return;
            },
        }
    }
}

proof fn lemma_without_dots_add(a: Seq<char>, b: Seq<char>)
    ensures
        without_dots(a + b) == without_dots(a) + without_dots(b),
{
    Seq::filter_distributes_over_add(a, b, |c: char| c != '.');
}

proof fn lemma_without_dots_plain(s: Seq<char>)
    requires
        !s.contains('.'),
    ensures
        without_dots(s) == s,
    decreases s.len(),
{
    reveal(Seq::filter);
    if s.len() > 0 {
        assert(!s.drop_last().contains('.')) by {
            if s.drop_last().contains('.') {
                let i = choose|i: int| 0 <= i < s.drop_last().len() && s.drop_last()[i] == '.';
                assert(s[i] == '.');
            }
        }
        lemma_without_dots_plain(s.drop_last());
        assert(s.last() != '.') by {
            if s.last() == '.' {
                assert(s[s.len() - 1] == '.');
            }
        }
        assert(s.drop_last().push(s.last()) =~= s);
    }
}

proof fn lemma_no_dot_before(s: Seq<char>, i: int)
    requires
        0 <= i,
        crate::version::buf::first_occurrence(s, seq!['.']) == Some(i as nat),
    ensures
        !s.take(i).contains('.'),
    decreases s.len(),
{
    if i > 0 {
        crate::version::buf::lemma_first_occurrence(s, seq!['.']);
        let t = s.drop_first();
        assert(crate::version::buf::first_occurrence(t, seq!['.']) == Some((i - 1) as nat));
        lemma_no_dot_before(t, i - 1);
        assert(s[0] != '.') by {
            if s[0] == '.' {
                assert(s.take(1) =~= seq!['.']);
            }
        }
        if s.take(i).contains('.') {
            let k = choose|k: int| 0 <= k < s.take(i).len() && s.take(i)[k] == '.';
            assert(s.take(i)[k] == s[k]);
            if k > 0 {
                assert(t.take(i - 1)[k - 1] == s[k]);
                assert(t.take(i - 1).contains('.'));
            }
        }
    } else {
        assert(s.take(0) =~= Seq::<char>::empty());
    }
}

proof fn lemma_no_dot_when_none(s: Seq<char>)
    requires
        crate::version::buf::first_occurrence(s, seq!['.']) is None,
    ensures
        !s.contains('.'),
    decreases s.len(),
{
    if s.len() > 0 {
        assert(s[0] != '.') by {
            if s[0] == '.' {
                assert(s.take(1) =~= seq!['.']);
            }
        }
        lemma_no_dot_when_none(s.drop_first());
        if s.contains('.') {
            let k = choose|k: int| 0 <= k < s.len() && s[k] == '.';
            assert(s.drop_first()[k - 1] == '.');
        }
    }
}

/// The notes of an update of `version` released on `date` (`YYYY-MM-DD`).
pub fn release_notes(version: &str, date: &str) -> (r: String)
    ensures
        r@ == release_notes_text(version@, date@),
{
    if is_beta(version) {
        return owned("Please read changelog at https://github.com/vrc-get/vrc-get/blob/master/CHANGELOG-gui.md#unreleased");
    }
    let mut out = owned("Please read changelog at https://github.com/vrc-get/vrc-get/blob/master/CHANGELOG-gui.md#");
    push_without_dots(&mut out, version);
    string_push_str(&mut out, "---");
    string_push_str(&mut out, date);
    out
}

/// The platforms an update is published for, each with the name of its archive for `version`:
/// the universal macOS application for both Mac platforms, the Linux AppImage, and the Windows
/// installer.
pub open spec fn platform_files(version: Seq<char>) -> Seq<(Seq<char>, Seq<char>)> {
    seq![
        ("darwin-x86_64"@, "ALCOM-"@ + version + "-universal.app.tar.gz"@),
        ("darwin-aarch64"@, "ALCOM-"@ + version + "-universal.app.tar.gz"@),
        ("linux-x86_64"@, "alcom-"@ + version + "-x86_64.AppImage.tar.gz"@),
        ("windows-x86_64"@, "ALCOM-"@ + version + "-x86_64-setup.nsis.zip"@),
    ]
}

fn named_file(prefix: &str, version: &str, suffix: &str) -> (r: String)
    ensures
        r@ == prefix@ + version@ + suffix@,
{
    let mut out = owned(prefix);
    string_push_str(&mut out, version);
    string_push_str(&mut out, suffix);
    out
}

/// The platforms an update of `version` is published for, each with the name of its archive.
pub fn updater_platform_files(version: &str) -> (r: Vec<(String, String)>)
    ensures
        r@.map_values(|p: (String, String)| (p.0@, p.1@)) == platform_files(version@),
{
    let mut v: Vec<(String, String)> = Vec::new();
    v.push((owned("darwin-x86_64"), named_file("ALCOM-", version, "-universal.app.tar.gz")));
    v.push((owned("darwin-aarch64"), named_file("ALCOM-", version, "-universal.app.tar.gz")));
    v.push((owned("linux-x86_64"), named_file("alcom-", version, "-x86_64.AppImage.tar.gz")));
    v.push((owned("windows-x86_64"), named_file("ALCOM-", version, "-x86_64-setup.nsis.zip")));
    assert(v@.map_values(|p: (String, String)| (p.0@, p.1@)) =~= platform_files(version@));
    v
}

/// Where the archive `file_name` of `version` is downloaded from: the release page of the front
/// end for that version.
pub open spec fn download_url_text(version: Seq<char>, file_name: Seq<char>) -> Seq<char> {
    "https://github.com/vrc-get/vrc-get/releases/download/gui-v"@ + version + seq!['/'] + file_name
}

/// Where the archive `file_name` of `version` is downloaded from.
pub fn download_url(version: &str, file_name: &str) -> (r: String)
    ensures
        r@ == download_url_text(version@, file_name@),
{
    let mut out = owned("https://github.com/vrc-get/vrc-get/releases/download/gui-v");
    string_push_str(&mut out, version);
    string_push(&mut out, '/');
    string_push_str(&mut out, file_name);
    out
}

} // verus!
