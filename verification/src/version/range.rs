use vstd::prelude::*;
use crate::version::buf::{ParsingBuf, first_occurrence, lemma_first_occurrence, split_once_str, trim_ws};
use crate::version::comparator::{
    Comparator, ComparatorView, comparator_text, spec_bare_comparator, spec_comparator,
    spec_matches, with_operator,
};
use crate::version::error::ParseRangeError;
use crate::version::lexer::{
    VERSION_SEGMENT_MAX, digit_run, ident_run, lemma_digit_run, lemma_ident_run, spec_parse_id,
    spec_range_segment,
};
use crate::version::number::string_push_str;
use crate::version::ordering::version_order;
use crate::version::partial::{
    PartialVersion, PartialVersionView, drop_v, spec_partial_build, spec_partial_tail,
    spec_partial_version,
};
use crate::version::semver_text::prerelease_text_valid;
use crate::version::step::{ParseStop, Step};
use crate::version::version::{Version, VersionView, spec_prerelease};

verus! {

broadcast use vstd::utf8::group_utf8_lib;

// ---------------------------------------------------------------------------------------
// Parsers consume what they read.

proof fn lemma_trim_ws_len(s: Seq<char>)
    ensures
        trim_ws(s).len() <= s.len(),
    decreases s.len(),
{
    if s.len() > 0 {
        lemma_trim_ws_len(s.drop_first());
    }
}

proof fn lemma_range_segment_len(s: Seq<char>)
    ensures
        spec_range_segment(s) matches Ok((_, rest)) ==> rest.len() < s.len(),
{
    lemma_digit_run(s);
    if s.len() > 0 {
        lemma_digit_run(s.drop_first());
    }
}

proof fn lemma_parse_id_len(s: Seq<char>, allow_leading_zero: bool)
    ensures
        spec_parse_id(s, allow_leading_zero) matches Ok((_, rest)) ==> rest.len() < s.len(),
    decreases s.len(),
{
    lemma_ident_run(s);
    if s.len() > 0 {
        let k = ident_run(s) as int;
        if k > 0 && k < s.len() && s[k] == '.' {
            lemma_parse_id_len(s.skip(k + 1), allow_leading_zero);
        }
    }
}

proof fn lemma_partial_version_len(s: Seq<char>)
    ensures
        spec_partial_version(s) matches Step::Parsed(p, rest) ==> rest.len() < s.len() && p.wf(),
{
    let t = trim_ws(s);
    lemma_trim_ws_len(s);
    let d = drop_v(s);
    lemma_range_segment_len(d);
    if let Ok((major, r1)) = spec_range_segment(d) {
        if r1.len() > 0 && r1[0] == '.' {
            lemma_range_segment_len(r1.drop_first());
        }
        let minor_step = if r1.len() > 0 && r1[0] == '.' {
            spec_range_segment(r1.drop_first())
        } else {
            Ok((crate::version::lexer::NOT_EXISTS, r1))
        };
        if let Ok((minor, r2)) = minor_step {
            if r2.len() > 0 && r2[0] == '.' {
                lemma_range_segment_len(r2.drop_first());
                if let Ok((patch, r3)) = spec_range_segment(r2.drop_first()) {
                    if r3.len() > 0 && r3[0] == '-' {
                        lemma_parse_id_len(r3.drop_first(), false);
                    }
                    if let Step::Parsed(pre, r4) = spec_prerelease(r3) {
                        if r4.len() > 0 && r4[0] == '+' {
                            lemma_parse_id_len(r4.drop_first(), false);
                        }
                    }
                }
            }
        }
    }
}

proof fn lemma_comparator_len(s: Seq<char>)
    ensures
        spec_comparator(s) matches Step::Parsed(c, rest) ==> rest.len() < s.len() && c.wf(),
{
    let t = trim_ws(s);
    lemma_trim_ws_len(s);
    if t.len() > 0 {
        let u = t.drop_first();
        lemma_partial_version_len(u);
        lemma_trim_ws_len(u);
        lemma_partial_version_len(trim_ws(u));
        if u.len() > 0 {
            lemma_trim_ws_len(u.drop_first());
            lemma_partial_version_len(trim_ws(u.drop_first()));
        }
        lemma_partial_version_len(t);
        if let Step::Parsed(first, r) = spec_partial_version(t) {
            let r2 = trim_ws(r);
            lemma_trim_ws_len(r);
            if r2.len() > 0 {
                lemma_partial_version_len(r2.drop_first());
            }
        }
    }
}

// ---------------------------------------------------------------------------------------
// Comparator sets.

/// Comparators separated by whitespace; all of them must match.
#[derive(Debug)]
pub struct ComparatorSet(pub Vec<Comparator>);

impl View for ComparatorSet {
    type V = Seq<ComparatorView>;

    open spec fn view(&self) -> Seq<ComparatorView> {
        self.0@.map_values(|c: Comparator| c@)
    }
}

impl Clone for ComparatorSet {
    fn clone(&self) -> (r: Self)
        ensures
            r@ == self@,
    {
        let mut out: Vec<Comparator> = Vec::new();
        let mut i: usize = 0;
        while i < self.0.len()
            invariant
                i <= self.0@.len(),
                out@.map_values(|c: Comparator| c@) == self@.take(i as int),
            decreases self.0@.len() - i,
        {
            let ghost before = out@;
            let c = self.0[i].clone();
            out.push(c);
            proof {
                assert(out@.map_values(|c: Comparator| c@) =~= before.map_values(|c: Comparator| c@).push(c@));
                assert(self@.take(i + 1) =~= self@.take(i as int).push(self.0@[i as int]@));
            }
            i = i + 1;
        }
        proof {
            assert(self@.take(i as int) =~= self@);
        }
        ComparatorSet(out)
    }
}

/// Every comparator in the set is well formed.
pub open spec fn set_wf(cs: Seq<ComparatorView>) -> bool {
    forall|i: int| 0 <= i < cs.len() ==> (#[trigger] cs[i]).wf()
}

/// Comparators, each followed by whitespace, until the text ends.
pub open spec fn spec_comparator_set(s: Seq<char>) -> Step<Seq<ComparatorView>>
    decreases s.len(),
{
    if s.len() == 0 {
        Step::Parsed(Seq::<ComparatorView>::empty(), s)
    } else {
        match spec_comparator(s) {
            Step::Failed(e) => Step::Failed(e),
            Step::Rejected => Step::Rejected,
            Step::Parsed(c, r) => {
                let r2 = trim_ws(r);
                if r2.len() < s.len() {
                    prepend_comparators(seq![c], spec_comparator_set(r2))
                } else {
                    Step::Parsed(seq![c], r2)
                }
            },
        }
    }
}

/// Puts `done` in front of the comparators that `st` holds, if any.
pub open spec fn prepend_comparators(
    done: Seq<ComparatorView>,
    st: Step<Seq<ComparatorView>>,
) -> Step<Seq<ComparatorView>> {
    match st {
        Step::Parsed(cs, rest) => Step::Parsed(done + cs, rest),
        Step::Failed(e) => Step::Failed(e),
        Step::Rejected => Step::Rejected,
    }
}

/// A whole text that is one comparator set.
pub open spec fn spec_comparator_set_text(s: Seq<char>) -> Step<Seq<ComparatorView>> {
    match spec_comparator_set(s) {
        Step::Parsed(cs, rest) => if rest.len() > 0 {
            Step::Failed(ParseRangeError::invalid_char_spec(rest[0]))
        } else {
            Step::Parsed(cs, rest)
        },
        other => other,
    }
}

proof fn lemma_comparator_set(s: Seq<char>)
    ensures
        spec_comparator_set(s) matches Step::Parsed(cs, rest) ==> rest.len() == 0 && set_wf(cs),
    decreases s.len(),
{
    if s.len() > 0 {
        lemma_comparator_len(s);
        if let Step::Parsed(c, r) = spec_comparator(s) {
            let r2 = trim_ws(r);
            lemma_trim_ws_len(r);
            lemma_comparator_set(r2);
            if let Step::Parsed(cs, rest) = spec_comparator_set(r2) {
                let all = seq![c] + cs;
                assert forall|i: int| 0 <= i < all.len() implies (#[trigger] all[i]).wf() by {
                    if i > 0 {
                        assert(all[i] == cs[i - 1]);
                    }
                }
            }
        }
    }
}

/// Whether `v` matches every comparator of the set.
pub open spec fn spec_set_matches(cs: Seq<ComparatorView>, v: VersionView, allow_prerelease: bool) -> bool {
    forall|i: int| 0 <= i < cs.len() ==> spec_matches(#[trigger] cs[i], v, allow_prerelease)
}

/// `parts` joined with `sep` between each two.
pub open spec fn join_with(parts: Seq<Seq<char>>, sep: Seq<char>) -> Seq<char>
    decreases parts.len(),
{
    if parts.len() == 0 {
        Seq::<char>::empty()
    } else if parts.len() == 1 {
        parts[0]
    } else {
        join_with(parts.drop_last(), sep) + sep + parts.last()
    }
}

/// The text that `Display` writes for a set: the comparators separated by one space.
pub open spec fn set_text(cs: Seq<ComparatorView>) -> Seq<char> {
    join_with(cs.map_values(|c: ComparatorView| comparator_text(c)), seq![' '])
}

impl ComparatorSet {
    /// Reads comparators until the text ends.
    pub fn parse(buffer: &mut ParsingBuf) -> (r: Result<ComparatorSet, ParseStop>)
        ensures
            match spec_comparator_set(old(buffer)@) {
                Step::Parsed(cs, rest) => r is Ok && r->Ok_0@ == cs && final(buffer)@ == rest,
                Step::Failed(e) => r == Err::<ComparatorSet, ParseStop>(ParseStop::Error(e)),
                Step::Rejected => r == Err::<ComparatorSet, ParseStop>(ParseStop::Rejected),
            },
    {
        let ghost s0 = buffer@;
        let mut result: Vec<Comparator> = Vec::new();
        while !buffer.is_empty()
            invariant
                s0 == old(buffer)@,
                spec_comparator_set(s0) == prepend_comparators(
                    result@.map_values(|c: Comparator| c@),
                    spec_comparator_set(buffer@),
                ),
            decreases buffer@.len(),
        {
            let ghost before = buffer@;
            let ghost done = result@.map_values(|c: Comparator| c@);
            proof {
                lemma_comparator_len(before);
            }
            let c = match Comparator::parse(buffer) {
                Ok(c) => c,
                Err(e) => {
                    proof {
                        match spec_comparator(before) {
                            Step::Failed(e1) => {
                                assert(spec_comparator_set(before) == Step::<Seq<ComparatorView>>::Failed(e1));
                            },
                            Step::Rejected => {
                                assert(spec_comparator_set(before) == Step::<Seq<ComparatorView>>::Rejected);
                            },
                            _ => {},
                        }
                    }
                    return Err(e);
                },
            };
            let ghost r = buffer@;
            buffer.skip_ws();
            proof {
                lemma_trim_ws_len(r);
            }
            let ghost cv = c@;
            result.push(c);
            proof {
                assert(result@.map_values(|c: Comparator| c@) =~= done + seq![cv]);
                match spec_comparator_set(buffer@) {
                    Step::Parsed(cs, rest) => {
                        assert(done + (seq![cv] + cs) =~= (done + seq![cv]) + cs);
                    },
                    _ => {},
                }
            }
        }
        proof {
            assert(result@.map_values(|c: Comparator| c@) + Seq::<ComparatorView>::empty()
                =~= result@.map_values(|c: Comparator| c@));
        }
        Ok(ComparatorSet(result))
    }

    /// `FromStr` without the `semver` refusal: the whole text as one set.
    pub fn parse_text(s: &str) -> (r: Result<ComparatorSet, ParseStop>)
        ensures
            match spec_comparator_set_text(s@) {
                Step::Parsed(cs, _) => r is Ok && r->Ok_0@ == cs,
                Step::Failed(e) => r == Err::<ComparatorSet, ParseStop>(ParseStop::Error(e)),
                Step::Rejected => r == Err::<ComparatorSet, ParseStop>(ParseStop::Rejected),
            },
    {
        let mut buffer = ParsingBuf::new(s);
        let result = ComparatorSet::parse(&mut buffer)?;
        if !buffer.is_empty() {
            return Err(ParseStop::Error(ParseRangeError::invalid_char(buffer.first_char())));
        }
        Ok(result)
    }

    /// `FromStr`: the whole text as one set. A text on which `semver` refuses an identifier is
    /// outside the domain.
    pub fn from_str(s: &str) -> (r: Result<ComparatorSet, ParseRangeError>)
        requires
            !(spec_comparator_set_text(s@) is Rejected),
        ensures
            match spec_comparator_set_text(s@) {
                Step::Parsed(cs, _) => r is Ok && r->Ok_0@ == cs,
                Step::Failed(e) => r == Err::<ComparatorSet, ParseRangeError>(e),
                Step::Rejected => false,
            },
    {
        match ComparatorSet::parse_text(s) {
            Ok(v) => Ok(v),
            Err(ParseStop::Error(e)) => Err(e),
            Err(ParseStop::Rejected) => {
                assert(false);
                Err(ParseRangeError::unexpected_end())
            },
        }
    }

    /// Whether `version` matches every comparator of the set.
    pub fn matches(&self, version: &Version, allow_prerelease: bool) -> (r: bool)
        requires
            set_wf(self@),
            prerelease_text_valid(version@.pre),
        ensures
            r == spec_set_matches(self@, version@, allow_prerelease),
    {
        let mut i: usize = 0;
        while i < self.0.len()
            invariant
                i <= self.0.len(),
                set_wf(self@),
                prerelease_text_valid(version@.pre),
                forall|j: int| 0 <= j < i ==> spec_matches(#[trigger] self@[j], version@, allow_prerelease),
            decreases self.0.len() - i,
        {
            assert(self@[i as int] == self.0@[i as int]@);
            if !self.0[i].matches(version, allow_prerelease) {
                return false;
            }
            i = i + 1;
        }
        true
    }

    /// The text `Display` writes: the comparators separated by one space.
    pub fn to_string(&self) -> (r: String)
        ensures
            r@ == set_text(self@),
    {
        let ghost parts = self@.map_values(|c: ComparatorView| comparator_text(c));
        let mut out = String::new();
        let mut i: usize = 0;
        while i < self.0.len()
            invariant
                i <= self.0.len(),
                parts.len() == self.0.len(),
                parts == self@.map_values(|c: ComparatorView| comparator_text(c)),
                out@ == join_with(parts.take(i as int), seq![' ']),
            decreases self.0.len() - i,
        {
            if i > 0 {
                string_push_str(&mut out, " ");
                proof { reveal_strlit(" "); }
            }
            let text = self.0[i].to_string();
            string_push_str(&mut out, text.as_str());
            proof {
                assert(parts.take(i + 1).drop_last() =~= parts.take(i as int));
                assert(parts[i as int] == comparator_text(self.0@[i as int]@));
            }
            i = i + 1;
        }
        proof {
            assert(parts.take(i as int) =~= parts);
        }
        out
    }
}

// ---------------------------------------------------------------------------------------
// Ranges.

/// Comparator sets separated by `||`; one of them must match.
#[derive(Debug)]
pub struct VersionRange {
    pub comparators: Vec<ComparatorSet>,
}

impl View for VersionRange {
    type V = Seq<Seq<ComparatorView>>;

    open spec fn view(&self) -> Seq<Seq<ComparatorView>> {
        self.comparators@.map_values(|s: ComparatorSet| s@)
    }
}

impl Clone for VersionRange {
    fn clone(&self) -> (r: Self)
        ensures
            r@ == self@,
    {
        let mut out: Vec<ComparatorSet> = Vec::new();
        let mut i: usize = 0;
        while i < self.comparators.len()
            invariant
                i <= self.comparators@.len(),
                out@.map_values(|s: ComparatorSet| s@) == self@.take(i as int),
            decreases self.comparators@.len() - i,
        {
            let ghost before = out@;
            let c = self.comparators[i].clone();
            out.push(c);
            proof {
                assert(out@.map_values(|s: ComparatorSet| s@) =~= before.map_values(|s: ComparatorSet| s@).push(c@));
                assert(self@.take(i + 1) =~= self@.take(i as int).push(self.comparators@[i as int]@));
            }
            i = i + 1;
        }
        proof {
            assert(self@.take(i as int) =~= self@);
        }
        VersionRange { comparators: out }
    }
}

/// Every comparator of every set is well formed (always so for parsed ranges).
pub open spec fn range_wf(r: Seq<Seq<ComparatorView>>) -> bool {
    forall|i: int| 0 <= i < r.len() ==> set_wf(#[trigger] r[i])
}

/// Whether `v` matches one of the sets.
pub open spec fn spec_range_matches(r: Seq<Seq<ComparatorView>>, v: VersionView, allow_prerelease: bool) -> bool {
    exists|i: int| 0 <= i < r.len() && spec_set_matches(#[trigger] r[i], v, allow_prerelease)
}

/// The separator of the sets of a range.
pub open spec fn bars() -> Seq<char> {
    seq!['|', '|']
}

/// The pieces of `s` between the `||` separators, left to right.
pub open spec fn split_bars(s: Seq<char>) -> Seq<Seq<char>>
    decreases s.len(),
{
    proof {
        lemma_first_occurrence(s, bars());
    }
    match first_occurrence(s, bars()) {
        Some(i) => seq![s.take(i as int)] + split_bars(s.skip(i + 2int)),
        None => seq![s],
    }
}

/// Puts `done` in front of the sets that `st` holds, if any.
pub open spec fn prepend_sets(
    done: Seq<Seq<ComparatorView>>,
    st: Step<Seq<Seq<ComparatorView>>>,
) -> Step<Seq<Seq<ComparatorView>>> {
    match st {
        Step::Parsed(sets, rest) => Step::Parsed(done + sets, rest),
        Step::Failed(e) => Step::Failed(e),
        Step::Rejected => Step::Rejected,
    }
}

/// Each piece parsed as a whole comparator set, left to right; the first piece that does not
/// parse decides.
pub open spec fn spec_sets(pieces: Seq<Seq<char>>) -> Step<Seq<Seq<ComparatorView>>>
    decreases pieces.len(),
{
    if pieces.len() == 0 {
        Step::Parsed(Seq::<Seq<ComparatorView>>::empty(), Seq::<char>::empty())
    } else {
        match spec_comparator_set_text(pieces[0]) {
            Step::Failed(e) => Step::Failed(e),
            Step::Rejected => Step::Rejected,
            Step::Parsed(cs, _) => prepend_sets(seq![cs], spec_sets(pieces.drop_first())),
        }
    }
}

/// A whole text as a range: its `||`-separated pieces, each one comparator set.
pub open spec fn spec_range(s: Seq<char>) -> Step<Seq<Seq<ComparatorView>>> {
    spec_sets(split_bars(s))
}

/// The text that `Display` writes for a range: the sets separated by ` || `.
pub open spec fn range_text(r: Seq<Seq<ComparatorView>>) -> Seq<char> {
    join_with(r.map_values(|cs: Seq<ComparatorView>| set_text(cs)), seq![' ', '|', '|', ' '])
}

proof fn lemma_sets_wf(pieces: Seq<Seq<char>>)
    ensures
        spec_sets(pieces) matches Step::Parsed(sets, _) ==> range_wf(sets),
    decreases pieces.len(),
{
    if pieces.len() > 0 {
        lemma_comparator_set(pieces[0]);
        lemma_sets_wf(pieces.drop_first());
        if let Step::Parsed(cs, _) = spec_comparator_set_text(pieces[0]) {
            if let Step::Parsed(sets, _) = spec_sets(pieces.drop_first()) {
                let all = seq![cs] + sets;
                assert forall|i: int| 0 <= i < all.len() implies set_wf(#[trigger] all[i]) by {
                    if i > 0 {
                        assert(all[i] == sets[i - 1]);
                    }
                }
            }
        }
    }
}

/// The range `>=version`.
pub open spec fn same_or_later_view(version: VersionView) -> Seq<Seq<ComparatorView>> {
    seq![seq![ComparatorView::GreaterThanOrEqual(PartialVersionView {
        major: version.major,
        minor: version.minor,
        patch: version.patch,
        pre: version.pre,
        build: version.build,
    })]]
}

impl VersionRange {
    /// The range `>=version`.
    pub fn same_or_later(version: Version) -> (r: VersionRange)
        ensures
            r@ == same_or_later_view(version@),
            prerelease_text_valid(version@.pre) ==> range_wf(r@),
    {
        let set = ComparatorSet(vec![Comparator::GreaterThanOrEqual(PartialVersion::from_version(version))]);
        let r = VersionRange { comparators: vec![set] };
        proof {
            let inner = r.comparators@[0].0@.map_values(|c: Comparator| c@);
            assert(inner =~= same_or_later_view(version@)[0]);
            assert(r@ =~= same_or_later_view(version@));
        }
        r
    }

    /// `FromStr` without the `semver` refusal: the `||`-separated pieces, each parsed as a
    /// whole comparator set.
    pub fn parse_text(s: &str) -> (r: Result<VersionRange, ParseStop>)
        ensures
            match spec_range(s@) {
                Step::Parsed(sets, _) => r is Ok && r->Ok_0@ == sets && range_wf(sets),
                Step::Failed(e) => r == Err::<VersionRange, ParseStop>(ParseStop::Error(e)),
                Step::Rejected => r == Err::<VersionRange, ParseStop>(ParseStop::Rejected),
            },
    {
        proof {
            lemma_sets_wf(split_bars(s@));
        }
        let mut comparators: Vec<ComparatorSet> = Vec::new();
        let mut rest: &str = s;
        loop
            invariant
                spec_range(s@) matches Step::Parsed(sets, _) ==> range_wf(sets),
                spec_range(s@) == prepend_sets(
                    comparators@.map_values(|cs: ComparatorSet| cs@),
                    spec_sets(split_bars(rest@)),
                ),
            decreases rest@.len(),
        {
            let ghost done = comparators@.map_values(|cs: ComparatorSet| cs@);
            let ghost before = rest@;
            proof {
                lemma_first_occurrence(before, bars());
                reveal_strlit("||");
                assert("||"@ =~= bars());
            }
            match split_once_str(rest, "||") {
                Some((piece, after)) => {
                    assert(split_bars(before) == seq![piece@] + split_bars(after@));
                    assert((seq![piece@] + split_bars(after@)).drop_first() =~= split_bars(after@));
                    let set = ComparatorSet::parse_text(piece)?;
                    let ghost cv = set@;
                    comparators.push(set);
                    proof {
                        assert(comparators@.map_values(|cs: ComparatorSet| cs@) =~= done + seq![cv]);
                        match spec_sets(split_bars(after@)) {
                            Step::Parsed(sets, r) => {
                                assert(done + (seq![cv] + sets) =~= (done + seq![cv]) + sets);
                            },
                            _ => {},
                        }
                    }
                    rest = after;
                },
                None => {
                    assert(split_bars(before) == seq![before]);
                    assert(seq![before].drop_first() =~= Seq::<Seq<char>>::empty());
                    let set = ComparatorSet::parse_text(rest)?;
                    let ghost cv = set@;
                    comparators.push(set);
                    proof {
                        assert(comparators@.map_values(|cs: ComparatorSet| cs@) =~= done + seq![cv]);
                        assert(spec_sets(Seq::<Seq<char>>::empty()) == Step::Parsed(
                            Seq::<Seq<ComparatorView>>::empty(),
                            Seq::<char>::empty(),
                        ));
                        assert(done + (seq![cv] + Seq::<Seq<ComparatorView>>::empty()) =~= done + seq![cv]);
                    }
                    return Ok(VersionRange { comparators });
                },
            }
        }
    }

    /// `FromStr`: the `||`-separated pieces, each parsed as a whole comparator set. A text on
    /// which `semver` refuses an identifier is outside the domain.
    pub fn from_str(s: &str) -> (r: Result<VersionRange, ParseRangeError>)
        requires
            !(spec_range(s@) is Rejected),
        ensures
            match spec_range(s@) {
                Step::Parsed(sets, _) => r is Ok && r->Ok_0@ == sets && range_wf(sets),
                Step::Failed(e) => r == Err::<VersionRange, ParseRangeError>(e),
                Step::Rejected => false,
            },
    {
        match VersionRange::parse_text(s) {
            Ok(v) => Ok(v),
            Err(ParseStop::Error(e)) => Err(e),
            Err(ParseStop::Rejected) => {
                assert(false);
                Err(ParseRangeError::unexpected_end())
            },
        }
    }

    /// Whether `version` matches one of the sets, prereleases allowed only where a comparator
    /// names one of the same `major.minor.patch`.
    pub fn matches(&self, version: &Version) -> (r: bool)
        requires
            range_wf(self@),
            prerelease_text_valid(version@.pre),
        ensures
            r == spec_range_matches(self@, version@, false),
    {
        self.match_pre(version, false)
    }

    /// Whether `version` matches one of the sets.
    pub fn match_pre(&self, version: &Version, allow_prerelease: bool) -> (r: bool)
        requires
            range_wf(self@),
            prerelease_text_valid(version@.pre),
        ensures
            r == spec_range_matches(self@, version@, allow_prerelease),
    {
        let mut i: usize = 0;
        while i < self.comparators.len()
            invariant
                i <= self.comparators.len(),
                range_wf(self@),
                prerelease_text_valid(version@.pre),
                forall|j: int| 0 <= j < i ==> !spec_set_matches(#[trigger] self@[j], version@, allow_prerelease),
            decreases self.comparators.len() - i,
        {
            assert(self@[i as int] == self.comparators@[i as int]@);
            if self.comparators[i].matches(version, allow_prerelease) {
                return true;
            }
            i = i + 1;
        }
        false
    }

    /// The text `Display` writes: the sets separated by ` || `.
    pub fn to_string(&self) -> (r: String)
        ensures
            r@ == range_text(self@),
    {
        let ghost parts = self@.map_values(|cs: Seq<ComparatorView>| set_text(cs));
        let mut out = String::new();
        let mut i: usize = 0;
        while i < self.comparators.len()
            invariant
                i <= self.comparators.len(),
                parts.len() == self.comparators.len(),
                parts == self@.map_values(|cs: Seq<ComparatorView>| set_text(cs)),
                out@ == join_with(parts.take(i as int), seq![' ', '|', '|', ' ']),
            decreases self.comparators.len() - i,
        {
            if i > 0 {
                string_push_str(&mut out, " || ");
                proof { reveal_strlit(" || "); }
            }
            let text = self.comparators[i].to_string();
            string_push_str(&mut out, text.as_str());
            proof {
                assert(parts.take(i + 1).drop_last() =~= parts.take(i as int));
                assert(parts[i as int] == set_text(self.comparators@[i as int]@));
            }
            i = i + 1;
        }
        proof {
            assert(parts.take(i as int) =~= parts);
        }
        out
    }
}

// ---------------------------------------------------------------------------------------
// Laws.

/// Allowing prereleases never loses a match: what matches without them matches with them.
pub proof fn lemma_match_pre_monotone(r: Seq<Seq<ComparatorView>>, v: VersionView)
    ensures
        spec_range_matches(r, v, false) ==> spec_range_matches(r, v, true),
{
    if spec_range_matches(r, v, false) {
        let i = choose|i: int| 0 <= i < r.len() && spec_set_matches(#[trigger] r[i], v, false);
        assert(spec_set_matches(r[i], v, true));
    }
}

/// `same_or_later(x)` matches exactly the versions at or above `x` (when the numbers of `x`
/// are in the range a version segment may hold), a prerelease one only if prereleases are
/// allowed or `x` is a prerelease of the same `major.minor.patch`.
pub proof fn lemma_same_or_later(x: VersionView, v: VersionView, allow_prerelease: bool)
    requires
        x.major <= VERSION_SEGMENT_MAX,
        x.minor <= VERSION_SEGMENT_MAX,
        x.patch <= VERSION_SEGMENT_MAX,
    ensures
        spec_range_matches(same_or_later_view(x), v, allow_prerelease) <==> {
            &&& version_order(v, x) >= 0
            &&& (allow_prerelease || v.pre.len() == 0 || (x.pre.len() > 0 && x.major == v.major
                && x.minor == v.minor && x.patch == v.patch))
        },
{
    let r = same_or_later_view(x);
    let cs = r[0];
    if spec_range_matches(r, v, allow_prerelease) {
        let i = choose|i: int| 0 <= i < r.len() && spec_set_matches(#[trigger] r[i], v, allow_prerelease);
        assert(i == 0);
        assert(spec_matches(cs[0], v, allow_prerelease));
    }
    if version_order(v, x) >= 0 && (allow_prerelease || v.pre.len() == 0 || (x.pre.len() > 0
        && x.major == v.major && x.minor == v.minor && x.patch == v.patch)) {
        assert(spec_matches(cs[0], v, allow_prerelease));
        assert(spec_set_matches(cs, v, allow_prerelease));
        assert(spec_set_matches(r[0], v, allow_prerelease));
    }
}

/// Every `|` of `s` is followed by a character other than `|`: no `||` in it, and it does not
/// end with `|`.
pub open spec fn lone_bars(s: Seq<char>) -> bool {
    forall|i: int| 0 <= i < s.len() && #[trigger] s[i] == '|' ==> i + 1 < s.len() && s[i + 1] != '|'
}

proof fn lemma_lone_bars_drop_first(s: Seq<char>)
    requires
        lone_bars(s),
        s.len() > 0,
    ensures
        lone_bars(s.drop_first()),
{
    let t = s.drop_first();
    assert forall|i: int| 0 <= i < t.len() && #[trigger] t[i] == '|' implies i + 1 < t.len() && t[i + 1] != '|' by {
        assert(s[i + 1] == '|');
    }
}

/// Text with lone bars holds no `||`.
proof fn lemma_no_bars(a: Seq<char>)
    requires
        lone_bars(a),
    ensures
        first_occurrence(a, bars()) is None,
    decreases a.len(),
{
    if a.len() >= 2 {
        if a[0] == '|' {
            assert(a[1] != '|');
        }
        assert(a.take(2)[1] == a[1]);
        assert(a.take(2) != bars());
        lemma_lone_bars_drop_first(a);
        lemma_no_bars(a.drop_first());
    }
}

/// In `a || b`, with lone bars in `a`, the first `||` is the one after `a`.
proof fn lemma_bars_after(a: Seq<char>, b: Seq<char>)
    requires
        lone_bars(a),
    ensures
        first_occurrence(a + bars() + b, bars()) == Some(a.len()),
    decreases a.len(),
{
    let s = a + bars() + b;
    if a.len() == 0 {
        assert(s.take(2) =~= bars());
    } else {
        if a[0] == '|' {
            assert(a[1] != '|');
            assert(s[1] == a[1]);
        }
        assert(s[0] == a[0]);
        assert(s.take(2)[0] == s[0]);
        assert(s.take(2)[1] == s[1]);
        assert(s.take(2) != bars());
        lemma_lone_bars_drop_first(a);
        lemma_bars_after(a.drop_first(), b);
        assert(s.drop_first() =~= a.drop_first() + bars() + b);
    }
}

/// Joining two range texts with `||`, the first with lone bars, gives the sets of both, and a
/// version matches it exactly when it matches one of the two.
#[verifier::rlimit(40)]
proof fn lemma_join_lone_bars(a: Seq<char>, b: Seq<char>, v: VersionView, allow_prerelease: bool)
    requires
        lone_bars(a),
        spec_range(a) is Parsed,
        spec_range(b) is Parsed,
    ensures
        spec_range(a + bars() + b) is Parsed,
        spec_range(a + bars() + b)->Parsed_0 == spec_range(a)->Parsed_0 + spec_range(b)->Parsed_0,
        spec_range_matches(spec_range(a + bars() + b)->Parsed_0, v, allow_prerelease) == (
            spec_range_matches(spec_range(a)->Parsed_0, v, allow_prerelease)
            || spec_range_matches(spec_range(b)->Parsed_0, v, allow_prerelease)),
{
    let s = a + bars() + b;
    lemma_bars_after(a, b);
    lemma_no_bars(a);
    lemma_first_occurrence(s, bars());
    assert(s.take(a.len() as int) =~= a);
    assert(s.skip(a.len() + 2int) =~= b);
    assert(split_bars(s) == seq![a] + split_bars(b));
    assert(split_bars(a) == seq![a]);
    assert((seq![a] + split_bars(b)).drop_first() =~= split_bars(b));
    assert((seq![a] + split_bars(b))[0] == a);
    assert(seq![a].drop_first() =~= Seq::<Seq<char>>::empty());
    let ra = spec_range(a)->Parsed_0;
    let rb = spec_range(b)->Parsed_0;
    assert(seq![a][0] == a);
    assert(spec_range(a) == spec_sets(seq![a]));
    assert(spec_sets(Seq::<Seq<char>>::empty()) == Step::Parsed(Seq::<Seq<ComparatorView>>::empty(), Seq::<char>::empty()));
    assert(spec_comparator_set_text(a) is Parsed);
    let cs = spec_comparator_set_text(a)->Parsed_0;
    assert(ra == seq![cs] + Seq::<Seq<ComparatorView>>::empty());
    let r = spec_range(s)->Parsed_0;
    assert(r == seq![cs] + rb);
    assert(ra =~= seq![cs]);
    assert(r =~= ra + rb);
    if spec_range_matches(r, v, allow_prerelease) {
        let i = choose|i: int| 0 <= i < r.len() && spec_set_matches(#[trigger] r[i], v, allow_prerelease);
        if i == 0 {
            assert(spec_set_matches(ra[0], v, allow_prerelease));
        } else {
            assert(r[i] == rb[i - 1]);
            assert(spec_set_matches(rb[i - 1], v, allow_prerelease));
        }
    }
    if spec_range_matches(ra, v, allow_prerelease) {
        assert(spec_set_matches(r[0], v, allow_prerelease));
    }
    if spec_range_matches(rb, v, allow_prerelease) {
        let i = choose|i: int| 0 <= i < rb.len() && spec_set_matches(#[trigger] rb[i], v, allow_prerelease);
        assert(r[i + 1] == rb[i]);
        assert(spec_set_matches(r[i + 1], v, allow_prerelease));
    }
}

/// Joining two range texts with `||` (`a || b`, the first holding no `||` of its own) gives the
/// sets of both in order, and a version matches the joined range exactly when it matches one of
/// the two.
pub proof fn lemma_range_disjunction(a: Seq<char>, b: Seq<char>, v: VersionView, allow_prerelease: bool)
    requires
        first_occurrence(a, bars()) is None,
        spec_range(a) is Parsed,
        spec_range(b) is Parsed,
    ensures
        spec_range(a + bars() + b) is Parsed,
        spec_range(a + bars() + b)->Parsed_0 == spec_range(a)->Parsed_0 + spec_range(b)->Parsed_0,
        spec_range_matches(spec_range(a + bars() + b)->Parsed_0, v, allow_prerelease) == (
            spec_range_matches(spec_range(a)->Parsed_0, v, allow_prerelease)
            || spec_range_matches(spec_range(b)->Parsed_0, v, allow_prerelease)),
{
    lemma_first_occurrence(a, bars());
    assert(split_bars(a) == seq![a]);
    assert(seq![a][0] == a);
    assert(spec_comparator_set_text(a) is Parsed);
    crate::version::bar_free::lemma_set_text_has_no_bar(a);
    assert forall|i: int| 0 <= i < a.len() && #[trigger] a[i] == '|' implies i + 1 < a.len() && a[i + 1] != '|' by {
        assert(a.contains(a[i]));
    }
    lemma_join_lone_bars(a, b, v, allow_prerelease);
}

/// The empty text is a range of one empty set, which every version matches.
pub proof fn lemma_empty_range_matches_all(v: VersionView, allow_prerelease: bool)
    ensures
        spec_range(Seq::<char>::empty()) is Parsed,
        spec_range_matches(spec_range(Seq::<char>::empty())->Parsed_0, v, allow_prerelease),
{
    let e = Seq::<char>::empty();
    lemma_first_occurrence(e, bars());
    assert(split_bars(e) == seq![e]);
    assert(seq![e].drop_first() =~= Seq::<Seq<char>>::empty());
    assert(seq![e][0] == e);
    let none = Seq::<ComparatorView>::empty();
    assert(spec_comparator_set(e) == Step::Parsed(none, e));
    assert(spec_comparator_set_text(e) == Step::Parsed(none, e));
    assert(spec_sets(Seq::<Seq<char>>::empty()) == Step::Parsed(Seq::<Seq<ComparatorView>>::empty(), e));
    assert(spec_sets(seq![e]) == Step::Parsed(seq![none] + Seq::<Seq<ComparatorView>>::empty(), e));
    let r = spec_range(e)->Parsed_0;
    assert(r[0] =~= Seq::<ComparatorView>::empty());
    assert(spec_set_matches(r[0], v, allow_prerelease));
}

} // verus!
