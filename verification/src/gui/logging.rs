use vstd::prelude::*;
use vstd::utf8::*;
use vstd::string::*;
use vstd::relations::injective_on;
use vstd::set_lib::{lemma_int_range, lemma_map_size, lemma_subset_equality, set_int_range};

verus! {

broadcast use vstd::utf8::group_utf8_lib, vstd::string::group_string_axioms;

/// How many log files are kept: the newest ones by name.
pub const MAX_LOGS: usize = 30;

pub open spec fn is_ascii_digit(b: u8) -> bool {
    0x30 <= b <= 0x39
}

/// Whether byte `b` may stand at position `k` of a time stamp `YYYY-MM-DD_hh-mm-ss.ffffff`,
/// where each letter is an ASCII digit (`0x30` to `0x39`) and the separators are `-` (`0x2d`),
/// `_` (`0x5f`) and `.` (`0x2e`).
pub open spec fn stamp_byte_ok(k: int, b: u8) -> bool {
    if k == 4 || k == 7 || k == 13 || k == 16 {
        b == 0x2d
    } else if k == 10 {
        b == 0x5f
    } else if k == 19 {
        b == 0x2e
    } else {
        is_ascii_digit(b)
    }
}

/// `vrc-get-` in ASCII.
pub open spec fn log_prefix() -> Seq<u8> {
    seq![0x76, 0x72, 0x63, 0x2d, 0x67, 0x65, 0x74, 0x2d]
}

/// `.log` in ASCII.
pub open spec fn log_suffix() -> Seq<u8> {
    seq![0x2e, 0x6c, 0x6f, 0x67]
}

/// The bytes of the name of a log file: `vrc-get-`, a time stamp
/// `YYYY-MM-DD_hh-mm-ss.ffffff`, then `.log`.
pub open spec fn is_log_name(n: Seq<u8>) -> bool {
    &&& n.len() == 38
    &&& n.take(8) == log_prefix()
    &&& n.skip(34) == log_suffix()
    &&& forall|i: int| 8 <= i < 34 ==> stamp_byte_ok(i - 8, #[trigger] n[i])
}

fn stamp_byte_matches(k: usize, b: u8) -> (r: bool)
    ensures
        r == stamp_byte_ok(k as int, b),
{
    if k == 4 || k == 7 || k == 13 || k == 16 {
        b == 0x2d
    } else if k == 10 {
        b == 0x5f
    } else if k == 19 {
        b == 0x2e
    } else {
        0x30 <= b && b <= 0x39
    }
}

/// Whether `name` is the name of a log file the application wrote:
/// `vrc-get-YYYY-MM-DD_hh-mm-ss.ffffff.log`, each letter an ASCII digit.
pub fn is_log_file_name(name: &str) -> (r: bool)
    ensures
        r == is_log_name(encode_utf8(name@)),
{
    let b = name.as_bytes();
    if b.len() != 38 {
        return false;
    }
    if !(b[0] == 0x76 && b[1] == 0x72 && b[2] == 0x63 && b[3] == 0x2d && b[4] == 0x67
        && b[5] == 0x65 && b[6] == 0x74 && b[7] == 0x2d) {
        proof {
            if b@.take(8) == log_prefix() {
                assert(b@.take(8)[0] == b@[0]);
                assert(b@.take(8)[7] == b@[7]);
            }
        }
        return false;
    }
    assert(b@.take(8) =~= log_prefix());
    if !(b[34] == 0x2e && b[35] == 0x6c && b[36] == 0x6f && b[37] == 0x67) {
        proof {
            if b@.skip(34) == log_suffix() {
                assert(b@.skip(34)[0] == b@[34]);
                assert(b@.skip(34)[1] == b@[35]);
                assert(b@.skip(34)[2] == b@[36]);
                assert(b@.skip(34)[3] == b@[37]);
            }
        }
        return false;
    }
    assert(b@.skip(34) =~= log_suffix());
    let mut i: usize = 8;
    while i < 34
        invariant
            8 <= i <= 34,
            b@ == encode_utf8(name@),
            b@.len() == 38,
            b@.take(8) == log_prefix(),
            b@.skip(34) == log_suffix(),
            forall|j: int| 8 <= j < i ==> stamp_byte_ok(j - 8, #[trigger] b@[j]),
        decreases 34 - i,
    {
        if !stamp_byte_matches(i - 8, b[i]) {
            assert(!stamp_byte_ok(i - 8, b@[i as int]));
            return false;
        }
        i = i + 1;
    }
    true
}

// ---------------------------------------------------------------------------------------
// Which old log files to delete.

/// Byte-wise lexicographic order, the order of `str`.
pub open spec fn bytes_lt(a: Seq<u8>, b: Seq<u8>) -> bool
    decreases a.len(),
{
    if a.len() == 0 {
        b.len() > 0
    } else if b.len() == 0 {
        false
    } else if a[0] != b[0] {
        a[0] < b[0]
    } else {
        bytes_lt(a.drop_first(), b.drop_first())
    }
}

proof fn lemma_bytes_lt_skip(a: Seq<u8>, b: Seq<u8>, i: int)
    requires
        0 <= i < a.len(),
        i < b.len(),
        a[i] == b[i],
    ensures
        bytes_lt(a.skip(i), b.skip(i)) == bytes_lt(a.skip(i + 1), b.skip(i + 1)),
{
    assert(a.skip(i).drop_first() =~= a.skip(i + 1));
    assert(b.skip(i).drop_first() =~= b.skip(i + 1));
}

/// Whether `a` comes before `b` in the order of `str`.
fn bytes_less(a: &[u8], b: &[u8]) -> (r: bool)
    ensures
        r == bytes_lt(a@, b@),
{
    let mut i: usize = 0;
    assert(a@.skip(0) =~= a@);
    assert(b@.skip(0) =~= b@);
    while i < a.len() && i < b.len()
        invariant
            i <= a@.len(),
            i <= b@.len(),
            bytes_lt(a@, b@) == bytes_lt(a@.skip(i as int), b@.skip(i as int)),
        decreases a@.len() - i,
    {
        if a[i] != b[i] {
            return a[i] < b[i];
        }
        proof {
            lemma_bytes_lt_skip(a@, b@, i as int);
        }
        i = i + 1;
    }
    i < b.len()
}

pub fn bytes_equal(a: &[u8], b: &[u8]) -> (r: bool)
    ensures
        r == (a@ == b@),
{
    if a.len() != b.len() {
        return false;
    }
    let mut i: usize = 0;
    while i < a.len()
        invariant
            i <= a@.len(),
            a@.len() == b@.len(),
            forall|j: int| 0 <= j < i ==> a@[j] == b@[j],
        decreases a@.len() - i,
    {
        if a[i] != b[i] {
            return false;
        }
        i = i + 1;
    }
    assert(a@ =~= b@);
    true
}

/// The names as bytes.
pub open spec fn names_bytes(names: Seq<String>) -> Seq<Seq<u8>> {
    names.map_values(|s: String| encode_utf8(s@))
}

/// Whether entry `j` comes before entry `i` once the log names are sorted newest first, that
/// is by name from the greatest, equal names in listing order.
pub open spec fn sorted_before(names: Seq<Seq<u8>>, j: int, i: int) -> bool {
    is_log_name(names[j]) && (bytes_lt(names[i], names[j]) || (names[j] == names[i] && j < i))
}

/// How many of the entries `0..upto` come before entry `i` in that order.
pub open spec fn ahead_count(names: Seq<Seq<u8>>, i: int, upto: int) -> nat
    decreases upto,
{
    if upto <= 0 {
        0
    } else {
        ahead_count(names, i, upto - 1) + if sorted_before(names, upto - 1, i) {
            1nat
        } else {
            0nat
        }
    }
}

/// Whether entry `i` is a log file beyond the newest `MAX_LOGS` ones.
pub open spec fn is_old_log(names: Seq<Seq<u8>>, i: int) -> bool {
    is_log_name(names[i]) && ahead_count(names, i, names.len() as int) >= MAX_LOGS
}

/// The positions among `0..upto` of the old log files, in order.
pub open spec fn old_logs(names: Seq<Seq<u8>>, upto: int) -> Seq<usize>
    decreases upto,
{
    if upto <= 0 {
        Seq::empty()
    } else if is_old_log(names, upto - 1) {
        old_logs(names, upto - 1).push((upto - 1) as usize)
    } else {
        old_logs(names, upto - 1)
    }
}

proof fn lemma_ahead_count_bound(names: Seq<Seq<u8>>, i: int, upto: int)
    ensures
        ahead_count(names, i, upto) <= if upto < 0 { 0 } else { upto },
    decreases upto,
{
    if upto > 0 {
        lemma_ahead_count_bound(names, i, upto - 1);
    }
}

/// Of the files in the log folder, those to delete: every log file but the `MAX_LOGS` newest
/// by name. The result holds their positions in `names`, in order.
pub fn logs_to_remove(names: &[String]) -> (r: Vec<usize>)
    ensures
        r@ == old_logs(names_bytes(names@), names@.len() as int),
{
    let ghost nb = names_bytes(names@);
    let n = names.len();
    let mut out: Vec<usize> = Vec::new();
    let mut i: usize = 0;
    while i < n
        invariant
            i <= n,
            n == names@.len(),
            nb == names_bytes(names@),
            out@ == old_logs(nb, i as int),
        decreases n - i,
    {
        let bi = names[i].as_str().as_bytes();
        assert(bi@ == nb[i as int]);
        if is_log_file_name(names[i].as_str()) {
            let mut count: usize = 0;
            let mut j: usize = 0;
            while j < n
                invariant
                    i < n,
                    j <= n,
                    n == names@.len(),
                    nb == names_bytes(names@),
                    bi@ == nb[i as int],
                    count == ahead_count(nb, i as int, j as int),
                decreases n - j,
            {
                proof {
                    lemma_ahead_count_bound(nb, i as int, j as int);
                }
                let bj = names[j].as_str().as_bytes();
                assert(bj@ == nb[j as int]);
                let before = is_log_file_name(names[j].as_str())
                    && (bytes_less(bi, bj) || (j < i && bytes_equal(bj, bi)));
                if before {
                    count = count + 1;
                }
                j = j + 1;
            }
            if count >= MAX_LOGS {
                out.push(i);
            }
        }
        i = i + 1;
    }
    out
}

proof fn lemma_bytes_lt_irreflexive(a: Seq<u8>)
    ensures
        !bytes_lt(a, a),
    decreases a.len(),
{
    if a.len() > 0 {
        lemma_bytes_lt_irreflexive(a.drop_first());
    }
}

proof fn lemma_bytes_lt_transitive(a: Seq<u8>, b: Seq<u8>, c: Seq<u8>)
    requires
        bytes_lt(a, b),
        bytes_lt(b, c),
    ensures
        bytes_lt(a, c),
    decreases a.len(),
{
    if a.len() > 0 && b.len() > 0 && c.len() > 0 && a[0] == b[0] && b[0] == c[0] {
        lemma_bytes_lt_transitive(a.drop_first(), b.drop_first(), c.drop_first());
    }
}

proof fn lemma_bytes_lt_total(a: Seq<u8>, b: Seq<u8>)
    ensures
        bytes_lt(a, b) || bytes_lt(b, a) || a == b,
    decreases a.len(),
{
    if a.len() > 0 && b.len() > 0 && a[0] == b[0] {
        lemma_bytes_lt_total(a.drop_first(), b.drop_first());
        if a.drop_first() == b.drop_first() {
            assert(a =~= seq![a[0]] + a.drop_first());
            assert(b =~= seq![b[0]] + b.drop_first());
        }
    } else if a.len() == 0 && b.len() == 0 {
        assert(a =~= b);
    }
}

/// Counting: when every entry before `i` in that order is one before `j`, and entry `y` is
/// before `j` but not before `i`, more entries come before `j` than before `i`.
proof fn lemma_ahead_count_more(names: Seq<Seq<u8>>, i: int, j: int, y: int, upto: int)
    requires
        forall|x: int| 0 <= x < names.len() && sorted_before(names, x, i) ==> sorted_before(names, x, j),
        0 <= y < names.len(),
        sorted_before(names, y, j),
        !sorted_before(names, y, i),
        upto <= names.len(),
    ensures
        ahead_count(names, j, upto) >= ahead_count(names, i, upto) + if y < upto { 1int } else { 0int },
    decreases upto,
{
    if upto > 0 {
        lemma_ahead_count_more(names, i, j, y, upto - 1);
    }
}

/// The log files kept are the newest: a log file that is not deleted comes, newest first,
/// before every one that is (ties in the order of the listing).
pub proof fn lemma_kept_logs_are_newest(names: Seq<Seq<u8>>, i: int, j: int)
    requires
        0 <= i < names.len(),
        0 <= j < names.len(),
        is_old_log(names, i),
        is_log_name(names[j]),
        !is_old_log(names, j),
    ensures
        sorted_before(names, j, i),
{
    if !sorted_before(names, j, i) {
        let ni = names[i];
        let nj = names[j];
        lemma_bytes_lt_total(ni, nj);
        lemma_bytes_lt_irreflexive(ni);
        assert(i != j);
        assert forall|x: int| 0 <= x < names.len() && sorted_before(names, x, i) implies sorted_before(names, x, j) by {
            let nx = names[x];
            if bytes_lt(nj, ni) {
                if bytes_lt(ni, nx) {
                    lemma_bytes_lt_transitive(nj, ni, nx);
                }
            }
        }
        assert(sorted_before(names, i, j));
        assert(!sorted_before(names, i, i));
        lemma_ahead_count_more(names, i, j, i, names.len() as int);
    }
}

/// How many of the entries `0..upto` are log files.
pub open spec fn log_count(names: Seq<Seq<u8>>, upto: int) -> nat
    decreases upto,
{
    if upto <= 0 {
        0
    } else {
        log_count(names, upto - 1) + if is_log_name(names[upto - 1]) {
            1nat
        } else {
            0nat
        }
    }
}

proof fn lemma_ahead_count_below_logs(names: Seq<Seq<u8>>, i: int, upto: int)
    requires
        0 <= i < names.len(),
        upto <= names.len(),
    ensures
        ahead_count(names, i, upto) + if 0 <= i < upto && is_log_name(names[i]) { 1int } else { 0int }
            <= log_count(names, upto),
    decreases upto,
{
    if upto > 0 {
        lemma_ahead_count_below_logs(names, i, upto - 1);
        lemma_bytes_lt_irreflexive(names[i]);
    }
}

proof fn lemma_no_old_logs(names: Seq<Seq<u8>>, upto: int)
    requires
        upto <= names.len(),
        forall|i: int| 0 <= i < upto ==> !is_old_log(names, i),
    ensures
        old_logs(names, upto) == Seq::<usize>::empty(),
    decreases upto,
{
    if upto > 0 {
        lemma_no_old_logs(names, upto - 1);
    }
}

/// With at most `MAX_LOGS` log files, none is deleted.
pub proof fn lemma_few_logs_all_kept(names: Seq<Seq<u8>>)
    requires
        log_count(names, names.len() as int) <= MAX_LOGS,
    ensures
        old_logs(names, names.len() as int) == Seq::<usize>::empty(),
{
    assert forall|i: int| 0 <= i < names.len() implies !is_old_log(names, i) by {
        lemma_ahead_count_below_logs(names, i, names.len() as int);
    }
    lemma_no_old_logs(names, names.len() as int);
}


/// The positions among `0..upto` of the log files.
pub open spec fn log_set(names: Seq<Seq<u8>>, upto: int) -> Set<int> {
    Set::new(|i: int| 0 <= i < upto && is_log_name(names[i]))
}

/// The positions among `0..upto` of the old log files.
pub open spec fn old_set(names: Seq<Seq<u8>>, upto: int) -> Set<int> {
    Set::new(|i: int| 0 <= i < upto && is_old_log(names, i))
}

proof fn lemma_log_set_len(names: Seq<Seq<u8>>, upto: int)
    requires
        0 <= upto <= names.len(),
    ensures
        log_set(names, upto).finite(),
        log_set(names, upto).len() == log_count(names, upto),
    decreases upto,
{
    if upto == 0 {
        assert(log_set(names, 0) =~= Set::<int>::empty());
    } else {
        lemma_log_set_len(names, upto - 1);
        if is_log_name(names[upto - 1]) {
            assert(log_set(names, upto) =~= log_set(names, upto - 1).insert(upto - 1));
        } else {
            assert(log_set(names, upto) =~= log_set(names, upto - 1));
        }
    }
}

proof fn lemma_old_set_len(names: Seq<Seq<u8>>, upto: int)
    requires
        0 <= upto <= names.len(),
    ensures
        old_set(names, upto).finite(),
        old_set(names, upto).len() == old_logs(names, upto).len(),
    decreases upto,
{
    if upto == 0 {
        assert(old_set(names, 0) =~= Set::<int>::empty());
    } else {
        lemma_old_set_len(names, upto - 1);
        if is_old_log(names, upto - 1) {
            assert(old_set(names, upto) =~= old_set(names, upto - 1).insert(upto - 1));
        } else {
            assert(old_set(names, upto) =~= old_set(names, upto - 1));
        }
    }
}

/// A log file that comes before another, newest first, has fewer files ahead of it.
proof fn lemma_before_fewer_ahead(names: Seq<Seq<u8>>, j: int, i: int)
    requires
        0 <= i < names.len(),
        0 <= j < names.len(),
        sorted_before(names, j, i),
    ensures
        ahead_count(names, j, names.len() as int) < ahead_count(names, i, names.len() as int),
{
    let ni = names[i];
    let nj = names[j];
    assert forall|x: int| 0 <= x < names.len() && sorted_before(names, x, j) implies sorted_before(names, x, i) by {
        let nx = names[x];
        if bytes_lt(nj, nx) && bytes_lt(ni, nj) {
            lemma_bytes_lt_transitive(ni, nj, nx);
        }
    }
    lemma_bytes_lt_irreflexive(nj);
    lemma_ahead_count_more(names, j, i, j, names.len() as int);
}

/// Two log files never have as many files ahead of them.
proof fn lemma_ahead_counts_distinct(names: Seq<Seq<u8>>, i: int, j: int)
    requires
        0 <= i < names.len(),
        0 <= j < names.len(),
        i != j,
        is_log_name(names[i]),
        is_log_name(names[j]),
    ensures
        ahead_count(names, i, names.len() as int) != ahead_count(names, j, names.len() as int),
{
    lemma_bytes_lt_total(names[i], names[j]);
    if sorted_before(names, j, i) {
        lemma_before_fewer_ahead(names, j, i);
    } else {
        assert(sorted_before(names, i, j));
        lemma_before_fewer_ahead(names, i, j);
    }
}

/// Exactly the log files beyond the newest `MAX_LOGS` are deleted: as many as there are log
/// files more than `MAX_LOGS`, none when there are no more.
pub proof fn lemma_removed_log_count(names: Seq<Seq<u8>>)
    ensures
        old_logs(names, names.len() as int).len() == if log_count(names, names.len() as int) > MAX_LOGS {
            log_count(names, names.len() as int) - MAX_LOGS
        } else {
            0
        },
{
    let n = names.len() as int;
    let total = log_count(names, n) as int;
    lemma_log_set_len(names, n);
    lemma_old_set_len(names, n);
    let s = log_set(names, n);
    let f = |i: int| ahead_count(names, i, n) as int;
    assert(injective_on(f, s)) by {
        assert forall|a: int, b: int| s.contains(a) && s.contains(b) && #[trigger] f(a) == #[trigger] f(b) implies a == b by {
            if a != b {
                lemma_ahead_counts_distinct(names, a, b);
            }
        }
    }
    let img = s.map(f);
    lemma_map_size(s, img, f);
    lemma_int_range(0, total);
    assert(img.subset_of(set_int_range(0, total))) by {
        assert forall|r: int| img.contains(r) implies set_int_range(0, total).contains(r) by {
            let i = choose|i: int| s.contains(i) && f(i) == r;
            lemma_ahead_count_below_logs(names, i, n);
        }
    }
    lemma_subset_equality(img, set_int_range(0, total));
    let o = old_set(names, n);
    let oimg = o.map(f);
    assert(injective_on(f, o)) by {
        assert forall|a: int, b: int| o.contains(a) && o.contains(b) && #[trigger] f(a) == #[trigger] f(b) implies a == b by {
            assert(s.contains(a) && s.contains(b));
        }
    }
    lemma_map_size(o, oimg, f);
    let lo = MAX_LOGS as int;
    if total > lo {
        lemma_int_range(lo, total);
        assert(oimg =~= set_int_range(lo, total)) by {
            assert forall|r: int| oimg.contains(r) implies set_int_range(lo, total).contains(r) by {
                let i = choose|i: int| o.contains(i) && f(i) == r;
                assert(s.contains(i));
                assert(img.contains(f(i)));
            }
            assert forall|r: int| set_int_range(lo, total).contains(r) implies oimg.contains(r) by {
                assert(set_int_range(0, total).contains(r));
                assert(img.contains(r));
                let i = choose|i: int| s.contains(i) && f(i) == r;
                assert(o.contains(i));
            }
        }
    } else {
        assert(oimg =~= Set::<int>::empty()) by {
            assert forall|r: int| !oimg.contains(r) by {
                if oimg.contains(r) {
                    let i = choose|i: int| o.contains(i) && f(i) == r;
                    assert(s.contains(i));
                    assert(img.contains(f(i)));
                }
            }
        }
    }
}

} // verus!
