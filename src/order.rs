//! Canonical ordering of slash-delimited virtual paths.
//!
//! Paths compare segment by segment, ASCII case-insensitively. At the first
//! segment where two paths differ, a segment that is a directory (every segment
//! but the last, and the last of a directory entry) sorts before a file; ties
//! go to the byte order of the segment. An entry sorts directly before the
//! entries nested under it.

use vstd::prelude::*;
use std::cmp::Ordering;

verus! {

/// Kind of a path entry.
#[derive(Clone, Copy, Debug, PartialEq, Eq, Structural)]
pub enum FileType {
    Dir,
    File,
}

impl FileType {
    pub fn is_file(&self) -> (r: bool)
        ensures
            r == (*self == FileType::File),
    {
        match *self {
            FileType::File => true,
            FileType::Dir => false,
        }
    }

    pub fn is_dir(&self) -> (r: bool)
        ensures
            r == (*self == FileType::Dir),
    {
        match *self {
            FileType::Dir => true,
            FileType::File => false,
        }
    }
}

/// The path separator.
pub const SEP: u8 = 0x2f;

/// ASCII lower case of a byte.
pub open spec fn lower(b: u8) -> u8 {
    if 0x41 <= b <= 0x5a {
        (b + 0x20) as u8
    } else {
        b
    }
}

pub open spec fn kind_rank(k: FileType) -> int {
    match k {
        FileType::Dir => 0,
        FileType::File => 1,
    }
}

/// Some separator stands at position `x` or later.
pub open spec fn sep_from(p: Seq<u8>, x: int) -> bool {
    exists|y: int| x <= y < p.len() && p[y] == SEP
}

/// Rank of the segment that starts at `x`: a directory when a separator
/// follows it, else the entry's own kind.
pub open spec fn segment_rank(p: Seq<u8>, k: FileType, x: int) -> int {
    if sep_from(p, x) {
        0
    } else {
        kind_rank(k)
    }
}

/// Element `i` of an entry's sort key: a segment's rank where the segment
/// starts, then its lowered bytes shifted past the ranks.
pub open spec fn key_at(p: Seq<u8>, k: FileType, i: int) -> int {
    if i == 0 || p[i - 1] == SEP {
        segment_rank(p, k, i)
    } else {
        lower(p[i - 1]) + 2
    }
}

pub open spec fn sort_key(p: Seq<u8>, k: FileType) -> Seq<int> {
    Seq::new((p.len() + 1) as nat, |i: int| key_at(p, k, i))
}

/// Lexicographic order of integer sequences, a proper prefix first.
pub open spec fn lex_cmp(a: Seq<int>, b: Seq<int>) -> Ordering
    decreases a.len(),
{
    if a.len() == 0 {
        if b.len() == 0 {
            Ordering::Equal
        } else {
            Ordering::Less
        }
    } else if b.len() == 0 {
        Ordering::Greater
    } else if a[0] < b[0] {
        Ordering::Less
    } else if a[0] > b[0] {
        Ordering::Greater
    } else {
        lex_cmp(a.drop_first(), b.drop_first())
    }
}

/// `b` lies below `a`: `a` followed by a separator is a prefix of `b`, up to
/// ASCII case.
pub open spec fn nests_under(a: Seq<u8>, b: Seq<u8>) -> bool {
    &&& a.len() < b.len()
    &&& b[a.len() as int] == SEP
    &&& forall|i: int| 0 <= i < a.len() ==> lower(a[i]) == lower(b[i])
}

/// The order of two entries' sort keys. It is the canonical order wherever
/// no file has the other entry nested under it, and it is a total preorder
/// on every input.
pub open spec fn key_order(a: Seq<u8>, ak: FileType, b: Seq<u8>, bk: FileType) -> Ordering {
    lex_cmp(sort_key(a, ak), sort_key(b, bk))
}

/// The canonical order of two entries.
pub open spec fn entry_order(a: Seq<u8>, ak: FileType, b: Seq<u8>, bk: FileType) -> Ordering {
    if nests_under(a, b) {
        Ordering::Less
    } else if nests_under(b, a) {
        Ordering::Greater
    } else {
        lex_cmp(sort_key(a, ak), sort_key(b, bk))
    }
}

pub open spec fn reverse(o: Ordering) -> Ordering {
    match o {
        Ordering::Less => Ordering::Greater,
        Ordering::Equal => Ordering::Equal,
        Ordering::Greater => Ordering::Less,
    }
}

fn lower_byte(b: u8) -> (r: u8)
    ensures
        r == lower(b),
{
    if 0x41 <= b && b <= 0x5a {
        b + 0x20
    } else {
        b
    }
}

/// Position just past the last separator of `p`, 0 when there is none.
fn last_segment_start(p: &[u8]) -> (r: usize)
    ensures
        r <= p@.len(),
        forall|x: int| 0 <= x <= p@.len() ==> (sep_from(p@, x) <==> x < r),
{
    let mut i: usize = p.len();
    while i > 0
        invariant
            i <= p@.len(),
            forall|y: int| i <= y < p@.len() ==> p@[y] != SEP,
        decreases i,
    {
        if p[i - 1] == SEP {
            assert forall|x: int| 0 <= x <= p@.len() implies (sep_from(p@, x) <==> x < i) by {
                if x < i {
                    assert(p@[i - 1] == SEP);
                }
            }
            return i;
        }
        i = i - 1;
    }
    i
}

fn key_elem(p: &[u8], k: FileType, last: usize, i: usize) -> (r: i64)
    requires
        i <= p@.len(),
        last <= p@.len(),
        forall|x: int| 0 <= x <= p@.len() ==> (sep_from(p@, x) <==> x < last),
    ensures
        r as int == key_at(p@, k, i as int),
{
    if i == 0 || p[i - 1] == SEP {
        if i < last {
            0
        } else {
            match k {
                FileType::Dir => 0,
                FileType::File => 1,
            }
        }
    } else {
        lower_byte(p[i - 1]) as i64 + 2
    }
}

/// Whether `b` lies below `a`.
pub fn nested(a: &[u8], b: &[u8]) -> (r: bool)
    ensures
        r == nests_under(a@, b@),
{
    if a.len() >= b.len() || b[a.len()] != SEP {
        return false;
    }
    let mut i: usize = 0;
    while i < a.len()
        invariant
            a@.len() < b@.len(),
            i <= a@.len(),
            forall|j: int| 0 <= j < i ==> lower(a@[j]) == lower(b@[j]),
        decreases a@.len() - i,
    {
        if lower_byte(a[i]) != lower_byte(b[i]) {
            return false;
        }
        i = i + 1;
    }
    true
}

pub proof fn lemma_lex_cmp_skip(a: Seq<int>, b: Seq<int>, i: int)
    requires
        0 <= i <= a.len(),
        i <= b.len(),
        forall|j: int| 0 <= j < i ==> a[j] == b[j],
    ensures
        lex_cmp(a, b) == lex_cmp(a.skip(i), b.skip(i)),
    decreases i,
{
    if i > 0 {
        lemma_lex_cmp_skip(a.drop_first(), b.drop_first(), i - 1);
        assert(a.drop_first().skip(i - 1) =~= a.skip(i));
        assert(b.drop_first().skip(i - 1) =~= b.skip(i));
    } else {
        assert(a.skip(0) =~= a);
        assert(b.skip(0) =~= b);
    }
}

/// No file among two entries has the other nested under it.
pub open spec fn files_childless(a: Seq<u8>, ak: FileType, b: Seq<u8>, bk: FileType) -> bool {
    &&& nests_under(a, b) ==> ak == FileType::Dir
    &&& nests_under(b, a) ==> bk == FileType::Dir
}

pub proof fn lemma_lex_antisymmetric(a: Seq<int>, b: Seq<int>)
    ensures
        lex_cmp(a, b) == reverse(lex_cmp(b, a)),
    decreases a.len(),
{
    if a.len() > 0 && b.len() > 0 && a[0] == b[0] {
        lemma_lex_antisymmetric(a.drop_first(), b.drop_first());
    }
}

pub proof fn lemma_lex_transitive(a: Seq<int>, b: Seq<int>, c: Seq<int>)
    requires
        lex_cmp(a, b) != Ordering::Greater,
        lex_cmp(b, c) != Ordering::Greater,
    ensures
        lex_cmp(a, c) != Ordering::Greater,
        lex_cmp(a, b) == Ordering::Less || lex_cmp(b, c) == Ordering::Less ==> lex_cmp(a, c)
            == Ordering::Less,
    decreases a.len(),
{
    if a.len() > 0 && b.len() > 0 && c.len() > 0 && a[0] == b[0] && b[0] == c[0] {
        lemma_lex_transitive(a.drop_first(), b.drop_first(), c.drop_first());
    }
}

proof fn lemma_lower_sep(x: u8)
    ensures
        lower(x) == SEP <==> x == SEP,
{
}

/// A directory sorts before everything nested under it, also by its key.
pub proof fn lemma_nested_key_less(a: Seq<u8>, b: Seq<u8>, bk: FileType)
    requires
        nests_under(a, b),
    ensures
        lex_cmp(sort_key(a, FileType::Dir), sort_key(b, bk)) == Ordering::Less,
{
    let ta = sort_key(a, FileType::Dir);
    let tb = sort_key(b, bk);
    assert forall|j: int| 0 <= j < a.len() + 1 implies ta[j] == tb[j] by {
        assert(sep_from(b, j)) by {
            assert(b[a.len() as int] == SEP);
        }
        if j > 0 {
            lemma_lower_sep(a[j - 1]);
            lemma_lower_sep(b[j - 1]);
        }
    }
    lemma_lex_cmp_skip(ta, tb, a.len() + 1 as int);
    assert(ta.skip(a.len() + 1 as int).len() == 0);
}

/// Where no file has the other entry nested under it, the canonical order is
/// the order of the sort keys.
pub proof fn lemma_order_is_key_order(a: Seq<u8>, ak: FileType, b: Seq<u8>, bk: FileType)
    requires
        files_childless(a, ak, b, bk),
    ensures
        entry_order(a, ak, b, bk) == lex_cmp(sort_key(a, ak), sort_key(b, bk)),
{
    if nests_under(a, b) {
        lemma_nested_key_less(a, b, bk);
    } else if nests_under(b, a) {
        lemma_nested_key_less(b, a, ak);
        lemma_lex_antisymmetric(sort_key(b, bk), sort_key(a, ak));
    }
}

/// Swapping two entries reverses their order.
pub proof fn lemma_entry_order_antisymmetric(a: Seq<u8>, ak: FileType, b: Seq<u8>, bk: FileType)
    ensures
        entry_order(a, ak, b, bk) == reverse(entry_order(b, bk, a, ak)),
{
    lemma_lex_antisymmetric(sort_key(a, ak), sort_key(b, bk));
}

/// Among entries where no file has another entry nested under it, the order
/// is transitive, and strictly so when either step is strict.
pub proof fn lemma_entry_order_transitive(
    a: Seq<u8>,
    ak: FileType,
    b: Seq<u8>,
    bk: FileType,
    c: Seq<u8>,
    ck: FileType,
)
    requires
        files_childless(a, ak, b, bk),
        files_childless(b, bk, c, ck),
        files_childless(a, ak, c, ck),
        entry_order(a, ak, b, bk) != Ordering::Greater,
        entry_order(b, bk, c, ck) != Ordering::Greater,
    ensures
        entry_order(a, ak, c, ck) != Ordering::Greater,
        entry_order(a, ak, b, bk) == Ordering::Less || entry_order(b, bk, c, ck) == Ordering::Less
            ==> entry_order(a, ak, c, ck) == Ordering::Less,
{
    lemma_order_is_key_order(a, ak, b, bk);
    lemma_order_is_key_order(b, bk, c, ck);
    lemma_order_is_key_order(a, ak, c, ck);
    lemma_lex_transitive(sort_key(a, ak), sort_key(b, bk), sort_key(c, ck));
}

/// Two paths that agree up to ASCII case on their first `m` bytes, the last
/// of which is a separator, order as their remainders do.
pub proof fn lemma_strip_common_dir(a: Seq<u8>, ak: FileType, b: Seq<u8>, bk: FileType, m: int)
    requires
        1 <= m <= a.len(),
        m <= b.len(),
        a[m - 1] == SEP,
        forall|i: int| 0 <= i < m ==> lower(#[trigger] a[i]) == lower(b[i]),
    ensures
        entry_order(a, ak, b, bk) == entry_order(a.skip(m), ak, b.skip(m), bk),
        key_order(a, ak, b, bk) == key_order(a.skip(m), ak, b.skip(m), bk),
        nests_under(a, b) == nests_under(a.skip(m), b.skip(m)),
        nests_under(b, a) == nests_under(b.skip(m), a.skip(m)),
{
    let a2 = a.skip(m);
    let b2 = b.skip(m);
    lemma_lower_sep(a[m - 1]);
    lemma_lower_sep(b[m - 1]);
    assert(b[m - 1] == SEP);
    assert(nests_under(a, b) == nests_under(a2, b2)) by {
        if nests_under(a2, b2) {
            assert forall|i: int| 0 <= i < a.len() implies lower(a[i]) == lower(b[i]) by {
                if i >= m {
                    assert(a2[i - m] == a[i] && b2[i - m] == b[i]);
                }
            }
            assert(b2[a2.len() as int] == b[a.len() as int]);
        }
        if nests_under(a, b) {
            assert forall|i: int| 0 <= i < a2.len() implies lower(a2[i]) == lower(b2[i]) by {
                assert(lower(a[i + m]) == lower(b[i + m]));
            }
        }
    }
    assert(nests_under(b, a) == nests_under(b2, a2)) by {
        if nests_under(b2, a2) {
            assert forall|i: int| 0 <= i < b.len() implies lower(b[i]) == lower(a[i]) by {
                if i >= m {
                    assert(a2[i - m] == a[i] && b2[i - m] == b[i]);
                }
            }
            assert(a2[b2.len() as int] == a[b.len() as int]);
        }
        if nests_under(b, a) {
            assert forall|i: int| 0 <= i < b2.len() implies lower(b2[i]) == lower(a2[i]) by {
                assert(lower(b[i + m]) == lower(a[i + m]));
            }
        }
    }
    let ta = sort_key(a, ak);
    let tb = sort_key(b, bk);
    assert forall|i: int| 0 <= i < m implies ta[i] == tb[i] by {
        assert(sep_from(a, i)) by {
            assert(a[m - 1] == SEP);
        }
        assert(sep_from(b, i)) by {
            assert(b[m - 1] == SEP);
        }
        if i > 0 {
            lemma_lower_sep(a[i - 1]);
            lemma_lower_sep(b[i - 1]);
        }
    }
    lemma_lex_cmp_skip(ta, tb, m);
    lemma_key_skip(a, ak, m);
    lemma_key_skip(b, bk, m);
}

proof fn lemma_key_skip(a: Seq<u8>, ak: FileType, m: int)
    requires
        1 <= m <= a.len(),
        a[m - 1] == SEP,
    ensures
        sort_key(a, ak).skip(m) == sort_key(a.skip(m), ak),
{
    let a2 = a.skip(m);
    assert forall|x: int| 0 <= x <= a2.len() implies (sep_from(a, x + m) <==> sep_from(a2, x)) by {
        if sep_from(a, x + m) {
            let y = choose|y: int| x + m <= y < a.len() && a[y] == SEP;
            assert(a2[y - m] == SEP);
        }
        if sep_from(a2, x) {
            let y = choose|y: int| x <= y < a2.len() && a2[y] == SEP;
            assert(a[y + m] == SEP);
        }
    }
    assert(sort_key(a, ak).skip(m) =~= sort_key(a2, ak));
}

/// Entries that compare equal have the same path up to ASCII case.
pub proof fn lemma_equal_same_path(a: Seq<u8>, ak: FileType, b: Seq<u8>, bk: FileType)
    requires
        key_order(a, ak, b, bk) == Ordering::Equal,
    ensures
        a.len() == b.len(),
        forall|i: int| 0 <= i < a.len() ==> lower(#[trigger] a[i]) == lower(b[i]),
        forall|i: int| 0 <= i < a.len() ==> (#[trigger] a[i] == SEP <==> b[i] == SEP),
{
    let ta = sort_key(a, ak);
    let tb = sort_key(b, bk);
    lemma_lex_equal(ta, tb);
    assert forall|i: int| 0 <= i < a.len() implies lower(#[trigger] a[i]) == lower(b[i]) && (a[i]
        == SEP <==> b[i] == SEP) by {
        assert(ta[i + 1] == tb[i + 1]);
        lemma_lower_sep(a[i]);
        lemma_lower_sep(b[i]);
    }
}

pub proof fn lemma_lex_equal(a: Seq<int>, b: Seq<int>)
    requires
        lex_cmp(a, b) == Ordering::Equal,
    ensures
        a == b,
    decreases a.len(),
{
    if a.len() > 0 {
        lemma_lex_equal(a.drop_first(), b.drop_first());
        assert(a =~= seq![a[0]] + a.drop_first());
        assert(b =~= seq![b[0]] + b.drop_first());
    } else {
        assert(a =~= b);
    }
}

/// Between a sequence and one of its proper extensions, every sequence in
/// lexicographic order extends the first.
proof fn lemma_lex_between(p: Seq<int>, b: Seq<int>, c: Seq<int>)
    requires
        p.len() < c.len(),
        forall|j: int| 0 <= j < p.len() ==> p[j] == c[j],
        lex_cmp(p, b) != Ordering::Greater,
        lex_cmp(b, c) != Ordering::Greater,
    ensures
        p.len() <= b.len(),
        forall|j: int| 0 <= j < p.len() ==> b[j] == p[j],
    decreases p.len(),
{
    if p.len() > 0 {
        if b.len() == 0 {
        } else if b[0] != p[0] {
        } else {
            lemma_lex_between(p.drop_first(), b.drop_first(), c.drop_first());
            assert forall|j: int| 0 <= j < p.len() implies b[j] == p[j] by {
                if j > 0 {
                    assert(b.drop_first()[j - 1] == p.drop_first()[j - 1]);
                }
            }
        }
    }
}

/// With `c` nested under directory `key`, an entry ordered between them is
/// nested under `key` too, or names `key` itself.
pub proof fn lemma_between_nested(key: Seq<u8>, a: Seq<u8>, ak: FileType, c: Seq<u8>, ck: FileType)
    requires
        nests_under(key, c),
        key_order(key, FileType::Dir, a, ak) != Ordering::Greater,
        key_order(a, ak, c, ck) != Ordering::Greater,
    ensures
        nests_under(key, a) || key_order(key, FileType::Dir, a, ak) == Ordering::Equal,
{
    let tk = sort_key(key, FileType::Dir);
    let ta = sort_key(a, ak);
    let tc = sort_key(c, ck);
    assert forall|j: int| 0 <= j < tk.len() implies tk[j] == tc[j] by {
        assert(sep_from(c, j)) by {
            assert(c[key.len() as int] == SEP);
        }
        if j > 0 {
            lemma_lower_sep(key[j - 1]);
            lemma_lower_sep(c[j - 1]);
        }
    }
    lemma_lex_between(tk, ta, tc);
    let m = key.len() as int;
    assert forall|j: int| 0 <= j < m implies lower(#[trigger] key[j]) == lower(a[j]) by {
        assert(ta[j + 1] == tk[j + 1]);
        lemma_lower_sep(key[j]);
        lemma_lower_sep(a[j]);
    }
    if a.len() == key.len() {
        assert(ta =~= tk) by {
            assert forall|j: int| 0 <= j < ta.len() implies ta[j] == tk[j] by {}
        }
        lemma_lex_equal_refl(tk);
    } else {
        lemma_lower_sep(a[m]);
        if a[m] != SEP {
            assert(ta[m + 1] >= 2);
            assert(tc[m + 1] <= 1);
            assert forall|j: int| 0 <= j < m + 1 implies ta[j] == tc[j] by {}
            lemma_lex_cmp_skip(ta, tc, m + 1);
            assert(ta.skip(m + 1)[0] == ta[m + 1]);
            assert(tc.skip(m + 1)[0] == tc[m + 1]);
        }
    }
}

pub proof fn lemma_lex_equal_refl(a: Seq<int>)
    ensures
        lex_cmp(a, a) == Ordering::Equal,
    decreases a.len(),
{
    if a.len() > 0 {
        lemma_lex_equal_refl(a.drop_first());
    }
}

/// Compares two entries in the canonical order.
pub fn entry_cmp_(ap: &[u8], ak: FileType, bp: &[u8], bk: FileType) -> (r: Ordering)
    ensures
        r == entry_order(ap@, ak, bp@, bk),
{
    if nested(ap, bp) {
        return Ordering::Less;
    }
    if nested(bp, ap) {
        return Ordering::Greater;
    }
    key_cmp_(ap, ak, bp, bk)
}

/// Compares two entries by their sort keys.
pub fn key_cmp_(ap: &[u8], ak: FileType, bp: &[u8], bk: FileType) -> (r: Ordering)
    ensures
        r == key_order(ap@, ak, bp@, bk),
{
    let al = last_segment_start(ap);
    let bl = last_segment_start(bp);
    let ghost ta = sort_key(ap@, ak);
    let ghost tb = sort_key(bp@, bk);
    let n: usize = if ap.len() < bp.len() { ap.len() } else { bp.len() };
    let mut i: usize = 0;
    loop
        invariant
            i <= n,
            n <= ap@.len(),
            n <= bp@.len(),
            n == ap@.len() || n == bp@.len(),
            ta == sort_key(ap@, ak),
            tb == sort_key(bp@, bk),
            forall|x: int| 0 <= x <= ap@.len() ==> (sep_from(ap@, x) <==> x < al),
            forall|x: int| 0 <= x <= bp@.len() ==> (sep_from(bp@, x) <==> x < bl),
            al <= ap@.len(),
            bl <= bp@.len(),
            forall|j: int| 0 <= j < i ==> ta[j] == tb[j],
        ensures
            forall|j: int| 0 <= j <= n ==> ta[j] == tb[j],
        decreases n - i,
    {
        let x = key_elem(ap, ak, al, i);
        let y = key_elem(bp, bk, bl, i);
        proof {
            lemma_lex_cmp_skip(ta, tb, i as int);
            assert(ta.skip(i as int)[0] == x);
            assert(tb.skip(i as int)[0] == y);
            assert(ta.skip(i as int).len() > 0);
            assert(tb.skip(i as int).len() > 0);
        }
        if x < y {
            return Ordering::Less;
        } else if x > y {
            return Ordering::Greater;
        }
        if i == n {
            assert(ta[i as int] == tb[i as int]);
            break;
        }
        i = i + 1;
    }
    proof {
        lemma_lex_cmp_skip(ta, tb, n + 1);
    }
    if ap.len() < bp.len() {
        Ordering::Less
    } else if ap.len() > bp.len() {
        Ordering::Greater
    } else {
        Ordering::Equal
    }
}

} // verus!
