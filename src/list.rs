//! Entry lists: path entries kept in the canonical order, with lookup of a
//! directory's contents and merging of several lists.

use vstd::prelude::*;
use std::cmp::Ordering;
use vstd::string::StringSliceAdditionalSpecFns;
use crate::error::ArchiveError;
use crate::order::{
    key_cmp_, key_order, lemma_between_nested, lemma_equal_same_path, lemma_lex_antisymmetric,
    lemma_lex_transitive, lemma_nested_key_less, lemma_strip_common_dir, lower, nested, nests_under,
    reverse,
    sort_key,
    FileType, SEP,
};

verus! {

/// A path and its kind, as the specifications see an entry.
pub type EntryView = (Seq<u8>, FileType);

/// The backslash, which entry paths normalise to the separator.
pub const BACKSLASH: u8 = 0x5c;

pub const DOT: u8 = 0x2e;

/// The path holds two dots in a row.
pub open spec fn has_dot_dot(p: Seq<u8>) -> bool {
    exists|i: int| 0 <= i && i + 1 < p.len() && #[trigger] p[i] == DOT && p[i + 1] == DOT
}

/// The path with each backslash turned into a separator.
pub open spec fn normalized(p: Seq<u8>) -> Seq<u8> {
    Seq::new(p.len(), |i: int| if p[i] == BACKSLASH { SEP } else { p[i] })
}

/// One entry of a list: a path relative to its reader's root, and its kind.
pub struct DirEntry {
    kind: FileType,
    path: Vec<u8>,
}

impl View for DirEntry {
    type V = EntryView;

    closed spec fn view(&self) -> EntryView {
        (self.path@, self.kind)
    }
}

impl DirEntry {
    /// An entry for `path`, with backslashes normalised to separators.
    pub fn new(path: &str, kind: FileType) -> (r: DirEntry)
        requires
            !has_dot_dot(path.spec_bytes()),
        ensures
            r@ == (normalized(path.spec_bytes()), kind),
    {
        DirEntry::from_bytes(path.as_bytes(), kind)
    }

    /// An entry for the path held in `path`'s bytes.
    pub fn from_bytes(path: &[u8], kind: FileType) -> (r: DirEntry)
        requires
            !has_dot_dot(path@),
        ensures
            r@ == (normalized(path@), kind),
    {
        let mut out: Vec<u8> = Vec::new();
        let mut i: usize = 0;
        while i < path.len()
            invariant
                i <= path@.len(),
                out@ =~= normalized(path@).take(i as int),
            decreases path@.len() - i,
        {
            if path[i] == BACKSLASH {
                out.push(SEP);
            } else {
                out.push(path[i]);
            }
            i = i + 1;
        }
        assert(out@ =~= normalized(path@));
        DirEntry { kind, path: out }
    }

    pub fn kind(&self) -> (r: FileType)
        ensures
            r == self@.1,
    {
        self.kind
    }

    /// A copy of this entry.
    pub fn duplicate(&self) -> (r: DirEntry)
        ensures
            r@ == self@,
    {
        let mut out: Vec<u8> = Vec::new();
        let mut i: usize = 0;
        while i < self.path.len()
            invariant
                i <= self.path@.len(),
                out@ =~= self.path@.take(i as int),
            decreases self.path@.len() - i,
        {
            out.push(self.path[i]);
            i = i + 1;
        }
        assert(out@ =~= self.path@);
        DirEntry { kind: self.kind, path: out }
    }

    pub fn path(&self) -> (r: &[u8])
        ensures
            r@ == self@.0,
    {
        self.path.as_slice()
    }
}

pub open spec fn views(v: Seq<DirEntry>) -> Seq<EntryView> {
    v.map_values(|e: DirEntry| e@)
}

/// The part of an entry's path past the first `off` bytes.
pub open spec fn suffix(e: EntryView, off: int) -> Seq<u8> {
    e.0.skip(off)
}

/// The order of two entries past the first `off` bytes of their paths, by
/// their sort keys.
pub open spec fn order_at(a: EntryView, b: EntryView, off: int) -> Ordering {
    key_order(suffix(a, off), a.1, suffix(b, off), b.1)
}

proof fn lemma_key_antisymmetric(a: Seq<u8>, ak: FileType, b: Seq<u8>, bk: FileType)
    ensures
        key_order(a, ak, b, bk) == reverse(key_order(b, bk, a, ak)),
{
    lemma_lex_antisymmetric(sort_key(a, ak), sort_key(b, bk));
}

proof fn lemma_key_transitive(a: Seq<u8>, ak: FileType, b: Seq<u8>, bk: FileType, c: Seq<u8>, ck: FileType)
    requires
        key_order(a, ak, b, bk) != Ordering::Greater,
        key_order(b, bk, c, ck) != Ordering::Greater,
    ensures
        key_order(a, ak, c, ck) != Ordering::Greater,
        key_order(a, ak, b, bk) == Ordering::Less || key_order(b, bk, c, ck) == Ordering::Less
            ==> key_order(a, ak, c, ck) == Ordering::Less,
{
    lemma_lex_transitive(sort_key(a, ak), sort_key(b, bk), sort_key(c, ck));
}

/// Each entry is in order with every later one.
pub open spec fn sorted_at(s: Seq<EntryView>, off: int) -> bool {
    forall|i: int, j: int| 0 <= i < j < s.len() ==> order_at(s[i], s[j], off) != Ordering::Greater
}

/// Each entry is in order with the next one.
pub open spec fn adjacent_sorted(s: Seq<EntryView>) -> bool {
    forall|i: int| 0 <= i && i + 1 < s.len() ==> #[trigger] order_at(s[i], s[i + 1], 0) != Ordering::Greater
}

/// No path is listed both as a file and as a directory.
pub open spec fn kinds_agree(s: Seq<EntryView>) -> bool {
    forall|x: EntryView, y: EntryView|
        #[trigger] s.contains(x) && #[trigger] s.contains(y) && x.0 == y.0 ==> x.1 == y.1
}

fn entry_cmp(a: &DirEntry, b: &DirEntry) -> (r: Ordering)
    ensures
        r == order_at(a@, b@, 0),
{
    proof {
        assert(a@.0.skip(0) =~= a@.0);
        assert(b@.0.skip(0) =~= b@.0);
    }
    key_cmp_(a.path.as_slice(), a.kind, b.path.as_slice(), b.kind)
}

proof fn lemma_skip_zero(s: Seq<EntryView>)
    ensures
        forall|i: int| 0 <= i < s.len() ==> #[trigger] suffix(s[i], 0) == s[i].0,
{
    assert forall|i: int| 0 <= i < s.len() implies #[trigger] suffix(s[i], 0) == s[i].0 by {
        assert(s[i].0.skip(0) =~= s[i].0);
    }
}

proof fn lemma_same_multiset_contains(a: Seq<EntryView>, b: Seq<EntryView>)
    requires
        a.to_multiset() == b.to_multiset(),
    ensures
        forall|y: EntryView| a.contains(y) <==> b.contains(y),
{
    a.to_multiset_ensures();
    b.to_multiset_ensures();
    assert forall|y: EntryView| a.contains(y) <==> b.contains(y) by {
        assert(a.to_multiset().count(y) == b.to_multiset().count(y));
        assert(a.contains(y) <==> a.to_multiset().count(y) > 0);
        assert(b.contains(y) <==> b.to_multiset().count(y) > 0);
    }
}

/// Adjacent entries in order make every pair of entries in order.
proof fn lemma_adjacent_sorted_all(s: Seq<EntryView>)
    requires
        adjacent_sorted(s),
    ensures
        sorted_at(s, 0),
{
    assert forall|i: int, j: int| 0 <= i < j < s.len() implies order_at(s[i], s[j], 0)
        != Ordering::Greater by {
        lemma_sorted_pair(s, i, j);
    }
}

proof fn lemma_sorted_pair(s: Seq<EntryView>, i: int, j: int)
    requires
        adjacent_sorted(s),
        0 <= i < j < s.len(),
    ensures
        order_at(s[i], s[j], 0) != Ordering::Greater,
    decreases j - i,
{
    let d = j - 1;
    assert(order_at(s[d], s[d + 1], 0) != Ordering::Greater);
    if i < d {
        lemma_sorted_pair(s, i, d);
        lemma_key_transitive(
            suffix(s[i], 0), s[i].1, suffix(s[d], 0), s[d].1, suffix(s[j], 0), s[j].1,
        );
    }
}

fn reversed(v: Vec<DirEntry>) -> (r: Vec<DirEntry>)
    ensures
        views(r@) == views(v@).reverse(),
{
    let ghost v0 = views(v@);
    let mut rest = v;
    let mut out: Vec<DirEntry> = Vec::new();
    while rest.len() > 0
        invariant
            views(rest@) == v0.take(rest@.len() as int),
            rest@.len() <= v0.len(),
            views(out@) == v0.skip(rest@.len() as int).reverse(),
        decreases rest@.len(),
    {
        let ghost n = rest@.len() as int;
        let ghost before = rest@;
        let x = rest.pop().unwrap();
        let ghost o = views(out@);
        out.push(x);
        proof {
            assert(views(before)[n - 1] == x@);
            assert(views(rest@) =~= v0.take(n - 1));
            assert(views(out@) =~= o.push(x@));
            assert(v0.skip(n - 1).reverse() =~= v0.skip(n).reverse().push(v0[n - 1]));
        }
    }
    proof {
        assert(v0.skip(0) =~= v0);
    }
    out
}

/// Merges two lists sorted by adjacent pairs; on a tie the first list's entry
/// comes first.
#[verifier::rlimit(80)]
fn merge(a: Vec<DirEntry>, b: Vec<DirEntry>) -> (r: Vec<DirEntry>)
    requires
        adjacent_sorted(views(a@)),
        adjacent_sorted(views(b@)),
    ensures
        views(r@).to_multiset() == views(a@).to_multiset().add(views(b@).to_multiset()),
        adjacent_sorted(views(r@)),
        sorted_at(views(a@) + views(b@), 0) ==> views(r@) == views(a@) + views(b@),
{
    let ghost sa = views(a@);
    let ghost sb = views(b@);
    let mut ra = reversed(a);
    let mut rb = reversed(b);
    let mut out: Vec<DirEntry> = Vec::new();
    let ghost mut ia: int = 0;
    let ghost mut ib: int = 0;
    proof {
        assert(sa.skip(0) =~= sa);
        assert(sb.skip(0) =~= sb);
        sa.take(0).to_multiset_ensures();
        sb.take(0).to_multiset_ensures();
        assert(sa.take(0).to_multiset() =~= vstd::multiset::Multiset::empty());
        assert(sb.take(0).to_multiset() =~= vstd::multiset::Multiset::empty());
        assert((sa + sb).take(0) =~= views(out@));
        assert(views(out@) =~= Seq::<EntryView>::empty());
        assert(sa.take(0) =~= Seq::<EntryView>::empty());
        assert(sb.take(0) =~= Seq::<EntryView>::empty());
        assert(views(out@).to_multiset() =~= sa.take(0).to_multiset().add(sb.take(0).to_multiset()));
    }
    while ra.len() > 0 || rb.len() > 0
        invariant
            0 <= ia <= sa.len(),
            0 <= ib <= sb.len(),
            adjacent_sorted(sa),
            adjacent_sorted(sb),
            views(ra@) == sa.skip(ia).reverse(),
            views(rb@) == sb.skip(ib).reverse(),
            views(out@).len() == ia + ib,
            views(out@).to_multiset() == sa.take(ia).to_multiset().add(sb.take(ib).to_multiset()),
            adjacent_sorted(views(out@)),
            views(out@).len() > 0 && ia < sa.len() ==> order_at(views(out@).last(), sa[ia], 0) != Ordering::Greater,
            views(out@).len() > 0 && ib < sb.len() ==> order_at(views(out@).last(), sb[ib], 0) != Ordering::Greater,
            sorted_at(sa + sb, 0) ==> views(out@) == (sa + sb).take(ia + ib) && (ia < sa.len() ==> ib == 0),
        decreases ra@.len() + rb@.len(),
    {
        let ghost o = views(out@);
        proof {
            assert(views(ra@).len() == ra@.len());
            assert(views(rb@).len() == rb@.len());
            if ra@.len() > 0 {
                assert(sa.skip(ia).reverse().len() == sa.skip(ia).len());
            }
            if rb@.len() > 0 {
                assert(sb.skip(ib).reverse().len() == sb.skip(ib).len());
            }
        }
        let take_b = if ra.len() == 0 {
            true
        } else if rb.len() == 0 {
            false
        } else {
            let c = entry_cmp(&rb[rb.len() - 1], &ra[ra.len() - 1]);
            proof {
                assert(views(rb@)[rb@.len() - 1] == rb@[rb@.len() - 1]@);
                assert(views(ra@)[ra@.len() - 1] == ra@[ra@.len() - 1]@);
                assert(sb.skip(ib).reverse()[rb@.len() - 1] == sb[ib]);
                assert(sa.skip(ia).reverse()[ra@.len() - 1] == sa[ia]);
            }
            matches!(c, Ordering::Less)
        };
        if take_b {
            let ghost before = rb@;
            let x = rb.pop().unwrap();
            proof {
                assert(views(before)[before.len() - 1] == x@);
                assert(sb.skip(ib).reverse()[before.len() - 1] == sb[ib]);
                assert(x@ == sb[ib]);
                assert(views(rb@) =~= views(before).drop_last());
                assert(views(rb@) =~= sb.skip(ib + 1).reverse());
            }
            out.push(x);
            proof {
                assert(views(out@) =~= o.push(sb[ib]));
                assert(sb.take(ib + 1) =~= sb.take(ib).push(sb[ib]));
                o.to_multiset_ensures();
                sb.take(ib).to_multiset_ensures();
                assert(o.push(sb[ib]).to_multiset() =~= o.to_multiset().insert(sb[ib]));
                assert(sb.take(ib).push(sb[ib]).to_multiset() =~= sb.take(ib).to_multiset().insert(sb[ib]));
                assert(views(out@).to_multiset() =~= sa.take(ia).to_multiset().add(
                    sb.take(ib + 1).to_multiset(),
                ));
                if ia < sa.len() {
                    lemma_key_antisymmetric(suffix(sb[ib], 0), sb[ib].1, suffix(sa[ia], 0), sa[ia].1);
                }
                if ib + 1 < sb.len() {
                    assert(order_at(sb[ib], sb[ib + 1], 0) != Ordering::Greater);
                }
                if sorted_at(sa + sb, 0) {
                    assert((sa + sb).take(ia + ib + 1) =~= (sa + sb).take(ia + ib).push(sb[ib]));
                    if ia < sa.len() {
                        assert((sa + sb)[ia] == sa[ia]);
                        assert((sa + sb)[sa.len() as int] == sb[0]);
                        assert(order_at((sa + sb)[ia], (sa + sb)[sa.len() as int], 0) != Ordering::Greater);
                    }
                }
            }
            proof {
                ib = ib + 1;
            }
        } else {
            let ghost before = ra@;
            let x = ra.pop().unwrap();
            proof {
                assert(views(before)[before.len() - 1] == x@);
                assert(sa.skip(ia).reverse()[before.len() - 1] == sa[ia]);
                assert(x@ == sa[ia]);
                assert(views(ra@) =~= views(before).drop_last());
                assert(views(ra@) =~= sa.skip(ia + 1).reverse());
            }
            out.push(x);
            proof {
                assert(views(out@) =~= o.push(sa[ia]));
                assert(sa.take(ia + 1) =~= sa.take(ia).push(sa[ia]));
                o.to_multiset_ensures();
                sa.take(ia).to_multiset_ensures();
                assert(o.push(sa[ia]).to_multiset() =~= o.to_multiset().insert(sa[ia]));
                assert(sa.take(ia).push(sa[ia]).to_multiset() =~= sa.take(ia).to_multiset().insert(sa[ia]));
                assert(views(out@).to_multiset() =~= sa.take(ia + 1).to_multiset().add(
                    sb.take(ib).to_multiset(),
                ));
                if ib < sb.len() {
                    lemma_key_antisymmetric(suffix(sb[ib], 0), sb[ib].1, suffix(sa[ia], 0), sa[ia].1);
                }
                if ia + 1 < sa.len() {
                    assert(order_at(sa[ia], sa[ia + 1], 0) != Ordering::Greater);
                }
                if sorted_at(sa + sb, 0) {
                    assert((sa + sb).take(ia + ib + 1) =~= (sa + sb).take(ia + ib).push(sa[ia]));
                }
            }
            proof {
                ia = ia + 1;
            }
        }
    }
    proof {
        assert(sa.take(ia) =~= sa);
        assert(sb.take(ib) =~= sb);
        assert((sa + sb).take(ia + ib) =~= sa + sb);
    }
    out
}

/// Sorts entries by the canonical order, merging halves; entries that
/// compare equal keep their given order.
fn merge_sort(v: Vec<DirEntry>) -> (r: Vec<DirEntry>)
    ensures
        views(r@).to_multiset() == views(v@).to_multiset(),
        adjacent_sorted(views(r@)),
        sorted_at(views(v@), 0) ==> views(r@) == views(v@),
    decreases v@.len(),
{
    if v.len() <= 1 {
        proof {
            assert(adjacent_sorted(views(v@)));
        }
        return v;
    }
    let ghost s = views(v@);
    let mut left = v;
    let mid = left.len() / 2;
    let right = left.split_off(mid);
    proof {
        assert(views(left@) =~= s.subrange(0, mid as int));
        assert(views(right@) =~= s.subrange(mid as int, s.len() as int));
        assert(s =~= views(left@) + views(right@));
        vstd::seq_lib::lemma_multiset_commutative(views(left@), views(right@));
        if sorted_at(s, 0) {
            assert(sorted_at(views(left@), 0)) by {
                assert forall|i: int, j: int| 0 <= i < j < views(left@).len() implies order_at(
                    views(left@)[i],
                    views(left@)[j],
                    0,
                ) != Ordering::Greater by {
                    assert(views(left@)[i] == s[i] && views(left@)[j] == s[j]);
                }
            }
            assert(sorted_at(views(right@), 0)) by {
                assert forall|i: int, j: int| 0 <= i < j < views(right@).len() implies order_at(
                    views(right@)[i],
                    views(right@)[j],
                    0,
                ) != Ordering::Greater by {
                    assert(views(right@)[i] == s[i + mid] && views(right@)[j] == s[j + mid]);
                }
            }
        }
    }
    let ghost sl = views(left@);
    let ghost sr = views(right@);
    let l = merge_sort(left);
    let r = merge_sort(right);
    proof {
        vstd::seq_lib::lemma_multiset_commutative(sl, sr);
    }
    merge(l, r)
}



fn same_bytes(a: &[u8], b: &[u8]) -> (r: bool)
    ensures
        r == (a@ == b@),
{
    if a.len() != b.len() {
        return false;
    }
    let mut i: usize = 0;
    while i < a.len()
        invariant
            a@.len() == b@.len(),
            i <= a@.len(),
            forall|j: int| 0 <= j < i ==> a@[j] == b@[j],
        decreases a@.len() - i,
    {
        if a[i] != b[i] {
            return false;
        }
        i = i + 1;
    }
    assert(a@ =~= b@);
    true
}

fn same_entry(a: &DirEntry, b: &DirEntry) -> (r: bool)
    ensures
        r == (a@ == b@),
{
    a.kind == b.kind && same_bytes(a.path.as_slice(), b.path.as_slice())
}

/// The two entries do not give one path both kinds.
pub open spec fn pair_ok(x: EntryView, y: EntryView) -> bool {
    x.0 == y.0 ==> x.1 == y.1
}

fn pair_consistent(a: &DirEntry, b: &DirEntry) -> (r: bool)
    ensures
        r == pair_ok(a@, b@),
{
    if a.kind != b.kind && same_bytes(a.path.as_slice(), b.path.as_slice()) {
        return false;
    }
    true
}

/// Checks every pair of entries.
fn all_consistent(v: &Vec<DirEntry>) -> (r: bool)
    ensures
        r == kinds_agree(views(v@)),
{
    let ghost s = views(v@);
    let mut i: usize = 0;
    while i < v.len()
        invariant
            s == views(v@),
            i <= v@.len(),
            forall|a: int, b: int| 0 <= a < i && 0 <= b < v@.len() ==> #[trigger] pair_ok(s[a], s[b]),
        decreases v@.len() - i,
    {
        let mut j: usize = 0;
        while j < v.len()
            invariant
                s == views(v@),
                i < v@.len(),
                j <= v@.len(),
                forall|a: int, b: int| 0 <= a < i && 0 <= b < v@.len() ==> #[trigger] pair_ok(s[a], s[b]),
                forall|b: int| 0 <= b < j ==> #[trigger] pair_ok(s[i as int], s[b]),
            decreases v@.len() - j,
        {
            let ok = pair_consistent(&v[i], &v[j]);
            proof {
                assert(s[i as int] == v@[i as int]@);
                assert(s[j as int] == v@[j as int]@);
            }
            if !ok {
                proof {
                    assert(s.contains(s[i as int]));
                    assert(s.contains(s[j as int]));
                }
                return false;
            }
            j = j + 1;
        }
        i = i + 1;
    }
    proof {
        assert forall|x: EntryView, y: EntryView|
            #[trigger] s.contains(x) && #[trigger] s.contains(y) && x.0 == y.0 implies x.1 == y.1 by {
            let a = choose|a: int| 0 <= a < s.len() && s[a] == x;
            let b = choose|b: int| 0 <= b < s.len() && s[b] == y;
            assert(pair_ok(s[a], s[b]));
        }
    }
    true
}

/// The entry's path past `off` compares equal to directory `key`.
pub open spec fn names_dir(e: EntryView, off: int, key: Seq<u8>) -> bool {
    key_order(suffix(e, off), e.1, key, FileType::Dir) == Ordering::Equal
}

fn cmp_key(e: &DirEntry, off: usize, key: &[u8]) -> (r: Ordering)
    requires
        off <= e@.0.len(),
    ensures
        r == key_order(suffix(e@, off as int), e@.1, key@, FileType::Dir),
{
    let p = e.path.as_slice();
    let tail = &p[off..p.len()];
    proof {
        assert(tail@ =~= suffix(e@, off as int));
    }
    key_cmp_(tail, e.kind, key, FileType::Dir)
}

fn under_key(e: &DirEntry, off: usize, key: &[u8]) -> (r: bool)
    requires
        off <= e@.0.len(),
    ensures
        r == nests_under(key@, suffix(e@, off as int)),
{
    let p = e.path.as_slice();
    let tail = &p[off..p.len()];
    proof {
        assert(tail@ =~= suffix(e@, off as int));
    }
    nested(key, tail)
}

pub open spec fn order_key(e: EntryView, off: int, key: Seq<u8>) -> Ordering {
    key_order(suffix(e, off), e.1, key, FileType::Dir)
}

proof fn lemma_skip_skip(p: Seq<u8>, a: int, b: int)
    requires
        0 <= a,
        0 <= b,
        a + b <= p.len(),
    ensures
        p.skip(a).skip(b) == p.skip(a + b),
{
    assert(p.skip(a).skip(b) =~= p.skip(a + b));
}

/// The run that starts after the last entry naming `k` and holds the entries
/// nested under `k` holds all of them.
proof fn lemma_run_complete(s: Seq<EntryView>, off: int, k: Seq<u8>, start: int, end: int)
    requires
        list_wf(s, off),
        0 < start <= end <= s.len(),
        names_dir(s[start - 1], off, k),
        start < s.len() ==> !names_dir(s[start], off, k),
        forall|i: int| start <= i < end ==> nests_under(k, #[trigger] suffix(s[i], off)),
        end < s.len() ==> !nests_under(k, suffix(s[end], off)),
    ensures
        forall|i: int| 0 <= i < s.len() && nests_under(k, #[trigger] suffix(s[i], off)) ==> start <= i < end,
{
    let f = start - 1;
    let sf = suffix(s[f], off);
    lemma_key_antisymmetric(sf, s[f].1, k, FileType::Dir);
    assert forall|i: int| 0 <= i < s.len() && nests_under(k, #[trigger] suffix(s[i], off)) implies start <= i < end by {
        let x = suffix(s[i], off);
        lemma_nested_key_less(k, x, s[i].1);
        lemma_key_antisymmetric(k, FileType::Dir, x, s[i].1);
        if i < f {
            assert(s.contains(s[i]) && s.contains(s[f]));
            assert(order_at(s[i], s[f], off) != Ordering::Greater);
            lemma_key_transitive(x, s[i].1, sf, s[f].1, k, FileType::Dir);
        }
        if i >= end {
            let e = end;
            let se = suffix(s[e], off);
            assert(s.contains(s[e]) && s.contains(s[f]) && s.contains(s[i]));
            assert(order_at(s[f], s[e], off) != Ordering::Greater);
            lemma_key_transitive(k, FileType::Dir, sf, s[f].1, se, s[e].1);
            lemma_key_antisymmetric(se, s[e].1, k, FileType::Dir);
            if i > e {
                assert(order_at(s[e], s[i], off) != Ordering::Greater);
                lemma_between_nested(k, se, s[e].1, x, s[i].1);
                if e > start {
                    let d = e - 1;
                    let sd = suffix(s[d], off);
                    assert(nests_under(k, sd));
                    lemma_nested_key_less(k, sd, s[d].1);
                    assert(order_at(s[d], s[e], off) != Ordering::Greater);
                    lemma_key_antisymmetric(k, FileType::Dir, sd, s[d].1);
                    lemma_key_transitive(sd, s[d].1, se, s[e].1, k, FileType::Dir);
                }
            }
        }
    }
}

/// A run of entries nested under `k` is well formed once the offset has moved
/// past `k` and its separator.
proof fn lemma_sublist_wf(s: Seq<EntryView>, off: int, k: Seq<u8>, start: int, end: int)
    requires
        0 <= off,
        list_wf(s, off),
        0 <= start < end <= s.len(),
        forall|i: int| start <= i < end ==> nests_under(k, #[trigger] suffix(s[i], off)),
    ensures
        list_wf(s.subrange(start, end), off + k.len() + 1),
{
    let t = s.subrange(start, end);
    let m: int = k.len() + 1int;
    let noff = off + m;
    assert forall|i: int| start <= i < end implies #[trigger] suffix(s[i], off).skip(m) == suffix(
        s[i],
        noff,
    ) by {
        assert(off <= s[i].0.len());
        assert(nests_under(k, suffix(s[i], off)));
        assert(suffix(s[i], off).len() == s[i].0.len() - off);
        lemma_skip_skip(s[i].0, off, m);
    }
    assert forall|i: int, j: int| start <= i < end && start <= j < end implies {
        key_order(suffix(s[i], off), s[i].1, suffix(s[j], off), s[j].1) == key_order(
            suffix(s[i], noff),
            s[i].1,
            suffix(s[j], noff),
            s[j].1,
        )
    } by {
        let a = suffix(s[i], off);
        let b = suffix(s[j], off);
        assert(nests_under(k, a));
        assert(nests_under(k, b));
        assert forall|x: int| 0 <= x < m implies lower(#[trigger] a[x]) == lower(b[x]) by {
            if x < k.len() {
                assert(lower(k[x]) == lower(a[x]));
                assert(lower(k[x]) == lower(b[x]));
            }
        }
        lemma_strip_common_dir(a, s[i].1, b, s[j].1, m);
    }
    assert forall|i: int| 0 <= i < t.len() implies noff <= #[trigger] t[i].0.len() by {
        assert(t[i] == s[i + start]);
        assert(off <= s[i + start].0.len());
        assert(nests_under(k, suffix(s[i + start], off)));
        assert(suffix(s[i + start], off).len() == s[i + start].0.len() - off);
    }
    assert forall|i: int, j: int| 0 <= i < j < t.len() implies order_at(t[i], t[j], noff)
        != Ordering::Greater by {
        assert(t[i] == s[i + start] && t[j] == s[j + start]);
        assert(order_at(s[i + start], s[j + start], off) != Ordering::Greater);
    }
}

/// The bytes past the last separator.
pub open spec fn last_name(p: Seq<u8>) -> Seq<u8>
    decreases p.len(),
{
    if p.len() == 0 {
        p
    } else if p.last() == SEP {
        Seq::empty()
    } else {
        last_name(p.drop_last()).push(p.last())
    }
}

/// The number of separators.
pub open spec fn depth(p: Seq<u8>) -> nat
    decreases p.len(),
{
    if p.len() == 0 {
        0
    } else {
        depth(p.drop_last()) + if p.last() == SEP {
            1nat
        } else {
            0nat
        }
    }
}

/// Every entry of every list, in turn.
pub open spec fn all_items(ls: Seq<ArchiveList>) -> Seq<EntryView>
    decreases ls.len(),
{
    if ls.len() == 0 {
        Seq::empty()
    } else {
        all_items(ls.drop_last()) + ls.last().items()
    }
}

proof fn lemma_concat_contains(a: Seq<EntryView>, b: Seq<EntryView>)
    ensures
        forall|x: EntryView| (a + b).contains(x) <==> a.contains(x) || b.contains(x),
{
    assert forall|x: EntryView| (a + b).contains(x) <==> a.contains(x) || b.contains(x) by {
        if (a + b).contains(x) {
            let k = choose|k: int| 0 <= k < (a + b).len() && (a + b)[k] == x;
            if k < a.len() {
                assert(a[k] == x);
            } else {
                assert(b[k - a.len()] == x);
            }
        }
        if a.contains(x) {
            let k = choose|k: int| 0 <= k < a.len() && a[k] == x;
            assert((a + b)[k] == x);
        }
        if b.contains(x) {
            let k = choose|k: int| 0 <= k < b.len() && b[k] == x;
            assert((a + b)[k + a.len()] == x);
        }
    }
}

fn contains_entry(v: &Vec<DirEntry>, d: &DirEntry) -> (r: bool)
    ensures
        r == views(v@).contains(d@),
{
    let mut i: usize = 0;
    while i < v.len()
        invariant
            i <= v@.len(),
            forall|j: int| 0 <= j < i ==> views(v@)[j] != d@,
        decreases v@.len() - i,
    {
        if same_entry(&v[i], d) {
            proof {
                assert(views(v@)[i as int] == d@);
            }
            return true;
        }
        i = i + 1;
    }
    false
}

/// Entries kept in the canonical order. `offset` counts the leading bytes of
/// every path that earlier lookups have consumed.
pub struct ArchiveList {
    entries: Vec<DirEntry>,
    offset: usize,
}

/// Every path reaches past the offset, and the suffixes are sorted.
pub open spec fn list_wf(s: Seq<EntryView>, off: int) -> bool {
    &&& forall|i: int| 0 <= i < s.len() ==> off <= #[trigger] s[i].0.len()
    &&& sorted_at(s, off)
}

impl ArchiveList {
    pub closed spec fn items(&self) -> Seq<EntryView> {
        views(self.entries@)
    }

    pub closed spec fn offset(&self) -> nat {
        self.offset as nat
    }

    pub open spec fn wf(&self) -> bool {
        list_wf(self.items(), self.offset() as int)
    }

    /// Sorts `entries` into a list. The order is that of the entries' sort
    /// keys, which is the canonical order wherever no file has another entry
    /// nested under it; entries that compare equal keep their given order.
    pub fn new(entries: Vec<DirEntry>) -> (l: ArchiveList)
        ensures
            l.wf(),
            l.offset() == 0,
            l.items().to_multiset() == views(entries@).to_multiset(),
            sorted_at(views(entries@), 0) ==> l.items() == views(entries@),
    {
        let ghost input = views(entries@);
        let sorted = merge_sort(entries);
        let ghost s = views(sorted@);
        proof {
            lemma_skip_zero(s);
            assert forall|i: int| 0 <= i < s.len() implies 0 <= #[trigger] s[i].0.len() by {}
            lemma_adjacent_sorted_all(s);
        }
        ArchiveList { entries: sorted, offset: 0 }
    }

    /// The contents of directory `key`, a child of the current level: the
    /// entries nested under it, with the offset moved past `key` and its
    /// separator. None when no directory `key` is listed at this level.
    pub fn list(&self, key: &str) -> (r: Option<ArchiveList>)
        requires
            self.wf(),
            self.offset() + key.spec_bytes().len() < usize::MAX,
        ensures
            r is Some <==> exists|i: int|
                0 <= i < self.items().len() && names_dir(
                    #[trigger] self.items()[i],
                    self.offset() as int,
                    key.spec_bytes(),
                ),
            r matches Some(l) ==> {
                &&& l.wf()
                &&& l.offset() == self.offset() + key.spec_bytes().len() + 1
                &&& exists|lo: int, hi: int|
                    {
                        &&& 0 < lo <= hi <= self.items().len()
                        &&& names_dir(self.items()[lo - 1], self.offset() as int, key.spec_bytes())
                        &&& l.items() == self.items().subrange(lo, hi)
                        &&& forall|k: int|
                            lo <= k < hi ==> nests_under(
                                key.spec_bytes(),
                                #[trigger] suffix(self.items()[k], self.offset() as int),
                            )
                        &&& hi < self.items().len() ==> !nests_under(
                            key.spec_bytes(),
                            suffix(self.items()[hi], self.offset() as int),
                        )
                        &&& forall|k: int|
                            0 <= k < self.items().len() && nests_under(
                                key.spec_bytes(),
                                #[trigger] suffix(self.items()[k], self.offset() as int),
                            ) ==> lo <= k < hi
                    }
            },
    {
        self.list_bytes(key.as_bytes())
    }

    /// The contents of directory `key`, a child of the current level: the
    /// entries nested under it, with the offset moved past `key` and its
    /// separator. None when no directory `key` is listed at this level.
    pub fn list_bytes(&self, key: &[u8]) -> (r: Option<ArchiveList>)
        requires
            self.wf(),
            self.offset() + key@.len() < usize::MAX,
        ensures
            r is Some <==> exists|i: int|
                0 <= i < self.items().len() && names_dir(
                    #[trigger] self.items()[i],
                    self.offset() as int,
                    key@,
                ),
            r matches Some(l) ==> {
                &&& l.wf()
                &&& l.offset() == self.offset() + key@.len() + 1
                &&& exists|lo: int, hi: int|
                    {
                        &&& 0 < lo <= hi <= self.items().len()
                        &&& names_dir(self.items()[lo - 1], self.offset() as int, key@)
                        &&& l.items() == self.items().subrange(lo, hi)
                        &&& forall|k: int|
                            lo <= k < hi ==> nests_under(
                                key@,
                                #[trigger] suffix(self.items()[k], self.offset() as int),
                            )
                        &&& hi < self.items().len() ==> !nests_under(
                            key@,
                            suffix(self.items()[hi], self.offset() as int),
                        )
                        &&& forall|k: int|
                            0 <= k < self.items().len() && nests_under(
                                key@,
                                #[trigger] suffix(self.items()[k], self.offset() as int),
                            ) ==> lo <= k < hi
                    }
            },
    {
        let kb = key;
        let e = &self.entries;
        let off = self.offset;
        let ghost s = self.items();
        let ghost k = kb@;
        let ghost found = exists|i: int| 0 <= i < s.len() && #[trigger] names_dir(s[i], off as int, k);
        proof {
            assert forall|i: int| 0 <= i < s.len() implies #[trigger] s[i] == e@[i]@ by {}
        }
        let mut lo: usize = 0;
        let mut hi: usize = e.len();
        while lo < hi
            invariant
                s == views(e@),
                forall|i: int| 0 <= i < s.len() ==> s[i] == #[trigger] e@[i]@,
                k == kb@,
            forall|i: int| 0 <= i < s.len() ==> s[i] == #[trigger] e@[i]@,
            k == kb@,
                list_wf(s, off as int),
                found == exists|i: int| 0 <= i < s.len() && #[trigger] names_dir(s[i], off as int, k),
                0 <= lo <= hi <= s.len(),
                found ==> forall|i: int|
                    0 <= i < lo ==> #[trigger] order_key(s[i], off as int, k) == Ordering::Less,
                found ==> forall|i: int|
                    hi <= i < s.len() ==> #[trigger] order_key(s[i], off as int, k) != Ordering::Less,
            decreases hi - lo,
        {
            let mid = lo + (hi - lo) / 2;
            let c = cmp_key(&e[mid], off, kb);
            proof {
                assert(s[mid as int] == e@[mid as int]@);
            }
            if matches!(c, Ordering::Less) {
                proof {
                    if found {
                        let f = choose|i: int| 0 <= i < s.len() && #[trigger] names_dir(s[i], off as int, k);
                        assert forall|i: int| 0 <= i <= mid implies #[trigger] order_key(s[i], off as int, k)
                            == Ordering::Less by {
                            if i < mid {
                                assert(s.contains(s[i]) && s.contains(s[mid as int]));
                                assert(order_at(s[i], s[mid as int], off as int) != Ordering::Greater);
                                lemma_key_transitive(
                                    suffix(s[i], off as int), s[i].1,
                                    suffix(s[mid as int], off as int), s[mid as int].1,
                                    k, FileType::Dir,
                                );
                            }
                        }
                    }
                }
                lo = mid + 1;
            } else {
                proof {
                    if found {
                        let f = choose|i: int| 0 <= i < s.len() && #[trigger] names_dir(s[i], off as int, k);
                        assert forall|i: int| mid <= i < s.len() implies #[trigger] order_key(s[i], off as int, k)
                            != Ordering::Less by {
                            if i > mid {
                                assert(s.contains(s[i]) && s.contains(s[mid as int]));
                                assert(order_at(s[mid as int], s[i], off as int) != Ordering::Greater);
                                lemma_key_antisymmetric(
                                    suffix(s[mid as int], off as int), s[mid as int].1, k, FileType::Dir,
                                );
                                lemma_key_antisymmetric(
                                    suffix(s[i], off as int), s[i].1, k, FileType::Dir,
                                );
                                lemma_key_transitive(
                                    k, FileType::Dir,
                                    suffix(s[mid as int], off as int), s[mid as int].1,
                                    suffix(s[i], off as int), s[i].1,
                                );
                            }
                        }
                    }
                }
                hi = mid;
            }
        }
        let hit = if lo < e.len() {
            proof {
                assert(s[lo as int] == e@[lo as int]@);
                assert(off <= s[lo as int].0.len());
            }
            matches!(cmp_key(&e[lo], off, kb), Ordering::Equal)
        } else {
            false
        };
        if !hit {
            proof {
                if found {
                    let f = choose|i: int| 0 <= i < s.len() && #[trigger] names_dir(s[i], off as int, k);
                    assert(order_key(s[f], off as int, k) == Ordering::Equal);
                    if f < lo {
                        assert(order_key(s[f], off as int, k) == Ordering::Less);
                    }
                    assert(lo < s.len());
                    assert(s[lo as int] == e@[lo as int]@);
                    assert(order_key(s[lo as int], off as int, k) != Ordering::Less);
                    if f > lo {
                        assert(s.contains(s[f]) && s.contains(s[lo as int]));
                        assert(order_at(s[lo as int], s[f], off as int) != Ordering::Greater);
                        lemma_key_transitive(
                            suffix(s[lo as int], off as int), s[lo as int].1,
                            suffix(s[f], off as int), s[f].1,
                            k, FileType::Dir,
                        );
                    }
                    assert(order_key(s[lo as int], off as int, k) == Ordering::Equal);
                }
            }
            return None;
        }
        proof {
            assert(s[lo as int] == e@[lo as int]@);
            assert(names_dir(s[lo as int], off as int, k));
        }
        let mut start: usize = lo + 1;
        loop
            invariant
                s == views(e@),
                forall|i: int| 0 <= i < s.len() ==> s[i] == #[trigger] e@[i]@,
                k == kb@,
                list_wf(s, off as int),
                lo < start <= s.len(),
                names_dir(s[start - 1], off as int, k),
            ensures
                lo < start <= s.len(),
                names_dir(s[start - 1], off as int, k),
                start < s.len() ==> !names_dir(s[start as int], off as int, k),
            decreases s.len() - start,
        {
            if start == e.len() {
                break;
            }
            let c = cmp_key(&e[start], off, kb);
            proof {
                assert(s[start as int] == e@[start as int]@);
                assert(off <= s[start as int].0.len());
            }
            if !matches!(c, Ordering::Equal) {
                break;
            }
            start = start + 1;
        }
        let mut end: usize = start;
        let mut sub: Vec<DirEntry> = Vec::new();
        loop
            invariant
                s == views(e@),
                forall|i: int| 0 <= i < s.len() ==> s[i] == #[trigger] e@[i]@,
                k == kb@,
                list_wf(s, off as int),
                0 < start <= end <= s.len(),
                names_dir(s[start - 1], off as int, k),
                views(sub@) == s.subrange(start as int, end as int),
                forall|i: int| start <= i < end ==> nests_under(k, #[trigger] suffix(s[i], off as int)),
            ensures
                0 < start <= end <= s.len(),
                views(sub@) == s.subrange(start as int, end as int),
                forall|i: int| start <= i < end ==> nests_under(k, #[trigger] suffix(s[i], off as int)),
                end < s.len() ==> !nests_under(k, suffix(s[end as int], off as int)),
            decreases s.len() - end,
        {
            if end == e.len() {
                break;
            }
            proof {
                assert(s[end as int] == e@[end as int]@);
                assert(off <= s[end as int].0.len());
            }
            let nu = under_key(&e[end], off, kb);
            if !nu {
                break;
            }
            let d = e[end].duplicate();
            let ghost old_sub = sub@;
            sub.push(d);
            proof {
                assert(views(sub@) =~= views(old_sub).push(d@));
                assert(views(sub@) =~= s.subrange(start as int, end + 1));
            }
            end = end + 1;
        }
        proof {
            if end < s.len() {
                assert(s[end as int] == e@[end as int]@);
            }
            assert(names_dir(s[start - 1], off as int, k));
        }
        let new_off = off + kb.len() + 1;
        proof {
            lemma_run_complete(s, off as int, k, start as int, end as int);
            let t = views(sub@);
            let m: int = k.len() + 1int;
            if end > start {
                lemma_sublist_wf(s, off as int, k, start as int, end as int);
            } else {
                assert(t.len() == 0);
                assert(list_wf(t, new_off as int));
            }
        }
        Some(ArchiveList { entries: sub, offset: new_off })
    }

    /// For each entry, in order: its last path segment past the offset, its
    /// kind, and the number of separators past the offset.
    pub fn iter(&self) -> (r: Vec<(Vec<u8>, FileType, usize)>)
        requires
            self.wf(),
        ensures
            r@.len() == self.items().len(),
            forall|i: int|
                0 <= i < r@.len() ==> {
                    let e = self.items()[i];
                    &&& (#[trigger] r@[i]).0@ == last_name(suffix(e, self.offset() as int))
                    &&& r@[i].1 == e.1
                    &&& r@[i].2 == depth(suffix(e, self.offset() as int))
                },
    {
        let ghost s = self.items();
        let off = self.offset;
        let mut out: Vec<(Vec<u8>, FileType, usize)> = Vec::new();
        let mut i: usize = 0;
        while i < self.entries.len()
            invariant
                s == self.items(),
                s == views(self.entries@),
                off == self.offset,
                self.wf(),
                i <= s.len(),
                out@.len() == i,
                forall|k: int|
                    0 <= k < i ==> {
                        &&& (#[trigger] out@[k]).0@ == last_name(suffix(s[k], off as int))
                        &&& out@[k].1 == s[k].1
                        &&& out@[k].2 == depth(suffix(s[k], off as int))
                    },
            decreases s.len() - i,
        {
            let p = self.entries[i].path.as_slice();
            let ghost ps = p@;
            proof {
                assert(s[i as int] == self.entries@[i as int]@);
                assert(off <= s[i as int].0.len());
            }
            let mut name: Vec<u8> = Vec::new();
            let mut d: usize = 0;
            let mut j: usize = off;
            while j < p.len()
                invariant
                    off <= j <= p@.len(),
                    name@ == last_name(p@.subrange(off as int, j as int)),
                    d == depth(p@.subrange(off as int, j as int)),
                    d <= j - off,
                decreases p@.len() - j,
            {
                proof {
                    assert(p@.subrange(off as int, j + 1).drop_last() =~= p@.subrange(off as int, j as int));
                }
                if p[j] == SEP {
                    name.clear();
                    d = d + 1;
                } else {
                    name.push(p[j]);
                }
                j = j + 1;
            }
            proof {
                assert(p@.subrange(off as int, p@.len() as int) =~= suffix(s[i as int], off as int));
            }
            out.push((name, self.entries[i].kind, d));
            i = i + 1;
        }
        out
    }

    /// Merges several lists into one: every entry of every list, once, sorted.
    /// Fails when one path is listed both as a file and as a directory.
    pub fn compose(lists: Vec<ArchiveList>) -> (r: Result<ArchiveList, ArchiveError>)
        ensures
            r is Err <==> !kinds_agree(all_items(lists@)),
            r is Err ==> r->Err_0 == ArchiveError::Conflict,
            r matches Ok(l) ==> {
                &&& l.wf()
                &&& l.offset() == 0
                &&& l.items().no_duplicates()
                &&& forall|x: EntryView| l.items().contains(x) <==> all_items(lists@).contains(x)
            },
    {
        let ghost all = all_items(lists@);
        let mut pool: Vec<DirEntry> = Vec::new();
        let mut rest = lists;
        while rest.len() > 0
            invariant
                views(pool@).no_duplicates(),
                forall|x: EntryView|
                    views(pool@).contains(x) || all_items(rest@).contains(x) <==> all.contains(x),
            decreases rest@.len(),
        {
            let ghost before = rest@;
            let l = rest.pop().unwrap();
            proof {
                assert(rest@ =~= before.drop_last());
                assert(all_items(before) == all_items(rest@) + l.items());
            }
            let mut es = l.entries;
            proof {
                lemma_concat_contains(all_items(rest@), l.items());
            }
            while es.len() > 0
                invariant
                    views(pool@).no_duplicates(),
                    forall|x: EntryView|
                        views(pool@).contains(x) || views(es@).contains(x) || all_items(rest@).contains(x)
                            <==> all.contains(x),
                decreases es@.len(),
            {
                let ghost es0 = views(es@);
                let d = es.pop().unwrap();
                proof {
                    assert(es0 =~= views(es@).push(d@));
                }
                let ghost p0 = views(pool@);
                let seen = contains_entry(&pool, &d);
                if !seen {
                    pool.push(d);
                    proof {
                        assert(views(pool@) =~= p0.push(d@));
                        assert forall|x: EntryView| views(pool@).contains(x) implies p0.contains(x) || x == d@ by {
                            if views(pool@).contains(x) {
                                let k = choose|k: int| 0 <= k < views(pool@).len() && views(pool@)[k] == x;
                                if k < p0.len() {
                                    assert(p0[k] == x);
                                }
                            }
                        }
                        assert(views(pool@).last() == d@);
                    }
                }
                proof {
                    assert forall|x: EntryView| es0.contains(x) implies views(es@).contains(x) || x == d@ by {
                        let k = choose|k: int| 0 <= k < es0.len() && es0[k] == x;
                        if k < es0.len() - 1 {
                            assert(views(es@)[k] == x);
                        }
                    }
                    assert forall|x: EntryView| views(es@).contains(x) implies es0.contains(x) by {
                        let k = choose|k: int| 0 <= k < views(es@).len() && views(es@)[k] == x;
                        assert(es0[k] == x);
                    }
                    assert(es0.contains(d@)) by {
                        assert(es0[es0.len() - 1] == d@);
                    }
                    if seen {
                        assert(views(pool@) == p0);
                    } else {
                        assert forall|x: EntryView| p0.contains(x) implies views(pool@).contains(x) by {
                            let k = choose|k: int| 0 <= k < p0.len() && p0[k] == x;
                            assert(views(pool@)[k] == x);
                        }
                    }
                    assert forall|x: EntryView|
                        views(pool@).contains(x) || views(es@).contains(x) || all_items(rest@).contains(x)
                            <==> p0.contains(x) || es0.contains(x) || all_items(rest@).contains(x) by {}
                }
            }
        }
        let ghost pv = views(pool@);
        proof {
            assert(all_items(rest@) =~= Seq::<EntryView>::empty());
            assert(kinds_agree(pv) == kinds_agree(all)) by {
                assert forall|x: EntryView| pv.contains(x) <==> all.contains(x) by {}
            }
        }
        if !all_consistent(&pool) {
            return Err(ArchiveError::Conflict);
        }
        let l = ArchiveList::new(pool);
        proof {
            let li = l.items();
            lemma_same_multiset_contains(li, pv);
            pv.lemma_multiset_has_no_duplicates();
            li.lemma_multiset_has_no_duplicates_conv();
        }
        Ok(l)
    }

    /// How many leading bytes of every path earlier lookups have consumed.
    pub fn consumed(&self) -> (r: usize)
        ensures
            r == self.offset(),
    {
        self.offset
    }

    /// The number of entries.
    pub fn len(&self) -> (r: usize)
        ensures
            r == self.items().len(),
    {
        self.entries.len()
    }
}

/// The directory that `Prefix::Mods` puts a source under.
pub open spec fn mods_dir() -> Seq<u8> {
    seq![0x6du8, 0x6fu8, 0x64u8, 0x73u8]
}

/// Where a source's entries go in the merged view.
#[derive(Clone, Copy, Debug, PartialEq, Eq, Structural)]
pub enum Prefix {
    /// At the root, as listed.
    Root,
    /// Under `mods/`.
    Mods,
}

/// An entry moved under `mods/`.
pub open spec fn under_mods(e: EntryView) -> EntryView {
    (mods_dir().push(SEP) + e.0, e.1)
}

/// The entries of a list once `p` is applied.
pub open spec fn prefixed(p: Prefix, s: Seq<EntryView>) -> Seq<EntryView> {
    match p {
        Prefix::Root => s,
        Prefix::Mods => seq![(mods_dir(), FileType::Dir)] + s.map_values(|e: EntryView| under_mods(e)),
    }
}

impl Prefix {
    /// Applies the prefix: for `Mods`, puts `mods/` before every path and
    /// lists the `mods` directory itself first.
    pub fn prepend(&self, list: &mut ArchiveList)
        ensures
            final(list).items() == prefixed(*self, old(list).items()),
            final(list).offset() == old(list).offset(),
            old(list).wf() && old(list).offset() == 0 ==> final(list).wf(),
    {
        match *self {
            Prefix::Root => {
                return;
            },
            Prefix::Mods => {},
        }
        let ghost s = list.items();
        let mut dir: Vec<u8> = Vec::new();
        dir.push(0x6d);
        dir.push(0x6f);
        dir.push(0x64);
        dir.push(0x73);
        proof {
            assert(dir@ =~= mods_dir());
        }
        let mut out: Vec<DirEntry> = Vec::new();
        out.push(DirEntry { kind: FileType::Dir, path: dir });
        let mut i: usize = 0;
        while i < list.entries.len()
            invariant
                s == views(list.entries@),
                i <= s.len(),
                views(out@) =~= seq![(mods_dir(), FileType::Dir)] + s.take(i as int).map_values(
                    |e: EntryView| under_mods(e),
                ),
            decreases s.len() - i,
        {
            let e = &list.entries[i];
            let mut path: Vec<u8> = Vec::new();
            path.push(0x6d);
            path.push(0x6f);
            path.push(0x64);
            path.push(0x73);
            path.push(SEP);
            let mut j: usize = 0;
            while j < e.path.len()
                invariant
                    j <= e.path@.len(),
                    path@ =~= mods_dir().push(SEP) + e.path@.take(j as int),
                decreases e.path@.len() - j,
            {
                path.push(e.path[j]);
                j = j + 1;
            }
            proof {
                assert(e.path@.take(e.path@.len() as int) =~= e.path@);
                assert(s[i as int] == e@);
            }
            let ghost o = views(out@);
            out.push(DirEntry { kind: e.kind, path });
            proof {
                assert(views(out@) =~= o.push(under_mods(s[i as int])));
                assert(s.take(i + 1).map_values(|e: EntryView| under_mods(e)) =~= s.take(
                    i as int,
                ).map_values(|e: EntryView| under_mods(e)).push(under_mods(s[i as int])));
            }
            i = i + 1;
        }
        proof {
            assert(s.take(s.len() as int) =~= s);
        }
        let ghost old_list = *list;
        list.entries = out;
        proof {
            if old_list.wf() && old_list.offset() == 0 {
                lemma_prefixed_wf(s);
            }
        }
    }
}

proof fn lemma_prefixed_wf(s: Seq<EntryView>)
    requires
        list_wf(s, 0),
    ensures
        list_wf(prefixed(Prefix::Mods, s), 0),
{
    let t = prefixed(Prefix::Mods, s);
    let m: int = 5;
    let head = mods_dir().push(SEP);
    lemma_skip_zero(s);
    lemma_skip_zero(t);
    assert forall|i: int| 0 <= i < s.len() implies #[trigger] under_mods(s[i]).0.skip(m) == s[i].0 by {
        assert(under_mods(s[i]).0.skip(m) =~= s[i].0);
    }
    assert forall|i: int| 0 <= i < t.len() implies 0 <= #[trigger] t[i].0.len() by {}
    assert forall|i: int, j: int| 0 <= i < s.len() && 0 <= j < s.len() implies {
        key_order(under_mods(s[i]).0, s[i].1, under_mods(s[j]).0, s[j].1) == key_order(
            s[i].0,
            s[i].1,
            s[j].0,
            s[j].1,
        )
    } by {
        let a = under_mods(s[i]).0;
        let b = under_mods(s[j]).0;
        assert forall|x: int| 0 <= x < m implies lower(#[trigger] a[x]) == lower(b[x]) by {
            assert(a[x] == head[x] && b[x] == head[x]);
        }
        assert(a[m - 1] == SEP);
        lemma_strip_common_dir(a, s[i].1, b, s[j].1, m);
    }
    assert forall|i: int| 0 <= i < s.len() implies nests_under(
        mods_dir(),
        #[trigger] under_mods(s[i]).0,
    ) by {
        let b = under_mods(s[i]).0;
        assert(b[4] == SEP);
        assert forall|x: int| 0 <= x < 4 implies lower(mods_dir()[x]) == lower(b[x]) by {
            assert(b[x] == head[x]);
        }
    }
    assert forall|i: int| 1 <= i < t.len() implies #[trigger] t[i] == under_mods(s[i - 1]) by {}
    assert forall|i: int, j: int| 0 <= i < j < t.len() implies order_at(t[i], t[j], 0)
        != Ordering::Greater by {
        if i == 0 {
            assert(t[j] == under_mods(s[j - 1]));
            assert(nests_under(mods_dir(), under_mods(s[j - 1]).0));
            lemma_nested_key_less(mods_dir(), under_mods(s[j - 1]).0, s[j - 1].1);
        } else {
            assert(t[i] == under_mods(s[i - 1]) && t[j] == under_mods(s[j - 1]));
            assert(order_at(s[i - 1], s[j - 1], 0) != Ordering::Greater);
        }
    }
}

} // verus!
