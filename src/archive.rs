//! The merged view of several sources, and the plan for copying it out.

use vstd::prelude::*;
use crate::error::ArchiveError;
use crate::list::{
    all_items, depth, kinds_agree, last_name, mods_dir, names_dir, prefixed, suffix, under_mods,
    ArchiveList, EntryView, Prefix,
};

verus! {

/// The entries of every source once its prefix is applied, in turn.
pub open spec fn prefixed_items(ls: Seq<ArchiveList>, ps: Seq<Prefix>) -> Seq<EntryView>
    decreases ls.len(),
{
    if ls.len() == 0 || ps.len() == 0 {
        Seq::empty()
    } else {
        prefixed_items(ls.drop_last(), ps.drop_last()) + prefixed(ps.last(), ls.last().items())
    }
}

/// One listing pass over the sources of an archive: the merged list and the
/// prefix chosen for each source. It may be copied out once.
pub struct ArchiveView {
    prefixes: Vec<Prefix>,
    list: ArchiveList,
    copied: bool,
}

impl ArchiveView {
    pub closed spec fn prefixes(&self) -> Seq<Prefix> {
        self.prefixes@
    }

    pub closed spec fn merged(&self) -> ArchiveList {
        self.list
    }

    pub closed spec fn is_copied(&self) -> bool {
        self.copied
    }

    /// Applies to each source's list the prefix chosen for it, and merges the
    /// results. Fails when one path is listed both as a file and as a
    /// directory.
    pub fn build(lists: Vec<ArchiveList>, prefixes: Vec<Prefix>) -> (r: Result<ArchiveView, ArchiveError>)
        requires
            lists@.len() == prefixes@.len(),
        ensures
            r is Err <==> !kinds_agree(prefixed_items(lists@, prefixes@)),
            r is Err ==> r->Err_0 == ArchiveError::Conflict,
            r matches Ok(v) ==> {
                &&& v.merged().wf()
                &&& v.merged().offset() == 0
                &&& v.merged().items().no_duplicates()
                &&& forall|x: EntryView|
                    v.merged().items().contains(x) <==> prefixed_items(lists@, prefixes@).contains(x)
                &&& v.prefixes() == prefixes@
                &&& !v.is_copied()
            },
    {
        let ghost ls = lists@;
        let ghost ps = prefixes@;
        let mut rest = lists;
        let mut done: Vec<ArchiveList> = Vec::new();
        let mut i: usize = 0;
        while i < prefixes.len()
            invariant
                ls.len() == ps.len(),
                i <= ls.len(),
                ps == prefixes@,
                i + rest@.len() == ls.len(),
                rest@ == ls.skip(i as int),
                done@.len() == i,
                all_items(done@) == prefixed_items(ls.take(i as int), ps.take(i as int)),
            decreases ls.len() - i,
        {
            let mut l = rest.remove(0);
            let p = prefixes[i];
            proof {
                assert(l == ls[i as int]);
                assert(rest@ =~= ls.skip(i + 1));
            }
            p.prepend(&mut l);
            let ghost before = done@;
            done.push(l);
            proof {
                assert(done@.drop_last() =~= before);
                assert(ls.take(i + 1).drop_last() =~= ls.take(i as int));
                assert(ps.take(i + 1).drop_last() =~= ps.take(i as int));
            }
            i = i + 1;
        }
        proof {
            assert(ls.take(i as int) =~= ls);
            assert(ps.take(i as int) =~= ps);
        }
        match ArchiveList::compose(done) {
            Ok(list) => Ok(ArchiveView { prefixes, list, copied: false }),
            Err(e) => Err(e),
        }
    }

    /// The merged list.
    pub fn list(&self) -> (r: &ArchiveList)
        ensures
            *r == self.merged(),
    {
        &self.list
    }

    pub fn copied(&self) -> (r: bool)
        ensures
            r == self.is_copied(),
    {
        self.copied
    }

    /// Starts the one copy this view allows: marks it copied and hands out the
    /// prefixes, one per source in order.
    pub fn begin_copy(&mut self) -> (r: Vec<Prefix>)
        requires
            !old(self).is_copied(),
        ensures
            final(self).is_copied(),
            r@ == old(self).prefixes(),
            final(self).prefixes().len() == 0,
            final(self).merged() == old(self).merged(),
    {
        self.copied = true;
        let mut out: Vec<Prefix> = Vec::new();
        std::mem::swap(&mut out, &mut self.prefixes);
        out
    }
}

/// Where one source is copied to.
#[derive(Clone, Copy, Debug, PartialEq, Eq, Structural)]
pub struct CopyTarget {
    /// Into the `mods` directory under the destination, else into the
    /// destination itself.
    pub into_mods: bool,
    /// The `mods` directory has to be created before this source is copied.
    pub create_mods: bool,
}

/// For each source in order, where it is copied: `Mods` sources into `mods`
/// under the destination, which is created once, before the first of them.
pub fn copy_targets(prefixes: &Vec<Prefix>) -> (r: Vec<CopyTarget>)
    ensures
        r@.len() == prefixes@.len(),
        forall|i: int|
            0 <= i < r@.len() ==> {
                &&& (#[trigger] r@[i]).into_mods == (prefixes@[i] == Prefix::Mods)
                &&& r@[i].create_mods == (prefixes@[i] == Prefix::Mods && forall|j: int|
                    0 <= j < i ==> prefixes@[j] == Prefix::Root)
            },
{
    let mut out: Vec<CopyTarget> = Vec::new();
    let mut mods_exists = false;
    let mut i: usize = 0;
    while i < prefixes.len()
        invariant
            i <= prefixes@.len(),
            out@.len() == i,
            mods_exists == exists|j: int| 0 <= j < i && prefixes@[j] == Prefix::Mods,
            forall|k: int|
                0 <= k < i ==> {
                    &&& (#[trigger] out@[k]).into_mods == (prefixes@[k] == Prefix::Mods)
                    &&& out@[k].create_mods == (prefixes@[k] == Prefix::Mods && forall|j: int|
                        0 <= j < k ==> prefixes@[j] == Prefix::Root)
                },
        decreases prefixes@.len() - i,
    {
        let into_mods = match prefixes[i] {
            Prefix::Mods => true,
            Prefix::Root => false,
        };
        let create_mods = into_mods && !mods_exists;
        proof {
            assert(create_mods == (prefixes@[i as int] == Prefix::Mods && forall|j: int|
                0 <= j < i ==> prefixes@[j] == Prefix::Root)) by {
                if !mods_exists {
                    assert forall|j: int| 0 <= j < i implies prefixes@[j] == Prefix::Root by {
                        if prefixes@[j] == Prefix::Mods {
                            assert(exists|j: int| 0 <= j < i && prefixes@[j] == Prefix::Mods);
                        }
                    }
                } else {
                    let j = choose|j: int| 0 <= j < i && prefixes@[j] == Prefix::Mods;
                    assert(prefixes@[j] != Prefix::Root);
                }
            }
        }
        if into_mods {
            mods_exists = true;
        }
        out.push(CopyTarget { into_mods, create_mods });
        i = i + 1;
    }
    out
}

/// A source routed to `mods` shows up in the merged view with every one of
/// its paths under `mods/`.
pub proof fn lemma_mods_routing(ls: Seq<ArchiveList>, ps: Seq<Prefix>, i: int, x: EntryView)
    requires
        ls.len() == ps.len(),
        0 <= i < ls.len(),
        ps[i] == Prefix::Mods,
        ls[i].items().contains(x),
    ensures
        prefixed_items(ls, ps).contains(under_mods(x)),
        prefixed_items(ls, ps).contains((mods_dir(), crate::order::FileType::Dir)),
    decreases ls.len(),
{
    if i < ls.len() - 1 {
        lemma_mods_routing(ls.drop_last(), ps.drop_last(), i, x);
        let a = prefixed_items(ls.drop_last(), ps.drop_last());
        let b = prefixed(ps.last(), ls.last().items());
        let k = choose|k: int| 0 <= k < a.len() && a[k] == under_mods(x);
        assert((a + b)[k] == under_mods(x));
        let k2 = choose|k: int| 0 <= k < a.len() && a[k] == (mods_dir(), crate::order::FileType::Dir);
        assert((a + b)[k2] == (mods_dir(), crate::order::FileType::Dir));
    } else {
        let a = prefixed_items(ls.drop_last(), ps.drop_last());
        let s = ls[i].items();
        let b = prefixed(ps[i], s);
        let k = choose|k: int| 0 <= k < s.len() && s[k] == x;
        assert(b[k + 1] == under_mods(x));
        assert((a + b)[a.len() + k + 1] == under_mods(x));
        assert((a + b)[a.len() as int] == (mods_dir(), crate::order::FileType::Dir));
    }
}

/// `l` lists directory `key` at its level.
pub open spec fn lists_dir(l: ArchiveList, key: Seq<u8>) -> bool {
    exists|i: int| 0 <= i < l.items().len() && names_dir(#[trigger] l.items()[i], l.offset() as int, key)
}

pub open spec fn binaries_dir() -> Seq<u8> {
    seq![0x62u8, 0x69u8, 0x6eu8, 0x61u8, 0x72u8, 0x69u8, 0x65u8, 0x73u8]
}

pub open spec fn mod_ext() -> Seq<u8> {
    seq![0x2eu8, 0x6du8, 0x6fu8, 0x64u8]
}

/// The last segment of the last top-level entry before position `i`.
pub open spec fn parent_before(s: Seq<EntryView>, off: int, i: int) -> Option<Seq<u8>>
    decreases i,
{
    if i <= 0 {
        None
    } else if depth(suffix(s[i - 1], off)) == 0 {
        Some(last_name(suffix(s[i - 1], off)))
    } else {
        parent_before(s, off, i - 1)
    }
}

/// Entry `i` is `name/name.mod` under the top-level entry `name` before it.
pub open spec fn marks_mod(s: Seq<EntryView>, off: int, i: int) -> bool {
    &&& depth(suffix(s[i], off)) == 1
    &&& parent_before(s, off, i) matches Some(p)
    &&& last_name(suffix(s[i], off)) == p + mod_ext()
}

fn bytes_eq(a: &[u8], b: &[u8]) -> (r: bool)
    ensures
        r == (a@ == b@),
{
    if a.len() != b.len() {
        return false;
    }
    let mut i: usize = 0;
    while i < a.len()
        invariant
            a@.len() == b@.len(),
            i <= a@.len(),
            forall|j: int| 0 <= j < i ==> a@[j] == b@[j],
        decreases a@.len() - i,
    {
        if a[i] != b[i] {
            return false;
        }
        i = i + 1;
    }
    assert(a@ =~= b@);
    true
}

/// Decides where a dropped source goes from its listing: at the root when it
/// already holds `mods` or `binaries`, under `mods` when it holds a folder
/// `name` with a `name.mod` file in it, and otherwise it is not a mod package.
pub fn check_archive(_path: &str, list: &ArchiveList) -> (r: Result<Prefix, ArchiveError>)
    requires
        list.wf(),
        list.offset() + 8 < usize::MAX,
    ensures
        r == (if lists_dir(*list, mods_dir()) || lists_dir(*list, binaries_dir()) {
            Ok(Prefix::Root)
        } else if exists|i: int| 0 <= i < list.items().len() && #[trigger] marks_mod(list.items(), list.offset() as int, i) {
            Ok(Prefix::Mods)
        } else {
            Err(ArchiveError::UnknownLayout)
        }),
{
    let mods: Vec<u8> = vec![0x6d, 0x6f, 0x64, 0x73];
    let binaries: Vec<u8> = vec![0x62, 0x69, 0x6e, 0x61, 0x72, 0x69, 0x65, 0x73];
    proof {
        assert(mods@ =~= mods_dir());
        assert(binaries@ =~= binaries_dir());
    }
    if list.list_bytes(mods.as_slice()).is_some() || list.list_bytes(binaries.as_slice()).is_some() {
        return Ok(Prefix::Root);
    }
    let items = list.iter();
    let ghost s = list.items();
    let ghost off = list.offset() as int;
    let mut parent: Option<Vec<u8>> = None;
    let mut i: usize = 0;
    while i < items.len()
        invariant
            s == list.items(),
            off == list.offset() as int,
            !lists_dir(*list, mods_dir()),
            !lists_dir(*list, binaries_dir()),
            items@.len() == s.len(),
            forall|k: int|
                0 <= k < items@.len() ==> {
                    &&& (#[trigger] items@[k]).0@ == last_name(suffix(s[k], off))
                    &&& items@[k].2 == depth(suffix(s[k], off))
                },
            i <= s.len(),
            match parent {
                Some(p) => parent_before(s, off, i as int) == Some(p@),
                None => parent_before(s, off, i as int) is None,
            },
            forall|k: int| 0 <= k < i ==> !#[trigger] marks_mod(s, off, k),
        decreases s.len() - i,
    {
        let name = &items[i].0;
        let d = items[i].2;
        if d == 0 {
            let mut copy: Vec<u8> = Vec::new();
            let mut j: usize = 0;
            while j < name.len()
                invariant
                    j <= name@.len(),
                    copy@ == name@.take(j as int),
                decreases name@.len() - j,
            {
                copy.push(name[j]);
                proof {
                    assert(copy@ =~= name@.take(j + 1));
                }
                j = j + 1;
            }
            proof {
                assert(copy@ =~= name@);
            }
            parent = Some(copy);
        } else if d == 1 {
            if let Some(p) = &parent {
                let n = name.len();
                if n >= 4 && n - 4 == p.len() && name[n - 4] == 0x2e && name[n - 3] == 0x6d && name[n - 2] == 0x6f
                    && name[n - 1] == 0x64 && bytes_eq(&name.as_slice()[0..n - 4], p.as_slice()) {
                    proof {
                        assert(name@ =~= p@ + mod_ext());
                        assert(marks_mod(s, off, i as int));
                    }
                    return Ok(Prefix::Mods);
                }
                proof {
                    if name@ == p@ + mod_ext() {
                        assert(name@.subrange(0, n - 4) =~= p@);
                        assert(name@[n - 4] == mod_ext()[0]);
                        assert(name@[n - 3] == mod_ext()[1]);
                        assert(name@[n - 2] == mod_ext()[2]);
                        assert(name@[n - 1] == mod_ext()[3]);
                    }
                }
            }
        }
        i = i + 1;
    }
    Err(ArchiveError::UnknownLayout)
}

} // verus!
