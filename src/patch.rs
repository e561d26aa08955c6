//! Byte-pattern search used to tell whether the game's bundle database has
//! been patched.

use vstd::prelude::*;

verus! {

/// `check` stands in `bytes` at position `i`.
pub open spec fn found_at(bytes: Seq<u8>, check: Seq<u8>, i: int) -> bool {
    0 <= i && i + check.len() <= bytes.len() && bytes.subrange(i, i + check.len()) == check
}

/// The first position where `check` stands in `bytes`.
pub fn bytes_check(bytes: &[u8], check: &[u8]) -> (r: Option<usize>)
    requires
        check@.len() > 0,
    ensures
        r matches Some(i) ==> found_at(bytes@, check@, i as int) && forall|j: int|
            0 <= j < i ==> !found_at(bytes@, check@, j),
        r is None ==> forall|j: int| !found_at(bytes@, check@, j),
{
    let n = bytes.len();
    let m = check.len();
    if m > n {
        return None;
    }
    let mut i: usize = 0;
    while i <= n - m
        invariant
            n == bytes@.len(),
            m == check@.len(),
            m <= n,
            i <= n - m + 1,
            forall|j: int| 0 <= j < i ==> !found_at(bytes@, check@, j),
        decreases n - m + 1 - i,
    {
        let mut k: usize = 0;
        let mut same = true;
        while k < m
            invariant
                n == bytes@.len(),
                m == check@.len(),
                i + m <= n,
                k <= m,
                same == forall|x: int| 0 <= x < k ==> bytes@[i + x] == check@[x],
            decreases m - k,
        {
            if bytes[i + k] != check[k] {
                same = false;
            }
            k = k + 1;
        }
        proof {
            if same {
                assert(bytes@.subrange(i as int, i + m) =~= check@);
            } else {
                if found_at(bytes@, check@, i as int) {
                    assert forall|x: int| 0 <= x < m implies bytes@[i + x] == check@[x] by {
                        assert(bytes@.subrange(i as int, i + m)[x] == check@[x]);
                    }
                }
            }
        }
        if same {
            return Some(i);
        }
        i = i + 1;
    }
    None
}

} // verus!
