//! Ordering facts shared by leaf and internal nodes: what it means for a key
//! array to be sorted, and where a new key belongs in it.

use vstd::prelude::*;

verus! {

/// The sequence is in weakly ascending order (equal neighbours allowed).
pub open spec fn sorted(s: Seq<u128>) -> bool {
    forall|i: int, j: int| 0 <= i < j < s.len() ==> s[i] <= s[j]
}

/// The first index whose element is strictly greater than `id`, or `s.len()`
/// if there is none.  Inserting at this index keeps a sorted sequence sorted
/// and places a duplicate after all existing occurrences of its value.
pub open spec fn insert_pos(s: Seq<u128>, id: u128) -> int
    decreases s.len(),
{
    if s.len() == 0 {
        0
    } else if id < s[0] {
        0
    } else {
        1 + insert_pos(s.drop_first(), id)
    }
}

pub proof fn lemma_insert_pos_props(s: Seq<u128>, id: u128)
    ensures
        0 <= insert_pos(s, id) <= s.len(),
        forall|k: int| 0 <= k < insert_pos(s, id) ==> #[trigger] s[k] <= id,
        insert_pos(s, id) < s.len() ==> id < s[insert_pos(s, id)],
    decreases s.len(),
{
    if s.len() == 0 {
    } else if id < s[0] {
    } else {
        lemma_insert_pos_props(s.drop_first(), id);
        assert forall|k: int| 0 <= k < insert_pos(s, id) implies #[trigger] s[k] <= id by {
            if k > 0 {
                assert(s.drop_first()[k - 1] <= id);
            }
        }
        if insert_pos(s, id) < s.len() {
            assert(id < s.drop_first()[insert_pos(s.drop_first(), id)]);
        }
    }
}

/// There is only one index with nothing greater than `id` before it and
/// something greater at it, so a forward scan that stops at the first
/// strictly greater element lands exactly on `insert_pos`.
pub proof fn lemma_insert_pos_unique(s: Seq<u128>, id: u128, i: int)
    requires
        0 <= i <= s.len(),
        forall|k: int| 0 <= k < i ==> !(id < #[trigger] s[k]),
        i < s.len() ==> id < s[i],
    ensures
        i == insert_pos(s, id),
    decreases s.len(),
{
    if s.len() == 0 {
    } else if id < s[0] {
        if i > 0 {
            assert(!(id < s[0]));
        }
    } else {
        assert(i >= 1) by {
            if i == 0 {
                assert(id < s[0]);
            }
        }
        let t = s.drop_first();
        assert forall|k: int| 0 <= k < i - 1 implies !(id < #[trigger] t[k]) by {
            assert(t[k] == s[k + 1]);
        }
        if i - 1 < t.len() {
            assert(t[i - 1] == s[i]);
        }
        lemma_insert_pos_unique(t, id, i - 1);
    }
}

/// Any contiguous piece of a sorted sequence is sorted.
pub proof fn lemma_sorted_subrange(s: Seq<u128>, a: int, b: int)
    requires
        sorted(s),
        0 <= a <= b <= s.len(),
    ensures
        sorted(s.subrange(a, b)),
{
    assert forall|i: int, j: int| 0 <= i < j < b - a implies s.subrange(a, b)[i] <= s.subrange(
        a,
        b,
    )[j] by {
        assert(s.subrange(a, b)[i] == s[a + i]);
        assert(s.subrange(a, b)[j] == s[a + j]);
    }
}

/// Inserting a key at its `insert_pos` preserves sortedness.
pub proof fn lemma_sorted_insert(s: Seq<u128>, id: u128)
    requires
        sorted(s),
    ensures
        sorted(s.insert(insert_pos(s, id), id)),
{
    lemma_insert_pos_props(s, id);
    let p = insert_pos(s, id);
    s.insert_ensures(p, id);
    let t = s.insert(p, id);
    assert forall|i: int, j: int| 0 <= i < j < t.len() implies t[i] <= t[j] by {
        if i < p {
            assert(t[i] == s[i]);
        }
        if j < p {
            assert(t[j] == s[j]);
        }
        if i > p {
            assert(t[i] == s[i - 1]);
        }
        if j > p {
            assert(t[j] == s[j - 1]);
        }
    }
}

} // verus!
