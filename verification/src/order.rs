//! The mathematical model of the container: sequences of integers in
//! non-decreasing order, and the rank of a value in such a sequence.

use vstd::prelude::*;

verus! {

/// A sequence of integers arranged in non-decreasing order.
pub open spec fn sorted(s: Seq<int>) -> bool {
    forall|i: int, j: int| 0 <= i <= j < s.len() ==> s[i] <= s[j]
}

/// The number of leading entries of `s` that are <= `v`.  For a sorted
/// sequence this is the number of entries <= `v`, and it is the position
/// at which inserting `v` keeps the sequence sorted (after any equal
/// entries, so the newest equal element lands last).
pub open spec fn rank(s: Seq<int>, v: int) -> int
    decreases s.len(),
{
    if s.len() == 0 || s[0] > v {
        0
    } else {
        1 + rank(s.subrange(1, s.len() as int), v)
    }
}

pub proof fn lemma_rank_bounds(s: Seq<int>, v: int)
    ensures
        0 <= rank(s, v) <= s.len(),
    decreases s.len(),
{
    if s.len() == 0 || s[0] > v {
    } else {
        lemma_rank_bounds(s.subrange(1, s.len() as int), v);
    }
}

/// In a sorted sequence, every entry before the rank is <= `v` and the
/// entry at the rank, when there is one, is > `v`.
pub proof fn lemma_rank_prefix(s: Seq<int>, v: int)
    requires
        sorted(s),
    ensures
        0 <= rank(s, v) <= s.len(),
        forall|i: int| 0 <= i < rank(s, v) ==> s[i] <= v,
        rank(s, v) < s.len() ==> s[rank(s, v)] > v,
    decreases s.len(),
{
    lemma_rank_bounds(s, v);
    if s.len() == 0 || s[0] > v {
    } else {
        let t = s.subrange(1, s.len() as int);
        assert(sorted(t)) by {
            assert(forall|i: int, j: int|
                0 <= i <= j < t.len() ==> t[i] == s[i + 1] && t[j] == s[j + 1]);
        }
        lemma_rank_prefix(t, v);
        assert forall|i: int| 0 <= i < rank(s, v) implies s[i] <= v by {
            if i >= 1 {
                assert(t[i - 1] <= v);
            }
        }
        if rank(s, v) < s.len() {
            assert(t[rank(s, v) - 1] > v);
        }
    }
}

/// The rank is the only position `k` of a sorted sequence with everything
/// before it <= `v` and the entry at it (if any) > `v`.
pub proof fn lemma_rank_unique(s: Seq<int>, v: int, k: int)
    requires
        sorted(s),
        0 <= k <= s.len(),
        forall|i: int| 0 <= i < k ==> s[i] <= v,
        k < s.len() ==> s[k] > v,
    ensures
        rank(s, v) == k,
{
    lemma_rank_prefix(s, v);
    let r = rank(s, v);
    if r < k {
        assert(s[r] <= v);
    }
    if k < r {
        assert(s[k] <= v);
    }
}

/// A sorted sequence holds `v` exactly when the entry just before the
/// rank of `v` is `v` itself.
pub proof fn lemma_sorted_contains(s: Seq<int>, v: int)
    requires
        sorted(s),
    ensures
        s.contains(v) <==> (rank(s, v) > 0 && s[rank(s, v) - 1] == v),
{
    lemma_rank_prefix(s, v);
    let r = rank(s, v);
    if s.contains(v) {
        let i = choose|i: int| 0 <= i < s.len() && s[i] == v;
        if i >= r {
            assert(s[r] <= s[i]);
            assert(false);
        }
        assert(s[i] <= s[r - 1] <= v);
    }
}

/// Inserting a value at its rank keeps the sequence sorted, makes the
/// value a member, and keeps every old member present.
pub proof fn lemma_insert_preserves_members(s: Seq<int>, v: int)
    requires
        sorted(s),
    ensures
        sorted(s.insert(rank(s, v), v)),
        s.insert(rank(s, v), v).contains(v),
        forall|w: int| s.contains(w) ==> #[trigger] s.insert(rank(s, v), v).contains(w),
{
    lemma_rank_prefix(s, v);
    let r = rank(s, v);
    let t = s.insert(r, v);
    assert(t[r] == v);
    assert forall|i: int, j: int| 0 <= i <= j < t.len() implies t[i] <= t[j] by {
        if i < r {
            assert(t[i] == s[i]);
        }
        if j < r {
            assert(t[j] == s[j]);
        }
        if i > r {
            assert(t[i] == s[i - 1]);
        }
        if j > r {
            assert(t[j] == s[j - 1]);
        }
        if i < r && j == r {
            assert(s[i] <= v);
        }
        if i == r && j > r {
            assert(s[j - 1] > v);
        }
    }
    assert forall|w: int| s.contains(w) implies #[trigger] t.contains(w) by {
        let i = choose|i: int| 0 <= i < s.len() && s[i] == w;
        if i < r {
            assert(t[i] == w);
        } else {
            assert(t[i + 1] == w);
        }
    }
    assert(t.contains(v)) by {
        assert(t[r] == v);
    }
}

} // verus!
