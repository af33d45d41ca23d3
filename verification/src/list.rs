//! The skip list itself: nodes held in an arena and addressed by index,
//! the well-formedness invariant that ties every level's chain to the
//! sorted base chain, and the traversal, lookup and insertion operations.

use vstd::prelude::*;

use crate::levels::level_from_bits;
use crate::levels::fresh_rng;
use crate::levels::next_word;
use crate::levels::seeded_rng;
use crate::levels::valid_num_levels;
use crate::order::rank;
use crate::order::sorted;

verus! {

/// One node of the list.  The head sentinel holds no value and has the
/// maximum tower height; every other node holds one value.  Links are
/// arena indices: `next[k]` is the node's forward neighbour on the
/// level-`k` chain, populated only for `k` up to the node's own height,
/// and `prev` is its base-order predecessor.
pub struct SkipListNode {
    level: usize,
    val: Option<i64>,
    prev: Option<usize>,
    next: Vec<Option<usize>>,
}

/// The list: an arena of nodes (the head sentinel sits at index 0), the
/// configured number of levels, a length counter, a random source for
/// tower heights, and the ghost base order of the arena indices.
pub struct SkipList {
    nodes: Vec<SkipListNode>,
    num_levels: usize,
    len: usize,
    rng: fastrand::Rng,
    ord: Ghost<Seq<int>>,
}

/// The arena index of the node at base-order position `p`.
pub open spec fn index_at(ord: Seq<int>, p: int) -> int {
    ord[p]
}

/// The tower height of the node at base-order position `p`.
pub closed spec fn level_at_pos(nodes: Seq<SkipListNode>, ord: Seq<int>, p: int) -> int {
    nodes[ord[p]].level as int
}

/// The value held by the node at base-order position `p` (head excluded).
pub closed spec fn value_at_pos(nodes: Seq<SkipListNode>, ord: Seq<int>, p: int) -> int {
    nodes[ord[p]].val->0 as int
}

/// The level-`k` forward link of the node at base-order position `p`.
pub closed spec fn next_at_pos(nodes: Seq<SkipListNode>, ord: Seq<int>, p: int, k: int) -> Option<
    usize,
> {
    nodes[ord[p]].next@[k]
}

/// The first base-order position after `p` whose node has tower height at
/// least `k`, or the length of the order when there is none.
pub open spec fn succ_pos(nodes: Seq<SkipListNode>, ord: Seq<int>, p: int, k: int) -> int
    decreases ord.len() - p,
{
    if p + 1 >= ord.len() {
        ord.len() as int
    } else if level_at_pos(nodes, ord, p + 1) >= k {
        p + 1
    } else {
        succ_pos(nodes, ord, p + 1, k)
    }
}

/// The link that a well-formed level-`k` chain stores at position `p`:
/// the index of the next tower of height at least `k`, if any.
pub open spec fn succ_link(nodes: Seq<SkipListNode>, ord: Seq<int>, p: int, k: int) -> Option<
    usize,
> {
    if succ_pos(nodes, ord, p, k) < ord.len() {
        Some(index_at(ord, succ_pos(nodes, ord, p, k)) as usize)
    } else {
        None
    }
}

/// Well-formedness of the whole structure over the ghost base order:
/// the order is a permutation of the arena starting at the head; values
/// along it are non-decreasing; each node's level-`k` link points to the
/// next tower of height at least `k` and exists only up to the node's own
/// height; and each node's backward link points to its base predecessor.
pub closed spec fn links_wf(nodes: Seq<SkipListNode>, ord: Seq<int>, nl: int) -> bool {
    let n = nodes.len() as int;
    &&& valid_num_levels(nl)
    &&& n >= 1
    &&& ord.len() == n
    &&& ord[0] == 0
    &&& (forall|p: int| 0 <= p < n ==> 0 <= #[trigger] index_at(ord, p) < n)
    &&& (forall|p: int, q: int|
        #![trigger index_at(ord, p), index_at(ord, q)]
        0 <= p < q < n ==> index_at(ord, p) != index_at(ord, q))
    &&& (forall|j: int| 0 <= j < n ==> #[trigger] ord.contains(j))
    &&& nodes[0].val is None
    &&& nodes[0].level == nl - 1
    &&& nodes[0].prev is None
    &&& (forall|j: int| 1 <= j < n ==> (#[trigger] nodes[j].val) is Some)
    &&& (forall|j: int| 0 <= j < n ==> (#[trigger] nodes[j].level) < nl)
    &&& (forall|j: int| 0 <= j < n ==> (#[trigger] nodes[j].next)@.len() == nl)
    &&& (forall|p: int, q: int|
        #![trigger value_at_pos(nodes, ord, p), value_at_pos(nodes, ord, q)]
        1 <= p <= q < n ==> value_at_pos(nodes, ord, p) <= value_at_pos(nodes, ord, q))
    &&& (forall|j: int, k: int|
        0 <= j < n && nodes[j].level < k < nl ==> (#[trigger] nodes[j].next@[k]) is None)
    &&& (forall|p: int, k: int|
        0 <= p < n && 0 <= k <= level_at_pos(nodes, ord, p) ==> #[trigger] next_at_pos(
            nodes,
            ord,
            p,
            k,
        ) == succ_link(nodes, ord, p, k))
    &&& (forall|p: int|
        1 <= p < n ==> (#[trigger] nodes[index_at(ord, p)].prev) == Some(
            index_at(ord, p - 1) as usize,
        ))
}

/// The values of the element nodes in base order: the abstract content
/// of the list.
pub closed spec fn chain_vals(nodes: Seq<SkipListNode>, ord: Seq<int>) -> Seq<int> {
    Seq::new((ord.len() - 1) as nat, |i: int| value_at_pos(nodes, ord, i + 1))
}

impl View for SkipList {
    type V = Seq<int>;

    closed spec fn view(&self) -> Seq<int> {
        chain_vals(self.nodes@, self.ord@)
    }
}

pub proof fn lemma_succ_pos_bounds(nodes: Seq<SkipListNode>, ord: Seq<int>, p: int, k: int)
    requires
        0 <= p < ord.len(),
    ensures
        p < succ_pos(nodes, ord, p, k) <= ord.len(),
        succ_pos(nodes, ord, p, k) < ord.len() ==> level_at_pos(
            nodes,
            ord,
            succ_pos(nodes, ord, p, k),
        ) >= k,
        forall|r: int|
            p < r < succ_pos(nodes, ord, p, k) ==> #[trigger] level_at_pos(nodes, ord, r) < k,
    decreases ord.len() - p,
{
    if p + 1 >= ord.len() {
    } else if level_at_pos(nodes, ord, p + 1) >= k {
    } else {
        lemma_succ_pos_bounds(nodes, ord, p + 1, k);
    }
}

pub proof fn lemma_succ_pos_unique(
    nodes: Seq<SkipListNode>,
    ord: Seq<int>,
    p: int,
    k: int,
    q: int,
)
    requires
        0 <= p < q <= ord.len(),
        forall|r: int| p < r < q ==> #[trigger] level_at_pos(nodes, ord, r) < k,
        q < ord.len() ==> level_at_pos(nodes, ord, q) >= k,
    ensures
        succ_pos(nodes, ord, p, k) == q,
    decreases q - p,
{
    if p + 1 == q {
    } else {
        assert(level_at_pos(nodes, ord, p + 1) < k);
        lemma_succ_pos_unique(nodes, ord, p + 1, k, q);
    }
}

/// When no tower of height at least `k` sits in `(p, q]`, the level-`k`
/// successor is the same seen from `p` and from `q`.
pub proof fn lemma_succ_pos_skip(nodes: Seq<SkipListNode>, ord: Seq<int>, p: int, q: int, k: int)
    requires
        0 <= p <= q < ord.len(),
        forall|r: int| p < r <= q ==> #[trigger] level_at_pos(nodes, ord, r) < k,
    ensures
        succ_pos(nodes, ord, p, k) == succ_pos(nodes, ord, q, k),
{
    if p < q {
        lemma_succ_pos_bounds(nodes, ord, q, k);
        let s = succ_pos(nodes, ord, q, k);
        assert forall|r: int| p < r < s implies #[trigger] level_at_pos(nodes, ord, r) < k by {
            if r > q {
                assert(level_at_pos(nodes, ord, r) < k);
            }
        }
        lemma_succ_pos_unique(nodes, ord, p, k, s);
    }
}

/// The facts the insertion descent records about one level `k`: the walk
/// stopped at or before the insertion point, on a tower of height at
/// least `k`, and the next tower of that height holds a value greater
/// than the one being inserted.
spec fn stop_facts(
    nodes0: Seq<SkipListNode>,
    ord0: Seq<int>,
    item: i64,
    upos: Seq<int>,
    pins: int,
    k: int,
) -> bool {
    &&& 0 <= upos[k] <= pins - 1
    &&& level_at_pos(nodes0, ord0, upos[k]) >= k
    &&& (succ_pos(nodes0, ord0, upos[k], k) < ord0.len() ==> value_at_pos(
        nodes0,
        ord0,
        succ_pos(nodes0, ord0, upos[k], k),
    ) > item as int)
}

/// The level-`k` successor seen from the recorded stop position is the
/// same as the one seen from the position just before the insertion
/// point, and it lies at or past the insertion point.
proof fn lemma_stop_succ(
    nodes0: Seq<SkipListNode>,
    ord0: Seq<int>,
    nl: int,
    item: i64,
    upos: Seq<int>,
    pins: int,
    k: int,
)
    requires
        links_wf(nodes0, ord0, nl),
        0 <= k < nl,
        1 <= pins <= ord0.len(),
        stop_facts(nodes0, ord0, item, upos, pins, k),
        forall|r: int| 1 <= r <= pins - 1 ==> value_at_pos(nodes0, ord0, r) <= item as int,
    ensures
        succ_pos(nodes0, ord0, upos[k], k) >= pins,
        succ_pos(nodes0, ord0, upos[k], k) == succ_pos(nodes0, ord0, pins - 1, k),
        forall|r: int| upos[k] < r <= pins - 1 ==> #[trigger] level_at_pos(nodes0, ord0, r) < k,
{
    let pk = upos[k];
    lemma_succ_pos_bounds(nodes0, ord0, pk, k);
    let sk = succ_pos(nodes0, ord0, pk, k);
    if sk < ord0.len() && sk <= pins - 1 {
        assert(value_at_pos(nodes0, ord0, sk) <= item as int);
        assert(false);
    }
    assert(sk >= pins);
    assert forall|r: int| pk < r <= pins - 1 implies #[trigger] level_at_pos(nodes0, ord0, r)
        < k by {
        assert(r < sk);
    }
    lemma_succ_pos_skip(nodes0, ord0, pk, pins - 1, k);
}

/// The recorded stop position at level `k` is the only tower of height at
/// least `k` at or before the insertion point whose level-`k` successor
/// lies at or past it.
proof fn lemma_stop_is_last_tower(
    nodes0: Seq<SkipListNode>,
    ord0: Seq<int>,
    nl: int,
    item: i64,
    upos: Seq<int>,
    pins: int,
    k: int,
    p: int,
)
    requires
        links_wf(nodes0, ord0, nl),
        0 <= k < nl,
        1 <= pins <= ord0.len(),
        stop_facts(nodes0, ord0, item, upos, pins, k),
        forall|r: int| 1 <= r <= pins - 1 ==> value_at_pos(nodes0, ord0, r) <= item as int,
        0 <= p <= pins - 1,
        level_at_pos(nodes0, ord0, p) >= k,
        succ_pos(nodes0, ord0, p, k) >= pins,
    ensures
        p == upos[k],
{
    let pk = upos[k];
    lemma_stop_succ(nodes0, ord0, nl, item, upos, pins, k);
    lemma_succ_pos_bounds(nodes0, ord0, p, k);
    if p < pk {
        assert(p < pk <= pins - 1 < pins <= succ_pos(nodes0, ord0, p, k));
        assert(level_at_pos(nodes0, ord0, pk) < k);
        assert(false);
    }
    if pk < p {
        assert(level_at_pos(nodes0, ord0, p) < k);
        assert(false);
    }
}

/// After the splice, the structure is well formed over the base order
/// with the new node at the insertion point, and its content is the old
/// content with the new value inserted there.
#[verifier::rlimit(100)]
proof fn lemma_splice_wf(
    nodes0: Seq<SkipListNode>,
    ord0: Seq<int>,
    nl: int,
    item: i64,
    h: int,
    upos: Seq<int>,
    nodes2: Seq<SkipListNode>,
    m: int,
    pins: int,
)
    requires
        links_wf(nodes0, ord0, nl),
        0 <= h < nl,
        upos.len() == nl,
        forall|k: int| 0 <= k < nl ==> #[trigger] stop_facts(nodes0, ord0, item, upos, pins, k),
        upos[0] == pins - 1,
        1 <= pins <= ord0.len(),
        forall|r: int| 1 <= r <= pins - 1 ==> value_at_pos(nodes0, ord0, r) <= item as int,
        pins < ord0.len() ==> value_at_pos(nodes0, ord0, pins) > item as int,
        m == nodes0.len(),
        nodes2.len() == m + 1,
        nodes2[m].level as int == h,
        nodes2[m].val == Some(item),
        nodes2[m].prev == Some(index_at(ord0, pins - 1) as usize),
        nodes2[m].next@.len() == nl,
        forall|j: int| 0 <= j < m ==> (#[trigger] nodes2[j].level) == nodes0[j].level,
        forall|j: int| 0 <= j < m ==> (#[trigger] nodes2[j].val) == nodes0[j].val,
        forall|j: int| 0 <= j < m ==> (#[trigger] nodes2[j].next)@.len() == nodes0[j].next@.len(),
        forall|j: int|
            0 <= j < m && !(pins < ord0.len() && j == index_at(ord0, pins)) ==> (
            #[trigger] nodes2[j].prev) == nodes0[j].prev,
        pins < ord0.len() ==> nodes2[index_at(ord0, pins)].prev == Some(m as usize),
        forall|j: int, k: int|
            0 <= j < m && 0 <= k < nl && !(k <= h && j == index_at(ord0, upos[k])) ==> (
            #[trigger] nodes2[j].next@[k]) == nodes0[j].next@[k],
        forall|k: int|
            0 <= k <= h ==> (#[trigger] nodes2[index_at(ord0, upos[k])].next@[k]) == Some(
                m as usize,
            ),
        forall|k: int|
            0 <= k <= h ==> (#[trigger] nodes2[m].next@[k]) == nodes0[index_at(
                ord0,
                upos[k],
            )].next@[k],
        forall|k: int| h < k < nl ==> (#[trigger] nodes2[m].next@[k]) is None,
    ensures
        links_wf(nodes2, ord0.insert(pins, m), nl),
        chain_vals(nodes2, ord0.insert(pins, m)) =~= chain_vals(nodes0, ord0).insert(
            pins - 1,
            item as int,
        ),
{
    let n0 = ord0.len() as int;
    let ord2 = ord0.insert(pins, m);
    let n2 = n0 + 1;
    ord0.insert_ensures(pins, m);
    assert(ord2.len() == n2);
    assert forall|p: int| pins < p < n2 implies #[trigger] ord2[p] == ord0[p - 1] by {
        assert(ord2[(p - 1) + 1] == ord0[p - 1]);
    }

    // positionwise translation of levels and values
    assert forall|p: int| 0 <= p < pins implies level_at_pos(nodes2, ord2, p) == level_at_pos(
        nodes0,
        ord0,
        p,
    ) && (1 <= p ==> value_at_pos(nodes2, ord2, p) == value_at_pos(nodes0, ord0, p)) by {
        assert(0 <= index_at(ord0, p) < m);
    }
    assert(level_at_pos(nodes2, ord2, pins) == h);
    assert(value_at_pos(nodes2, ord2, pins) == item as int);
    assert forall|p: int| pins < p < n2 implies level_at_pos(nodes2, ord2, p) == level_at_pos(
        nodes0,
        ord0,
        p - 1,
    ) && value_at_pos(nodes2, ord2, p) == value_at_pos(nodes0, ord0, p - 1) by {
        assert(0 <= index_at(ord0, p - 1) < m);
    }

    // the permutation facts
    assert(ord2[0] == 0);
    assert forall|p: int| 0 <= p < n2 implies 0 <= #[trigger] index_at(ord2, p) < n2 by {
        if p < pins {
            assert(0 <= index_at(ord0, p) < n0);
        } else if p > pins {
            assert(0 <= index_at(ord0, p - 1) < n0);
        }
    }
    assert forall|p: int, q: int|
        #![trigger index_at(ord2, p), index_at(ord2, q)]
        0 <= p < q < n2 implies index_at(ord2, p) != index_at(ord2, q) by {
        let jp = if p < pins { index_at(ord0, p) } else if p == pins { m } else {
            index_at(ord0, p - 1)
        };
        let jq = if q < pins { index_at(ord0, q) } else if q == pins { m } else {
            index_at(ord0, q - 1)
        };
        assert(index_at(ord2, p) == jp);
        assert(index_at(ord2, q) == jq);
        if p != pins && q != pins {
            let p0 = if p < pins { p } else { p - 1 };
            let q0 = if q < pins { q } else { q - 1 };
            assert(index_at(ord0, p0) != index_at(ord0, q0));
        } else {
            // one of them is the new node, whose index m exceeds every old index
            if p == pins {
                assert(0 <= index_at(ord0, q - 1) < n0);
            }
            if q == pins {
                assert(0 <= index_at(ord0, if p < pins { p } else { p - 1 }) < n0);
            }
        }
    }
    assert forall|j: int| 0 <= j < n2 implies #[trigger] ord2.contains(j) by {
        if j == m {
            assert(ord2[pins] == j);
        } else {
            assert(ord0.contains(j));
            let p = choose|p: int| 0 <= p < n0 && ord0[p] == j;
            if p < pins {
                assert(ord2[p] == j);
            } else {
                assert(ord2[p + 1] == j);
            }
        }
    }

    // the head is untouched
    assert(index_at(ord0, pins - 1) == ord0[pins - 1]);
    if pins < n0 {
        assert(0 <= index_at(ord0, pins) < n0);
        assert(index_at(ord0, pins) != index_at(ord0, 0));
    }
    assert(nodes2[0].val is None);
    assert(nodes2[0].level == nl - 1);
    assert(nodes2[0].prev is None);

    // structural facts per arena index
    assert forall|j: int| 1 <= j < n2 implies (#[trigger] nodes2[j].val) is Some by {
        if j < m {
            assert(nodes0[j].val is Some);
        }
    }
    assert forall|j: int| 0 <= j < n2 implies (#[trigger] nodes2[j].level) < nl by {
        if j < m {
            assert(nodes0[j].level < nl);
        }
    }
    assert forall|j: int| 0 <= j < n2 implies (#[trigger] nodes2[j].next)@.len() == nl by {
        if j < m {
            assert(nodes0[j].next@.len() == nl);
        }
    }

    // sortedness of the values along the new order
    assert forall|p: int, q: int|
        #![trigger value_at_pos(nodes2, ord2, p), value_at_pos(nodes2, ord2, q)]
        1 <= p <= q < n2 implies value_at_pos(nodes2, ord2, p) <= value_at_pos(
        nodes2,
        ord2,
        q,
    ) by {
        if p < pins && q < pins {
            assert(value_at_pos(nodes0, ord0, p) <= value_at_pos(nodes0, ord0, q));
        } else if p < pins && q == pins {
            assert(value_at_pos(nodes0, ord0, p) <= item as int);
        } else if p < pins && q > pins {
            assert(value_at_pos(nodes0, ord0, p) <= item as int);
            assert(value_at_pos(nodes0, ord0, pins) <= value_at_pos(nodes0, ord0, q - 1));
            assert(value_at_pos(nodes0, ord0, q - 1) > item as int);
        } else if p == pins && q > pins {
            assert(value_at_pos(nodes0, ord0, pins) <= value_at_pos(nodes0, ord0, q - 1));
            assert(value_at_pos(nodes0, ord0, q - 1) > item as int);
        } else if p > pins && q > pins {
            assert(value_at_pos(nodes0, ord0, p - 1) <= value_at_pos(nodes0, ord0, q - 1));
        }
    }

    // no forward links above a node's own height
    assert forall|j: int, k: int|
        0 <= j < n2 && nodes2[j].level < k < nl implies (#[trigger] nodes2[j].next@[k])
        is None by {
        if j < m {
            assert(nodes0[j].next@[k] is None);
            if k <= h && j == index_at(ord0, upos[k]) {
                let pk = upos[k];
                assert(stop_facts(nodes0, ord0, item, upos, pins, k));
                assert(level_at_pos(nodes0, ord0, pk) >= k);
                assert(false);
            }
            assert(nodes2[j].next@[k] == nodes0[j].next@[k]);
        }
    }

    // the forward links at every level point to the next tall-enough tower
    assert forall|p: int, k: int|
        0 <= p < n2 && 0 <= k <= level_at_pos(nodes2, ord2, p) implies #[trigger] next_at_pos(
        nodes2,
        ord2,
        p,
        k,
    ) == succ_link(nodes2, ord2, p, k) by {
        assert(0 <= index_at(ord2, p) < n2);
        assert(nodes2[index_at(ord2, p)].level < nl);
        assert(k < nl);
        assert(stop_facts(nodes0, ord0, item, upos, pins, k));
        if p == pins {
            // the new node: its link at level k <= h was taken over from
            // the stop node of level k
            let pk = upos[k];
            lemma_stop_succ(nodes0, ord0, nl, item, upos, pins, k);
            lemma_succ_pos_bounds(nodes0, ord0, pk, k);
            let sk = succ_pos(nodes0, ord0, pk, k);
            assert(next_at_pos(nodes0, ord0, pk, k) == succ_link(nodes0, ord0, pk, k));
            assert(nodes2[m].next@[k] == nodes0[index_at(ord0, pk)].next@[k]);
            assert(next_at_pos(nodes2, ord2, pins, k) == succ_link(nodes0, ord0, pk, k));
            let q2 = if sk < n0 { sk + 1 } else { n2 };
            assert forall|r: int| pins < r < q2 implies #[trigger] level_at_pos(
                nodes2,
                ord2,
                r,
            ) < k by {
                assert(pins - 1 < r - 1 < sk);
                assert(level_at_pos(nodes0, ord0, r - 1) < k);
            }
            if sk < n0 {
                assert(level_at_pos(nodes2, ord2, sk + 1) == level_at_pos(nodes0, ord0, sk) >= k);
            }
            lemma_succ_pos_unique(nodes2, ord2, pins, k, q2);
            if sk < n0 {
                assert(index_at(ord2, sk + 1) == index_at(ord0, sk));
            }
        } else if p < pins {
            assert(level_at_pos(nodes2, ord2, p) == level_at_pos(nodes0, ord0, p));
            lemma_succ_pos_bounds(nodes0, ord0, p, k);
            let s0 = succ_pos(nodes0, ord0, p, k);
            assert(next_at_pos(nodes0, ord0, p, k) == succ_link(nodes0, ord0, p, k));
            if s0 < pins {
                // the old successor sits before the new node: nothing moved
                assert forall|r: int| p < r < s0 implies #[trigger] level_at_pos(
                    nodes2,
                    ord2,
                    r,
                ) < k by {
                    assert(level_at_pos(nodes0, ord0, r) < k);
                }
                assert(level_at_pos(nodes2, ord2, s0) == level_at_pos(nodes0, ord0, s0) >= k);
                lemma_succ_pos_unique(nodes2, ord2, p, k, s0);
                if k <= h && index_at(ord0, p) == index_at(ord0, upos[k]) {
                    // the stop node's successor lies past the insertion
                    // point, so this cannot be the stop node
                    assert(p == upos[k]);
                    lemma_stop_succ(nodes0, ord0, nl, item, upos, pins, k);
                    assert(false);
                }
                assert(nodes2[index_at(ord0, p)].next@[k] == nodes0[index_at(ord0, p)].next@[k]);
                assert(index_at(ord2, s0) == index_at(ord0, s0));
            } else {
                // no tall-enough tower before the insertion point
                if k <= h {
                    // then this is the stop node of level k, now linked to
                    // the new node
                    lemma_stop_is_last_tower(nodes0, ord0, nl, item, upos, pins, k, p);
                    assert(p == upos[k]);
                    assert(nodes2[index_at(ord0, upos[k])].next@[k] == Some(m as usize));
                    assert forall|r: int| p < r < pins implies #[trigger] level_at_pos(
                        nodes2,
                        ord2,
                        r,
                    ) < k by {
                        assert(r < s0);
                        assert(level_at_pos(nodes0, ord0, r) < k);
                    }
                    assert(level_at_pos(nodes2, ord2, pins) == h >= k);
                    lemma_succ_pos_unique(nodes2, ord2, p, k, pins);
                    assert(index_at(ord2, pins) == m);
                } else {
                    // the new node is too short to matter at this level
                    if k <= h && index_at(ord0, p) == index_at(ord0, upos[k]) {
                        assert(false);
                    }
                    assert(nodes2[index_at(ord0, p)].next@[k] == nodes0[index_at(
                        ord0,
                        p,
                    )].next@[k]);
                    let q2 = if s0 < n0 { s0 + 1 } else { n2 };
                    assert forall|r: int| p < r < q2 implies #[trigger] level_at_pos(
                        nodes2,
                        ord2,
                        r,
                    ) < k by {
                        if r < pins {
                            assert(level_at_pos(nodes0, ord0, r) < k);
                        } else if r == pins {
                            assert(level_at_pos(nodes2, ord2, pins) == h < k);
                        } else {
                            assert(p < r - 1 < s0);
                            assert(level_at_pos(nodes0, ord0, r - 1) < k);
                        }
                    }
                    if s0 < n0 {
                        assert(level_at_pos(nodes2, ord2, s0 + 1) == level_at_pos(
                            nodes0,
                            ord0,
                            s0,
                        ) >= k);
                    }
                    lemma_succ_pos_unique(nodes2, ord2, p, k, q2);
                    if s0 < n0 {
                        assert(index_at(ord2, s0 + 1) == index_at(ord0, s0));
                    }
                }
            }
        } else {
            // p > pins: everything past the new node kept its links
            let pd = p - 1;
            assert(level_at_pos(nodes2, ord2, p) == level_at_pos(nodes0, ord0, pd));
            lemma_succ_pos_bounds(nodes0, ord0, pd, k);
            let s0 = succ_pos(nodes0, ord0, pd, k);
            assert(next_at_pos(nodes0, ord0, pd, k) == succ_link(nodes0, ord0, pd, k));
            if k <= h && index_at(ord0, pd) == index_at(ord0, upos[k]) {
                assert(pd == upos[k]);
                assert(upos[k] <= pins - 1);
                assert(false);
            }
            assert(nodes2[index_at(ord0, pd)].next@[k] == nodes0[index_at(ord0, pd)].next@[k]);
            let q2 = if s0 < n0 { s0 + 1 } else { n2 };
            assert forall|r: int| p < r < q2 implies #[trigger] level_at_pos(nodes2, ord2, r)
                < k by {
                assert(pd < r - 1 < s0);
                assert(level_at_pos(nodes0, ord0, r - 1) < k);
            }
            if s0 < n0 {
                assert(level_at_pos(nodes2, ord2, s0 + 1) == level_at_pos(nodes0, ord0, s0) >= k);
            }
            lemma_succ_pos_unique(nodes2, ord2, p, k, q2);
            if s0 < n0 {
                assert(index_at(ord2, s0 + 1) == index_at(ord0, s0));
            }
        }
    }

    // the backward links follow the new order
    assert forall|p: int| 1 <= p < n2 implies (#[trigger] nodes2[index_at(ord2, p)].prev) == Some(
        index_at(ord2, p - 1) as usize,
    ) by {
        if p < pins {
            assert(0 <= index_at(ord0, p) < n0);
            if pins < n0 {
                assert(index_at(ord0, p) != index_at(ord0, pins));
            }
            assert(nodes2[index_at(ord0, p)].prev == nodes0[index_at(ord0, p)].prev);
            assert(nodes0[index_at(ord0, p)].prev == Some(index_at(ord0, p - 1) as usize));
        } else if p == pins {
            assert(index_at(ord2, p) == m);
            assert(index_at(ord2, p - 1) == index_at(ord0, pins - 1));
        } else if p == pins + 1 {
            assert(index_at(ord2, p) == index_at(ord0, pins));
            assert(index_at(ord2, p - 1) == m);
            assert(nodes2[index_at(ord0, pins)].prev == Some(m as usize));
        } else {
            assert(index_at(ord2, p) == index_at(ord0, p - 1));
            assert(0 <= index_at(ord0, p - 1) < n0);
            if pins < n0 {
                assert(index_at(ord0, p - 1) != index_at(ord0, pins));
            }
            assert(nodes2[index_at(ord0, p - 1)].prev == nodes0[index_at(ord0, p - 1)].prev);
            assert(nodes0[index_at(ord0, p - 1)].prev == Some(index_at(ord0, p - 2) as usize));
            assert(index_at(ord2, p - 1) == index_at(ord0, p - 2));
        }
    }

    assert(links_wf(nodes2, ord2, nl));

    // the content is the old content with the value inserted at its rank
    let c2 = chain_vals(nodes2, ord2);
    let c0 = chain_vals(nodes0, ord0);
    c0.insert_ensures(pins - 1, item as int);
    assert forall|i: int| 0 <= i < c2.len() implies c2[i] == c0.insert(pins - 1, item as int)[i] by {
        if i < pins - 1 {
            assert(c2[i] == value_at_pos(nodes2, ord2, i + 1));
            assert(value_at_pos(nodes2, ord2, i + 1) == value_at_pos(nodes0, ord0, i + 1));
        } else if i == pins - 1 {
            assert(c2[i] == item as int);
        } else {
            assert(c2[i] == value_at_pos(nodes2, ord2, i + 1));
            assert(value_at_pos(nodes2, ord2, i + 1) == value_at_pos(nodes0, ord0, i));
            assert(c0.insert(pins - 1, item as int)[(i - 1) + 1] == c0[i - 1]);
        }
    }
}

impl SkipListNode {
    pub closed spec fn spec_level(self) -> int {
        self.level as int
    }

    pub closed spec fn spec_val(self) -> Option<i64> {
        self.val
    }

    pub closed spec fn spec_prev(self) -> Option<usize> {
        self.prev
    }

    pub closed spec fn spec_next(self) -> Seq<Option<usize>> {
        self.next@
    }

    /// The value this node holds: none exactly on the head sentinel.
    pub fn val(&self) -> (r: Option<i64>)
        ensures
            r == self.spec_val(),
    {
        self.val
    }

    /// Whether this node is the head sentinel: the one node without a
    /// backward link.
    pub fn is_head(&self) -> (r: bool)
        ensures
            r == (self.spec_prev() is None),
    {
        self.prev.is_none()
    }

    /// One predicate-guarded advance along the level-`level` chain from
    /// node `cur` (sitting at base-order position `pos`): the forward
    /// neighbour when it exists and its value is <= `target`, else the
    /// current node again.
    fn next_if(
        nodes: &Vec<SkipListNode>,
        Ghost(ord): Ghost<Seq<int>>,
        Ghost(nl): Ghost<int>,
        cur: usize,
        Ghost(pos): Ghost<int>,
        level: usize,
        target: i64,
    ) -> (res: (Result<usize, usize>, Ghost<int>))
        requires
            links_wf(nodes@, ord, nl),
            0 <= pos < ord.len(),
            index_at(ord, pos) == cur as int,
            level as int <= level_at_pos(nodes@, ord, pos),
            forall|r: int| 1 <= r <= pos ==> value_at_pos(nodes@, ord, r) <= target as int,
        ensures
            0 <= res.1@ < ord.len(),
            res.0 is Ok ==> ({
                &&& res.1@ == succ_pos(nodes@, ord, pos, level as int)
                &&& index_at(ord, res.1@) == res.0->Ok_0 as int
                &&& pos < res.1@
                &&& level as int <= level_at_pos(nodes@, ord, res.1@)
                &&& forall|r: int|
                    1 <= r <= res.1@ ==> value_at_pos(nodes@, ord, r) <= target as int
            }),
            res.0 is Err ==> ({
                &&& res.1@ == pos
                &&& res.0->Err_0 == cur
                &&& (succ_pos(nodes@, ord, pos, level as int) < ord.len() ==> value_at_pos(
                    nodes@,
                    ord,
                    succ_pos(nodes@, ord, pos, level as int),
                ) > target as int)
            }),
    {
        proof {
            lemma_succ_pos_bounds(nodes@, ord, pos, level as int);
            assert(0 <= index_at(ord, pos) < nodes@.len());
            assert(nodes@[cur as int].next@.len() == nl);
            assert(level_at_pos(nodes@, ord, pos) < nl);
            assert(next_at_pos(nodes@, ord, pos, level as int) == succ_link(
                nodes@,
                ord,
                pos,
                level as int,
            ));
        }
        let ghost sp = succ_pos(nodes@, ord, pos, level as int);
        let link = nodes[cur].next[level];
        match link {
            Some(j) => {
                proof {
                    assert(link == nodes@[cur as int].next@[level as int]);
                    assert(link == next_at_pos(nodes@, ord, pos, level as int));
                    assert(link == succ_link(nodes@, ord, pos, level as int));
                    assert(sp < ord.len());
                    assert(0 <= index_at(ord, sp) < nodes@.len());
                    vstd::std_specs::vec::axiom_spec_len(nodes);
                    assert(index_at(ord, sp) == j as int);
                    assert(0 <= index_at(ord, sp) < nodes@.len());
                    assert(index_at(ord, sp) != index_at(ord, 0));
                    assert(nodes@[j as int].val is Some);
                }
                match nodes[j].val {
                    Some(w) => {
                        if w <= target {
                            proof {
                                assert forall|r: int| 1 <= r <= sp implies value_at_pos(
                                    nodes@,
                                    ord,
                                    r,
                                ) <= target as int by {
                                    if r > pos {
                                        assert(value_at_pos(nodes@, ord, r) <= value_at_pos(
                                            nodes@,
                                            ord,
                                            sp,
                                        ));
                                        assert(value_at_pos(nodes@, ord, sp) == w as int);
                                    }
                                }
                            }
                            (Ok(j), Ghost(sp))
                        } else {
                            proof {
                                assert(value_at_pos(nodes@, ord, sp) == w as int);
                            }
                            (Err(cur), Ghost(pos))
                        }
                    },
                    None => {
                        proof {
                            assert(false);
                        }
                        (Err(cur), Ghost(pos))
                    },
                }
            },
            None => {
                (Err(cur), Ghost(pos))
            },
        }
    }

    /// Repeats the predicate-guarded advance along the level-`level`
    /// chain until the forward neighbour is absent or holds a value
    /// greater than `target`: the shared search step of lookup and
    /// insertion.  Returns the node it stops on, with its base-order
    /// position.
    pub fn proceed_at_level_while(
        nodes: &Vec<SkipListNode>,
        Ghost(ord): Ghost<Seq<int>>,
        Ghost(nl): Ghost<int>,
        start: usize,
        Ghost(start_pos): Ghost<int>,
        level: usize,
        target: i64,
    ) -> (res: (usize, Ghost<int>))
        requires
            links_wf(nodes@, ord, nl),
            0 <= start_pos < ord.len(),
            index_at(ord, start_pos) == start as int,
            level as int <= level_at_pos(nodes@, ord, start_pos),
            forall|r: int| 1 <= r <= start_pos ==> value_at_pos(nodes@, ord, r) <= target as int,
        ensures
            0 <= res.1@ < ord.len(),
            index_at(ord, res.1@) == res.0 as int,
            start_pos <= res.1@,
            level as int <= level_at_pos(nodes@, ord, res.1@),
            forall|r: int| 1 <= r <= res.1@ ==> value_at_pos(nodes@, ord, r) <= target as int,
            succ_pos(nodes@, ord, res.1@, level as int) < ord.len() ==> value_at_pos(
                nodes@,
                ord,
                succ_pos(nodes@, ord, res.1@, level as int),
            ) > target as int,
    {
        let mut cur = start;
        let ghost mut pos: int = start_pos;
        loop
            invariant
                links_wf(nodes@, ord, nl),
                0 <= pos < ord.len(),
                index_at(ord, pos) == cur as int,
                start_pos <= pos,
                level as int <= level_at_pos(nodes@, ord, pos),
                forall|r: int| 1 <= r <= pos ==> value_at_pos(nodes@, ord, r) <= target as int,
            decreases ord.len() - pos,
        {
            let (step, gpos) = Self::next_if(
                nodes,
                Ghost(ord),
                Ghost(nl),
                cur,
                Ghost(pos),
                level,
                target,
            );
            match step {
                Ok(j) => {
                    cur = j;
                    proof {
                        pos = gpos@;
                    }
                },
                Err(_) => {
                    return (cur, Ghost(pos));
                },
            }
        }
    }

    /// The mutable-walk variant used by insertion: the arena is borrowed
    /// mutably so the caller can splice at the position it returns, but
    /// the walk itself changes nothing.
    pub fn proceed_at_level_while_mut(
        nodes: &mut Vec<SkipListNode>,
        Ghost(ord): Ghost<Seq<int>>,
        Ghost(nl): Ghost<int>,
        start: usize,
        Ghost(start_pos): Ghost<int>,
        level: usize,
        target: i64,
    ) -> (res: (usize, Ghost<int>))
        requires
            links_wf(old(nodes)@, ord, nl),
            0 <= start_pos < ord.len(),
            index_at(ord, start_pos) == start as int,
            level as int <= level_at_pos(old(nodes)@, ord, start_pos),
            forall|r: int|
                1 <= r <= start_pos ==> value_at_pos(old(nodes)@, ord, r) <= target as int,
        ensures
            final(nodes)@ == old(nodes)@,
            0 <= res.1@ < ord.len(),
            index_at(ord, res.1@) == res.0 as int,
            start_pos <= res.1@,
            level as int <= level_at_pos(old(nodes)@, ord, res.1@),
            forall|r: int|
                1 <= r <= res.1@ ==> value_at_pos(old(nodes)@, ord, r) <= target as int,
            succ_pos(old(nodes)@, ord, res.1@, level as int) < ord.len() ==> value_at_pos(
                old(nodes)@,
                ord,
                succ_pos(old(nodes)@, ord, res.1@, level as int),
            ) > target as int,
    {
        Self::proceed_at_level_while(nodes, Ghost(ord), Ghost(nl), start, Ghost(start_pos), level, target)
    }

    /// Redirects one forward link of the node at arena index `i`.
    fn set_link(nodes: &mut Vec<SkipListNode>, i: usize, k: usize, l: Option<usize>)
        requires
            i < old(nodes)@.len(),
            k < old(nodes)@[i as int].next@.len(),
        ensures
            final(nodes)@.len() == old(nodes)@.len(),
            final(nodes)@[i as int].level == old(nodes)@[i as int].level,
            final(nodes)@[i as int].val == old(nodes)@[i as int].val,
            final(nodes)@[i as int].prev == old(nodes)@[i as int].prev,
            final(nodes)@[i as int].next@ == old(nodes)@[i as int].next@.update(k as int, l),
            forall|j: int|
                0 <= j < old(nodes)@.len() && j != i ==> final(nodes)@[j] == old(nodes)@[j],
    {
        nodes[i].next[k] = l;
    }

    /// Redirects the backward link of the node at arena index `i`.
    fn set_prev(nodes: &mut Vec<SkipListNode>, i: usize, l: Option<usize>)
        requires
            i < old(nodes)@.len(),
        ensures
            final(nodes)@.len() == old(nodes)@.len(),
            final(nodes)@[i as int].level == old(nodes)@[i as int].level,
            final(nodes)@[i as int].val == old(nodes)@[i as int].val,
            final(nodes)@[i as int].prev == l,
            final(nodes)@[i as int].next == old(nodes)@[i as int].next,
            forall|j: int|
                0 <= j < old(nodes)@.len() && j != i ==> final(nodes)@[j] == old(nodes)@[j],
    {
        nodes[i].prev = l;
    }

    /// A forward-link array with one empty slot per level.
    fn none_links(num_levels: usize) -> (r: Vec<Option<usize>>)
        ensures
            r@.len() == num_levels,
            forall|k: int| 0 <= k < num_levels ==> r@[k] is None,
    {
        let mut next: Vec<Option<usize>> = Vec::new();
        while next.len() < num_levels
            invariant
                next@.len() <= num_levels,
                forall|k: int| 0 <= k < next@.len() ==> next@[k] is None,
            decreases num_levels - next.len(),
        {
            next.push(None);
        }
        next
    }

    /// The head sentinel: no value, no backward link, maximum height,
    /// and no forward neighbours yet.
    pub fn new_head(num_levels: usize) -> (r: SkipListNode)
        requires
            valid_num_levels(num_levels as int),
        ensures
            r.spec_level() == num_levels - 1,
            r.spec_val() is None,
            r.spec_prev() is None,
            r.spec_next().len() == num_levels,
            forall|k: int| 0 <= k < num_levels ==> r.spec_next()[k] is None,
    {
        SkipListNode { level: num_levels - 1, val: None, prev: None, next: Self::none_links(num_levels) }
    }

    /// An element node: one value, an assigned height, a backward-link
    /// target, and no forward neighbours yet.
    pub fn new(val: i64, level: usize, prev: Option<usize>, num_levels: usize) -> (r: SkipListNode)
        requires
            level < num_levels,
        ensures
            r.spec_level() == level,
            r.spec_val() == Some(val),
            r.spec_prev() == prev,
            r.spec_next().len() == num_levels,
            forall|k: int| 0 <= k < num_levels ==> r.spec_next()[k] is None,
    {
        SkipListNode { level, val: Some(val), prev, next: Self::none_links(num_levels) }
    }
}

impl SkipList {
    /// The structure is well formed: the ghost base order is a sorted
    /// permutation of the arena rooted at the head, every chain is
    /// consistent with it, and the length counter matches.
    pub closed spec fn wf(self) -> bool {
        &&& links_wf(self.nodes@, self.ord@, self.num_levels as int)
        &&& self.len == self.nodes@.len() - 1
    }

    /// The configured number of levels.
    pub closed spec fn levels(self) -> int {
        self.num_levels as int
    }

    /// How many nodes the arena holds, the head sentinel included.
    pub closed spec fn node_count(self) -> int {
        self.nodes@.len() as int
    }

    /// The tower height of the node at arena index `j`.
    pub closed spec fn level_of(self, j: int) -> int {
        self.nodes@[j].level as int
    }

    /// The value of the node at arena index `j`.
    pub closed spec fn value_of(self, j: int) -> Option<i64> {
        self.nodes@[j].val
    }

    /// The arena index of the node at base-order position `p`: position 0
    /// is the head sentinel, positions `1..node_count` the elements in
    /// sorted order.
    pub closed spec fn node_at(self, p: int) -> int {
        self.ord@[p]
    }

    /// The node at arena index `x` sits earlier on the base-level chain
    /// than the node at arena index `y`.
    pub closed spec fn base_before(self, x: int, y: int) -> bool {
        exists|p: int, q: int|
            0 <= p < q < self.node_count() && self.node_at(p) == x && self.node_at(q) == y
    }

    /// Equal in everything but the random source.
    pub closed spec fn same_shape(self, other: SkipList) -> bool {
        &&& self.nodes == other.nodes
        &&& self.num_levels == other.num_levels
        &&& self.len == other.len
        &&& self.ord == other.ord
    }

    /// An empty list with `num_levels` chains and a freshly seeded random
    /// source.
    pub fn new(num_levels: usize) -> (r: SkipList)
        requires
            valid_num_levels(num_levels as int),
        ensures
            r.wf(),
            r@ =~= Seq::<int>::empty(),
            r.levels() == num_levels,
    {
        Self::assemble(num_levels, fresh_rng())
    }

    /// An empty list whose level generator is reproducible from `seed`.
    pub fn with_seed(num_levels: usize, seed: u64) -> (r: SkipList)
        requires
            valid_num_levels(num_levels as int),
        ensures
            r.wf(),
            r@ =~= Seq::<int>::empty(),
            r.levels() == num_levels,
    {
        Self::assemble(num_levels, seeded_rng(seed))
    }

    /// An empty list, or nothing when the requested number of levels is
    /// zero or larger than the 64 bits of the random word the level
    /// generator draws.
    pub fn try_new(num_levels: usize) -> (r: Option<SkipList>)
        ensures
            r is Some <==> valid_num_levels(num_levels as int),
            r is Some ==> r->0.wf() && r->0@ =~= Seq::<int>::empty() && r->0.levels()
                == num_levels,
    {
        if 1 <= num_levels && num_levels <= 64 {
            Some(Self::new(num_levels))
        } else {
            None
        }
    }

    fn assemble(num_levels: usize, rng: fastrand::Rng) -> (r: SkipList)
        requires
            valid_num_levels(num_levels as int),
        ensures
            r.wf(),
            r@ =~= Seq::<int>::empty(),
            r.levels() == num_levels,
    {
        let head = SkipListNode::new_head(num_levels);
        let mut nodes: Vec<SkipListNode> = Vec::new();
        nodes.push(head);
        let ghost ord0: Seq<int> = seq![0int];
        let r = SkipList { nodes, num_levels, len: 0, rng, ord: Ghost(ord0) };
        proof {
            let ord = r.ord@;
            assert(ord.contains(0int)) by {
                assert(ord[0] == 0int);
            }
            assert forall|p: int, k: int|
                0 <= p < 1 && 0 <= k <= level_at_pos(r.nodes@, ord, p) implies #[trigger] next_at_pos(
                r.nodes@,
                ord,
                p,
                k,
            ) == succ_link(r.nodes@, ord, p, k) by {
                assert(succ_pos(r.nodes@, ord, 0, k) == 1);
            }
        }
        r
    }

    /// Draws a tower height for a new node: one random word, masked and
    /// counted as the level generator prescribes.  Only the random source
    /// changes.
    pub fn gen_level(&mut self) -> (r: usize)
        requires
            old(self).wf(),
        ensures
            final(self).wf(),
            r < old(self).levels(),
            final(self).same_shape(*old(self)),
            final(self)@ == old(self)@,
            final(self).levels() == old(self).levels(),
    {
        let bits = next_word(&mut self.rng);
        level_from_bits(bits, self.num_levels)
    }

    /// Inserts `item`: draws a tower height, walks each level down to the
    /// base advancing while the forward value is <= `item`, splices the
    /// new node in at every level up to its height, and repairs the base
    /// backward links.  The content becomes the old content with `item`
    /// inserted at its rank, after any equal elements.
    pub fn insert(&mut self, item: i64)
        requires
            old(self).wf(),
        ensures
            final(self).wf(),
            final(self)@ == old(self)@.insert(rank(old(self)@, item as int), item as int),
            final(self).levels() == old(self).levels(),
            final(self)@.len() == old(self)@.len() + 1,
            final(self).node_count() == old(self).node_count() + 1,
            forall|j: int|
                0 <= j < old(self).node_count() ==> final(self).level_of(j) == old(
                    self,
                ).level_of(j) && final(self).value_of(j) == old(self).value_of(j),
            final(self).level_of(old(self).node_count()) < old(self).levels(),
            final(self).value_of(old(self).node_count()) == Some(item),
    {
        let new_node_level = self.gen_level();
        let nlev = self.num_levels;

        let ghost nodes0 = self.nodes@;
        let ghost ord0 = self.ord@;
        let ghost nl = self.num_levels as int;
        let ghost view0 = self@;
        let ghost n0 = nodes0.len() as int;
        let ghost len0 = self.len as int;

        // Phase one: descend, recording the stop node of every level.
        let mut update: Vec<usize> = Vec::new();
        let mut i: usize = 0;
        while i < nlev
            invariant
                update@.len() == i,
                i <= nlev,
            decreases nlev - i,
        {
            update.push(0);
            i += 1;
        }

        let mut cur: usize = 0;
        let ghost mut pos: int = 0;
        let mut level: usize = nlev;
        let ghost mut upos: Seq<int> = Seq::new(nl as nat, |k: int| 0int);
        proof {
            assert(level_at_pos(nodes0, ord0, 0) == nl - 1);
        }
        while level > 0
            invariant
                self.nodes@ == nodes0,
                self.ord@ == ord0,
                self.num_levels == nlev,
                self.len as int == len0,
                nl == nlev as int,
                links_wf(nodes0, ord0, nl),
                level <= nlev,
                upos.len() == nl,
                0 <= pos < ord0.len(),
                index_at(ord0, pos) == cur as int,
                level as int - 1 <= level_at_pos(nodes0, ord0, pos),
                forall|r: int| 1 <= r <= pos ==> value_at_pos(nodes0, ord0, r) <= item as int,
                update@.len() == nlev,
                forall|k: int| level as int <= k < nl ==> #[trigger] upos[k] <= pos,
                forall|k: int| level as int <= k < nl ==> 0 <= #[trigger] upos[k] < ord0.len(),
                forall|k: int|
                    level as int <= k < nl ==> index_at(ord0, #[trigger] upos[k]) == update@[k] as int,
                forall|k: int|
                    level as int <= k < nl ==> level_at_pos(nodes0, ord0, #[trigger] upos[k]) >= k,
                forall|k: int|
                    level as int <= k < nl ==> (succ_pos(nodes0, ord0, #[trigger] upos[k], k)
                        < ord0.len() ==> value_at_pos(
                        nodes0,
                        ord0,
                        succ_pos(nodes0, ord0, upos[k], k),
                    ) > item as int),
                level < nlev ==> upos[level as int] == pos,
            decreases level,
        {
            let k = level - 1;
            let (c, gpos) = SkipListNode::proceed_at_level_while_mut(
                &mut self.nodes,
                Ghost(ord0),
                Ghost(nl),
                cur,
                Ghost(pos),
                k,
                item,
            );
            cur = c;
            proof {
                pos = gpos@;
            }
            update[k] = cur;
            proof {
                upos = upos.update(k as int, pos);
            }
            level = k;
        }

        let ghost pins = pos + 1;
        proof {
            // at the base every tower is tall enough, so the walk stopped
            // just before the first strictly greater element
            if pins < n0 {
                lemma_succ_pos_unique(nodes0, ord0, pos, 0, pins);
            }
            assert forall|k: int| 0 <= k < nl implies #[trigger] stop_facts(
                nodes0,
                ord0,
                item,
                upos,
                pins,
                k,
            ) by {
                assert(upos[k] <= pos);
            }
        }

        // Phase two: add the node to the arena and splice it in at every
        // level up to its height.
        let m = self.nodes.len();
        let node = SkipListNode::new(item, new_node_level, None, nlev);
        self.nodes.push(node);

        let mut k2: usize = 0;
        while k2 <= new_node_level
            invariant
                self.ord@ == ord0,
                self.num_levels == nlev,
                self.len as int == len0,
                nl == nlev as int,
                links_wf(nodes0, ord0, nl),
                valid_num_levels(nl),
                new_node_level < nlev,
                k2 <= new_node_level + 1,
                m as int == n0,
                n0 == nodes0.len(),
                ord0.len() == n0,
                self.nodes@.len() == n0 + 1,
                update@.len() == nlev,
                upos.len() == nl,
                1 <= pins <= n0,
                forall|k: int| 0 <= k < nl ==> 0 <= #[trigger] upos[k] < ord0.len(),
                forall|k: int|
                    0 <= k < nl ==> index_at(ord0, #[trigger] upos[k]) == update@[k] as int,
                forall|k: int|
                    0 <= k < nl ==> #[trigger] stop_facts(nodes0, ord0, item, upos, pins, k),
                self.nodes@[m as int].level as int == new_node_level,
                self.nodes@[m as int].val == Some(item),
                self.nodes@[m as int].prev is None,
                self.nodes@[m as int].next@.len() == nl,
                forall|j: int|
                    0 <= j < m ==> (#[trigger] self.nodes@[j].level) == nodes0[j].level,
                forall|j: int| 0 <= j < m ==> (#[trigger] self.nodes@[j].val) == nodes0[j].val,
                forall|j: int| 0 <= j < m ==> (#[trigger] self.nodes@[j].prev) == nodes0[j].prev,
                forall|j: int|
                    0 <= j < m ==> (#[trigger] self.nodes@[j].next)@.len() == nodes0[j].next@.len(),
                forall|j: int, k: int|
                    0 <= j < m && 0 <= k < nl && !(k < k2 && j == index_at(ord0, upos[k])) ==> (
                    #[trigger] self.nodes@[j].next@[k]) == nodes0[j].next@[k],
                forall|k: int|
                    0 <= k < k2 ==> (#[trigger] self.nodes@[index_at(ord0, upos[k])].next@[k])
                        == Some(m as usize),
                forall|k: int|
                    0 <= k < k2 ==> (#[trigger] self.nodes@[m as int].next@[k]) == nodes0[index_at(
                        ord0,
                        upos[k],
                    )].next@[k],
                forall|k: int|
                    k2 as int <= k < nl ==> (#[trigger] self.nodes@[m as int].next@[k]) is None,
            decreases new_node_level + 1 - k2,
        {
            let u = update[k2];
            proof {
                assert(index_at(ord0, upos[k2 as int]) == update@[k2 as int] as int);
                assert(0 <= index_at(ord0, upos[k2 as int]) < n0);
                assert(self.nodes@[u as int].next@.len() == nl);
                assert(self.nodes@[u as int].next@[k2 as int]
                    == nodes0[u as int].next@[k2 as int]);
            }
            let link = self.nodes[u].next[k2];
            SkipListNode::set_link(&mut self.nodes, m, k2, link);
            SkipListNode::set_link(&mut self.nodes, u, k2, Some(m));
            k2 += 1;
        }

        // Repair the base-level backward links around the new node.
        proof {
            assert(self.nodes@[m as int].next@[0] == nodes0[index_at(ord0, upos[0])].next@[0]);
            assert(upos[0] == pins - 1);
            assert(next_at_pos(nodes0, ord0, pins - 1, 0) == succ_link(nodes0, ord0, pins - 1, 0));
            if pins < n0 {
                assert(succ_pos(nodes0, ord0, pins - 1, 0) == pins);
            } else {
                lemma_succ_pos_bounds(nodes0, ord0, pins - 1, 0);
            }
        }
        let succ0 = self.nodes[m].next[0];
        match succ0 {
            Some(j0) => {
                proof {
                    assert(pins < n0 && j0 as int == index_at(ord0, pins));
                }
                SkipListNode::set_prev(&mut self.nodes, j0, Some(m));
            },
            None => {
                proof {
                    assert(pins == n0);
                }
            },
        }
        let u0 = update[0];
        SkipListNode::set_prev(&mut self.nodes, m, Some(u0));
        self.len = self.len + 1;
        let ghost ord2 = ord0.insert(pins, m as int);
        self.ord = Ghost(ord2);

        proof {
            lemma_splice_wf(
                nodes0,
                ord0,
                nl,
                item,
                new_node_level as int,
                upos,
                self.nodes@,
                m as int,
                pins,
            );
            // the stop position of the base walk is the rank of the value
            assert(sorted(view0)) by {
                assert forall|a: int, b: int| 0 <= a <= b < view0.len() implies view0[a]
                    <= view0[b] by {
                    assert(value_at_pos(nodes0, ord0, a + 1) <= value_at_pos(nodes0, ord0, b + 1));
                }
            }
            assert forall|a: int| 0 <= a < pins - 1 implies view0[a] <= item as int by {
                assert(value_at_pos(nodes0, ord0, a + 1) <= item as int);
            }
            if pins - 1 < view0.len() {
                assert(view0[pins - 1] == value_at_pos(nodes0, ord0, pins));
            }
            crate::order::lemma_rank_unique(view0, item as int, pins - 1);
            assert(chain_vals(self.nodes@, ord2) =~= chain_vals(nodes0, ord0).insert(
                pins - 1,
                item as int,
            ));
        }
    }

    /// The full search descent: from the highest level down to the base,
    /// advance while the forward value is <= `target`.  Stops on the
    /// rightmost node whose value is <= `target` (the head when there is
    /// none), returned with its base-order position.
    fn descend(
        nodes: &Vec<SkipListNode>,
        Ghost(ord): Ghost<Seq<int>>,
        num_levels: usize,
        target: i64,
    ) -> (res: (usize, Ghost<int>))
        requires
            links_wf(nodes@, ord, num_levels as int),
        ensures
            0 <= res.1@ < ord.len(),
            index_at(ord, res.1@) == res.0 as int,
            forall|r: int| 1 <= r <= res.1@ ==> value_at_pos(nodes@, ord, r) <= target as int,
            res.1@ + 1 < ord.len() ==> value_at_pos(nodes@, ord, res.1@ + 1) > target as int,
    {
        let ghost nl = num_levels as int;
        let mut cur: usize = 0;
        let ghost mut pos: int = 0;
        let mut level: usize = num_levels;
        proof {
            assert(level_at_pos(nodes@, ord, 0) == nl - 1);
        }
        while level > 0
            invariant
                links_wf(nodes@, ord, nl),
                nl == num_levels as int,
                level <= num_levels,
                0 <= pos < ord.len(),
                index_at(ord, pos) == cur as int,
                level as int - 1 <= level_at_pos(nodes@, ord, pos),
                forall|r: int| 1 <= r <= pos ==> value_at_pos(nodes@, ord, r) <= target as int,
                level == 0 ==> (succ_pos(nodes@, ord, pos, 0) < ord.len() ==> value_at_pos(
                    nodes@,
                    ord,
                    succ_pos(nodes@, ord, pos, 0),
                ) > target as int),
            decreases level,
        {
            let k = level - 1;
            let (c, gpos) = SkipListNode::proceed_at_level_while(
                nodes,
                Ghost(ord),
                Ghost(nl),
                cur,
                Ghost(pos),
                k,
                target,
            );
            cur = c;
            proof {
                pos = gpos@;
            }
            level = k;
        }
        proof {
            if pos + 1 < ord.len() {
                lemma_succ_pos_unique(nodes@, ord, pos, 0, pos + 1);
            }
        }
        (cur, Ghost(pos))
    }

    /// Runs the search descent for `item` and returns the arena index of
    /// the rightmost node whose value is <= `item`: the head sentinel
    /// when every element exceeds `item`, otherwise the node holding the
    /// last element of the list that is <= `item` — with duplicates, the
    /// node at base-order position `rank`, past every equal element.
    pub fn find_node(&self, item: &i64) -> (r: usize)
        requires
            self.wf(),
        ensures
            0 <= r < self.node_count(),
            r as int == self.node_at(rank(self@, *item as int)),
            rank(self@, *item as int) == 0 ==> r == 0,
            rank(self@, *item as int) > 0 ==> self.value_of(r as int) is Some && self.value_of(
                r as int,
            )->0 as int == self@[rank(self@, *item as int) - 1],
    {
        let (cur, gpos) = Self::descend(
            &self.nodes,
            Ghost(self.ord@),
            self.num_levels,
            *item,
        );
        proof {
            let s = self@;
            let v = *item as int;
            let pos = gpos@;
            lemma_base_chain_sorted(self);
            assert(pos <= s.len());
            assert forall|i: int| 0 <= i < pos implies s[i] <= v by {
                assert(value_at_pos(self.nodes@, self.ord@, i + 1) <= v);
            }
            if pos < s.len() {
                assert(s[pos] == value_at_pos(self.nodes@, self.ord@, pos + 1));
            }
            crate::order::lemma_rank_unique(s, v, pos);
            assert(0 <= index_at(self.ord@, pos) < self.nodes@.len());
        }
        cur
    }

    /// The mutable-access variant of the search: the list is borrowed
    /// mutably so a caller may go on to work with the node at the
    /// returned index, but the search itself changes nothing and lands on
    /// exactly the node `find_node` would return.
    pub fn find_node_mut(&mut self, item: &i64) -> (r: usize)
        requires
            old(self).wf(),
        ensures
            *final(self) == *old(self),
            0 <= r < old(self).node_count(),
            r as int == old(self).node_at(rank(old(self)@, *item as int)),
            rank(old(self)@, *item as int) == 0 ==> r == 0,
            rank(old(self)@, *item as int) > 0 ==> old(self).value_of(r as int) is Some && old(
                self,
            ).value_of(r as int)->0 as int == old(self)@[rank(old(self)@, *item as int) - 1],
    {
        self.find_node(item)
    }

    /// The stored value equal to `item`, when one is present.  With
    /// duplicates the search lands past every equal element, so the value
    /// returned is the positionally last equal one.
    pub fn find(&self, item: &i64) -> (r: Option<i64>)
        requires
            self.wf(),
        ensures
            r == if self@.contains(*item as int) {
                Some(*item)
            } else {
                None::<i64>
            },
    {
        let node_idx = self.find_node(item);
        proof {
            lemma_base_chain_sorted(self);
            crate::order::lemma_sorted_contains(self@, *item as int);
            crate::order::lemma_rank_bounds(self@, *item as int);
        }
        match self.nodes[node_idx].val {
            Some(v) => {
                if v == *item {
                    Some(v)
                } else {
                    None
                }
            },
            None => None,
        }
    }

    /// Whether some element of the list equals `item`.
    pub fn contains(&self, item: &i64) -> (r: bool)
        requires
            self.wf(),
        ensures
            r == self@.contains(*item as int),
    {
        self.find(item).is_some()
    }

    /// The elements in base order, head to tail along the level-0 chain:
    /// the ordered inspection view of the list.
    pub fn values(&self) -> (r: Vec<i64>)
        requires
            self.wf(),
        ensures
            r@.len() == self@.len(),
            forall|i: int| 0 <= i < r@.len() ==> r@[i] as int == self@[i],
    {
        let ghost ord = self.ord@;
        let ghost n = ord.len() as int;
        let mut out: Vec<i64> = Vec::new();
        let mut cur: usize = 0;
        let ghost mut pos: int = 0;
        loop
            invariant
                links_wf(self.nodes@, ord, self.num_levels as int),
                ord == self.ord@,
                n == ord.len(),
                0 <= pos < n,
                index_at(ord, pos) == cur as int,
                out@.len() == pos,
                forall|i: int|
                    0 <= i < pos ==> #[trigger] out@[i] as int == value_at_pos(
                        self.nodes@,
                        ord,
                        i + 1,
                    ),
            decreases n - pos,
        {
            proof {
                assert(0 <= index_at(ord, pos) < n);
                assert(self.nodes@[cur as int].next@.len() == self.num_levels as int);
                assert(next_at_pos(self.nodes@, ord, pos, 0) == succ_link(self.nodes@, ord, pos, 0));
                if pos + 1 < n {
                    lemma_succ_pos_unique(self.nodes@, ord, pos, 0, pos + 1);
                } else {
                    lemma_succ_pos_bounds(self.nodes@, ord, pos, 0);
                }
            }
            let link = self.nodes[cur].next[0];
            match link {
                Some(j) => {
                    proof {
                        assert(link == self.nodes@[cur as int].next@[0]);
                        assert(link == next_at_pos(self.nodes@, ord, pos, 0));
                        assert(link == succ_link(self.nodes@, ord, pos, 0));
                        vstd::std_specs::vec::axiom_spec_len(&self.nodes);
                        assert(pos + 1 < n && index_at(ord, pos + 1) == j as int);
                        assert(0 <= index_at(ord, pos + 1) < n);
                        assert(index_at(ord, pos + 1) != index_at(ord, 0));
                        assert(self.nodes@[j as int].val is Some);
                    }
                    let v = self.nodes[j].val;
                    match v {
                        Some(w) => {
                            out.push(w);
                        },
                        None => {
                            proof {
                                assert(false);
                            }
                        },
                    }
                    cur = j;
                    proof {
                        pos = pos + 1;
                    }
                },
                None => {
                    proof {
                        assert(pos + 1 >= n);
                    }
                    return out;
                },
            }
        }
    }

    /// The tower height of the node at arena index `j`.
    pub fn node_level(&self, j: usize) -> (r: usize)
        requires
            self.wf(),
            0 <= (j as int) && (j as int) < self.node_count(),
        ensures
            r as int == self.level_of(j as int),
            (r as int) < self.levels(),
    {
        proof {
            vstd::std_specs::vec::axiom_spec_len(&self.nodes);
        }
        self.nodes[j].level
    }

    /// The arena indices of the element nodes reachable from the head
    /// along the level-`k` chain: exactly those of tower height at least
    /// `k`, each once, in base order.
    pub fn level_nodes(&self, k: usize) -> (r: Vec<usize>)
        requires
            self.wf(),
            (k as int) < self.levels(),
        ensures
            forall|x: usize|
                #[trigger] r@.contains(x) <==> (1 <= (x as int) && (x as int) < self.node_count() && self.level_of(
                    x as int,
                ) >= k),
            forall|a: int, b: int| 0 <= a < b < r@.len() ==> r@[a] != r@[b],
            forall|a: int, b: int|
                0 <= a < b < r@.len() ==> self.base_before(#[trigger] r@[a] as int, #[trigger] r@[b] as int),
            k == 0 ==> r@.len() == self@.len(),
    {
        let ghost ord = self.ord@;
        let ghost nl = self.num_levels as int;
        let ghost n = ord.len() as int;
        let mut out: Vec<usize> = Vec::new();
        let mut cur: usize = 0;
        let ghost mut pos: int = 0;
        let ghost mut qs: Seq<int> = Seq::empty();
        loop
            invariant
                links_wf(self.nodes@, ord, nl),
                ord == self.ord@,
                nl == self.num_levels as int,
                n == ord.len(),
                (k as int) < nl,
                0 <= pos < n,
                index_at(ord, pos) == cur as int,
                k as int <= level_at_pos(self.nodes@, ord, pos),
                forall|x: usize|
                    #[trigger] out@.contains(x) <==> tower_at_or_before(
                        self.nodes@,
                        ord,
                        pos,
                        k as int,
                        x,
                    ),
                qs.len() == out@.len(),
                forall|i: int|
                    0 <= i < qs.len() ==> 1 <= #[trigger] qs[i] <= pos && index_at(ord, qs[i])
                        == out@[i] as int,
                forall|a: int, b: int| 0 <= a < b < qs.len() ==> qs[a] < qs[b],
                k == 0 ==> out@.len() == pos,
            decreases n - pos,
        {
            proof {
                assert(0 <= index_at(ord, pos) < n);
                assert(self.nodes@[cur as int].next@.len() == nl);
                assert(next_at_pos(self.nodes@, ord, pos, k as int) == succ_link(
                    self.nodes@,
                    ord,
                    pos,
                    k as int,
                ));
                lemma_succ_pos_bounds(self.nodes@, ord, pos, k as int);
            }
            let ghost sp = succ_pos(self.nodes@, ord, pos, k as int);
            let link = self.nodes[cur].next[k];
            match link {
                Some(j) => {
                    proof {
                        assert(link == self.nodes@[cur as int].next@[k as int]);
                        assert(link == next_at_pos(self.nodes@, ord, pos, k as int));
                        assert(link == succ_link(self.nodes@, ord, pos, k as int));
                        vstd::std_specs::vec::axiom_spec_len(&self.nodes);
                        assert(sp < n && index_at(ord, sp) == j as int);
                        assert(0 <= index_at(ord, sp) < n);
                    }
                    let ghost out0 = out@;
                    out.push(j);
                    proof {
                        assert forall|x: usize| #[trigger] out@.contains(x) <==> tower_at_or_before(
                            self.nodes@,
                            ord,
                            sp,
                            k as int,
                            x,
                        ) by {
                            lemma_push_contains(out0, j, x);
                            if out0.contains(x) {
                                let q = choose|q: int|
                                    1 <= q <= pos && index_at(ord, q) == x as int && level_at_pos(
                                        self.nodes@,
                                        ord,
                                        q,
                                    ) >= k as int;
                                assert(1 <= q <= sp && index_at(ord, q) == x as int);
                            }
                            if x == j {
                                assert(1 <= sp <= sp && index_at(ord, sp) == x as int
                                    && level_at_pos(self.nodes@, ord, sp) >= k as int);
                            }
                            if tower_at_or_before(self.nodes@, ord, sp, k as int, x) {
                                let q = choose|q: int|
                                    1 <= q <= sp && index_at(ord, q) == x as int && level_at_pos(
                                        self.nodes@,
                                        ord,
                                        q,
                                    ) >= k as int;
                                if q <= pos {
                                    assert(tower_at_or_before(self.nodes@, ord, pos, k as int, x));
                                } else if q < sp {
                                    assert(level_at_pos(self.nodes@, ord, q) < k as int);
                                    assert(false);
                                } else {
                                    assert(index_at(ord, q) == j as int);
                                }
                            }
                        }
                        if k == 0 && pos + 1 < n {
                            lemma_succ_pos_unique(self.nodes@, ord, pos, 0, pos + 1);
                        }
                        qs = qs.push(sp);
                        pos = sp;
                    }
                    cur = j;
                },
                None => {
                    proof {
                        assert(sp >= n);
                        assert forall|x: usize| #[trigger] out@.contains(x) <==> (1 <= (x as int)
                            && (x as int) < self.node_count() && self.level_of(x as int) >= k) by {
                            if out@.contains(x) {
                                let q = choose|q: int|
                                    1 <= q <= pos && index_at(ord, q) == x as int && level_at_pos(
                                        self.nodes@,
                                        ord,
                                        q,
                                    ) >= k as int;
                                assert(0 <= index_at(ord, q) < n);
                                assert(index_at(ord, q) != index_at(ord, 0));
                            }
                            if 1 <= (x as int) && (x as int) < self.node_count() && self.level_of(x as int)
                                >= k {
                                assert(ord.contains(x as int));
                                let q = choose|q: int| 0 <= q < n && ord[q] == x as int;
                                assert(index_at(ord, q) == x as int);
                                assert(index_at(ord, q) != index_at(ord, 0));
                                assert(level_at_pos(self.nodes@, ord, q) >= k as int);
                                if q > pos {
                                    assert(level_at_pos(self.nodes@, ord, q) < k as int);
                                    assert(false);
                                }
                                assert(tower_at_or_before(self.nodes@, ord, pos, k as int, x));
                            }
                        }
                        assert forall|a: int, b: int| 0 <= a < b < out@.len() implies out@[a]
                            != out@[b] by {
                            assert(qs[a] < qs[b]);
                            assert(index_at(ord, qs[a]) == out@[a] as int);
                            assert(index_at(ord, qs[b]) == out@[b] as int);
                            assert(index_at(ord, qs[a]) != index_at(ord, qs[b]));
                        }
                        assert forall|a: int, b: int| 0 <= a < b < out@.len() implies self.base_before(
                            out@[a] as int,
                            out@[b] as int,
                        ) by {
                            assert(0 <= qs[a] < qs[b] < self.node_count() && self.node_at(qs[a])
                                == out@[a] as int && self.node_at(qs[b]) == out@[b] as int);
                        }
                        if k == 0 {
                            if pos + 1 < n {
                                lemma_succ_pos_unique(self.nodes@, ord, pos, 0, pos + 1);
                                assert(false);
                            }
                            assert(out@.len() == self@.len());
                        }
                    }
                    return out;
                },
            }
        }
    }

    /// How many elements have been inserted.
    pub fn len(&self) -> (r: usize)
        requires
            self.wf(),
        ensures
            r as int == self@.len(),
    {
        self.len
    }
}

/// Some node of tower height at least `k` sits at a base-order position
/// in `[1, pos]` under the arena index `x`.
spec fn tower_at_or_before(
    nodes: Seq<SkipListNode>,
    ord: Seq<int>,
    pos: int,
    k: int,
    x: usize,
) -> bool {
    exists|q: int|
        1 <= q <= pos && index_at(ord, q) == x as int && level_at_pos(nodes, ord, q) >= k
}

proof fn lemma_push_contains<A>(s: Seq<A>, a: A, x: A)
    ensures
        s.push(a).contains(x) <==> (s.contains(x) || x == a),
{
    if s.contains(x) {
        let i = choose|i: int| 0 <= i < s.len() && s[i] == x;
        assert(s.push(a)[i] == x);
    }
    if x == a {
        assert(s.push(a)[s.len() as int] == x);
    }
    if s.push(a).contains(x) {
        let i = choose|i: int| 0 <= i < s.push(a).len() && s.push(a)[i] == x;
        if i < s.len() {
            assert(s[i] == x);
        }
    }
}

/// Every inserted value is a member of the new content afterwards, and
/// every old member stays a member: what `insert` adds, `contains`
/// subsequently reports.
pub proof fn lemma_insert_preserves_presence(pre: &SkipList, post: &SkipList, v: i64)
    requires
        pre.wf(),
        post@ == pre@.insert(rank(pre@, v as int), v as int),
    ensures
        post@.contains(v as int),
        forall|w: int| pre@.contains(w) ==> #[trigger] post@.contains(w),
{
    lemma_base_chain_sorted(pre);
    crate::order::lemma_insert_preserves_members(pre@, v as int);
}

/// Every node's tower height lies in `[0, num_levels - 1]`.
pub proof fn lemma_heights_in_range(l: &SkipList)
    requires
        l.wf(),
    ensures
        forall|j: int| 0 <= j < l.node_count() ==> 0 <= #[trigger] l.level_of(j) < l.levels(),
{
    assert forall|j: int| 0 <= j < l.node_count() implies 0 <= #[trigger] l.level_of(j)
        < l.levels() by {
        assert(l.nodes@[j].level < l.num_levels as int);
    }
}

/// The base-level chain visits the elements in non-decreasing order: the
/// content of a well-formed list is a sorted sequence.
pub proof fn lemma_base_chain_sorted(l: &SkipList)
    requires
        l.wf(),
    ensures
        sorted(l@),
{
    let s = l@;
    assert forall|i: int, j: int| 0 <= i <= j < s.len() implies s[i] <= s[j] by {
        assert(value_at_pos(l.nodes@, l.ord@, i + 1) <= value_at_pos(l.nodes@, l.ord@, j + 1));
    }
}

} // verus!
