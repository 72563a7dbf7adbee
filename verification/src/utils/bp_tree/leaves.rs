use vstd::prelude::*;
use super::chain::entries;
use super::chain::extents;
use super::chain::lemma_extents_join;
use super::chain::linked;
use super::shape::holds;
use super::shape::kid_hi;
use super::shape::kid_lo;
use super::shape::kid_next;
use super::shape::leaves_of;
use super::shape::lemma_footprint;
use super::shape::lemma_leaf_lookup;
use super::shape::lemma_route;
use super::shape::lookup;
use super::shape::node_at;
use super::shape::route;
use super::shape::Shape;
use super::shape::valid;

verus! {

/// How far the proof about the leaves of `shape` has to go: one step for a
/// leaf, one step more than it has children for an inner node.
pub open spec fn steps(shape: Shape) -> nat {
    match shape {
        Shape::Leaf { .. } => 0,
        Shape::Inner { kids, .. } => kids.len() + 1,
    }
}

/// The leaves of a valid tree are linked from left to right: they start with
/// the leftmost leaf, are blocks of the tree, and what follows the tree
/// follows the last one.
pub proof fn lemma_leaf_chain(shown: Seq<Seq<u8>>, m: u64, shape: Shape, level: nat, lo: int, hi: int, nxt: u64)
    requires
        valid(shown, m, shape, level, lo, hi, nxt),
    ensures
        linked(shown, m, shape.leaves(), nxt),
        shape.leaves().len() >= 1,
        shape.leaves()[0] == shape.first_leaf(),
        forall|j: int| 0 <= j < shape.leaves().len() ==> shape.footprint().contains(#[trigger] shape.leaves()[j]),
    decreases shape, steps(shape),
{
    match shape {
        Shape::Leaf { block } => {
            assert(shape.leaves() =~= seq![block]);
        },
        Shape::Inner { block, kids } => {
            lemma_kids_chain(shown, m, shape, level, lo, hi, nxt, kids.len());
            lemma_footprint(shape);
            let chain = shape.leaves();
            assert forall|j: int| 0 <= j < chain.len() implies shape.footprint().contains(#[trigger] chain[j]) by {
                assert(in_first(kids, kids.len() as int, chain[j]));
                let q = choose|q: int| 0 <= q < kids.len() && (#[trigger] kids[q]).footprint().contains(chain[j]);
            }
        },
    }
}

/// Block `b` is a block of one of the first `c` of `kids`.
pub open spec fn in_first(kids: Seq<Shape>, c: int, b: u64) -> bool {
    exists|q: int| 0 <= q < c && (#[trigger] kids[q]).footprint().contains(b)
}

/// Two linked chains without a common block, the second of which starts
/// where the first one leads, make one linked chain.
pub proof fn lemma_linked_concat(shown: Seq<Seq<u8>>, m: u64, head: Seq<u64>, tail: Seq<u64>, last: u64)
    requires
        tail.len() >= 1,
        linked(shown, m, head, tail[0]),
        linked(shown, m, tail, last),
        forall|a: int, b: int| 0 <= a < head.len() && 0 <= b < tail.len() ==> head[a] != tail[b],
    ensures
        linked(shown, m, head + tail, last),
{
    let all = head + tail;
    assert forall|a: int, b: int| 0 <= a < b < all.len() implies all[a] != all[b] by {
        if b < head.len() {
            assert(head[a] != head[b]);
        } else if a >= head.len() {
            assert(tail[a - head.len()] != tail[b - head.len()]);
        } else {
            assert(head[a] != tail[b - head.len()]);
        }
    }
    assert forall|j: int| 0 <= j < all.len() implies {
        let leaf = node_at(shown, m, #[trigger] all[j]);
        &&& all[j] < shown.len()
        &&& super::bp_tree_node::well_sized(shown[all[j] as int].len(), m)
        &&& leaf.num_keys < m
        &&& leaf.next == (if j + 1 < all.len() {
            all[j + 1]
        } else {
            last
        })
    } by {
        if j < head.len() {
            assert(all[j] == head[j]);
            if j + 1 < head.len() {
                assert(all[j + 1] == head[j + 1]);
            } else {
                assert(all[j + 1] == tail[0]);
            }
        } else {
            assert(all[j] == tail[j - head.len()]);
            if j + 1 < all.len() {
                assert(all[j + 1] == tail[j + 1 - head.len()]);
            }
        }
    }
}

/// The leaves of the first `c` children of a valid tree are linked from left
/// to right, and the leftmost leaf of the next child follows the last one.
#[verifier::spinoff_prover]
#[verifier::rlimit(60)]
pub proof fn lemma_kids_chain(
    shown: Seq<Seq<u8>>,
    m: u64,
    shape: Shape,
    level: nat,
    lo: int,
    hi: int,
    nxt: u64,
    c: nat,
)
    requires
        shape is Inner,
        valid(shown, m, shape, level, lo, hi, nxt),
        1 <= c <= shape->Inner_kids.len(),
    ensures
        linked(shown, m, leaves_of(shape->Inner_kids, c), kid_next(shape->Inner_kids, nxt, c - 1)),
        leaves_of(shape->Inner_kids, c).len() >= 1,
        leaves_of(shape->Inner_kids, c)[0] == shape.first_leaf(),
        forall|j: int|
            0 <= j < leaves_of(shape->Inner_kids, c).len() ==> in_first(
                shape->Inner_kids,
                c as int,
                #[trigger] leaves_of(shape->Inner_kids, c)[j],
            ),
    decreases shape, c,
{
    let kids = shape->Inner_kids;
    let node = node_at(shown, m, shape.block());
    let below = (level - 1) as nat;
    let last = (c - 1) as int;
    let kid = kids[last];
    let tail = kid.leaves();
    let all = leaves_of(kids, c);
    assert(valid(shown, m, kid, below, kid_lo(node, lo, last), kid_hi(node, hi, last), kid_next(kids, nxt, last)));
    lemma_leaf_chain(shown, m, kid, below, kid_lo(node, lo, last), kid_hi(node, hi, last), kid_next(kids, nxt, last));
    if c == 1 {
        assert(leaves_of(kids, 0) =~= Seq::<u64>::empty());
        assert(all =~= tail);
        assert forall|j: int| 0 <= j < all.len() implies in_first(kids, c as int, #[trigger] all[j]) by {
            assert(kids[0].footprint().contains(all[j]));
        }
    } else {
        let head = leaves_of(kids, (c - 1) as nat);
        lemma_kids_chain(shown, m, shape, level, lo, hi, nxt, (c - 1) as nat);
        assert(all == head + tail);
        assert(kid_next(kids, nxt, c - 2) == kid.first_leaf());
        assert forall|a: int, b: int| 0 <= a < head.len() && 0 <= b < tail.len() implies head[a] != tail[b] by {
            assert(in_first(kids, c - 1, head[a]));
            let q = choose|q: int| 0 <= q < c - 1 && (#[trigger] kids[q]).footprint().contains(head[a]);
            assert(kids[last].footprint().contains(tail[b]));
            assert(kids[q].footprint().disjoint(kids[last].footprint()));
        }
        lemma_linked_concat(shown, m, head, tail, kid_next(kids, nxt, c - 1));
        assert forall|j: int| 0 <= j < all.len() implies in_first(kids, c as int, #[trigger] all[j]) by {
            if j < head.len() {
                assert(all[j] == head[j]);
                assert(in_first(kids, c - 1, head[j]));
                let q = choose|q: int| 0 <= q < c - 1 && (#[trigger] kids[q]).footprint().contains(head[j]);
                assert(kids[q].footprint().contains(all[j]));
            } else {
                assert(all[j] == tail[j - head.len()]);
                assert(kids[last].footprint().contains(all[j]));
            }
        }
    }
}

/// The keys of `list` grow strictly and lie in `lo..hi`.
pub open spec fn rising(list: Seq<(u64, u64)>, lo: int, hi: int) -> bool {
    &&& forall|a: int, b: int| 0 <= a < b < list.len() ==> (#[trigger] list[a]).0 < (#[trigger] list[b]).0
    &&& forall|a: int| 0 <= a < list.len() ==> lo <= (#[trigger] list[a]).0 < hi
}

/// `list` has an entry with the key `key`.
pub open spec fn listed_key(list: Seq<(u64, u64)>, key: u64) -> bool {
    exists|a: int| 0 <= a < list.len() && (#[trigger] list[a]).0 == key
}

/// The value beside `key` in `list`.
pub open spec fn assoc(list: Seq<(u64, u64)>, key: u64) -> Option<u64> {
    if listed_key(list, key) {
        Some(list[choose|a: int| 0 <= a < list.len() && (#[trigger] list[a]).0 == key].1)
    } else {
        None
    }
}

/// In a list with rising keys, the value beside a key is the value of the
/// one entry with that key.
pub proof fn lemma_assoc(list: Seq<(u64, u64)>, lo: int, hi: int, key: u64)
    requires
        rising(list, lo, hi),
    ensures
        forall|a: int| 0 <= a < list.len() && (#[trigger] list[a]).0 == key ==> assoc(list, key) == Some(list[a].1),
        assoc(list, key) is Some ==> lo <= key < hi,
{
    if listed_key(list, key) {
        let c = choose|a: int| 0 <= a < list.len() && (#[trigger] list[a]).0 == key;
        assert forall|a: int| 0 <= a < list.len() && (#[trigger] list[a]).0 == key implies a == c by {
            if a < c {
                assert(list[a].0 < list[c].0);
            } else if c < a {
                assert(list[c].0 < list[a].0);
            }
        }
    }
}

/// Two lists with rising keys, the first below `mid` and the second from
/// `mid` on, make a list with rising keys that has for each key what the
/// list on its side of `mid` has.
pub proof fn lemma_rising_concat(head: Seq<(u64, u64)>, tail: Seq<(u64, u64)>, lo: int, mid: int, hi: int)
    requires
        rising(head, lo, mid),
        rising(tail, mid, hi),
        lo <= mid <= hi,
    ensures
        rising(head + tail, lo, hi),
        forall|k: u64|
            assoc(head + tail, k) == (if k < mid {
                assoc(head, k)
            } else {
                assoc(tail, k)
            }),
{
    let all = head + tail;
    assert forall|a: int, b: int| 0 <= a < b < all.len() implies (#[trigger] all[a]).0 < (#[trigger] all[b]).0 by {
        if b < head.len() {
            assert(head[a].0 < head[b].0);
        } else if a >= head.len() {
            assert(tail[a - head.len()].0 < tail[b - head.len()].0);
        } else {
            assert(head[a].0 < mid);
            assert(tail[b - head.len()].0 >= mid);
        }
    }
    assert forall|a: int| 0 <= a < all.len() implies lo <= (#[trigger] all[a]).0 < hi by {
        if a < head.len() {
            assert(all[a] == head[a]);
        } else {
            assert(all[a] == tail[a - head.len()]);
        }
    }
    assert forall|k: u64|
        assoc(all, k) == (if k < mid {
            assoc(head, k)
        } else {
            assoc(tail, k)
        }) by {
        lemma_assoc(all, lo, hi, k);
        lemma_assoc(head, lo, mid, k);
        lemma_assoc(tail, mid, hi, k);
        if listed_key(all, k) {
            let a = choose|a: int| 0 <= a < all.len() && (#[trigger] all[a]).0 == k;
            if a < head.len() {
                assert(head[a] == all[a]);
            } else {
                assert(tail[a - head.len()] == all[a]);
            }
        } else {
            if listed_key(head, k) {
                let a = choose|a: int| 0 <= a < head.len() && (#[trigger] head[a]).0 == k;
                assert(all[a] == head[a]);
            }
            if listed_key(tail, k) {
                let a = choose|a: int| 0 <= a < tail.len() && (#[trigger] tail[a]).0 == k;
                assert(all[a + head.len()] == tail[a]);
            }
        }
    }
}

/// Along the leaves of a valid tree the keys grow strictly, and the entries
/// of the leaves are what the tree has: each key with its value, and no
/// other key.
pub proof fn lemma_leaf_records(shown: Seq<Seq<u8>>, m: u64, shape: Shape, level: nat, lo: int, hi: int, nxt: u64)
    requires
        valid(shown, m, shape, level, lo, hi, nxt),
        lo <= hi,
    ensures
        rising(extents(shown, m, shape.leaves(), 0), lo, hi),
        forall|k: u64| lookup(shown, m, shape, k) == assoc(extents(shown, m, shape.leaves(), 0), k),
    decreases shape, steps(shape),
{
    match shape {
        Shape::Leaf { block } => {
            let node = node_at(shown, m, block);
            let chain = shape.leaves();
            let list = entries(node);
            assert(chain =~= seq![block]);
            assert(extents(shown, m, chain, 1) =~= Seq::<(u64, u64)>::empty());
            assert(extents(shown, m, chain, 0) =~= list);
            assert(rising(list, lo, hi));
            assert forall|k: u64| lookup(shown, m, shape, k) == assoc(list, k) by {
                lemma_leaf_lookup(node.keys, node.vals, node.num_keys as int, k);
                lemma_assoc(list, lo, hi, k);
                if holds(node.keys, node.num_keys as int, k) {
                    let i = choose|i: int| 0 <= i < node.num_keys && node.keys[i] == k;
                    assert(list[i].0 == k);
                } else if listed_key(list, k) {
                    let a = choose|a: int| 0 <= a < list.len() && (#[trigger] list[a]).0 == k;
                    assert(node.keys[a] == k);
                }
            }
        },
        Shape::Inner { block, kids } => {
            let node = node_at(shown, m, block);
            lemma_kids_records(shown, m, shape, level, lo, hi, nxt, kids.len());
            assert forall|k: u64| lookup(shown, m, shape, k) == assoc(extents(shown, m, shape.leaves(), 0), k) by {
                lemma_route(node.keys, node.num_keys as int, k);
            }
        },
    }
}

/// The lower ends and upper ends of the children of a valid inner node follow
/// one another from `lo` to `hi`.
pub proof fn lemma_kid_ranges(shown: Seq<Seq<u8>>, m: u64, shape: Shape, level: nat, lo: int, hi: int, nxt: u64, q: int)
    requires
        shape is Inner,
        valid(shown, m, shape, level, lo, hi, nxt),
        lo <= hi,
        0 <= q < shape->Inner_kids.len(),
    ensures
        lo <= kid_lo(node_at(shown, m, shape.block()), lo, q) <= kid_hi(node_at(shown, m, shape.block()), hi, q) <= hi,
        q > 0 ==> kid_lo(node_at(shown, m, shape.block()), lo, q) == kid_hi(node_at(shown, m, shape.block()), hi, q - 1),
{
    let node = node_at(shown, m, shape.block());
    let n = node.num_keys as int;
    if q > 0 {
        assert(lo + 1 <= node.keys[q - 1] < hi);
    }
    if q < n {
        assert(lo + 1 <= node.keys[q] < hi);
    }
    if 0 < q < n {
        assert(node.keys[q - 1] < node.keys[q]);
    }
}

/// Along the leaves of the first `c` children of a valid tree the keys grow
/// strictly, and the entries of these leaves are what these children have.
#[verifier::spinoff_prover]
#[verifier::rlimit(80)]
pub proof fn lemma_kids_records(
    shown: Seq<Seq<u8>>,
    m: u64,
    shape: Shape,
    level: nat,
    lo: int,
    hi: int,
    nxt: u64,
    c: nat,
)
    requires
        shape is Inner,
        valid(shown, m, shape, level, lo, hi, nxt),
        lo <= hi,
        1 <= c <= shape->Inner_kids.len(),
    ensures
        rising(
            extents(shown, m, leaves_of(shape->Inner_kids, c), 0),
            lo,
            kid_hi(node_at(shown, m, shape.block()), hi, c - 1),
        ),
        forall|k: u64|
            #[trigger] assoc(extents(shown, m, leaves_of(shape->Inner_kids, c), 0), k) == (if route(
                node_at(shown, m, shape.block()).keys,
                node_at(shown, m, shape.block()).num_keys as int,
                k,
            ) < c {
                lookup(
                    shown,
                    m,
                    shape->Inner_kids[route(
                        node_at(shown, m, shape.block()).keys,
                        node_at(shown, m, shape.block()).num_keys as int,
                        k,
                    )],
                    k,
                )
            } else {
                None
            }),
    decreases shape, c,
{
    let kids = shape->Inner_kids;
    let node = node_at(shown, m, shape.block());
    let n = node.num_keys as int;
    let below = (level - 1) as nat;
    let last = (c - 1) as int;
    let kid = kids[last];
    let kid_from = kid_lo(node, lo, last);
    let kid_to = kid_hi(node, hi, last);
    let tail = extents(shown, m, kid.leaves(), 0);
    let all = extents(shown, m, leaves_of(kids, c), 0);
    lemma_kid_ranges(shown, m, shape, level, lo, hi, nxt, last);
    assert(valid(shown, m, kid, below, kid_from, kid_to, kid_next(kids, nxt, last)));
    lemma_leaf_records(shown, m, kid, below, kid_from, kid_to, kid_next(kids, nxt, last));
    if c == 1 {
        assert(leaves_of(kids, 0) =~= Seq::<u64>::empty());
        assert(leaves_of(kids, 1) =~= kid.leaves());
        assert forall|k: u64|
            #[trigger] assoc(all, k) == (if route(node.keys, n, k) < c {
                lookup(shown, m, kids[route(node.keys, n, k)], k)
            } else {
                None
            }) by {
            lemma_route(node.keys, n, k);
            lemma_assoc(tail, kid_from, kid_to, k);
            if route(node.keys, n, k) >= 1 {
                assert(node.keys[0] <= k);
            }
        }
    } else {
        let head_chain = leaves_of(kids, (c - 1) as nat);
        let head = extents(shown, m, head_chain, 0);
        lemma_kids_records(shown, m, shape, level, lo, hi, nxt, (c - 1) as nat);
        lemma_extents_join(shown, m, head_chain, kid.leaves(), 0);
        assert(leaves_of(kids, c) == head_chain + kid.leaves());
        assert(all == head + tail);
        assert(kid_hi(node, hi, c - 2) == kid_from);
        lemma_rising_concat(head, tail, lo, kid_from, kid_to);
        assert forall|k: u64|
            #[trigger] assoc(all, k) == (if route(node.keys, n, k) < c {
                lookup(shown, m, kids[route(node.keys, n, k)], k)
            } else {
                None
            }) by {
            lemma_route(node.keys, n, k);
            lemma_assoc(tail, kid_from, kid_to, k);
            let r = route(node.keys, n, k);
            assert(assoc(head, k) == (if r < c - 1 {
                lookup(shown, m, kids[r], k)
            } else {
                None
            }));
            if k < kid_from {
                if r >= c - 1 {
                    assert(node.keys[c - 2] <= k);
                }
            } else {
                if r < c - 1 {
                    assert(node.keys[r] > k);
                    if r < c - 2 {
                        assert(node.keys[r] < node.keys[c - 2]);
                    }
                }
                if r > c - 1 {
                    assert(node.keys[c - 1] <= k);
                }
            }
        }
    }
}

} // verus!
