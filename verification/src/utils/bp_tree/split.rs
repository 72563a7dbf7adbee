use vstd::prelude::*;
use super::bp_tree_node::NodeImage;
use super::bp_tree_node::well_sized;
use super::block_ops::only_block_changed;
use super::shape::home;
use super::shape::put_image;
use super::shape::holds;
use super::shape::kid_hi;
use super::shape::kid_lo;
use super::shape::kid_next;
use super::shape::left_image;
use super::shape::lemma_footprint;
use super::shape::lemma_frame;
use super::shape::lemma_leaf_lookup;
use super::shape::lemma_rank;
use super::shape::lemma_rank_is;
use super::shape::lemma_route;
use super::shape::lemma_route_is;
use super::shape::lookup;
use super::shape::node_at;
use super::shape::parent_image;
use super::shape::rank;
use super::shape::right_image;
use super::shape::route;
use super::shape::Shape;
use super::shape::sorted;
use super::shape::valid;
use super::shape::within;

verus! {

/// The lower half of a tree whose topmost node is split: the same block, with
/// the children up to the middle one.
pub open spec fn left_half(shape: Shape) -> Shape {
    match shape {
        Shape::Leaf { block } => Shape::Leaf { block },
        Shape::Inner { block, kids } => Shape::Inner { block, kids: kids.subrange(0, (kids.len() - 1) / 2 + 1) },
    }
}

/// The upper half of a tree whose topmost node is split: the block `fresh`,
/// with the children behind the middle one.
pub open spec fn right_half(shape: Shape, fresh: u64) -> Shape {
    match shape {
        Shape::Leaf { .. } => Shape::Leaf { block: fresh },
        Shape::Inner { kids, .. } => Shape::Inner {
            block: fresh,
            kids: kids.subrange((kids.len() - 1) / 2 + 1, kids.len() as int),
        },
    }
}

/// What holds of the two halves of a split tree.
pub open spec fn halves_ok(
    shown: Seq<Seq<u8>>,
    now: Seq<Seq<u8>>,
    m: u64,
    shape: Shape,
    fresh: u64,
    level: nat,
    lo: int,
    hi: int,
    nxt: u64,
    sep: u64,
) -> bool {
    let left = left_half(shape);
    let right = right_half(shape, fresh);
    &&& lo < sep < hi
    &&& valid(now, m, left, level, lo, sep as int, right.first_leaf())
    &&& valid(now, m, right, level, sep as int, hi, nxt)
    &&& left.block() == shape.block()
    &&& right.block() == fresh
    &&& left.first_leaf() == shape.first_leaf()
    &&& left.footprint().disjoint(right.footprint())
    &&& forall|b: u64| left.footprint().contains(b) || right.footprint().contains(b) <==> shape.footprint().contains(b) || b == fresh
    &&& forall|k: u64| k < sep ==> lookup(now, m, left, k) == lookup(shown, m, shape, k)
    &&& forall|k: u64| k >= sep ==> lookup(now, m, right, k) == lookup(shown, m, shape, k)
    &&& node_at(now, m, left.block()).num_keys < m - 1
    &&& node_at(now, m, right.block()).num_keys < m - 1
}

/// A full leaf that is split gives two valid leaves that share its entries at
/// its middle key.
pub proof fn lemma_split_leaf(
    shown: Seq<Seq<u8>>,
    now: Seq<Seq<u8>>,
    m: u64,
    block: u64,
    fresh: u64,
    lo: int,
    hi: int,
    nxt: u64,
)
    requires
        m >= 3,
        valid(shown, m, Shape::Leaf { block }, 0, lo, hi, nxt),
        node_at(shown, m, block).num_keys == m - 1,
        now.len() == shown.len(),
        fresh < now.len(),
        fresh != block,
        well_sized(now[fresh as int].len(), m),
        now[block as int].len() == shown[block as int].len(),
        right_image(node_at(shown, m, block), node_at(now, m, fresh)),
        left_image(node_at(shown, m, block), node_at(now, m, block), fresh),
    ensures
        halves_ok(
            shown,
            now,
            m,
            Shape::Leaf { block },
            fresh,
            0,
            lo,
            hi,
            nxt,
            node_at(shown, m, block).keys[(m - 1) / 2],
        ),
{
    let shape = Shape::Leaf { block };
    let c = node_at(shown, m, block);
    let l = node_at(now, m, block);
    let r = node_at(now, m, fresh);
    let n = c.num_keys as int;
    let mid = n / 2;
    let sep = c.keys[mid];
    let left = left_half(shape);
    let right = right_half(shape, fresh);
    assert(1 <= mid < n);
    assert(c.keys[0] < c.keys[mid]);
    assert(sorted(l.keys, mid));
    assert(within(l.keys, mid, lo, sep as int)) by {
        assert forall|i: int| 0 <= i < mid implies lo <= #[trigger] l.keys[i] < sep by {
            assert(c.keys[i] < c.keys[mid]);
        }
    }
    assert(sorted(r.keys, n - mid)) by {
        assert forall|i: int, j: int| 0 <= i < j < n - mid implies r.keys[i] < r.keys[j] by {
            assert(r.keys[i] == c.keys[mid + i]);
            assert(r.keys[j] == c.keys[mid + j]);
        }
    }
    assert(within(r.keys, n - mid, sep as int, hi)) by {
        assert forall|i: int| 0 <= i < n - mid implies sep <= #[trigger] r.keys[i] < hi by {
            assert(r.keys[i] == c.keys[mid + i]);
            if i > 0 {
                assert(c.keys[mid] < c.keys[mid + i]);
            }
        }
    }
    assert forall|k: u64| k < sep implies lookup(now, m, left, k) == lookup(shown, m, shape, k) by {
        lemma_leaf_lookup(c.keys, c.vals, n, k);
        lemma_leaf_lookup(l.keys, l.vals, mid, k);
        if holds(c.keys, n, k) {
            let i = choose|i: int| 0 <= i < n && c.keys[i] == k;
            if i >= mid {
                if i > mid {
                    assert(c.keys[mid] < c.keys[i]);
                }
            }
            assert(l.keys[i] == k);
        }
    }
    assert forall|k: u64| k >= sep implies lookup(now, m, right, k) == lookup(shown, m, shape, k) by {
        lemma_leaf_lookup(c.keys, c.vals, n, k);
        lemma_leaf_lookup(r.keys, r.vals, n - mid, k);
        if holds(c.keys, n, k) {
            let i = choose|i: int| 0 <= i < n && c.keys[i] == k;
            if i < mid {
                assert(c.keys[i] < c.keys[mid]);
            }
            assert(r.keys[i - mid] == c.keys[mid + (i - mid)]);
            assert(r.vals[i - mid] == c.vals[mid + (i - mid)]);
        } else {
            assert forall|j: int| 0 <= j < n - mid implies r.keys[j] != k by {
                assert(r.keys[j] == c.keys[mid + j]);
            }
        }
    }
}

/// A full inner node at the top of `shape` was split: its upper part went to
/// the block `fresh`, and nothing else changed in the tree.
pub open spec fn inner_split(
    shown: Seq<Seq<u8>>,
    now: Seq<Seq<u8>>,
    m: u64,
    shape: Shape,
    fresh: u64,
    level: nat,
    lo: int,
    hi: int,
    nxt: u64,
) -> bool {
    &&& m >= 3
    &&& shape is Inner
    &&& valid(shown, m, shape, level, lo, hi, nxt)
    &&& node_at(shown, m, shape.block()).num_keys == m - 1
    &&& now.len() == shown.len()
    &&& fresh < now.len()
    &&& !shape.footprint().contains(fresh)
    &&& well_sized(now[fresh as int].len(), m)
    &&& now[shape.block() as int].len() == shown[shape.block() as int].len()
    &&& forall|b: u64| shape.footprint().contains(b) && b != shape.block() ==> now[b as int] == shown[b as int]
    &&& right_image(node_at(shown, m, shape.block()), node_at(now, m, fresh))
    &&& left_image(node_at(shown, m, shape.block()), node_at(now, m, shape.block()), fresh)
}

/// The middle key of the node in `block`.
pub open spec fn middle_key(shown: Seq<Seq<u8>>, m: u64, block: u64) -> u64 {
    node_at(shown, m, block).keys[node_at(shown, m, block).num_keys as int / 2]
}

/// After a split of the topmost node, the children are as valid as before and
/// have the same values.
#[verifier::spinoff_prover]
#[verifier::rlimit(80)]
proof fn lemma_split_kids(
    shown: Seq<Seq<u8>>,
    now: Seq<Seq<u8>>,
    m: u64,
    shape: Shape,
    fresh: u64,
    level: nat,
    lo: int,
    hi: int,
    nxt: u64,
)
    requires
        inner_split(shown, now, m, shape, fresh, level, lo, hi, nxt),
    ensures
        forall|q: int|
            0 <= q < shape->Inner_kids.len() ==> valid(
                now,
                m,
                #[trigger] shape->Inner_kids[q],
                (level - 1) as nat,
                kid_lo(node_at(shown, m, shape.block()), lo, q),
                kid_hi(node_at(shown, m, shape.block()), hi, q),
                kid_next(shape->Inner_kids, nxt, q),
            ),
        forall|q: int, k: u64|
            0 <= q < shape->Inner_kids.len() ==> #[trigger] lookup(now, m, shape->Inner_kids[q], k) == lookup(
                shown,
                m,
                shape->Inner_kids[q],
                k,
            ),
{
    let block = shape.block();
    let kids = shape->Inner_kids;
    let c = node_at(shown, m, block);
    let l = node_at(now, m, block);
    let r = node_at(now, m, fresh);
    let n = c.num_keys as int;
    let mid = n / 2;
    let sep = c.keys[mid];
    let left = left_half(shape);
    let right = right_half(shape, fresh);
    let lkids = left->Inner_kids;
    let rkids = right->Inner_kids;
    let below = (level - 1) as nat;
    assert(1 <= mid < n);
    assert(kids.len() == n + 1);
    assert(lkids.len() == mid + 1);
    assert(rkids.len() == n - mid);
    lemma_footprint(shape);
    assert forall|q: int| 0 <= q <= n implies valid(
        now,
        m,
        #[trigger] kids[q],
        below,
        kid_lo(c, lo, q),
        kid_hi(c, hi, q),
        kid_next(kids, nxt, q),
    ) && (forall|k: u64| #[trigger] lookup(now, m, kids[q], k) == lookup(shown, m, kids[q], k)) by {
        assert forall|b: u64| kids[q].footprint().contains(b) implies now[b as int] == shown[b as int] by {
            assert(shape.footprint().contains(b));
        }
        lemma_frame(shown, now, m, kids[q], below, kid_lo(c, lo, q), kid_hi(c, hi, q), kid_next(kids, nxt, q));
    }
}

/// The lower half of a split inner node is a valid tree.
#[verifier::spinoff_prover]
#[verifier::rlimit(80)]
proof fn lemma_split_inner_left(
    shown: Seq<Seq<u8>>,
    now: Seq<Seq<u8>>,
    m: u64,
    shape: Shape,
    fresh: u64,
    level: nat,
    lo: int,
    hi: int,
    nxt: u64,
)
    requires
        inner_split(shown, now, m, shape, fresh, level, lo, hi, nxt),
    ensures
        lo < middle_key(shown, m, shape.block()) < hi,
        valid(
            now,
            m,
            left_half(shape),
            level,
            lo,
            middle_key(shown, m, shape.block()) as int,
            right_half(shape, fresh).first_leaf(),
        ),
        left_half(shape).first_leaf() == shape.first_leaf(),
        node_at(now, m, shape.block()).num_keys < m - 1,
{
    let block = shape.block();
    let kids = shape->Inner_kids;
    let c = node_at(shown, m, block);
    let l = node_at(now, m, block);
    let r = node_at(now, m, fresh);
    let n = c.num_keys as int;
    let mid = n / 2;
    let sep = c.keys[mid];
    let left = left_half(shape);
    let right = right_half(shape, fresh);
    let lkids = left->Inner_kids;
    let rkids = right->Inner_kids;
    let below = (level - 1) as nat;
    assert(1 <= mid < n);
    assert(kids.len() == n + 1);
    assert(lkids.len() == mid + 1);
    assert(rkids.len() == n - mid);
    lemma_split_kids(shown, now, m, shape, fresh, level, lo, hi, nxt);
    assert(c.keys[0] < c.keys[mid]);
    assert(right.first_leaf() == kids[mid + 1].first_leaf()) by {
        assert(rkids[0] == kids[mid + 1]);
    }
    assert(left.first_leaf() == shape.first_leaf()) by {
        assert(lkids[0] == kids[0]);
    }
    assert(sorted(l.keys, mid));
    assert(within(l.keys, mid, lo + 1, sep as int)) by {
        assert forall|i: int| 0 <= i < mid implies lo + 1 <= #[trigger] l.keys[i] < sep by {
            assert(c.keys[i] < c.keys[mid]);
        }
    }
    assert forall|q: int| 0 <= q < lkids.len() implies {
        &&& l.vals[q] == (#[trigger] lkids[q]).block()
        &&& valid(now, m, lkids[q], below, kid_lo(l, lo, q), kid_hi(l, sep as int, q), kid_next(lkids, right.first_leaf(), q))
        &&& !lkids[q].footprint().contains(block)
    } by {
        assert(lkids[q] == kids[q]);
        assert(kid_lo(l, lo, q) == kid_lo(c, lo, q));
        assert(kid_hi(l, sep as int, q) == kid_hi(c, hi, q));
        if q + 1 < lkids.len() {
            assert(lkids[q + 1] == kids[q + 1]);
        }
        assert(kid_next(lkids, right.first_leaf(), q) == kid_next(kids, nxt, q));
    }
    assert forall|p: int, q: int| 0 <= p < q < lkids.len() implies (#[trigger] lkids[p]).footprint().disjoint(
        (#[trigger] lkids[q]).footprint(),
    ) by {
        assert(lkids[p] == kids[p]);
        assert(lkids[q] == kids[q]);
    }
    assert(valid(now, m, left, level, lo, sep as int, right.first_leaf()));
}

/// The upper half of a split inner node is a valid tree.
#[verifier::spinoff_prover]
#[verifier::rlimit(80)]
proof fn lemma_split_inner_right(
    shown: Seq<Seq<u8>>,
    now: Seq<Seq<u8>>,
    m: u64,
    shape: Shape,
    fresh: u64,
    level: nat,
    lo: int,
    hi: int,
    nxt: u64,
)
    requires
        inner_split(shown, now, m, shape, fresh, level, lo, hi, nxt),
    ensures
        valid(now, m, right_half(shape, fresh), level, middle_key(shown, m, shape.block()) as int, hi, nxt),
        node_at(now, m, fresh).num_keys < m - 1,
{
    let block = shape.block();
    let kids = shape->Inner_kids;
    let c = node_at(shown, m, block);
    let l = node_at(now, m, block);
    let r = node_at(now, m, fresh);
    let n = c.num_keys as int;
    let mid = n / 2;
    let sep = c.keys[mid];
    let left = left_half(shape);
    let right = right_half(shape, fresh);
    let lkids = left->Inner_kids;
    let rkids = right->Inner_kids;
    let below = (level - 1) as nat;
    assert(1 <= mid < n);
    assert(kids.len() == n + 1);
    assert(lkids.len() == mid + 1);
    assert(rkids.len() == n - mid);
    lemma_split_kids(shown, now, m, shape, fresh, level, lo, hi, nxt);
    lemma_footprint(shape);
    assert(sorted(r.keys, n - mid - 1)) by {
        assert forall|i: int, j: int| 0 <= i < j < n - mid - 1 implies r.keys[i] < r.keys[j] by {
            assert(r.keys[i] == c.keys[mid + 1 + i]);
            assert(r.keys[j] == c.keys[mid + 1 + j]);
        }
    }
    assert(within(r.keys, n - mid - 1, sep + 1, hi)) by {
        assert forall|i: int| 0 <= i < n - mid - 1 implies sep + 1 <= #[trigger] r.keys[i] < hi by {
            assert(r.keys[i] == c.keys[mid + 1 + i]);
            assert(c.keys[mid] < c.keys[mid + 1 + i]);
        }
    }
    assert forall|q: int| 0 <= q < rkids.len() implies {
        &&& r.vals[q] == (#[trigger] rkids[q]).block()
        &&& valid(now, m, rkids[q], below, kid_lo(r, sep as int, q), kid_hi(r, hi, q), kid_next(rkids, nxt, q))
        &&& !rkids[q].footprint().contains(fresh)
    } by {
        assert(rkids[q] == kids[mid + 1 + q]);
        assert(r.vals[q] == c.vals[mid + 1 + q]);
        if q > 0 {
            assert(r.keys[q - 1] == c.keys[mid + 1 + (q - 1)]);
        }
        if q < n - mid - 1 {
            assert(r.keys[q] == c.keys[mid + 1 + q]);
        }
        assert(kid_lo(r, sep as int, q) == kid_lo(c, lo, mid + 1 + q));
        assert(kid_hi(r, hi, q) == kid_hi(c, hi, mid + 1 + q));
        if q + 1 < rkids.len() {
            assert(rkids[q + 1] == kids[mid + 1 + q + 1]);
        }
        assert(kid_next(rkids, nxt, q) == kid_next(kids, nxt, mid + 1 + q));
        if rkids[q].footprint().contains(fresh) {
            assert(shape.footprint().contains(fresh));
        }
    }
    assert forall|p: int, q: int| 0 <= p < q < rkids.len() implies (#[trigger] rkids[p]).footprint().disjoint(
        (#[trigger] rkids[q]).footprint(),
    ) by {
        assert(rkids[p] == kids[mid + 1 + p]);
        assert(rkids[q] == kids[mid + 1 + q]);
    }
    assert(valid(now, m, right, level, sep as int, hi, nxt));
}

/// The two halves of a split inner node share its blocks and the new one.
#[verifier::spinoff_prover]
#[verifier::rlimit(80)]
proof fn lemma_split_inner_blocks(
    shown: Seq<Seq<u8>>,
    now: Seq<Seq<u8>>,
    m: u64,
    shape: Shape,
    fresh: u64,
    level: nat,
    lo: int,
    hi: int,
    nxt: u64,
)
    requires
        inner_split(shown, now, m, shape, fresh, level, lo, hi, nxt),
    ensures
        left_half(shape).footprint().disjoint(right_half(shape, fresh).footprint()),
        forall|b: u64|
            left_half(shape).footprint().contains(b) || right_half(shape, fresh).footprint().contains(b)
                <==> shape.footprint().contains(b) || b == fresh,
{
    let block = shape.block();
    let kids = shape->Inner_kids;
    let c = node_at(shown, m, block);
    let l = node_at(now, m, block);
    let r = node_at(now, m, fresh);
    let n = c.num_keys as int;
    let mid = n / 2;
    let sep = c.keys[mid];
    let left = left_half(shape);
    let right = right_half(shape, fresh);
    let lkids = left->Inner_kids;
    let rkids = right->Inner_kids;
    let below = (level - 1) as nat;
    assert(1 <= mid < n);
    assert(kids.len() == n + 1);
    assert(lkids.len() == mid + 1);
    assert(rkids.len() == n - mid);
    lemma_footprint(shape);
    lemma_footprint(left);
    lemma_footprint(right);
    assert forall|b: u64| left.footprint().contains(b) || right.footprint().contains(b) implies shape.footprint().contains(
        b,
    ) || b == fresh by {
        if left.footprint().contains(b) && b != block {
            let q = choose|q: int| 0 <= q < lkids.len() && (#[trigger] lkids[q]).footprint().contains(b);
            assert(lkids[q] == kids[q]);
        }
        if right.footprint().contains(b) && b != fresh {
            let q = choose|q: int| 0 <= q < rkids.len() && (#[trigger] rkids[q]).footprint().contains(b);
            assert(rkids[q] == kids[mid + 1 + q]);
        }
    }
    assert forall|b: u64| shape.footprint().contains(b) || b == fresh implies left.footprint().contains(b)
        || right.footprint().contains(b) by {
        if b != fresh && b != block {
            let q = choose|q: int| 0 <= q < kids.len() && (#[trigger] kids[q]).footprint().contains(b);
            if q <= mid {
                assert(lkids[q] == kids[q]);
            } else {
                assert(rkids[q - mid - 1] == kids[q]);
            }
        }
    }
    assert(left.footprint().disjoint(right.footprint())) by {
        assert forall|b: u64| left.footprint().contains(b) && right.footprint().contains(b) implies false by {
            if b == block {
                let q = choose|q: int| 0 <= q < rkids.len() && (#[trigger] rkids[q]).footprint().contains(b);
                assert(rkids[q] == kids[mid + 1 + q]);
            } else if b == fresh {
                assert(shape.footprint().contains(b));
            } else {
                let p = choose|p: int| 0 <= p < lkids.len() && (#[trigger] lkids[p]).footprint().contains(b);
                let q = choose|q: int| 0 <= q < rkids.len() && (#[trigger] rkids[q]).footprint().contains(b);
                assert(lkids[p] == kids[p]);
                assert(rkids[q] == kids[mid + 1 + q]);
                assert(kids[p].footprint().disjoint(kids[mid + 1 + q].footprint()));
            }
        }
    }
}

/// The two halves of a split inner node have its values: the lower half for
/// the keys below the middle key, the upper half for the others.
proof fn lemma_split_inner_values(shown: Seq<Seq<u8>>, now: Seq<Seq<u8>>, m: u64, shape: Shape, fresh: u64)
    requires
        shape is Inner,
        node_at(shown, m, shape.block()).num_keys >= 2,
        node_at(shown, m, shape.block()).is_leaf == 0,
        shape->Inner_kids.len() == node_at(shown, m, shape.block()).num_keys + 1,
        sorted(node_at(shown, m, shape.block()).keys, node_at(shown, m, shape.block()).num_keys as int),
        right_image(node_at(shown, m, shape.block()), node_at(now, m, fresh)),
        left_image(node_at(shown, m, shape.block()), node_at(now, m, shape.block()), fresh),
        forall|q: int, k: u64|
            0 <= q < shape->Inner_kids.len() ==> #[trigger] lookup(now, m, shape->Inner_kids[q], k) == lookup(
                shown,
                m,
                shape->Inner_kids[q],
                k,
            ),
    ensures
        forall|k: u64|
            k < middle_key(shown, m, shape.block()) ==> lookup(now, m, left_half(shape), k) == lookup(shown, m, shape, k),
        forall|k: u64|
            k >= middle_key(shown, m, shape.block()) ==> lookup(now, m, right_half(shape, fresh), k) == lookup(
                shown,
                m,
                shape,
                k,
            ),
{
    let block = shape.block();
    let kids = shape->Inner_kids;
    let c = node_at(shown, m, block);
    let l = node_at(now, m, block);
    let r = node_at(now, m, fresh);
    let n = c.num_keys as int;
    let mid = n / 2;
    let sep = c.keys[mid];
    let left = left_half(shape);
    let right = right_half(shape, fresh);
    let lkids = left->Inner_kids;
    let rkids = right->Inner_kids;
    assert(1 <= mid < n);
    assert(lkids.len() == mid + 1);
    assert(rkids.len() == n - mid);
    assert(sorted(l.keys, mid));
    assert(sorted(r.keys, n - mid - 1)) by {
        assert forall|i: int, j: int| 0 <= i < j < n - mid - 1 implies r.keys[i] < r.keys[j] by {
            assert(r.keys[i] == c.keys[mid + 1 + i]);
            assert(r.keys[j] == c.keys[mid + 1 + j]);
        }
    }
    assert forall|k: u64| k < sep implies lookup(now, m, left, k) == lookup(shown, m, shape, k) by {
        lemma_route(c.keys, n, k);
        let at = route(c.keys, n, k);
        if at > mid {
            assert(c.keys[mid] <= k);
        }
        lemma_route_is(l.keys, mid, k, at);
        assert(lkids[at] == kids[at]);
        assert(lookup(now, m, kids[at], k) == lookup(shown, m, kids[at], k));
    }
    assert forall|k: u64| k >= sep implies lookup(now, m, right, k) == lookup(shown, m, shape, k) by {
        lemma_route(c.keys, n, k);
        let at = route(c.keys, n, k);
        if at <= mid {
            assert(c.keys[at] > k);
            if at < mid {
                assert(c.keys[at] < c.keys[mid]);
            }
        }
        assert forall|i: int| 0 <= i < at - mid - 1 implies r.keys[i] <= k by {
            assert(r.keys[i] == c.keys[mid + 1 + i]);
        }
        assert forall|i: int| at - mid - 1 <= i < n - mid - 1 implies r.keys[i] > k by {
            assert(r.keys[i] == c.keys[mid + 1 + i]);
        }
        lemma_route_is(r.keys, n - mid - 1, k, at - mid - 1);
        assert(rkids[at - mid - 1] == kids[at]);
        assert(lookup(now, m, kids[at], k) == lookup(shown, m, kids[at], k));
    }
}

/// A full inner node that is split gives two valid trees that share its
/// children at its middle key, which belongs to neither.
pub proof fn lemma_split_inner(
    shown: Seq<Seq<u8>>,
    now: Seq<Seq<u8>>,
    m: u64,
    shape: Shape,
    fresh: u64,
    level: nat,
    lo: int,
    hi: int,
    nxt: u64,
)
    requires
        inner_split(shown, now, m, shape, fresh, level, lo, hi, nxt),
    ensures
        halves_ok(shown, now, m, shape, fresh, level, lo, hi, nxt, middle_key(shown, m, shape.block())),
{
    lemma_split_inner_left(shown, now, m, shape, fresh, level, lo, hi, nxt);
    lemma_split_inner_right(shown, now, m, shape, fresh, level, lo, hi, nxt);
    lemma_split_inner_blocks(shown, now, m, shape, fresh, level, lo, hi, nxt);
    lemma_split_kids(shown, now, m, shape, fresh, level, lo, hi, nxt);
    lemma_split_inner_values(shown, now, m, shape, fresh);
}

/// The tree `shape` after its child `i` was split, with `fresh` as the block
/// of the upper half.
pub open spec fn split_parent(shape: Shape, i: int, fresh: u64) -> Shape {
    match shape {
        Shape::Leaf { block } => shape,
        Shape::Inner { block, kids } => Shape::Inner {
            block,
            kids: kids.update(i, left_half(kids[i])).insert(i + 1, right_half(kids[i], fresh)),
        },
    }
}

/// An inner node that takes a separator between the bounds of its child `i`
/// takes it at place `i`, stays sorted and within its bounds, and gives the
/// children the bounds that they had, but for the two halves, which share
/// those of child `i` at the separator.
proof fn lemma_parent_keys(p: NodeImage, grown: NodeImage, lo: int, hi: int, i: int, sep: u64, fresh: u64)
    requires
        sorted(p.keys, p.num_keys as int),
        within(p.keys, p.num_keys as int, lo + 1, hi),
        0 <= i <= p.num_keys,
        lo <= kid_lo(p, lo, i) < sep < kid_hi(p, hi, i) <= hi,
        parent_image(p, grown, sep, fresh),
    ensures
        rank(p.keys, p.num_keys as int, sep) == i,
        sorted(grown.keys, p.num_keys + 1),
        within(grown.keys, p.num_keys + 1, lo + 1, hi),
        forall|q: int| 0 <= q < i ==> kid_lo(grown, lo, q) == kid_lo(p, lo, q) && kid_hi(grown, hi, q) == kid_hi(p, hi, q),
        kid_lo(grown, lo, i) == kid_lo(p, lo, i),
        kid_hi(grown, hi, i) == sep,
        kid_lo(grown, lo, i + 1) == sep,
        kid_hi(grown, hi, i + 1) == kid_hi(p, hi, i),
        forall|q: int|
            i + 1 < q <= p.num_keys + 1 ==> kid_lo(grown, lo, q) == kid_lo(p, lo, q - 1) && kid_hi(grown, hi, q) == kid_hi(
                p,
                hi,
                q - 1,
            ),
        forall|k: u64|
            route(p.keys, p.num_keys as int, k) == i ==> #[trigger] route(grown.keys, p.num_keys + 1, k) == (if k < sep {
                i
            } else {
                i + 1
            }),
{
    let n = p.num_keys as int;
    assert forall|j: int| 0 <= j < i implies p.keys[j] < sep by {
        if j < i - 1 {
            assert(p.keys[j] < p.keys[i - 1]);
        }
    }
    assert forall|j: int| i <= j < n implies p.keys[j] >= sep by {
        if i < j {
            assert(p.keys[i] < p.keys[j]);
        }
    }
    lemma_rank_is(p.keys, n, sep, i);
    assert forall|a: int, b: int| 0 <= a < b < n + 1 implies grown.keys[a] < grown.keys[b] by {
        let x = grown.keys[a];
        let y = grown.keys[b];
        if b < i {
            assert(p.keys[a] < p.keys[b]);
        } else if b == i {
            assert(p.keys[a] < sep);
        } else if a == i {
            assert(p.keys[b - 1] >= sep);
            if b - 1 > i {
                assert(p.keys[i] < p.keys[b - 1]);
            }
        } else if a < i {
            assert(p.keys[a] < p.keys[b - 1]);
        } else {
            assert(p.keys[a - 1] < p.keys[b - 1]);
        }
    }
    assert forall|q: int| 0 <= q < n + 1 implies lo + 1 <= #[trigger] grown.keys[q] < hi by {
        if q < i {
            assert(grown.keys[q] == p.keys[q]);
        } else if q > i {
            assert(grown.keys[q] == p.keys[q - 1]);
        }
    }
    assert forall|q: int| 0 <= q < i implies kid_lo(grown, lo, q) == kid_lo(p, lo, q) && kid_hi(grown, hi, q) == kid_hi(
        p,
        hi,
        q,
    ) by {
        if q > 0 {
            assert(grown.keys[q - 1] == p.keys[q - 1]);
        }
        assert(grown.keys[q] == p.keys[q]);
    }
    assert(kid_lo(grown, lo, i) == kid_lo(p, lo, i)) by {
        if i > 0 {
            assert(grown.keys[i - 1] == p.keys[i - 1]);
        }
    }
    assert(grown.keys[i] == sep);
    assert(kid_hi(grown, hi, i + 1) == kid_hi(p, hi, i)) by {
        if i < n {
            assert(grown.keys[i + 1] == p.keys[i]);
        }
    }
    assert forall|q: int| i + 1 < q <= n + 1 implies kid_lo(grown, lo, q) == kid_lo(p, lo, q - 1) && kid_hi(grown, hi, q)
        == kid_hi(p, hi, q - 1) by {
        assert(grown.keys[q - 1] == p.keys[q - 2]);
        if q < n + 1 {
            assert(grown.keys[q] == p.keys[q - 1]);
        }
    }
    assert forall|k: u64| route(p.keys, n, k) == i implies #[trigger] route(grown.keys, n + 1, k) == (if k < sep {
        i
    } else {
        i + 1
    }) by {
        lemma_route(p.keys, n, k);
        let at2 = if k < sep {
            i
        } else {
            i + 1
        };
        assert forall|j: int| 0 <= j < at2 implies grown.keys[j] <= k by {
            if j < i {
                assert(grown.keys[j] == p.keys[j]);
            } else {
                assert(grown.keys[j] == sep);
            }
        }
        assert forall|j: int| at2 <= j < n + 1 implies grown.keys[j] > k by {
            if j == i {
                assert(grown.keys[j] == sep);
            } else {
                assert(grown.keys[j] == p.keys[j - 1]);
            }
        }
        lemma_route_is(grown.keys, n + 1, k, at2);
    }
}

/// The blocks of the tree `shape` are as in `shown`, but for the topmost
/// block and the blocks of child `i`.
pub open spec fn same_but_kid(shown: Seq<Seq<u8>>, now: Seq<Seq<u8>>, shape: Shape, i: int) -> bool {
    &&& now.len() == shown.len()
    &&& forall|b: u64|
        shape.footprint().contains(b) && b != shape.block() && !shape->Inner_kids[i].footprint().contains(b)
            ==> now[b as int] == shown[b as int]
}

/// Where only the topmost block and the blocks of child `i` changed, the
/// other children are as valid as before and have the same values.
#[verifier::spinoff_prover]
#[verifier::rlimit(80)]
pub proof fn lemma_other_kids(
    shown: Seq<Seq<u8>>,
    now: Seq<Seq<u8>>,
    m: u64,
    shape: Shape,
    i: int,
    level: nat,
    lo: int,
    hi: int,
    nxt: u64,
)
    requires
        shape is Inner,
        valid(shown, m, shape, level, lo, hi, nxt),
        0 <= i < shape->Inner_kids.len(),
        same_but_kid(shown, now, shape, i),
    ensures
        forall|q: int|
            0 <= q < shape->Inner_kids.len() && q != i ==> valid(
                now,
                m,
                #[trigger] shape->Inner_kids[q],
                (level - 1) as nat,
                kid_lo(node_at(shown, m, shape.block()), lo, q),
                kid_hi(node_at(shown, m, shape.block()), hi, q),
                kid_next(shape->Inner_kids, nxt, q),
            ),
        forall|q: int, k: u64|
            0 <= q < shape->Inner_kids.len() && q != i ==> #[trigger] lookup(now, m, shape->Inner_kids[q], k) == lookup(
                shown,
                m,
                shape->Inner_kids[q],
                k,
            ),
{
    let kids = shape->Inner_kids;
    let p = node_at(shown, m, shape.block());
    let below = (level - 1) as nat;
    lemma_footprint(shape);
    assert forall|q: int| 0 <= q < kids.len() && q != i implies valid(
        now,
        m,
        #[trigger] kids[q],
        below,
        kid_lo(p, lo, q),
        kid_hi(p, hi, q),
        kid_next(kids, nxt, q),
    ) && (forall|k: u64| #[trigger] lookup(now, m, kids[q], k) == lookup(shown, m, kids[q], k)) by {
        assert forall|b: u64| kids[q].footprint().contains(b) implies now[b as int] == shown[b as int] by {
            assert(shape.footprint().contains(b));
            if q < i {
                assert(kids[q].footprint().disjoint(kids[i].footprint()));
            } else {
                assert(kids[i].footprint().disjoint(kids[q].footprint()));
            }
        }
        lemma_frame(shown, now, m, kids[q], below, kid_lo(p, lo, q), kid_hi(p, hi, q), kid_next(kids, nxt, q));
    }
}

/// What is known when child `i` of the tree `shape` was split at `sep` and
/// the topmost node took `sep` with the upper half behind it.
pub open spec fn parent_split(
    shown: Seq<Seq<u8>>,
    now: Seq<Seq<u8>>,
    m: u64,
    shape: Shape,
    i: int,
    fresh: u64,
    level: nat,
    lo: int,
    hi: int,
    nxt: u64,
    sep: u64,
) -> bool {
    let p = node_at(shown, m, shape.block());
    &&& m >= 3
    &&& shape is Inner
    &&& valid(shown, m, shape, level, lo, hi, nxt)
    &&& 0 <= i < shape->Inner_kids.len()
    &&& p.num_keys < m - 1
    &&& !shape.footprint().contains(fresh)
    &&& same_but_kid(shown, now, shape, i)
    &&& now[shape.block() as int].len() == shown[shape.block() as int].len()
    &&& parent_image(p, node_at(now, m, shape.block()), sep, fresh)
    &&& halves_ok(
        shown,
        now,
        m,
        shape->Inner_kids[i],
        fresh,
        (level - 1) as nat,
        kid_lo(p, lo, i),
        kid_hi(p, hi, i),
        kid_next(shape->Inner_kids, nxt, i),
        sep,
    )
}

/// The bounds of the children of a valid inner node lie within its own.
proof fn lemma_kid_bounds(p: NodeImage, lo: int, hi: int, i: int)
    requires
        sorted(p.keys, p.num_keys as int),
        within(p.keys, p.num_keys as int, lo + 1, hi),
        0 <= i <= p.num_keys,
        lo < hi,
    ensures
        lo <= kid_lo(p, lo, i),
        kid_hi(p, hi, i) <= hi,
{
    if i > 0 {
        assert(lo + 1 <= p.keys[i - 1]);
    }
    if i < p.num_keys {
        assert(p.keys[i] < hi);
    }
}

/// After the split of a child, the tree is valid.
#[verifier::spinoff_prover]
#[verifier::rlimit(100)]
proof fn lemma_split_parent_valid(
    shown: Seq<Seq<u8>>,
    now: Seq<Seq<u8>>,
    m: u64,
    shape: Shape,
    i: int,
    fresh: u64,
    level: nat,
    lo: int,
    hi: int,
    nxt: u64,
    sep: u64,
)
    requires
        parent_split(shown, now, m, shape, i, fresh, level, lo, hi, nxt, sep),
    ensures
        valid(now, m, split_parent(shape, i, fresh), level, lo, hi, nxt),
        split_parent(shape, i, fresh).first_leaf() == shape.first_leaf(),
{
    let father = shape.block();
    let kids = shape->Inner_kids;
    let p = node_at(shown, m, father);
    let grown = node_at(now, m, father);
    let n = p.num_keys as int;
    let below = (level - 1) as nat;
    let left = left_half(kids[i]);
    let right = right_half(kids[i], fresh);
    let after = split_parent(shape, i, fresh);
    let kids2 = after->Inner_kids;
    lemma_footprint(shape);
    lemma_other_kids(shown, now, m, shape, i, level, lo, hi, nxt);
    lemma_kid_bounds(p, lo, hi, i);
    lemma_parent_keys(p, grown, lo, hi, i, sep, fresh);
    assert(kids2.len() == n + 2);
    assert(kids2[i] == left);
    assert(kids2[i + 1] == right);
    assert forall|q: int| 0 <= q < i implies #[trigger] kids2[q] == kids[q] by {}
    assert forall|q: int| i + 1 < q < n + 2 implies #[trigger] kids2[q] == kids[q - 1] by {}
    assert forall|q: int| 0 <= q < kids2.len() implies {
        &&& grown.vals[q] == (#[trigger] kids2[q]).block()
        &&& valid(now, m, kids2[q], below, kid_lo(grown, lo, q), kid_hi(grown, hi, q), kid_next(kids2, nxt, q))
        &&& !kids2[q].footprint().contains(father)
    } by {
        if q < i {
            assert(kids2[q] == kids[q]);
            assert(grown.vals[q] == p.vals[q]);
            if q + 1 < i {
                assert(kids2[q + 1] == kids[q + 1]);
            }
            assert(kid_next(kids2, nxt, q) == kid_next(kids, nxt, q));
        } else if q == i {
            assert(grown.vals[q] == p.vals[q]);
            assert(p.vals[i] == kids[i].block());
            if left.footprint().contains(father) {
                assert(kids[i].footprint().contains(father));
            }
        } else if q == i + 1 {
            assert(grown.vals[q] == fresh);
            if i + 2 < kids2.len() {
                assert(kids2[i + 2] == kids[i + 1]);
            }
            assert(kid_next(kids2, nxt, q) == kid_next(kids, nxt, i));
            if right.footprint().contains(father) {
                assert(kids[i].footprint().contains(father) || father == fresh);
            }
        } else {
            assert(kids2[q] == kids[q - 1]);
            assert(grown.vals[q] == p.vals[q - 1]);
            if q + 1 < kids2.len() {
                assert(kids2[q + 1] == kids[q]);
            }
            assert(kid_next(kids2, nxt, q) == kid_next(kids, nxt, q - 1));
        }
    }
    assert forall|a: int, b: int| 0 <= a < b < kids2.len() implies (#[trigger] kids2[a]).footprint().disjoint(
        (#[trigger] kids2[b]).footprint(),
    ) by {
        let origin_a = if a <= i {
            a
        } else {
            a - 1
        };
        let origin_b = if b <= i {
            b
        } else {
            b - 1
        };
        assert forall|x: u64| kids2[a].footprint().contains(x) && kids2[b].footprint().contains(x) implies false by {
            if a == i && b == i + 1 {
            } else {
                // both come from different children of before, or one is a half
                assert(kids2[a].footprint().contains(x) ==> kids[origin_a].footprint().contains(x) || x == fresh) by {
                    if a != i && a != i + 1 {
                        assert(kids2[a] == kids[origin_a]);
                    }
                }
                assert(kids2[b].footprint().contains(x) ==> kids[origin_b].footprint().contains(x) || x == fresh) by {
                    if b != i && b != i + 1 {
                        assert(kids2[b] == kids[origin_b]);
                    }
                }
                if x == fresh {
                    if a != i && a != i + 1 {
                        assert(kids2[a] == kids[origin_a]);
                        assert(shape.footprint().contains(x));
                    } else {
                        assert(kids2[b] == kids[origin_b]);
                        assert(shape.footprint().contains(x));
                    }
                } else {
                    assert(origin_a < origin_b);
                    assert(kids[origin_a].footprint().disjoint(kids[origin_b].footprint()));
                }
            }
        }
    }
    assert(after.first_leaf() == shape.first_leaf()) by {
        if i == 0 {
            assert(kids2[0] == left);
        } else {
            assert(kids2[0] == kids[0]);
        }
    }
}

/// After the split of a child, the tree has the blocks that it had and the
/// new one.
#[verifier::spinoff_prover]
#[verifier::rlimit(80)]
proof fn lemma_split_parent_blocks(
    shown: Seq<Seq<u8>>,
    now: Seq<Seq<u8>>,
    m: u64,
    shape: Shape,
    i: int,
    fresh: u64,
    level: nat,
    lo: int,
    hi: int,
    nxt: u64,
    sep: u64,
)
    requires
        parent_split(shown, now, m, shape, i, fresh, level, lo, hi, nxt, sep),
    ensures
        forall|b: u64| split_parent(shape, i, fresh).footprint().contains(b) <==> shape.footprint().contains(b) || b == fresh,
{
    let father = shape.block();
    let kids = shape->Inner_kids;
    let left = left_half(kids[i]);
    let right = right_half(kids[i], fresh);
    let after = split_parent(shape, i, fresh);
    let kids2 = after->Inner_kids;
    assert(kids2[i] == left);
    assert(kids2[i + 1] == right);
    assert forall|b: u64| after.footprint().contains(b) implies shape.footprint().contains(b) || b == fresh by {
        if b != father {
            let q = choose|q: int| 0 <= q < kids2.len() && (#[trigger] kids2[q]).footprint().contains(b);
            if q < i {
                assert(kids2[q] == kids[q]);
            } else if q > i + 1 {
                assert(kids2[q] == kids[q - 1]);
            } else {
                assert(kids[i].footprint().contains(b) || b == fresh);
            }
        }
    }
    assert forall|b: u64| shape.footprint().contains(b) || b == fresh implies after.footprint().contains(b) by {
        if b == fresh {
            assert(left.footprint().contains(b) || right.footprint().contains(b));
            assert(kids2[i].footprint().contains(b) || kids2[i + 1].footprint().contains(b));
        } else if b != father {
            let q = choose|q: int| 0 <= q < kids.len() && (#[trigger] kids[q]).footprint().contains(b);
            if q < i {
                assert(kids2[q] == kids[q]);
            } else if q > i {
                assert(kids2[q + 1] == kids[q]);
            } else {
                assert(left.footprint().contains(b) || right.footprint().contains(b));
                assert(kids2[i].footprint().contains(b) || kids2[i + 1].footprint().contains(b));
            }
        }
    }
}

/// After the split of a child, the tree has the values that it had.
#[verifier::spinoff_prover]
#[verifier::rlimit(80)]
proof fn lemma_split_parent_values(
    shown: Seq<Seq<u8>>,
    now: Seq<Seq<u8>>,
    m: u64,
    shape: Shape,
    i: int,
    fresh: u64,
    sep: u64,
)
    requires
        shape is Inner,
        0 <= i < shape->Inner_kids.len(),
        shape->Inner_kids.len() == node_at(shown, m, shape.block()).num_keys + 1,
        sorted(node_at(shown, m, shape.block()).keys, node_at(shown, m, shape.block()).num_keys as int),
        rank(node_at(shown, m, shape.block()).keys, node_at(shown, m, shape.block()).num_keys as int, sep) == i,
        i > 0 ==> node_at(shown, m, shape.block()).keys[i - 1] < sep,
        i < node_at(shown, m, shape.block()).num_keys ==> sep < node_at(shown, m, shape.block()).keys[i],
        parent_image(node_at(shown, m, shape.block()), node_at(now, m, shape.block()), sep, fresh),
        forall|k: u64|
            k < sep ==> lookup(now, m, left_half(shape->Inner_kids[i]), k) == lookup(shown, m, shape->Inner_kids[i], k),
        forall|k: u64|
            k >= sep ==> lookup(now, m, right_half(shape->Inner_kids[i], fresh), k) == lookup(
                shown,
                m,
                shape->Inner_kids[i],
                k,
            ),
        forall|q: int, k: u64|
            0 <= q < shape->Inner_kids.len() && q != i ==> #[trigger] lookup(now, m, shape->Inner_kids[q], k) == lookup(
                shown,
                m,
                shape->Inner_kids[q],
                k,
            ),
    ensures
        forall|k: u64| lookup(now, m, split_parent(shape, i, fresh), k) == lookup(shown, m, shape, k),
{
    let father = shape.block();
    let kids = shape->Inner_kids;
    let p = node_at(shown, m, father);
    let grown = node_at(now, m, father);
    let n = p.num_keys as int;
    let after = split_parent(shape, i, fresh);
    let kids2 = after->Inner_kids;
    assert(kids2.len() == n + 2);
    assert(kids2[i] == left_half(kids[i]));
    assert(kids2[i + 1] == right_half(kids[i], fresh));
    assert(sorted(grown.keys, n + 1)) by {
        lemma_rank(p.keys, n, sep);
        assert forall|a: int, b: int| 0 <= a < b < n + 1 implies grown.keys[a] < grown.keys[b] by {
            let x = grown.keys[a];
            let y = grown.keys[b];
            if b < i {
                assert(p.keys[a] < p.keys[b]);
            } else if b == i {
                assert(p.keys[a] < sep);
            } else if a == i {
                if b - 1 > i {
                    assert(p.keys[i] < p.keys[b - 1]);
                }
            } else if a < i {
                assert(p.keys[a] < p.keys[b - 1]);
            } else {
                assert(p.keys[a - 1] < p.keys[b - 1]);
            }
        }
    }
    assert forall|k: u64| lookup(now, m, after, k) == lookup(shown, m, shape, k) by {
        lemma_route(p.keys, n, k);
        let at = route(p.keys, n, k);
        let at2 = if at < i {
            at
        } else if at > i {
            at + 1
        } else if k < sep {
            i
        } else {
            i + 1
        };
        assert forall|j: int| 0 <= j < at2 implies grown.keys[j] <= k by {
            if j < i {
                assert(grown.keys[j] == p.keys[j]);
                if j >= at {
                    assert(at == i);
                    assert(p.keys[j] <= k);
                }
            } else if j == i {
                assert(grown.keys[j] == sep);
            } else {
                assert(grown.keys[j] == p.keys[j - 1]);
            }
        }
        assert forall|j: int| at2 <= j < n + 1 implies grown.keys[j] > k by {
            if j < i {
                assert(grown.keys[j] == p.keys[j]);
            } else if j == i {
                assert(grown.keys[j] == sep);
                if at < i {
                    assert(p.keys[at] > k);
                    if at < i - 1 {
                        assert(p.keys[at] < p.keys[i - 1]);
                    }
                }
            } else {
                assert(grown.keys[j] == p.keys[j - 1]);
            }
        }
        lemma_route_is(grown.keys, n + 1, k, at2);
        if at < i {
            assert(kids2[at2] == kids[at]);
            assert(lookup(now, m, kids[at], k) == lookup(shown, m, kids[at], k));
        } else if at > i {
            assert(kids2[at2] == kids[at]);
            assert(lookup(now, m, kids[at], k) == lookup(shown, m, kids[at], k));
        }
    }
}

/// After the split of a child, the tree is valid, has the values that it had
/// and the blocks that it had and the new one, and the two halves are not
/// full.
pub proof fn lemma_split_parent(
    shown: Seq<Seq<u8>>,
    now: Seq<Seq<u8>>,
    m: u64,
    shape: Shape,
    i: int,
    fresh: u64,
    level: nat,
    lo: int,
    hi: int,
    nxt: u64,
    sep: u64,
)
    requires
        parent_split(shown, now, m, shape, i, fresh, level, lo, hi, nxt, sep),
    ensures
        valid(now, m, split_parent(shape, i, fresh), level, lo, hi, nxt),
        split_parent(shape, i, fresh).block() == shape.block(),
        split_parent(shape, i, fresh).first_leaf() == shape.first_leaf(),
        forall|b: u64| split_parent(shape, i, fresh).footprint().contains(b) <==> shape.footprint().contains(b) || b == fresh,
        forall|k: u64| lookup(now, m, split_parent(shape, i, fresh), k) == lookup(shown, m, shape, k),
        forall|q: int|
            0 <= q < split_parent(shape, i, fresh)->Inner_kids.len() && (q == i || q == i + 1) ==> node_at(
                now,
                m,
                (#[trigger] split_parent(shape, i, fresh)->Inner_kids[q]).block(),
            ).num_keys < m - 1,
        node_at(now, m, shape.block()).num_keys == node_at(shown, m, shape.block()).num_keys + 1,
        rank(node_at(shown, m, shape.block()).keys, node_at(shown, m, shape.block()).num_keys as int, sep) == i,
        forall|k: u64|
            route(node_at(shown, m, shape.block()).keys, node_at(shown, m, shape.block()).num_keys as int, k) == i ==> {
                let at = #[trigger] route(
                    node_at(now, m, shape.block()).keys,
                    node_at(now, m, shape.block()).num_keys as int,
                    k,
                );
                at == i || at == i + 1
            },
{
    let p = node_at(shown, m, shape.block());
    let kids = shape->Inner_kids;
    lemma_split_parent_valid(shown, now, m, shape, i, fresh, level, lo, hi, nxt, sep);
    lemma_split_parent_blocks(shown, now, m, shape, i, fresh, level, lo, hi, nxt, sep);
    lemma_other_kids(shown, now, m, shape, i, level, lo, hi, nxt);
    lemma_kid_bounds(p, lo, hi, i);
    lemma_parent_keys(p, node_at(now, m, shape.block()), lo, hi, i, sep, fresh);
    lemma_split_parent_values(shown, now, m, shape, i, fresh, sep);
    let after = split_parent(shape, i, fresh);
    assert(after->Inner_kids[i] == left_half(kids[i]));
    assert(after->Inner_kids[i + 1] == right_half(kids[i], fresh));
}

/// The tree `shape` with `kid` in the place of its child `i`.
pub open spec fn with_kid(shape: Shape, i: int, kid: Shape) -> Shape {
    match shape {
        Shape::Leaf { block } => shape,
        Shape::Inner { block, kids } => Shape::Inner { block, kids: kids.update(i, kid) },
    }
}

/// Where child `i` of a valid tree changed into the valid tree `kid`, on the
/// same block and with the same leftmost leaf, the tree with `kid` in its
/// place is valid; it has for a key that it sends to child `i` what `kid` has,
/// and for every other key what it had.
#[verifier::spinoff_prover]
#[verifier::rlimit(100)]
pub proof fn lemma_kid_replaced(
    shown: Seq<Seq<u8>>,
    now: Seq<Seq<u8>>,
    m: u64,
    shape: Shape,
    i: int,
    kid: Shape,
    level: nat,
    lo: int,
    hi: int,
    nxt: u64,
)
    requires
        shape is Inner,
        valid(shown, m, shape, level, lo, hi, nxt),
        0 <= i < shape->Inner_kids.len(),
        same_but_kid(shown, now, shape, i),
        now[shape.block() as int] == shown[shape.block() as int],
        valid(
            now,
            m,
            kid,
            (level - 1) as nat,
            kid_lo(node_at(shown, m, shape.block()), lo, i),
            kid_hi(node_at(shown, m, shape.block()), hi, i),
            kid_next(shape->Inner_kids, nxt, i),
        ),
        kid.block() == shape->Inner_kids[i].block(),
        kid.first_leaf() == shape->Inner_kids[i].first_leaf(),
        forall|b: u64| kid.footprint().contains(b) ==> shape->Inner_kids[i].footprint().contains(b) || !shape.footprint().contains(b),
    ensures
        valid(now, m, with_kid(shape, i, kid), level, lo, hi, nxt),
        with_kid(shape, i, kid).block() == shape.block(),
        with_kid(shape, i, kid).first_leaf() == shape.first_leaf(),
        forall|b: u64| with_kid(shape, i, kid).footprint().contains(b) ==> shape.footprint().contains(b) || kid.footprint().contains(b),
        forall|k: u64|
            lookup(now, m, with_kid(shape, i, kid), k) == (if route(
                node_at(shown, m, shape.block()).keys,
                node_at(shown, m, shape.block()).num_keys as int,
                k,
            ) == i {
                lookup(now, m, kid, k)
            } else {
                lookup(shown, m, shape, k)
            }),
{
    let father = shape.block();
    let kids = shape->Inner_kids;
    let p = node_at(shown, m, father);
    let n = p.num_keys as int;
    let below = (level - 1) as nat;
    let after = with_kid(shape, i, kid);
    let kids2 = after->Inner_kids;
    lemma_footprint(shape);
    lemma_other_kids(shown, now, m, shape, i, level, lo, hi, nxt);
    assert(node_at(now, m, father) == p);
    assert(kids2[i] == kid);
    assert forall|q: int| 0 <= q < kids2.len() implies {
        &&& p.vals[q] == (#[trigger] kids2[q]).block()
        &&& valid(now, m, kids2[q], below, kid_lo(p, lo, q), kid_hi(p, hi, q), kid_next(kids2, nxt, q))
        &&& !kids2[q].footprint().contains(father)
    } by {
        if q != i {
            assert(kids2[q] == kids[q]);
            if q + 1 < kids2.len() {
                if q + 1 != i {
                    assert(kids2[q + 1] == kids[q + 1]);
                }
            }
            assert(kid_next(kids2, nxt, q) == kid_next(kids, nxt, q));
        } else {
            assert(p.vals[i] == kids[i].block());
            if i + 1 < kids2.len() {
                assert(kids2[i + 1] == kids[i + 1]);
            }
            assert(kid_next(kids2, nxt, i) == kid_next(kids, nxt, i));
            if kid.footprint().contains(father) {
                assert(kids[i].footprint().contains(father));
            }
        }
    }
    assert forall|a: int, b: int| 0 <= a < b < kids2.len() implies (#[trigger] kids2[a]).footprint().disjoint(
        (#[trigger] kids2[b]).footprint(),
    ) by {
        assert forall|x: u64| kids2[a].footprint().contains(x) && kids2[b].footprint().contains(x) implies false by {
            assert(kids[a].footprint().disjoint(kids[b].footprint()));
            if a == i {
                assert(kids2[b] == kids[b]);
                assert(shape.footprint().contains(x));
            } else if b == i {
                assert(kids2[a] == kids[a]);
                assert(shape.footprint().contains(x));
            } else {
                assert(kids2[a] == kids[a]);
                assert(kids2[b] == kids[b]);
            }
        }
    }
    assert(after.first_leaf() == shape.first_leaf()) by {
        if i != 0 {
            assert(kids2[0] == kids[0]);
        }
    }
    assert forall|b: u64| after.footprint().contains(b) implies shape.footprint().contains(b) || kid.footprint().contains(b) by {
        if b != father {
            let q = choose|q: int| 0 <= q < kids2.len() && (#[trigger] kids2[q]).footprint().contains(b);
            if q != i {
                assert(kids2[q] == kids[q]);
            }
        }
    }
    assert forall|k: u64|
        lookup(now, m, after, k) == (if route(p.keys, n, k) == i {
            lookup(now, m, kid, k)
        } else {
            lookup(shown, m, shape, k)
        }) by {
        lemma_route(p.keys, n, k);
        let at = route(p.keys, n, k);
        assert(kids.len() == n + 1);
        assert(lookup(now, m, after, k) == lookup(now, m, kids2[at], k));
        assert(lookup(shown, m, shape, k) == lookup(shown, m, kids[at], k));
        if at != i {
            assert(kids2[at] == kids[at]);
            assert(lookup(now, m, kids[at], k) == lookup(shown, m, kids[at], k));
        } else {
            assert(kids2[at] == kid);
        }
    }
}

/// A new inner node without keys above a valid tree makes a valid tree with
/// the same values.
pub proof fn lemma_new_root(
    shown: Seq<Seq<u8>>,
    now: Seq<Seq<u8>>,
    m: u64,
    shape: Shape,
    fresh: u64,
    level: nat,
    lo: int,
    hi: int,
    nxt: u64,
)
    requires
        m >= 3,
        valid(shown, m, shape, level, lo, hi, nxt),
        now.len() == shown.len(),
        fresh < now.len(),
        !shape.footprint().contains(fresh),
        well_sized(now[fresh as int].len(), m),
        forall|b: u64| shape.footprint().contains(b) ==> now[b as int] == shown[b as int],
        node_at(now, m, fresh).is_leaf == 0,
        node_at(now, m, fresh).num_keys == 0,
        node_at(now, m, fresh).vals[0] == shape.block(),
    ensures
        valid(now, m, Shape::Inner { block: fresh, kids: seq![shape] }, level + 1, lo, hi, nxt),
        (Shape::Inner { block: fresh, kids: seq![shape] }).first_leaf() == shape.first_leaf(),
        forall|k: u64| lookup(now, m, Shape::Inner { block: fresh, kids: seq![shape] }, k) == lookup(shown, m, shape, k),
        forall|b: u64|
            (Shape::Inner { block: fresh, kids: seq![shape] }).footprint().contains(b) <==> shape.footprint().contains(b) || b
                == fresh,
{
    let top = Shape::Inner { block: fresh, kids: seq![shape] };
    let kids = top->Inner_kids;
    let node = node_at(now, m, fresh);
    lemma_frame(shown, now, m, shape, level, lo, hi, nxt);
    assert(kids[0] == shape);
    assert(kid_next(kids, nxt, 0) == nxt);
    assert forall|k: u64| lookup(now, m, top, k) == lookup(shown, m, shape, k) by {
        assert(route(node.keys, 0, k) == 0);
    }
    assert forall|b: u64| top.footprint().contains(b) implies shape.footprint().contains(b) || b == fresh by {
        if b != fresh {
            let q = choose|q: int| 0 <= q < kids.len() && (#[trigger] kids[q]).footprint().contains(b);
        }
    }
    assert forall|b: u64| shape.footprint().contains(b) implies top.footprint().contains(b) by {
        assert(kids[0].footprint().contains(b));
    }
}

/// What the blocks hold after a full leaf `top`, the only node of a tree,
/// was split under a new root and `key` got the value `val` in one of the
/// halves. `before` is the leaf as it was; `head`, `low` and `high` are the
/// new root, the leaf and the new leaf `fresh` as they are. The root has
/// the middle key of the leaf, with the leaf in front of it and the new
/// leaf behind it. The leaf kept the entries below the middle key and the
/// new leaf took the others; the half that `key` belongs to, the new leaf
/// from the middle key on, took the entry.
pub open spec fn first_split(
    before: NodeImage,
    head: NodeImage,
    low: NodeImage,
    high: NodeImage,
    top: u64,
    fresh: u64,
    key: u64,
    val: u64,
) -> bool {
    let sep = before.keys[before.num_keys as int / 2];
    &&& head.is_leaf == 0
    &&& head.num_keys == 1
    &&& head.keys[0] == sep
    &&& head.vals[0] == top
    &&& head.vals[1] == fresh
    &&& exists|left: NodeImage, right: NodeImage|
        #![trigger left_image(before, left, fresh), right_image(before, right)]
        left_image(before, left, fresh) && right_image(before, right) && (if key < sep {
            put_image(left, low, key, val) && high == right
        } else {
            low == left && put_image(right, high, key, val)
        })
}

/// A leaf that was split under a new root without keys, and then took an
/// entry in the half that the root sends the key to, is as `first_split`
/// says.
pub proof fn lemma_first_split(
    start: Seq<Seq<u8>>,
    cut: Seq<Seq<u8>>,
    now: Seq<Seq<u8>>,
    m: u64,
    top: u64,
    above: u64,
    fresh: u64,
    key: u64,
    val: u64,
)
    requires
        top != above,
        top != fresh,
        above != fresh,
        top < cut.len(),
        above < cut.len(),
        fresh < cut.len(),
        node_at(start, m, above).is_leaf == 0,
        node_at(start, m, above).num_keys == 0,
        node_at(start, m, above).vals[0] == top,
        parent_image(node_at(start, m, above), node_at(cut, m, above), middle_key(start, m, top), fresh),
        left_image(node_at(start, m, top), node_at(cut, m, top), fresh),
        right_image(node_at(start, m, top), node_at(cut, m, fresh)),
        only_block_changed(cut, now, home(cut, m, split_parent(Shape::Inner { block: above, kids: seq![Shape::Leaf { block: top }] }, 0, fresh), key)),
        put_image(
            node_at(cut, m, home(cut, m, split_parent(Shape::Inner { block: above, kids: seq![Shape::Leaf { block: top }] }, 0, fresh), key)),
            node_at(now, m, home(cut, m, split_parent(Shape::Inner { block: above, kids: seq![Shape::Leaf { block: top }] }, 0, fresh), key)),
            key,
            val,
        ),
    ensures
        split_parent(Shape::Inner { block: above, kids: seq![Shape::Leaf { block: top }] }, 0, fresh) == (Shape::Inner {
            block: above,
            kids: seq![Shape::Leaf { block: top }, Shape::Leaf { block: fresh }],
        }),
        first_split(
            node_at(start, m, top),
            node_at(now, m, above),
            node_at(now, m, top),
            node_at(now, m, fresh),
            top,
            fresh,
            key,
            val,
        ),
{
    let one = seq![Shape::Leaf { block: top }];
    let two = seq![Shape::Leaf { block: top }, Shape::Leaf { block: fresh }];
    let out = split_parent(Shape::Inner { block: above, kids: one }, 0, fresh);
    assert(one.update(0, left_half(one[0])).insert(1, right_half(one[0], fresh)) =~= two);
    assert(out == Shape::Inner { block: above, kids: two });
    let before = node_at(start, m, top);
    let sep = middle_key(start, m, top);
    let head = node_at(cut, m, above);
    assert(rank(node_at(start, m, above).keys, 0, sep) == 0);
    assert(head.keys[0] == sep);
    assert(head.vals[0] == top);
    assert(head.vals[1] == fresh);
    assert(head.num_keys == 1);
    let at = route(head.keys, 1, key);
    assert(route(head.keys, 0, key) == 0);
    assert(at == (if sep <= key {
        1int
    } else {
        0int
    }));
    let leaf = home(cut, m, out, key);
    assert(leaf == home(cut, m, two[at], key));
    assert(leaf == (if key < sep {
        top
    } else {
        fresh
    }));
    assert(now[above as int] == cut[above as int]);
    let left = node_at(cut, m, top);
    let right = node_at(cut, m, fresh);
    if key < sep {
        assert(now[fresh as int] == cut[fresh as int]);
    } else {
        assert(now[top as int] == cut[top as int]);
    }
    assert(left_image(before, left, fresh) && right_image(before, right));
}

} // verus!
