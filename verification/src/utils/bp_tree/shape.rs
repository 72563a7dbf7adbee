use vstd::prelude::*;
use super::bp_tree_node::image;
use super::bp_tree_node::NodeImage;
use super::bp_tree_node::well_sized;

verus! {

/// The blocks of a tree and how they hang together.
pub enum Shape {
    Leaf { block: u64 },
    Inner { block: u64, kids: Seq<Shape> },
}

impl Shape {
    /// The block of the topmost node.
    pub open spec fn block(self) -> u64 {
        match self {
            Shape::Leaf { block } => block,
            Shape::Inner { block, .. } => block,
        }
    }

    /// The block of the leftmost leaf.
    pub open spec fn first_leaf(self) -> u64
        decreases self,
    {
        match self {
            Shape::Leaf { block } => block,
            Shape::Inner { block, kids } => if kids.len() > 0 {
                kids[0].first_leaf()
            } else {
                block
            },
        }
    }

    /// Every block of the tree.
    pub open spec fn footprint(self) -> Set<u64>
        decreases self,
    {
        match self {
            Shape::Leaf { block } => set![block],
            Shape::Inner { block, kids } => Set::new(
                |b: u64| b == block || exists|i: int| 0 <= i < kids.len() && (#[trigger] kids[i]).footprint().contains(b),
            ),
        }
    }

    /// The blocks of the leaves, from left to right.
    pub open spec fn leaves(self) -> Seq<u64>
        decreases self, 0nat,
    {
        match self {
            Shape::Leaf { block } => seq![block],
            Shape::Inner { kids, .. } => leaves_of(kids, kids.len()),
        }
    }
}

/// The blocks of the leaves of the first `n` of `kids`, from left to right.
pub open spec fn leaves_of(kids: Seq<Shape>, n: nat) -> Seq<u64>
    decreases kids, n,
{
    if n == 0 || n > kids.len() {
        Seq::empty()
    } else {
        leaves_of(kids, (n - 1) as nat) + kids[n - 1].leaves()
    }
}

/// The node in block `b`.
pub open spec fn node_at(shown: Seq<Seq<u8>>, m: u64, b: u64) -> NodeImage {
    image(shown[b as int], m as nat)
}

/// The first `n` of `keys` grow strictly.
pub open spec fn sorted(keys: Seq<u64>, n: int) -> bool {
    forall|i: int, j: int| 0 <= i < j < n ==> keys[i] < keys[j]
}

/// The first `n` of `keys` lie in `lo..hi`.
pub open spec fn within(keys: Seq<u64>, n: int, lo: int, hi: int) -> bool {
    forall|i: int| 0 <= i < n ==> lo <= #[trigger] keys[i] < hi
}

/// How many of the first `n` of `keys` are at most `key`: in a sorted node,
/// the place of the child that `key` belongs to.
pub open spec fn route(keys: Seq<u64>, n: int, key: u64) -> int
    decreases n,
{
    if n <= 0 {
        0
    } else if keys[n - 1] <= key {
        n
    } else {
        route(keys, n - 1, key)
    }
}

/// How many of the first `n` of `keys` are below `key`: in a sorted node, the
/// place where `key` stands or would stand.
pub open spec fn rank(keys: Seq<u64>, n: int, key: u64) -> int
    decreases n,
{
    if n <= 0 {
        0
    } else if keys[n - 1] < key {
        n
    } else {
        rank(keys, n - 1, key)
    }
}

/// In a sorted node, `rank` is the first place whose key is `key` or above.
pub proof fn lemma_rank(keys: Seq<u64>, n: int, key: u64)
    requires
        sorted(keys, n),
        0 <= n,
    ensures
        0 <= rank(keys, n, key) <= n,
        forall|i: int| 0 <= i < rank(keys, n, key) ==> keys[i] < key,
        forall|i: int| rank(keys, n, key) <= i < n ==> keys[i] >= key,
    decreases n,
{
    if n > 0 && keys[n - 1] >= key {
        lemma_rank(keys, n - 1, key);
    }
}

/// In a sorted node, the place that divides the keys below `key` from the
/// others is `rank`.
pub proof fn lemma_rank_is(keys: Seq<u64>, n: int, key: u64, r: int)
    requires
        sorted(keys, n),
        0 <= r <= n,
        forall|i: int| 0 <= i < r ==> keys[i] < key,
        forall|i: int| r <= i < n ==> keys[i] >= key,
    ensures
        rank(keys, n, key) == r,
{
    lemma_rank(keys, n, key);
    let q = rank(keys, n, key);
    if q < r {
        assert(keys[q] < key);
    } else if r < q {
        assert(keys[r] >= key);
    }
}

/// Whether the first `n` of `keys` hold `key`.
pub open spec fn holds(keys: Seq<u64>, n: int, key: u64) -> bool {
    exists|i: int| 0 <= i < n && keys[i] == key
}

/// `now` is the leaf `before` after `key` got the value `val`: in place where
/// the leaf held `key`, else as a new entry at the place that keeps the keys
/// sorted.
pub open spec fn put_image(before: NodeImage, now: NodeImage, key: u64, val: u64) -> bool {
    let n = before.num_keys as int;
    let at = rank(before.keys, n, key);
    &&& now.is_leaf == before.is_leaf
    &&& now.next == before.next
    &&& if holds(before.keys, n, key) {
        &&& now.num_keys == n
        &&& forall|p: int|
            0 <= p < n ==> #[trigger] now.keys[p] == before.keys[p] && now.vals[p] == (if p == at {
                val
            } else {
                before.vals[p]
            })
    } else {
        &&& now.num_keys == n + 1
        &&& forall|p: int|
            0 <= p <= n ==> #[trigger] now.keys[p] == (if p < at {
                before.keys[p]
            } else if p == at {
                key
            } else {
                before.keys[p - 1]
            }) && now.vals[p] == (if p < at {
                before.vals[p]
            } else if p == at {
                val
            } else {
                before.vals[p - 1]
            })
    }
}

/// The first key slot of a full node that moves to the new node when the
/// node is split: the middle one in a leaf, the one behind the middle one in
/// an inner node, whose middle key goes up.
pub open spec fn split_from(node: NodeImage) -> int {
    if node.is_leaf == 1 {
        node.num_keys as int / 2
    } else {
        node.num_keys as int / 2 + 1
    }
}

/// `right` is the new node that takes the upper part of `node`: the keys from
/// `split_from` on with what stands beside them, and the sibling of `node`.
pub open spec fn right_image(node: NodeImage, right: NodeImage) -> bool {
    let n = node.num_keys as int;
    let from = split_from(node);
    &&& right.is_leaf == (if node.is_leaf == 1 {
        1u8
    } else {
        0u8
    })
    &&& right.num_keys == n - from
    &&& right.next == node.next
    &&& forall|j: int| 0 <= j < n - from ==> #[trigger] right.keys[j] == node.keys[from + j]
    &&& forall|j: int| 0 <= j <= n - from ==> #[trigger] right.vals[j] == node.vals[from + j]
}

/// `left` is `node` cut down to the keys below its middle one, with `sibling`
/// behind it.
pub open spec fn left_image(node: NodeImage, left: NodeImage, sibling: u64) -> bool {
    &&& left.is_leaf == node.is_leaf
    &&& left.num_keys == node.num_keys / 2
    &&& left.next == sibling
    &&& left.keys == node.keys
    &&& left.vals == node.vals
}

/// `now` is the inner node `before` after it took the separator `sep` with
/// the child `kid` behind it, at the place that keeps the keys sorted.
pub open spec fn parent_image(before: NodeImage, now: NodeImage, sep: u64, kid: u64) -> bool {
    let n = before.num_keys as int;
    let at = rank(before.keys, n, sep);
    &&& now.is_leaf == before.is_leaf
    &&& now.next == before.next
    &&& now.num_keys == n + 1
    &&& forall|p: int|
        0 <= p <= n ==> #[trigger] now.keys[p] == (if p < at {
            before.keys[p]
        } else if p == at {
            sep
        } else {
            before.keys[p - 1]
        })
    &&& forall|p: int|
        0 <= p <= n + 1 ==> #[trigger] now.vals[p] == (if p <= at {
            before.vals[p]
        } else if p == at + 1 {
            kid
        } else {
            before.vals[p - 1]
        })
}

/// The value that a leaf with the first `n` of `keys` and `vals` has for
/// `key`.
pub open spec fn leaf_lookup(keys: Seq<u64>, vals: Seq<u64>, n: int, key: u64) -> Option<u64> {
    if holds(keys, n, key) {
        Some(vals[choose|i: int| 0 <= i < n && keys[i] == key])
    } else {
        None
    }
}

/// The lower end of the keys of child `i`.
pub open spec fn kid_lo(node: NodeImage, lo: int, i: int) -> int {
    if i == 0 {
        lo
    } else {
        node.keys[i - 1] as int
    }
}

/// The upper end of the keys of child `i`.
pub open spec fn kid_hi(node: NodeImage, hi: int, i: int) -> int {
    if i == node.num_keys {
        hi
    } else {
        node.keys[i] as int
    }
}

/// The leaf that follows the leaves of child `i`.
pub open spec fn kid_next(kids: Seq<Shape>, nxt: u64, i: int) -> u64 {
    if i + 1 < kids.len() {
        kids[i + 1].first_leaf()
    } else {
        nxt
    }
}

/// The blocks `shown` hold the tree `shape`, of fan-out `m` and `level`
/// levels above its leaves, with keys in `lo..hi` and `nxt` behind its last
/// leaf.
pub open spec fn valid(shown: Seq<Seq<u8>>, m: u64, shape: Shape, level: nat, lo: int, hi: int, nxt: u64) -> bool
    decreases shape,
{
    let b = shape.block();
    let node = node_at(shown, m, b);
    let n = node.num_keys as int;
    &&& b < shown.len()
    &&& well_sized(shown[b as int].len(), m)
    &&& n <= m - 1
    &&& sorted(node.keys, n)
    &&& match shape {
        Shape::Leaf { .. } => {
            &&& level == 0
            &&& node.is_leaf == 1
            &&& within(node.keys, n, lo, hi)
            &&& node.next == nxt
        },
        Shape::Inner { kids, .. } => {
            &&& level > 0
            &&& node.is_leaf == 0
            &&& kids.len() == n + 1
            &&& within(node.keys, n, lo + 1, hi)
            &&& forall|i: int|
                0 <= i < kids.len() ==> {
                    &&& node.vals[i] == (#[trigger] kids[i]).block()
                    &&& valid(
                        shown,
                        m,
                        kids[i],
                        (level - 1) as nat,
                        kid_lo(node, lo, i),
                        kid_hi(node, hi, i),
                        kid_next(kids, nxt, i),
                    )
                    &&& !kids[i].footprint().contains(b)
                }
            &&& forall|i: int, j: int|
                0 <= i < j < kids.len() ==> (#[trigger] kids[i]).footprint().disjoint((#[trigger] kids[j]).footprint())
        },
    }
}

/// The block of the leaf that `key` belongs to.
pub open spec fn home(shown: Seq<Seq<u8>>, m: u64, shape: Shape, key: u64) -> u64
    decreases shape,
{
    match shape {
        Shape::Leaf { block } => block,
        Shape::Inner { block, kids } => {
            let node = node_at(shown, m, block);
            let i = route(node.keys, node.num_keys as int, key);
            if 0 <= i < kids.len() {
                home(shown, m, kids[i], key)
            } else {
                block
            }
        },
    }
}

/// Whether a node below the topmost one is full on the way to the leaf that
/// `key` belongs to: whether putting `key` has to split a node of this tree.
pub open spec fn crowded(shown: Seq<Seq<u8>>, m: u64, shape: Shape, key: u64) -> bool
    decreases shape,
{
    match shape {
        Shape::Leaf { .. } => false,
        Shape::Inner { block, kids } => {
            let node = node_at(shown, m, block);
            let i = route(node.keys, node.num_keys as int, key);
            0 <= i < kids.len() && (node_at(shown, m, kids[i].block()).num_keys >= m - 1 || crowded(
                shown,
                m,
                kids[i],
                key,
            ))
        },
    }
}

/// The value that the tree has for `key`.
pub open spec fn lookup(shown: Seq<Seq<u8>>, m: u64, shape: Shape, key: u64) -> Option<u64>
    decreases shape,
{
    let node = node_at(shown, m, shape.block());
    let n = node.num_keys as int;
    match shape {
        Shape::Leaf { .. } => leaf_lookup(node.keys, node.vals, n, key),
        Shape::Inner { kids, .. } => {
            let i = route(node.keys, n, key);
            if 0 <= i < kids.len() {
                lookup(shown, m, kids[i], key)
            } else {
                None
            }
        },
    }
}

/// In a sorted node, `route` is the first place whose key is above `key`.
pub proof fn lemma_route(keys: Seq<u64>, n: int, key: u64)
    requires
        sorted(keys, n),
        0 <= n,
    ensures
        0 <= route(keys, n, key) <= n,
        forall|i: int| 0 <= i < route(keys, n, key) ==> keys[i] <= key,
        forall|i: int| route(keys, n, key) <= i < n ==> keys[i] > key,
    decreases n,
{
    if n > 0 && keys[n - 1] > key {
        lemma_route(keys, n - 1, key);
    }
}

/// In a sorted node, the place that divides the keys at most `key` from the
/// keys above it is `route`.
pub proof fn lemma_route_is(keys: Seq<u64>, n: int, key: u64, r: int)
    requires
        sorted(keys, n),
        0 <= r <= n,
        forall|i: int| 0 <= i < r ==> keys[i] <= key,
        forall|i: int| r <= i < n ==> keys[i] > key,
    ensures
        route(keys, n, key) == r,
{
    lemma_route(keys, n, key);
    let q = route(keys, n, key);
    if q < r {
        assert(keys[q] <= key);
    } else if r < q {
        assert(keys[r] > key);
    }
}

/// A leaf with sorted keys has the value beside `key` for it, and nothing for
/// a key that it does not hold.
pub proof fn lemma_leaf_lookup(keys: Seq<u64>, vals: Seq<u64>, n: int, key: u64)
    requires
        sorted(keys, n),
    ensures
        forall|i: int| 0 <= i < n && keys[i] == key ==> leaf_lookup(keys, vals, n, key) == Some(vals[i]),
        (forall|i: int| 0 <= i < n ==> keys[i] != key) ==> leaf_lookup(keys, vals, n, key) is None,
{
    if holds(keys, n, key) {
        let c = choose|i: int| 0 <= i < n && keys[i] == key;
        assert forall|i: int| 0 <= i < n && keys[i] == key implies i == c by {
            if i < c {
                assert(keys[i] < keys[c]);
            } else if c < i {
                assert(keys[c] < keys[i]);
            }
        }
    }
}

/// The blocks of a child are blocks of the tree, and so is the topmost
/// block.
pub proof fn lemma_footprint(shape: Shape)
    ensures
        shape.footprint().contains(shape.block()),
        shape matches Shape::Inner { kids, .. } ==> forall|i: int, b: u64|
            0 <= i < kids.len() && (#[trigger] kids[i]).footprint().contains(b) ==> #[trigger] shape.footprint().contains(b),
{
}

/// Every block of a valid tree is a block of the device.
pub proof fn lemma_in_range(shown: Seq<Seq<u8>>, m: u64, shape: Shape, level: nat, lo: int, hi: int, nxt: u64)
    requires
        valid(shown, m, shape, level, lo, hi, nxt),
    ensures
        forall|b: u64| shape.footprint().contains(b) ==> b < shown.len(),
    decreases shape,
{
    match shape {
        Shape::Leaf { .. } => {},
        Shape::Inner { block, kids } => {
            let node = node_at(shown, m, block);
            assert forall|b: u64| shape.footprint().contains(b) implies b < shown.len() by {
                if b != block {
                    let i = choose|i: int| 0 <= i < kids.len() && (#[trigger] kids[i]).footprint().contains(b);
                    lemma_in_range(
                        shown,
                        m,
                        kids[i],
                        (level - 1) as nat,
                        kid_lo(node, lo, i),
                        kid_hi(node, hi, i),
                        kid_next(kids, nxt, i),
                    );
                }
            }
        },
    }
}

/// A tree depends on its own blocks only: where they are the same, the tree
/// is as valid and has the same value for every key.
pub proof fn lemma_frame(
    shown: Seq<Seq<u8>>,
    now: Seq<Seq<u8>>,
    m: u64,
    shape: Shape,
    level: nat,
    lo: int,
    hi: int,
    nxt: u64,
)
    requires
        valid(shown, m, shape, level, lo, hi, nxt),
        now.len() == shown.len(),
        forall|b: u64| shape.footprint().contains(b) ==> now[b as int] == shown[b as int],
    ensures
        valid(now, m, shape, level, lo, hi, nxt),
        forall|key: u64| lookup(now, m, shape, key) == lookup(shown, m, shape, key),
    decreases shape,
{
    lemma_footprint(shape);
    match shape {
        Shape::Leaf { .. } => {},
        Shape::Inner { block, kids } => {
            let node = node_at(shown, m, block);
            assert forall|i: int| 0 <= i < kids.len() implies valid(
                now,
                m,
                #[trigger] kids[i],
                (level - 1) as nat,
                kid_lo(node, lo, i),
                kid_hi(node, hi, i),
                kid_next(kids, nxt, i),
            ) && (forall|key: u64| lookup(now, m, kids[i], key) == lookup(shown, m, kids[i], key)) by {
                assert forall|b: u64| kids[i].footprint().contains(b) implies now[b as int] == shown[b as int] by {
                    assert(shape.footprint().contains(b));
                }
                lemma_frame(
                    shown,
                    now,
                    m,
                    kids[i],
                    (level - 1) as nat,
                    kid_lo(node, lo, i),
                    kid_hi(node, hi, i),
                    kid_next(kids, nxt, i),
                );
            }
            assert forall|key: u64| lookup(now, m, shape, key) == lookup(shown, m, shape, key) by {
                let i = route(node.keys, node.num_keys as int, key);
                if 0 <= i < kids.len() {
                    assert(lookup(now, m, kids[i], key) == lookup(shown, m, kids[i], key));
                }
            }
        },
    }
}

/// A leaf that took an entry for a key of its range is a valid leaf that has
/// the new value for that key and the old values for all others.
pub proof fn lemma_leaf_put(
    shown: Seq<Seq<u8>>,
    now: Seq<Seq<u8>>,
    m: u64,
    block: u64,
    lo: int,
    hi: int,
    nxt: u64,
    key: u64,
    val: u64,
)
    requires
        valid(shown, m, Shape::Leaf { block }, 0, lo, hi, nxt),
        lo <= key < hi,
        node_at(shown, m, block).num_keys < m - 1,
        now.len() == shown.len(),
        now[block as int].len() == shown[block as int].len(),
        put_image(node_at(shown, m, block), node_at(now, m, block), key, val),
    ensures
        valid(now, m, Shape::Leaf { block }, 0, lo, hi, nxt),
        forall|k: u64|
            lookup(now, m, Shape::Leaf { block }, k) == (if k == key {
                Some(val)
            } else {
                lookup(shown, m, Shape::Leaf { block }, k)
            }),
{
    let before = node_at(shown, m, block);
    let after = node_at(now, m, block);
    let n = before.num_keys as int;
    let at = rank(before.keys, n, key);
    lemma_rank(before.keys, n, key);
    if holds(before.keys, n, key) {
        let c = choose|i: int| 0 <= i < n && before.keys[i] == key;
        assert(c == at) by {
            if c < at {
                assert(before.keys[c] < key);
            } else if at < c {
                assert(before.keys[at] >= key);
                assert(before.keys[at] < before.keys[c]);
            }
        }
        assert(sorted(after.keys, n)) by {
            assert forall|i: int, j: int| 0 <= i < j < n implies after.keys[i] < after.keys[j] by {
                assert(after.keys[i] == before.keys[i]);
                assert(after.keys[j] == before.keys[j]);
            }
        }
        assert(within(after.keys, n, lo, hi)) by {
            assert forall|i: int| 0 <= i < n implies lo <= #[trigger] after.keys[i] < hi by {
                assert(after.keys[i] == before.keys[i]);
            }
        }
        assert forall|k: u64|
            lookup(now, m, Shape::Leaf { block }, k) == (if k == key {
                Some(val)
            } else {
                lookup(shown, m, Shape::Leaf { block }, k)
            }) by {
            lemma_leaf_lookup(before.keys, before.vals, n, k);
            lemma_leaf_lookup(after.keys, after.vals, n, k);
            if holds(before.keys, n, k) {
                let i = choose|i: int| 0 <= i < n && before.keys[i] == k;
                assert(after.keys[i] == k);
            } else {
                assert forall|i: int| 0 <= i < n implies after.keys[i] != k by {
                    assert(after.keys[i] == before.keys[i]);
                }
            }
        }
    } else {
        assert(sorted(after.keys, n + 1)) by {
            assert forall|i: int, j: int| 0 <= i < j < n + 1 implies after.keys[i] < after.keys[j] by {
                let a = after.keys[i];
                let b = after.keys[j];
                if j < at {
                    assert(before.keys[i] < before.keys[j]);
                } else if j == at {
                    assert(before.keys[i] < key);
                } else if i == at {
                    assert(before.keys[j - 1] >= key);
                    assert(before.keys[j - 1] != key);
                } else if i < at {
                    assert(before.keys[i] < before.keys[j - 1]);
                } else {
                    assert(before.keys[i - 1] < before.keys[j - 1]);
                }
            }
        }
        assert(within(after.keys, n + 1, lo, hi)) by {
            assert forall|i: int| 0 <= i < n + 1 implies lo <= #[trigger] after.keys[i] < hi by {
                if i < at {
                    assert(after.keys[i] == before.keys[i]);
                } else if i > at {
                    assert(after.keys[i] == before.keys[i - 1]);
                }
            }
        }
        assert forall|k: u64|
            lookup(now, m, Shape::Leaf { block }, k) == (if k == key {
                Some(val)
            } else {
                lookup(shown, m, Shape::Leaf { block }, k)
            }) by {
            lemma_leaf_lookup(before.keys, before.vals, n, k);
            lemma_leaf_lookup(after.keys, after.vals, n + 1, k);
            if k == key {
                assert(after.keys[at] == k);
            } else if holds(before.keys, n, k) {
                let i = choose|i: int| 0 <= i < n && before.keys[i] == k;
                if i < at {
                    assert(after.keys[i] == k);
                    assert(after.vals[i] == before.vals[i]);
                } else {
                    assert(after.keys[i + 1] == k);
                    assert(after.vals[i + 1] == before.vals[i]);
                }
            } else {
                assert forall|i: int| 0 <= i < n + 1 implies after.keys[i] != k by {
                    if i < at {
                        assert(after.keys[i] == before.keys[i]);
                    } else if i > at {
                        assert(after.keys[i] == before.keys[i - 1]);
                    }
                }
            }
        }
    }
}

/// No node of a valid tree holds `m` keys or more.
pub proof fn lemma_fan_out_cap(
    shown: Seq<Seq<u8>>,
    m: u64,
    shape: Shape,
    level: nat,
    lo: int,
    hi: int,
    nxt: u64,
    b: u64,
)
    requires
        valid(shown, m, shape, level, lo, hi, nxt),
        shape.footprint().contains(b),
    ensures
        node_at(shown, m, b).num_keys <= m - 1,
    decreases shape,
{
    match shape {
        Shape::Leaf { .. } => {},
        Shape::Inner { block, kids } => {
            if b != block {
                let node = node_at(shown, m, block);
                let i = choose|i: int| 0 <= i < kids.len() && (#[trigger] kids[i]).footprint().contains(b);
                lemma_fan_out_cap(
                    shown,
                    m,
                    kids[i],
                    (level - 1) as nat,
                    kid_lo(node, lo, i),
                    kid_hi(node, hi, i),
                    kid_next(kids, nxt, i),
                    b,
                );
            }
        },
    }
}

/// The leaf that a key belongs to is a block of the tree.
pub proof fn lemma_home(shown: Seq<Seq<u8>>, m: u64, shape: Shape, level: nat, lo: int, hi: int, nxt: u64, key: u64)
    requires
        valid(shown, m, shape, level, lo, hi, nxt),
    ensures
        shape.footprint().contains(home(shown, m, shape, key)),
    decreases shape,
{
    match shape {
        Shape::Leaf { .. } => {},
        Shape::Inner { block, kids } => {
            let node = node_at(shown, m, block);
            lemma_route(node.keys, node.num_keys as int, key);
            let i = route(node.keys, node.num_keys as int, key);
            lemma_home(shown, m, kids[i], (level - 1) as nat, kid_lo(node, lo, i), kid_hi(node, hi, i), kid_next(kids, nxt, i), key);
            assert(kids[i].footprint().contains(home(shown, m, kids[i], key)));
        },
    }
}

/// What the tree has for a key is what the leaf has that the descent from
/// the topmost node comes to: at each inner node the child behind the last
/// key that is at most the key.
pub proof fn lemma_lookup_at_home(
    shown: Seq<Seq<u8>>,
    m: u64,
    shape: Shape,
    level: nat,
    lo: int,
    hi: int,
    nxt: u64,
    key: u64,
)
    requires
        valid(shown, m, shape, level, lo, hi, nxt),
    ensures
        node_at(shown, m, home(shown, m, shape, key)).is_leaf == 1,
        lookup(shown, m, shape, key) == leaf_lookup(
            node_at(shown, m, home(shown, m, shape, key)).keys,
            node_at(shown, m, home(shown, m, shape, key)).vals,
            node_at(shown, m, home(shown, m, shape, key)).num_keys as int,
            key,
        ),
    decreases shape,
{
    match shape {
        Shape::Leaf { .. } => {},
        Shape::Inner { block, kids } => {
            let node = node_at(shown, m, block);
            lemma_route(node.keys, node.num_keys as int, key);
            let i = route(node.keys, node.num_keys as int, key);
            lemma_lookup_at_home(
                shown,
                m,
                kids[i],
                (level - 1) as nat,
                kid_lo(node, lo, i),
                kid_hi(node, hi, i),
                kid_next(kids, nxt, i),
                key,
            );
        },
    }
}

/// No block of `blocks` holds as many keys as the fan-out `m`.
pub open spec fn capped(shown: Seq<Seq<u8>>, m: u64, blocks: Set<u64>) -> bool {
    forall|b: u64| #[trigger] blocks.contains(b) ==> node_at(shown, m, b).num_keys < m
}

/// No node of a valid tree holds as many keys as the fan-out.
pub proof fn lemma_capped(shown: Seq<Seq<u8>>, m: u64, shape: Shape, level: nat, lo: int, hi: int, nxt: u64)
    requires
        valid(shown, m, shape, level, lo, hi, nxt),
    ensures
        capped(shown, m, shape.footprint()),
{
    assert forall|b: u64| #[trigger] shape.footprint().contains(b) implies node_at(shown, m, b).num_keys < m by {
        lemma_fan_out_cap(shown, m, shape, level, lo, hi, nxt, b);
    }
}

/// Blocks that were within the cap are so still where each of them either
/// stayed as it was or holds fewer keys than the fan-out.
pub proof fn lemma_capped_still(before: Seq<Seq<u8>>, now: Seq<Seq<u8>>, m: u64, blocks: Set<u64>)
    requires
        capped(before, m, blocks),
        forall|b: u64|
            #[trigger] blocks.contains(b) ==> now[b as int] == before[b as int] || node_at(now, m, b).num_keys < m,
    ensures
        capped(now, m, blocks),
{
    assert forall|b: u64| #[trigger] blocks.contains(b) implies node_at(now, m, b).num_keys < m by {
        assert(node_at(before, m, b).num_keys < m);
    }
}

/// Where the blocks of a tree and the blocks of the tree that came into the
/// place of its child `i` are within the cap, the blocks of the tree with
/// that child replaced are so too.
pub proof fn lemma_capped_replaced(shown: Seq<Seq<u8>>, m: u64, shape: Shape, i: int, kid: Shape)
    requires
        shape is Inner,
        0 <= i < shape->Inner_kids.len(),
        capped(shown, m, shape.footprint()),
        capped(shown, m, kid.footprint()),
    ensures
        capped(shown, m, (Shape::Inner { block: shape.block(), kids: shape->Inner_kids.update(i, kid) }).footprint()),
{
    let kids = shape->Inner_kids;
    let out = Shape::Inner { block: shape.block(), kids: kids.update(i, kid) };
    assert forall|b: u64| #[trigger] out.footprint().contains(b) implies node_at(shown, m, b).num_keys < m by {
        if b != shape.block() {
            let q = choose|q: int| 0 <= q < kids.len() && (#[trigger] kids.update(i, kid)[q]).footprint().contains(b);
            if q == i {
                assert(kid.footprint().contains(b));
            } else {
                assert(kids[q].footprint().contains(b));
                assert(shape.footprint().contains(b));
            }
        } else {
            assert(shape.footprint().contains(b));
        }
    }
}

/// Every inner node among `blocks` has a key, and so two children at the
/// least.
pub open spec fn forked(shown: Seq<Seq<u8>>, m: u64, blocks: Set<u64>) -> bool {
    forall|b: u64| #[trigger]
        blocks.contains(b) ==> node_at(shown, m, b).is_leaf == 1 || node_at(shown, m, b).num_keys >= 1
}

/// Blocks whose inner nodes had a key have one still where each of them
/// either stayed as it was or is a leaf or an inner node with a key.
pub proof fn lemma_forked_still(before: Seq<Seq<u8>>, now: Seq<Seq<u8>>, m: u64, blocks: Set<u64>)
    requires
        forked(before, m, blocks),
        forall|b: u64| #[trigger]
            blocks.contains(b) ==> now[b as int] == before[b as int] || node_at(now, m, b).is_leaf == 1 || node_at(
                now,
                m,
                b,
            ).num_keys >= 1,
    ensures
        forked(now, m, blocks),
{
    assert forall|b: u64| #[trigger] blocks.contains(b) implies node_at(now, m, b).is_leaf == 1 || node_at(
        now,
        m,
        b,
    ).num_keys >= 1 by {
        assert(node_at(before, m, b).is_leaf == 1 || node_at(before, m, b).num_keys >= 1);
    }
}

/// Where every inner node of a tree has a key, and every inner node of the
/// tree that came into the place of its child `i`, every inner node of the
/// tree with that child replaced has one.
pub proof fn lemma_forked_replaced(shown: Seq<Seq<u8>>, m: u64, shape: Shape, i: int, kid: Shape)
    requires
        shape is Inner,
        0 <= i < shape->Inner_kids.len(),
        forked(shown, m, shape.footprint()),
        forked(shown, m, kid.footprint()),
    ensures
        forked(shown, m, (Shape::Inner { block: shape.block(), kids: shape->Inner_kids.update(i, kid) }).footprint()),
{
    let kids = shape->Inner_kids;
    let out = Shape::Inner { block: shape.block(), kids: kids.update(i, kid) };
    assert forall|b: u64| #[trigger] out.footprint().contains(b) implies node_at(shown, m, b).is_leaf == 1 || node_at(
        shown,
        m,
        b,
    ).num_keys >= 1 by {
        if b != shape.block() {
            let q = choose|q: int| 0 <= q < kids.len() && (#[trigger] kids.update(i, kid)[q]).footprint().contains(b);
            if q == i {
                assert(kid.footprint().contains(b));
            } else {
                assert(kids[q].footprint().contains(b));
                assert(shape.footprint().contains(b));
            }
        } else {
            assert(shape.footprint().contains(b));
        }
    }
}

/// Blocks that were within the cap are so still where those of `part` are
/// within it now and the others stayed as they were.
pub proof fn lemma_capped_around(before: Seq<Seq<u8>>, now: Seq<Seq<u8>>, m: u64, blocks: Set<u64>, part: Set<u64>)
    requires
        capped(before, m, blocks),
        capped(now, m, part),
        forall|b: u64| blocks.contains(b) && !part.contains(b) ==> #[trigger] now[b as int] == before[b as int],
    ensures
        capped(now, m, blocks),
{
    assert forall|b: u64| #[trigger] blocks.contains(b) implies node_at(now, m, b).num_keys < m by {
        if !part.contains(b) {
            assert(now[b as int] == before[b as int]);
            assert(node_at(before, m, b).num_keys < m);
        }
    }
}

/// Blocks whose inner nodes had a key have one still where those of `part`
/// have one now and the others stayed as they were.
pub proof fn lemma_forked_around(before: Seq<Seq<u8>>, now: Seq<Seq<u8>>, m: u64, blocks: Set<u64>, part: Set<u64>)
    requires
        forked(before, m, blocks),
        forked(now, m, part),
        forall|b: u64| blocks.contains(b) && !part.contains(b) ==> #[trigger] now[b as int] == before[b as int],
    ensures
        forked(now, m, blocks),
{
    assert forall|b: u64| #[trigger] blocks.contains(b) implies node_at(now, m, b).is_leaf == 1 || node_at(
        now,
        m,
        b,
    ).num_keys >= 1 by {
        if !part.contains(b) {
            assert(now[b as int] == before[b as int]);
            assert(node_at(before, m, b).is_leaf == 1 || node_at(before, m, b).num_keys >= 1);
        }
    }
}

/// Every inner node among the blocks of a child has a key where every
/// inner node among the blocks of the tree has one.
pub proof fn lemma_forked_kid(shown: Seq<Seq<u8>>, m: u64, shape: Shape, i: int)
    requires
        shape is Inner,
        0 <= i < shape->Inner_kids.len(),
        forked(shown, m, shape.footprint()),
    ensures
        forked(shown, m, shape->Inner_kids[i].footprint()),
{
    lemma_footprint(shape);
    let kid = shape->Inner_kids[i];
    assert forall|b: u64| #[trigger] kid.footprint().contains(b) implies node_at(shown, m, b).is_leaf == 1 || node_at(
        shown,
        m,
        b,
    ).num_keys >= 1 by {
        assert(shape.footprint().contains(b));
    }
}

/// Each of the children that an inner node of a valid tree names, one more
/// than it has keys, is a block of the tree and of the device.
#[verifier::spinoff_prover]
pub proof fn lemma_children(
    shown: Seq<Seq<u8>>,
    m: u64,
    shape: Shape,
    level: nat,
    lo: int,
    hi: int,
    nxt: u64,
    b: u64,
    j: int,
)
    requires
        valid(shown, m, shape, level, lo, hi, nxt),
        shape.footprint().contains(b),
        node_at(shown, m, b).is_leaf != 1,
        0 <= j <= node_at(shown, m, b).num_keys,
    ensures
        shape.footprint().contains(node_at(shown, m, b).vals[j]),
        node_at(shown, m, b).vals[j] < shown.len(),
        node_at(shown, m, b).vals[j] != b,
    decreases shape,
{
    match shape {
        Shape::Leaf { .. } => {},
        Shape::Inner { block, kids } => {
            let node = node_at(shown, m, block);
            if b == block {
                let kid = kids[j];
                assert(node.vals[j] == kid.block());
                assert(!kid.footprint().contains(block));
                lemma_footprint(kid);
                lemma_footprint(shape);
                assert(shape.footprint().contains(kid.block()));
                assert(valid(shown, m, kid, (level - 1) as nat, kid_lo(node, lo, j), kid_hi(node, hi, j), kid_next(kids, nxt, j)));
                assert(kid.block() < shown.len());
            } else {
                let i = choose|i: int| 0 <= i < kids.len() && (#[trigger] kids[i]).footprint().contains(b);
                let kid = kids[i];
                assert(valid(shown, m, kid, (level - 1) as nat, kid_lo(node, lo, i), kid_hi(node, hi, i), kid_next(kids, nxt, i)));
                lemma_children(
                    shown,
                    m,
                    kid,
                    (level - 1) as nat,
                    kid_lo(node, lo, i),
                    kid_hi(node, hi, i),
                    kid_next(kids, nxt, i),
                    b,
                    j,
                );
                lemma_footprint(shape);
                assert(shape.footprint().contains(node_at(shown, m, b).vals[j]));
            }
        },
    }
}

} // verus!
