use vstd::prelude::*;
use super::bp_tree_node::NodeView;
use super::shape::lemma_route_is;
use super::shape::route;
use super::shape::sorted;

verus! {

/// The first of the first `n` key slots whose key is above `key`, by halving.
pub fn upper_bound(node: &NodeView, n: u64, key: u64) -> (r: u64)
    requires
        node.wf(),
        n <= node.m,
        sorted(node.image().keys, n as int),
    ensures
        r == route(node.image().keys, n as int, key),
        r <= n,
{
    let ghost keys = node.image().keys;
    let mut lo: u64 = 0;
    let mut hi: u64 = n;
    while lo < hi
        invariant
            node.wf(),
            n <= node.m,
            keys == node.image().keys,
            sorted(keys, n as int),
            lo <= hi <= n,
            forall|i: int| 0 <= i < lo ==> keys[i] <= key,
            forall|i: int| hi <= i < n ==> keys[i] > key,
        decreases hi - lo,
    {
        let mid = lo + (hi - lo) / 2;
        if node.key(mid) <= key {
            assert forall|i: int| 0 <= i < mid + 1 implies keys[i] <= key by {
                if i < mid {
                    assert(keys[i] < keys[mid as int]);
                }
            }
            lo = mid + 1;
        } else {
            assert forall|i: int| mid <= i < n implies keys[i] > key by {
                if mid < i {
                    assert(keys[mid as int] < keys[i]);
                }
            }
            hi = mid;
        }
    }
    proof {
        lemma_route_is(keys, n as int, key, lo as int);
    }
    lo
}

/// The first of the first `n` key slots whose key is `key` or above, by
/// halving.
pub fn lower_bound(node: &NodeView, n: u64, key: u64) -> (r: u64)
    requires
        node.wf(),
        n <= node.m,
        sorted(node.image().keys, n as int),
    ensures
        r <= n,
        forall|i: int| 0 <= i < r ==> node.image().keys[i] < key,
        forall|i: int| r <= i < n ==> node.image().keys[i] >= key,
{
    let ghost keys = node.image().keys;
    let mut lo: u64 = 0;
    let mut hi: u64 = n;
    while lo < hi
        invariant
            node.wf(),
            n <= node.m,
            keys == node.image().keys,
            sorted(keys, n as int),
            lo <= hi <= n,
            forall|i: int| 0 <= i < lo ==> keys[i] < key,
            forall|i: int| hi <= i < n ==> keys[i] >= key,
        decreases hi - lo,
    {
        let mid = lo + (hi - lo) / 2;
        if node.key(mid) < key {
            assert forall|i: int| 0 <= i < mid + 1 implies keys[i] < key by {
                if i < mid {
                    assert(keys[i] < keys[mid as int]);
                }
            }
            lo = mid + 1;
        } else {
            assert forall|i: int| mid <= i < n implies keys[i] >= key by {
                if mid < i {
                    assert(keys[mid as int] < keys[i]);
                }
            }
            hi = mid;
        }
    }
    lo
}

} // verus!
