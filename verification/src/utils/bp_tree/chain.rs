use vstd::prelude::*;
use super::bp_tree_node::NO_BLOCK;
use super::bp_tree_node::NodeImage;
use super::bp_tree_node::well_sized;
use super::shape::node_at;

verus! {

/// The entries of a leaf: each of its keys with the value beside it. In a
/// tree that records free blocks an entry is an extent: its first block and
/// its length.
pub open spec fn entries(node: NodeImage) -> Seq<(u64, u64)> {
    Seq::new(node.num_keys as nat, |t: int| (node.keys[t], node.vals[t]))
}

/// `t` is the place of the first entry of `list` whose value is not zero, or
/// the length of `list` where every value is zero.
pub open spec fn live_at(list: Seq<(u64, u64)>, t: int) -> bool {
    &&& 0 <= t <= list.len()
    &&& forall|u: int| 0 <= u < t ==> (#[trigger] list[u]).1 == 0
    &&& t < list.len() ==> list[t].1 > 0
}

/// The place of the first entry whose value is not zero; the length of the
/// list where there is none.
pub open spec fn first_live(list: Seq<(u64, u64)>) -> int {
    choose|t: int| live_at(list, t)
}

/// There is one place that `live_at` holds of, and `first_live` is it.
pub proof fn lemma_first_live(list: Seq<(u64, u64)>, t: int)
    requires
        live_at(list, t),
    ensures
        first_live(list) == t,
{
    let c = first_live(list);
    assert(live_at(list, c));
    if c < t {
        assert(list[c].1 == 0);
    } else if t < c {
        assert(list[t].1 == 0);
    }
}

/// Some place is the first with a value that is not zero, or the end.
pub proof fn lemma_first_live_exists(list: Seq<(u64, u64)>)
    ensures
        live_at(list, first_live(list)),
    decreases list.len(),
{
    if list.len() == 0 {
        assert(live_at(list, 0));
    } else if list[0].1 > 0 {
        assert(live_at(list, 0));
    } else {
        let rest = list.subrange(1, list.len() as int);
        lemma_first_live_exists(rest);
        let r = first_live(rest);
        assert forall|u: int| 0 <= u < r + 1 implies (#[trigger] list[u]).1 == 0 by {
            if u > 0 {
                assert(rest[u - 1] == list[u]);
            }
        }
        if r < rest.len() {
            assert(rest[r] == list[r + 1]);
        }
        assert(live_at(list, r + 1));
    }
}

/// The key that follows `k`; zero behind the greatest key.
pub open spec fn next_key(k: u64) -> u64 {
    if k == u64::MAX {
        0
    } else {
        (k + 1) as u64
    }
}

/// `list` after its first block was taken: the entries in front of the first
/// one with a value above zero are gone, and that one starts one block later
/// and is one block shorter. Where every value is zero, nothing is left.
pub open spec fn popped(list: Seq<(u64, u64)>) -> Seq<(u64, u64)> {
    let t = first_live(list);
    if t < list.len() {
        seq![(next_key(list[t].0), (list[t].1 - 1) as u64)] + list.subrange(t + 1, list.len() as int)
    } else {
        Seq::empty()
    }
}

/// The block that is taken from `list`: the key of the first entry with a
/// value above zero.
pub open spec fn front(list: Seq<(u64, u64)>) -> Option<u64> {
    let t = first_live(list);
    if t < list.len() {
        Some(list[t].0)
    } else {
        None
    }
}

/// The blocks `chain` are distinct blocks of the device, each holds a node of
/// fewer than `m` keys, each is followed by the next one, and `last` follows the
/// last one.
pub open spec fn linked(shown: Seq<Seq<u8>>, m: u64, chain: Seq<u64>, last: u64) -> bool {
    &&& chain.no_duplicates()
    &&& forall|j: int|
        0 <= j < chain.len() ==> {
            let node = node_at(shown, m, #[trigger] chain[j]);
            &&& chain[j] < shown.len()
            &&& well_sized(shown[chain[j] as int].len(), m)
            &&& node.num_keys < m
            &&& node.next == (if j + 1 < chain.len() {
                chain[j + 1]
            } else {
                last
            })
        }
}

/// The blocks `chain` are distinct blocks of the device, each holds a node of
/// fewer than `m` keys, each is followed by the next one, and nothing follows
/// the last one.
pub open spec fn chained(shown: Seq<Seq<u8>>, m: u64, chain: Seq<u64>) -> bool {
    &&& shown.len() <= u64::MAX
    &&& linked(shown, m, chain, NO_BLOCK)
}

/// The entries of the leaves `chain` from place `from` on, leaf after leaf.
pub open spec fn extents(shown: Seq<Seq<u8>>, m: u64, chain: Seq<u64>, from: int) -> Seq<(u64, u64)>
    decreases chain.len() - from,
{
    if 0 <= from < chain.len() {
        entries(node_at(shown, m, chain[from])) + extents(shown, m, chain, from + 1)
    } else {
        Seq::empty()
    }
}

/// What the leaves hold after a walk along them for a block came to place
/// `j`: the leaves in front of `j` held entries of value zero only and are
/// empty now; where the walk took a block, it took it from leaf `j`, which
/// holds what is left of its entries; the leaves behind are as they were. No
/// leaf changed its sibling.
pub open spec fn walked(shown: Seq<Seq<u8>>, now: Seq<Seq<u8>>, m: u64, chain: Seq<u64>, j: int, took: bool) -> bool {
    &&& 0 <= j <= chain.len()
    &&& took ==> j < chain.len()
    &&& forall|q: int|
        0 <= q < j ==> {
            let before = node_at(shown, m, #[trigger] chain[q]);
            let after = node_at(now, m, chain[q]);
            &&& first_live(entries(before)) == entries(before).len()
            &&& after.num_keys == 0
            &&& after.next == before.next
            &&& after.is_leaf == before.is_leaf
        }
    &&& took ==> {
        let before = node_at(shown, m, chain[j]);
        let after = node_at(now, m, chain[j]);
        &&& first_live(entries(before)) < entries(before).len()
        &&& entries(after) == popped(entries(before))
        &&& after.next == before.next
        &&& after.is_leaf == before.is_leaf
    }
    &&& forall|q: int|
        j <= q < chain.len() && !(took && q == j) ==> now[(#[trigger] chain[q]) as int] == shown[chain[q] as int]
}

/// Entries whose values are all zero in front of a list do not change what is
/// taken from it and what is left of it.
pub proof fn lemma_popped_behind_zeros(zeros: Seq<(u64, u64)>, list: Seq<(u64, u64)>)
    requires
        forall|u: int| 0 <= u < zeros.len() ==> (#[trigger] zeros[u]).1 == 0,
    ensures
        popped(zeros + list) == popped(list),
        front(zeros + list) == front(list),
{
    let all = zeros + list;
    lemma_first_live_exists(list);
    let t = first_live(list);
    assert forall|u: int| 0 <= u < zeros.len() + t implies (#[trigger] all[u]).1 == 0 by {
        if u < zeros.len() {
            assert(all[u] == zeros[u]);
        } else {
            assert(all[u] == list[u - zeros.len()]);
        }
    }
    if t < list.len() {
        assert(all[zeros.len() + t] == list[t]);
    }
    assert(live_at(all, zeros.len() + t));
    lemma_first_live(all, zeros.len() + t);
    if t < list.len() {
        assert(all.subrange(zeros.len() + t + 1, all.len() as int) =~= list.subrange(t + 1, list.len() as int));
    }
}

/// What is taken from a list that starts with an entry above zero is taken
/// from its first part, and the rest of the list stays.
pub proof fn lemma_popped_in_front(head: Seq<(u64, u64)>, tail: Seq<(u64, u64)>)
    requires
        first_live(head) < head.len(),
    ensures
        popped(head + tail) == popped(head) + tail,
        front(head + tail) == front(head),
{
    let all = head + tail;
    lemma_first_live_exists(head);
    let t = first_live(head);
    assert forall|u: int| 0 <= u < t implies (#[trigger] all[u]).1 == 0 by {
        assert(all[u] == head[u]);
    }
    assert(all[t] == head[t]);
    assert(live_at(all, t));
    lemma_first_live(all, t);
    assert(all.subrange(t + 1, all.len() as int) =~= head.subrange(t + 1, head.len() as int) + tail);
    assert(popped(all) =~= popped(head) + tail);
}

/// The entries of leaves that did not change are the same.
pub proof fn lemma_extents_frame(shown: Seq<Seq<u8>>, now: Seq<Seq<u8>>, m: u64, chain: Seq<u64>, from: int)
    requires
        0 <= from,
        forall|j: int| from <= j < chain.len() ==> now[(#[trigger] chain[j]) as int] == shown[chain[j] as int],
    ensures
        extents(now, m, chain, from) == extents(shown, m, chain, from),
    decreases chain.len() - from,
{
    if from < chain.len() {
        lemma_extents_frame(shown, now, m, chain, from + 1);
    }
}

/// `now` is `before` without some of the entries in front of its first entry
/// above zero.
pub open spec fn trimmed(before: Seq<(u64, u64)>, now: Seq<(u64, u64)>) -> bool {
    exists|k: int| 0 <= k <= first_live(before) && now == #[trigger] before.subrange(k, before.len() as int)
}

/// `t` is the place of the first entry of `list` whose key is above `b`, or
/// the length of `list` where no key is above `b`.
pub open spec fn ahead_at(list: Seq<(u64, u64)>, t: int, b: u64) -> bool {
    &&& 0 <= t <= list.len()
    &&& forall|u: int| 0 <= u < t ==> (#[trigger] list[u]).0 <= b
    &&& t < list.len() ==> list[t].0 > b
}

/// The place of the first entry whose key is above `b`; the length of the
/// list where there is none.
pub open spec fn ahead(list: Seq<(u64, u64)>, b: u64) -> int {
    choose|t: int| ahead_at(list, t, b)
}

/// There is one place that `ahead_at` holds of, and `ahead` is it.
pub proof fn lemma_ahead(list: Seq<(u64, u64)>, t: int, b: u64)
    requires
        ahead_at(list, t, b),
    ensures
        ahead(list, b) == t,
{
    let c = ahead(list, b);
    assert(ahead_at(list, c, b));
    if c < t {
        assert(list[c].0 <= b);
    } else if t < c {
        assert(list[t].0 <= b);
    }
}

/// Whether the entry in front of place `t` holds the block `b`.
pub open spec fn holds_at(list: Seq<(u64, u64)>, t: int, b: u64) -> bool {
    t > 0 && list[t - 1].0 <= b < list[t - 1].0 + list[t - 1].1
}

/// Whether the entry in front of place `t` ends right at `b`.
pub open spec fn meets_left(list: Seq<(u64, u64)>, t: int, b: u64) -> bool {
    t > 0 && list[t - 1].0 + list[t - 1].1 == b
}

/// Whether the entry at place `t` starts right behind `b`.
pub open spec fn meets_right(list: Seq<(u64, u64)>, t: int, b: u64) -> bool {
    t < list.len() && list[t].0 == b + 1
}

/// The entries of a leaf after the block `b` was given back to it at place
/// `t`: the entry in front takes `b` at its end where it ends there; else the
/// entry at `t` takes `b` at its start where it starts right behind `b`; else
/// `b` becomes an entry of its own.
pub open spec fn given_back(list: Seq<(u64, u64)>, t: int, b: u64) -> Seq<(u64, u64)> {
    if meets_left(list, t, b) {
        list.update(t - 1, (list[t - 1].0, (list[t - 1].1 + 1) as u64))
    } else if meets_right(list, t, b) {
        list.update(t, (b, (list[t].1 + 1) as u64))
    } else {
        list.insert(t, (b, 1u64))
    }
}

/// The entries of the leaves `chain` are those of the leaves in front of
/// place `j` and then those of the leaves from `j` on.
pub proof fn lemma_extents_split(shown: Seq<Seq<u8>>, m: u64, chain: Seq<u64>, j: int)
    requires
        0 <= j <= chain.len(),
    ensures
        extents(shown, m, chain, 0) == extents(shown, m, chain.subrange(0, j), 0) + extents(shown, m, chain, j),
{
    let head = chain.subrange(0, j);
    let tail = chain.subrange(j, chain.len() as int);
    assert(chain =~= head + tail);
    lemma_extents_join(shown, m, head, tail, 0);
    lemma_extents_behind(shown, m, head, tail, 0);
}

/// The entries of two chains, one behind the other, are the entries of the
/// first and then the entries of the second.
pub proof fn lemma_extents_join(shown: Seq<Seq<u8>>, m: u64, head: Seq<u64>, tail: Seq<u64>, from: int)
    requires
        0 <= from <= head.len(),
    ensures
        extents(shown, m, head + tail, from) == extents(shown, m, head, from) + extents(shown, m, tail, 0),
    decreases head.len() - from,
{
    let all = head + tail;
    if from < head.len() {
        lemma_extents_join(shown, m, head, tail, from + 1);
        assert(all[from] == head[from]);
        assert(extents(shown, m, all, from) =~= extents(shown, m, head, from) + extents(shown, m, tail, 0));
    } else {
        lemma_extents_behind(shown, m, head, tail, 0);
        assert(extents(shown, m, head, from) =~= Seq::<(u64, u64)>::empty());
        assert(extents(shown, m, all, from) =~= extents(shown, m, tail, 0));
    }
}

/// The entries of a chain behind another chain are its own entries.
pub proof fn lemma_extents_behind(shown: Seq<Seq<u8>>, m: u64, head: Seq<u64>, tail: Seq<u64>, from: int)
    requires
        0 <= from <= tail.len(),
    ensures
        extents(shown, m, head + tail, head.len() + from) == extents(shown, m, tail, from),
    decreases tail.len() - from,
{
    let all = head + tail;
    if from < tail.len() {
        lemma_extents_behind(shown, m, head, tail, from + 1);
        assert(all[head.len() + from] == tail[from]);
    }
}

/// Where the leaves in front of place `j` hold nothing and only leaf `j`
/// changes, the leaves in front of `j` still hold nothing.
pub proof fn lemma_prefix_emptied(shown: Seq<Seq<u8>>, now: Seq<Seq<u8>>, m: u64, chain: Seq<u64>, j: int)
    requires
        0 <= j < chain.len(),
        chain.no_duplicates(),
        extents(shown, m, chain, 0) == extents(shown, m, chain, j),
        forall|q: int| 0 <= q < chain.len() && q != j ==> now[(#[trigger] chain[q]) as int] == shown[chain[q] as int],
    ensures
        extents(now, m, chain, 0) == extents(now, m, chain, j),
{
    lemma_prefix_empty(shown, m, chain, 0, j);
    lemma_prefix_still_empty(shown, now, m, chain, 0, j);
}

/// Where the entries from `from` on are the entries from `to` on, the leaves
/// between hold nothing.
pub proof fn lemma_prefix_empty(shown: Seq<Seq<u8>>, m: u64, chain: Seq<u64>, from: int, to: int)
    requires
        0 <= from <= to <= chain.len(),
        extents(shown, m, chain, from) == extents(shown, m, chain, to),
    ensures
        forall|q: int| from <= q < to ==> entries(node_at(shown, m, #[trigger] chain[q])).len() == 0,
    decreases to - from,
{
    if from < to {
        lemma_extents_len(shown, m, chain, from + 1, to);
        let head = entries(node_at(shown, m, chain[from]));
        assert(extents(shown, m, chain, from) == head + extents(shown, m, chain, from + 1));
        assert(head.len() == 0);
        assert(extents(shown, m, chain, from) =~= extents(shown, m, chain, from + 1));
        lemma_prefix_empty(shown, m, chain, from + 1, to);
    }
}

/// The entries from a place on are at least as many as those from a later
/// place on.
pub proof fn lemma_extents_len(shown: Seq<Seq<u8>>, m: u64, chain: Seq<u64>, from: int, to: int)
    requires
        0 <= from <= to <= chain.len(),
    ensures
        extents(shown, m, chain, from).len() >= extents(shown, m, chain, to).len(),
    decreases to - from,
{
    if from < to {
        lemma_extents_len(shown, m, chain, from + 1, to);
    }
}

/// Leaves that hold nothing and did not change add nothing to the entries.
pub proof fn lemma_prefix_still_empty(
    shown: Seq<Seq<u8>>,
    now: Seq<Seq<u8>>,
    m: u64,
    chain: Seq<u64>,
    from: int,
    to: int,
)
    requires
        0 <= from <= to <= chain.len(),
        forall|q: int| from <= q < to ==> entries(node_at(shown, m, #[trigger] chain[q])).len() == 0,
        forall|q: int| from <= q < to ==> now[(#[trigger] chain[q]) as int] == shown[chain[q] as int],
    ensures
        extents(now, m, chain, from) == extents(now, m, chain, to),
    decreases to - from,
{
    if from < to {
        lemma_prefix_still_empty(shown, now, m, chain, from + 1, to);
        let head = entries(node_at(now, m, chain[from]));
        assert(head.len() == 0);
        assert(extents(now, m, chain, from) =~= extents(now, m, chain, from + 1));
    }
}

/// Leaf `j` is where the walk along the chain for the block `b` stops: the
/// leaves in front of it have no key above `b`, and it has one or is the
/// last leaf.
pub open spec fn stops_at(shown: Seq<Seq<u8>>, m: u64, chain: Seq<u64>, j: int, b: u64) -> bool {
    &&& 0 <= j < chain.len()
    &&& forall|q: int|
        0 <= q < j ==> ahead(entries(node_at(shown, m, #[trigger] chain[q])), b) == entries(
            node_at(shown, m, chain[q]),
        ).len()
    &&& (ahead(entries(node_at(shown, m, chain[j])), b) < entries(node_at(shown, m, chain[j])).len() || j
        == chain.len() - 1)
}

/// The block `b` finds no room: the leaf where the walk for it stops is full,
/// with one key less than the fan-out `m`, and neither the entry in front of
/// the place of `b` nor the entry at that place takes `b`.
pub open spec fn wedged(shown: Seq<Seq<u8>>, m: u64, chain: Seq<u64>, b: u64) -> bool {
    exists|j: int| #[trigger]
        stops_at(shown, m, chain, j, b) && {
            let list = entries(node_at(shown, m, chain[j]));
            let t = ahead(list, b);
            &&& !holds_at(list, t, b)
            &&& !meets_left(list, t, b)
            &&& !meets_right(list, t, b)
            &&& list.len() + 1 >= m
        }
}

/// The block `b` went back into leaf `j`, where the walk for it stops: the
/// leaf holds its entries with `b` given back at its place, has its sibling
/// still, and no other block changed.
pub open spec fn pushed_at(shown: Seq<Seq<u8>>, now: Seq<Seq<u8>>, m: u64, chain: Seq<u64>, j: int, b: u64) -> bool {
    &&& stops_at(shown, m, chain, j, b)
    &&& now.len() == shown.len()
    &&& forall|x: int| 0 <= x < shown.len() && x != chain[j] ==> #[trigger] now[x] == shown[x]
    &&& node_at(now, m, chain[j]).next == node_at(shown, m, chain[j]).next
    &&& node_at(now, m, chain[j]).is_leaf == node_at(shown, m, chain[j]).is_leaf
    &&& entries(node_at(now, m, chain[j])) == given_back(
        entries(node_at(shown, m, chain[j])),
        ahead(entries(node_at(shown, m, chain[j])), b),
        b,
    )
}

/// The walk for a block stops at one leaf only.
pub proof fn lemma_one_stop(shown: Seq<Seq<u8>>, m: u64, chain: Seq<u64>, j: int, k: int, b: u64)
    requires
        stops_at(shown, m, chain, j, b),
        stops_at(shown, m, chain, k, b),
    ensures
        j == k,
{
    if j < k {
        assert(ahead(entries(node_at(shown, m, chain[j])), b) == entries(node_at(shown, m, chain[j])).len());
    } else if k < j {
        assert(ahead(entries(node_at(shown, m, chain[k])), b) == entries(node_at(shown, m, chain[k])).len());
    }
}

} // verus!
