use vstd::prelude::*;
use vstd::slice::slice_to_vec;
use crate::block_device::BlockDevice;
use crate::io_context::access_outcome;
use crate::io_context::admitted;
use crate::io_context::no_new_dirt;
use crate::io_context::IOContext;
use crate::io_context::same_device;
use crate::utils::cache::Cache;
use super::bp_tree_node::image;
use super::bp_tree_node::lemma_slots;
use super::bp_tree_node::lemma_well_sized;
use super::bp_tree_node::NO_BLOCK;
use super::bp_tree_node::NodeHeader;
use super::bp_tree_node::NodeView;
use super::bp_tree_node::NodeViewMut;
use super::bp_tree_node::slots;
use super::bp_tree_node::well_sized;
use super::BPTreeError;
use super::chain::ahead;
use super::chain::ahead_at;
use super::chain::entries;
use super::chain::front;
use super::chain::given_back;
use super::chain::holds_at;
use super::chain::lemma_ahead;
use super::chain::lemma_first_live;
use super::chain::live_at;
use super::chain::meets_left;
use super::chain::meets_right;
use super::chain::popped;
use super::search::lower_bound;
use super::search::upper_bound;
use super::shape::holds;
use super::shape::left_image;
use super::shape::lemma_rank_is;
use super::shape::node_at;
use super::shape::parent_image;
use super::shape::put_image;
use super::shape::right_image;
use super::shape::route;
use super::shape::sorted;
use super::shape::split_from;

verus! {

/// The context is well formed and over the same device as before.
pub open spec fn kept<D: BlockDevice, C: Cache<Vec<u8>>>(before: &IOContext<D, C>, now: &IOContext<D, C>) -> bool {
    &&& now.wf()
    &&& same_device(before.device(), now.device())
    &&& now.pool().limit() == before.pool().limit()
    &&& now@.len() == before@.len()
}

/// The order of the pool after an access to `block`: where the access
/// succeeded, `block` is the most recently used; where it failed, the order
/// is as it was.
pub open spec fn touched<D: BlockDevice, C: Cache<Vec<u8>>>(
    before: &IOContext<D, C>,
    now: &IOContext<D, C>,
    done: bool,
    block: u64,
) -> bool {
    now.pool().order() == (if done {
        admitted(before.pool().order(), before.pool().limit(), block)
    } else {
        before.pool().order()
    })
}

/// Only block `block` differs, and it has its size still.
pub open spec fn only_block_changed(before: Seq<Seq<u8>>, now: Seq<Seq<u8>>, block: u64) -> bool {
    &&& now.len() == before.len()
    &&& block < before.len()
    &&& now[block as int].len() == before[block as int].len()
    &&& forall|x: int| 0 <= x < before.len() && x != block ==> #[trigger] now[x] == before[x]
}

/// The error is a failure of the device's backing store.
pub open spec fn is_disk_failure(e: BPTreeError) -> bool {
    e is DiskError && e->DiskError_0 is IOError
}

/// The header of the node in `block`.
pub fn read_header<D: BlockDevice, C: Cache<Vec<u8>>>(ioc: &mut IOContext<D, C>, m: u64, block: u64) -> (r: Result<
    NodeHeader,
    BPTreeError,
>)
    requires
        old(ioc).wf(),
        block < old(ioc)@.len(),
        well_sized(old(ioc).block_len(), m),
    ensures
        kept(old(ioc), final(ioc)),
        touched(old(ioc), final(ioc), r is Ok, block),
        no_new_dirt(old(ioc).buffers(), final(ioc).buffers()),
        final(ioc)@ == old(ioc)@,
        r matches Ok(h) ==> {
            &&& h.is_leaf == node_at(old(ioc)@, m, block).is_leaf
            &&& h.num_keys == node_at(old(ioc)@, m, block).num_keys
            &&& h.next == node_at(old(ioc)@, m, block).next
        },
        r matches Err(e) ==> is_disk_failure(e),
        old(ioc).dependable() ==> r is Ok,
{
    proof {
        ioc.lemma_geometry();
    }
    let handle = match ioc.get(block) {
        Ok(handle) => handle,
        Err(e) => {
            return Err(BPTreeError::DiskError(e));
        },
    };
    let node = match NodeView::get_from_bytes(handle.get(), m) {
        Ok(node) => node,
        Err(e) => {
            return Err(BPTreeError::NodeParseError(e));
        },
    };
    Ok(node.header())
}

/// A copy of the bytes of `block`.
pub fn copy_block<D: BlockDevice, C: Cache<Vec<u8>>>(ioc: &mut IOContext<D, C>, block: u64) -> (r: Result<
    Vec<u8>,
    BPTreeError,
>)
    requires
        old(ioc).wf(),
        block < old(ioc)@.len(),
    ensures
        kept(old(ioc), final(ioc)),
        touched(old(ioc), final(ioc), r is Ok, block),
        no_new_dirt(old(ioc).buffers(), final(ioc).buffers()),
        final(ioc)@ == old(ioc)@,
        r matches Ok(bytes) ==> bytes@ == old(ioc)@[block as int],
        r matches Err(e) ==> is_disk_failure(e),
        old(ioc).dependable() ==> r is Ok,
{
    let handle = match ioc.get(block) {
        Ok(handle) => handle,
        Err(e) => {
            return Err(BPTreeError::DiskError(e));
        },
    };
    Ok(slice_to_vec(handle.get()))
}

/// What an operation that rewrites `block` as a node of fan-out `m` may
/// answer, and what it leaves behind: a refusal by the device where `block`
/// names no block; a failure of the device; a refusal to read the block as a
/// node where it has not the size for it; in each of these cases the blocks
/// stay as they were.
pub open spec fn rewrite_outcome<D: BlockDevice, C: Cache<Vec<u8>>>(
    before: &IOContext<D, C>,
    now: &IOContext<D, C>,
    r: Result<(), BPTreeError>,
    m: u64,
    block: u64,
) -> bool {
    &&& kept(before, now)
    &&& touched(before, now, r is Ok || (r is Err && r->Err_0 is NodeParseError), block)
    &&& r is Err ==> now@ == before@
    &&& r is Ok ==> only_block_changed(before@, now@, block) && well_sized(before.block_len(), m)
    &&& r matches Err(BPTreeError::DiskError(e)) ==> access_outcome(
        Err::<(), crate::block_device::BlockDeviceError>(e),
        block,
        before@.len(),
        before.dependable(),
    )
    &&& r matches Err(BPTreeError::NodeParseError(e)) ==> block < before@.len() && !well_sized(before.block_len(), m)
    &&& r matches Err(e) ==> e is DiskError || e is NodeParseError
    &&& before.dependable() && block < before@.len() && well_sized(before.block_len(), m) ==> r is Ok
}

/// Makes `block` a leaf with the one entry `key`, `val` and no sibling.
pub fn init_leaf<D: BlockDevice, C: Cache<Vec<u8>>>(
    ioc: &mut IOContext<D, C>,
    m: u64,
    block: u64,
    key: u64,
    val: u64,
) -> (r: Result<(), BPTreeError>)
    requires
        old(ioc).wf(),
        m >= 1,
    ensures
        rewrite_outcome(old(ioc), final(ioc), r, m, block),
        r is Ok ==> {
            let node = node_at(final(ioc)@, m, block);
            &&& node.is_leaf == 1
            &&& node.num_keys == 1
            &&& node.next == NO_BLOCK
            &&& node.keys[0] == key
            &&& node.vals[0] == val
        },
{
    proof {
        ioc.lemma_geometry();
    }
    let ghost shown = ioc@;
    let mut handle = match ioc.get_mut(block) {
        Ok(handle) => handle,
        Err(e) => {
            return Err(BPTreeError::DiskError(e));
        },
    };
    let mut node = match NodeViewMut::get_from_bytes(handle.get(), m) {
        Ok(node) => node,
        Err(e) => {
            proof {
                assert(shown.update(block as int, shown[block as int]) =~= shown);
            }
            return Err(BPTreeError::NodeParseError(e));
        },
    };
    node.set_header(NodeHeader::new(true, 1));
    node.set_key(0, key);
    node.set_val(0, val);
    Ok(())
}

/// What an operation that rewrites the node in `block` may answer, and what
/// it leaves behind, where `block` is a block of the device and has the size
/// of a node: only a failure of the device stands in its way, and then the
/// blocks stay as they were. Nothing stands in its way where the block is in
/// the pool.
pub open spec fn update_outcome<D: BlockDevice, C: Cache<Vec<u8>>>(
    before: &IOContext<D, C>,
    now: &IOContext<D, C>,
    r: Result<(), BPTreeError>,
    block: u64,
) -> bool {
    &&& kept(before, now)
    &&& touched(before, now, r is Ok, block)
    &&& r is Err ==> now@ == before@
    &&& r is Ok ==> only_block_changed(before@, now@, block)
    &&& r matches Err(e) ==> is_disk_failure(e)
    &&& before.dependable() || before.pool().order().contains(block) ==> r is Ok
}

/// Gives `key` the value `val` in the leaf in `block`: in place where the
/// leaf holds `key`, else as a new entry at the place that keeps the keys
/// sorted.
pub fn leaf_put<D: BlockDevice, C: Cache<Vec<u8>>>(ioc: &mut IOContext<D, C>, m: u64, block: u64, key: u64, val: u64) -> (r:
    Result<(), BPTreeError>)
    requires
        old(ioc).wf(),
        block < old(ioc)@.len(),
        well_sized(old(ioc).block_len(), m),
        node_at(old(ioc)@, m, block).num_keys < m,
        sorted(node_at(old(ioc)@, m, block).keys, node_at(old(ioc)@, m, block).num_keys as int),
    ensures
        update_outcome(old(ioc), final(ioc), r, block),
        r is Ok ==> put_image(node_at(old(ioc)@, m, block), node_at(final(ioc)@, m, block), key, val),
{
    proof {
        ioc.lemma_geometry();
    }
    let ghost shown = ioc@;
    let ghost before = node_at(shown, m, block);
    let mut handle = match ioc.get_mut(block) {
        Ok(handle) => handle,
        Err(e) => {
            return Err(BPTreeError::DiskError(e));
        },
    };
    let mut node = match NodeViewMut::get_from_bytes(handle.get(), m) {
        Ok(node) => node,
        Err(e) => {
            proof {
                assert(shown.update(block as int, shown[block as int]) =~= shown);
            }
            return Err(BPTreeError::NodeParseError(e));
        },
    };
    let ghost start = node.content();
    proof {
        lemma_well_sized(start.len(), m);
        lemma_slots(start, m as nat);
    }
    let n = node.header().num_keys;
    let view = node.as_view();
    let at = lower_bound(&view, n, key);
    proof {
        assert(start == shown[block as int]);
        assert(view.image() == before);
        assert(n == before.num_keys);
        lemma_rank_is(before.keys, n as int, key, at as int);
    }
    if at < n && node.key(at) == key {
        node.set_val(at, val);
        proof {
            assert(holds(before.keys, n as int, key));
        }
    } else {
        proof {
            assert(!holds(before.keys, n as int, key)) by {
                if holds(before.keys, n as int, key) {
                    let i = choose|i: int| 0 <= i < n && before.keys[i] == key;
                    if i < at {
                        assert(before.keys[i] < key);
                    } else if i > at {
                        assert(before.keys[at as int] < before.keys[i]);
                    }
                }
            }
        }
        node.shift_up(at, n);
        node.shift_up(m + at, m + n);
        node.set_slot(at, key);
        node.set_slot(m + at, val);
        node.set_num_keys(n + 1);
        proof {
            lemma_slots(node.content(), m as nat);
        }
    }
    Ok(())
}

/// The place of the child that `key` belongs to in the inner node in
/// `block`, and the block of that child.
pub fn find_child<D: BlockDevice, C: Cache<Vec<u8>>>(ioc: &mut IOContext<D, C>, m: u64, block: u64, key: u64) -> (r:
    Result<(u64, u64), BPTreeError>)
    requires
        old(ioc).wf(),
        block < old(ioc)@.len(),
        well_sized(old(ioc).block_len(), m),
        node_at(old(ioc)@, m, block).num_keys <= m - 1,
        sorted(node_at(old(ioc)@, m, block).keys, node_at(old(ioc)@, m, block).num_keys as int),
    ensures
        kept(old(ioc), final(ioc)),
        touched(old(ioc), final(ioc), r is Ok, block),
        no_new_dirt(old(ioc).buffers(), final(ioc).buffers()),
        final(ioc)@ == old(ioc)@,
        r matches Ok(found) ==> {
            let node = node_at(old(ioc)@, m, block);
            &&& found.0 == route(node.keys, node.num_keys as int, key)
            &&& found.0 <= node.num_keys
            &&& found.1 == node.vals[found.0 as int]
        },
        r matches Err(e) ==> is_disk_failure(e),
        old(ioc).dependable() ==> r is Ok,
{
    proof {
        ioc.lemma_geometry();
    }
    let handle = match ioc.get(block) {
        Ok(handle) => handle,
        Err(e) => {
            return Err(BPTreeError::DiskError(e));
        },
    };
    let node = match NodeView::get_from_bytes(handle.get(), m) {
        Ok(node) => node,
        Err(e) => {
            return Err(BPTreeError::NodeParseError(e));
        },
    };
    let n = node.header().num_keys;
    let at = upper_bound(&node, n, key);
    Ok((at, node.val(at)))
}

/// Makes `block` an inner node without keys whose one child is `child`.
pub fn init_root<D: BlockDevice, C: Cache<Vec<u8>>>(ioc: &mut IOContext<D, C>, m: u64, block: u64, child: u64) -> (r:
    Result<(), BPTreeError>)
    requires
        old(ioc).wf(),
    ensures
        rewrite_outcome(old(ioc), final(ioc), r, m, block),
        r is Ok ==> {
            let node = node_at(final(ioc)@, m, block);
            &&& node.is_leaf == 0
            &&& node.num_keys == 0
            &&& node.next == NO_BLOCK
            &&& node.vals[0] == child
        },
{
    proof {
        ioc.lemma_geometry();
    }
    let ghost shown = ioc@;
    let mut handle = match ioc.get_mut(block) {
        Ok(handle) => handle,
        Err(e) => {
            return Err(BPTreeError::DiskError(e));
        },
    };
    let mut node = match NodeViewMut::get_from_bytes(handle.get(), m) {
        Ok(node) => node,
        Err(e) => {
            proof {
                assert(shown.update(block as int, shown[block as int]) =~= shown);
            }
            return Err(BPTreeError::NodeParseError(e));
        },
    };
    node.set_header(NodeHeader::new(false, 0));
    node.set_val(0, child);
    Ok(())
}

/// Writes to `block` the new node that takes the upper part of the full node
/// that `source` holds.
pub fn write_right<D: BlockDevice, C: Cache<Vec<u8>>>(ioc: &mut IOContext<D, C>, m: u64, block: u64, source: &Vec<u8>) -> (r:
    Result<(), BPTreeError>)
    requires
        old(ioc).wf(),
        well_sized(source@.len(), m),
        image(source@, m as nat).num_keys <= m - 1,
        image(source@, m as nat).num_keys >= 2,
    ensures
        rewrite_outcome(old(ioc), final(ioc), r, m, block),
        r is Ok ==> right_image(image(source@, m as nat), node_at(final(ioc)@, m, block)),
{
    proof {
        ioc.lemma_geometry();
    }
    let ghost shown = ioc@;
    let mut handle = match ioc.get_mut(block) {
        Ok(handle) => handle,
        Err(e) => {
            return Err(BPTreeError::DiskError(e));
        },
    };
    let mut node = match NodeViewMut::get_from_bytes(handle.get(), m) {
        Ok(node) => node,
        Err(e) => {
            proof {
                assert(shown.update(block as int, shown[block as int]) =~= shown);
            }
            return Err(BPTreeError::NodeParseError(e));
        },
    };
    let full = match NodeView::get_from_bytes(source.as_slice(), m) {
        Ok(full) => full,
        Err(e) => {
            proof {
                assert(shown.update(block as int, shown[block as int]) =~= shown);
            }
            return Err(BPTreeError::NodeParseError(e));
        },
    };
    proof {
        lemma_well_sized(source@.len(), m);
        lemma_slots(source@, m as nat);
    }
    let header = full.header();
    let n = header.num_keys;
    let mid = n / 2;
    let leaf = header.is_leaf == 1;
    let from = if leaf {
        mid
    } else {
        mid + 1
    };
    let count = n - from;
    let mut fresh = NodeHeader::new(leaf, count);
    fresh.next = header.next;
    node.set_header(fresh);
    node.copy_from(&full, from, 0, count);
    let ghost half = node.slots();
    node.copy_from(&full, m + from, m, count + 1);
    proof {
        lemma_slots(node.content(), m as nat);
        let right = node.image();
        let whole = image(source@, m as nat);
        assert(split_from(whole) == from);
        assert forall|j: int| 0 <= j < n - from implies #[trigger] right.keys[j] == whole.keys[from + j] by {
            assert(node.slots()[j] == half[j]);
            assert(half[j] == full.slots()[j + from]);
        }
        assert forall|j: int| 0 <= j <= n - from implies #[trigger] right.vals[j] == whole.vals[from + j] by {
            assert(node.slots()[m + j] == full.slots()[m + j - m + (m + from)]);
        }
        assert(right_image(whole, right));
    }
    Ok(())
}

/// Cuts the full node in `block` down to the keys below its middle one and
/// puts `sibling` behind it.
pub fn truncate_left<D: BlockDevice, C: Cache<Vec<u8>>>(ioc: &mut IOContext<D, C>, m: u64, block: u64, sibling: u64) -> (r:
    Result<(), BPTreeError>)
    requires
        old(ioc).wf(),
        block < old(ioc)@.len(),
        well_sized(old(ioc).block_len(), m),
    ensures
        update_outcome(old(ioc), final(ioc), r, block),
        r is Ok ==> left_image(node_at(old(ioc)@, m, block), node_at(final(ioc)@, m, block), sibling),
{
    proof {
        ioc.lemma_geometry();
    }
    let ghost shown = ioc@;
    let mut handle = match ioc.get_mut(block) {
        Ok(handle) => handle,
        Err(e) => {
            return Err(BPTreeError::DiskError(e));
        },
    };
    let mut node = match NodeViewMut::get_from_bytes(handle.get(), m) {
        Ok(node) => node,
        Err(e) => {
            proof {
                assert(shown.update(block as int, shown[block as int]) =~= shown);
            }
            return Err(BPTreeError::NodeParseError(e));
        },
    };
    let n = node.header().num_keys;
    node.set_num_keys(n / 2);
    node.set_next(sibling);
    Ok(())
}

/// Puts the separator `sep`, with the child `kid` behind it, into the inner
/// node in `block`, at the place that keeps the keys sorted.
pub fn add_separator<D: BlockDevice, C: Cache<Vec<u8>>>(ioc: &mut IOContext<D, C>, m: u64, block: u64, sep: u64, kid: u64) -> (r:
    Result<(), BPTreeError>)
    requires
        old(ioc).wf(),
        block < old(ioc)@.len(),
        well_sized(old(ioc).block_len(), m),
        node_at(old(ioc)@, m, block).num_keys < m - 1,
        sorted(node_at(old(ioc)@, m, block).keys, node_at(old(ioc)@, m, block).num_keys as int),
    ensures
        update_outcome(old(ioc), final(ioc), r, block),
        r is Ok ==> parent_image(node_at(old(ioc)@, m, block), node_at(final(ioc)@, m, block), sep, kid),
{
    proof {
        ioc.lemma_geometry();
    }
    let ghost shown = ioc@;
    let ghost before = node_at(shown, m, block);
    let mut handle = match ioc.get_mut(block) {
        Ok(handle) => handle,
        Err(e) => {
            return Err(BPTreeError::DiskError(e));
        },
    };
    let mut node = match NodeViewMut::get_from_bytes(handle.get(), m) {
        Ok(node) => node,
        Err(e) => {
            proof {
                assert(shown.update(block as int, shown[block as int]) =~= shown);
            }
            return Err(BPTreeError::NodeParseError(e));
        },
    };
    let ghost start = node.content();
    proof {
        lemma_well_sized(start.len(), m);
        lemma_slots(start, m as nat);
    }
    let n = node.header().num_keys;
    let view = node.as_view();
    let at = lower_bound(&view, n, sep);
    proof {
        assert(start == shown[block as int]);
        assert(view.image() == before);
        lemma_rank_is(before.keys, n as int, sep, at as int);
    }
    node.shift_up(at, n);
    node.shift_up(m + at + 1, m + n + 1);
    node.set_slot(at, sep);
    node.set_slot(m + at + 1, kid);
    node.set_num_keys(n + 1);
    proof {
        lemma_slots(node.content(), m as nat);
    }
    Ok(())
}

/// Takes the first block of the first entry above zero of the leaf in
/// `block`: the entry starts one block later and is one block shorter, and
/// the entries in front of it are dropped. Where every entry is zero, the
/// leaf is emptied. Answers the block, if there is one, and the sibling of
/// the leaf.
pub fn pop_leaf<D: BlockDevice, C: Cache<Vec<u8>>>(ioc: &mut IOContext<D, C>, m: u64, block: u64) -> (r: Result<
    (Option<u64>, u64),
    BPTreeError,
>)
    requires
        old(ioc).wf(),
        block < old(ioc)@.len(),
        well_sized(old(ioc).block_len(), m),
        node_at(old(ioc)@, m, block).num_keys <= m,
    ensures
        kept(old(ioc), final(ioc)),
        r is Err ==> final(ioc)@ == old(ioc)@,
        r matches Err(e) ==> is_disk_failure(e),
        old(ioc).dependable() ==> r is Ok,
        r matches Ok(out) ==> {
            let before = node_at(old(ioc)@, m, block);
            let after = node_at(final(ioc)@, m, block);
            &&& only_block_changed(old(ioc)@, final(ioc)@, block)
            &&& out.0 == front(entries(before))
            &&& out.1 == before.next
            &&& after.next == before.next
            &&& after.is_leaf == before.is_leaf
            &&& entries(after) == popped(entries(before))
        },
{
    proof {
        ioc.lemma_geometry();
    }
    let ghost shown = ioc@;
    let ghost before = node_at(shown, m, block);
    let mut handle = match ioc.get_mut(block) {
        Ok(handle) => handle,
        Err(e) => {
            return Err(BPTreeError::DiskError(e));
        },
    };
    let mut node = match NodeViewMut::get_from_bytes(handle.get(), m) {
        Ok(node) => node,
        Err(e) => {
            proof {
                assert(shown.update(block as int, shown[block as int]) =~= shown);
            }
            return Err(BPTreeError::NodeParseError(e));
        },
    };
    let ghost start = node.content();
    proof {
        lemma_well_sized(start.len(), m);
        lemma_slots(start, m as nat);
        assert(start == shown[block as int]);
        assert(node.image() == before);
    }
    let header = node.header();
    let n = header.num_keys;
    let ghost list = entries(before);
    let mut t: u64 = 0;
    while t < n && node.val(t) == 0
        invariant
            node.wf(),
            node.m == m,
            node.image() == before,
            n == before.num_keys,
            n <= m,
            t <= n,
            list == entries(before),
            forall|u: int| 0 <= u < t ==> (#[trigger] list[u]).1 == 0,
        decreases n - t,
    {
        t = t + 1;
    }
    if t < n {
        let k = node.key(t);
        let v = node.val(t);
        proof {
            assert(list[t as int] == (k, v));
            assert(live_at(list, t as int));
            lemma_first_live(list, t as int);
        }
        let k1 = if k == u64::MAX {
            0
        } else {
            k + 1
        };
        node.set_slot(t, k1);
        node.set_slot(m + t, v - 1);
        let ghost marked = node.slots();
        node.move_down(0, t, n - t);
        let ghost keyed = node.slots();
        node.move_down(m, m + t, n - t);
        node.set_num_keys(n - t);
        proof {
            lemma_slots(node.content(), m as nat);
            let after = node.image();
            let left = popped(list);
            assert(entries(after).len() == left.len());
            assert forall|u: int| 0 <= u < n - t implies entries(after)[u] == left[u] by {
                assert(after.keys[u] == node.slots()[u]);
                assert(after.vals[u] == node.slots()[m + u]);
                assert(node.slots()[u] == keyed[u]);
                assert(keyed[u] == marked[u + t]);
                assert(node.slots()[m + u] == keyed[m + u + t]);
                assert(keyed[m + u + t] == marked[m + u + t]);
                if u > 0 {
                    assert(left[u] == list[t + u]);
                    assert(before.keys[t + u] == slots(start, m as nat)[t + u]);
                    assert(before.vals[t + u] == slots(start, m as nat)[m + t + u]);
                }
            }
            assert(entries(after) =~= left);
        }
        Ok((Some(k), header.next))
    } else {
        proof {
            assert(live_at(list, n as int));
            lemma_first_live(list, n as int);
        }
        node.set_num_keys(0);
        proof {
            assert(entries(node.image()) =~= popped(list));
        }
        Ok((None, header.next))
    }
}

/// What became of a block that was given back to a leaf.
#[derive(Debug, Clone, Copy, PartialEq, Eq)]
pub enum Pushed {
    /// The leaf took the block.
    Done,
    /// Every key of the leaf is at the block or below it, and the leaf has a
    /// sibling: the block belongs further on, to that sibling.
    Onward(u64),
    /// The block belongs into the leaf as an entry of its own, but the leaf
    /// is full: it holds one key less than the fan-out.
    Full,
    /// The entry in front of the place of the block holds the block already.
    Held,
}

/// Gives the block `idx` back to the leaf in `block`, at the place in front
/// of the first entry whose key is above `idx`: an entry that ends at `idx`
/// or starts right behind it takes the block, else the block becomes an
/// entry of its own. A leaf whose keys are all at `idx` or below and which
/// has a sibling passes the block on. A block that the entry in front of its
/// place holds already is not taken.
pub fn push_leaf<D: BlockDevice, C: Cache<Vec<u8>>>(ioc: &mut IOContext<D, C>, m: u64, block: u64, idx: u64) -> (r:
    Result<Pushed, BPTreeError>)
    requires
        old(ioc).wf(),
        block < old(ioc)@.len(),
        well_sized(old(ioc).block_len(), m),
        node_at(old(ioc)@, m, block).num_keys <= m,
        idx < u64::MAX,
        forall|t: int|
            0 <= t < node_at(old(ioc)@, m, block).num_keys ==> (#[trigger] entries(node_at(old(ioc)@, m, block))[t]).1
                < u64::MAX,
    ensures
        kept(old(ioc), final(ioc)),
        r is Err ==> final(ioc)@ == old(ioc)@,
        r matches Err(e) ==> is_disk_failure(e),
        old(ioc).dependable() ==> r is Ok,
        r matches Ok(out) ==> {
            let before = node_at(old(ioc)@, m, block);
            let after = node_at(final(ioc)@, m, block);
            let list = entries(before);
            let t = ahead(list, idx);
            &&& only_block_changed(old(ioc)@, final(ioc)@, block)
            &&& after.next == before.next
            &&& after.is_leaf == before.is_leaf
            &&& ahead_at(list, t, idx)
            &&& out is Held <==> holds_at(list, t, idx)
            &&& match out {
                Pushed::Held => final(ioc)@ == old(ioc)@,
                Pushed::Onward(next) => t == list.len() && before.next != NO_BLOCK && next == before.next && final(ioc)@
                    == old(ioc)@,
                Pushed::Full => (t < list.len() || before.next == NO_BLOCK) && !meets_left(list, t, idx) && !meets_right(
                    list,
                    t,
                    idx,
                ) && list.len() + 1 >= m && final(ioc)@ == old(ioc)@,
                Pushed::Done => (t < list.len() || before.next == NO_BLOCK) && entries(after) == given_back(list, t, idx)
                    && (before.num_keys < m ==> after.num_keys < m) && (meets_left(list, t, idx) || meets_right(
                    list,
                    t,
                    idx,
                ) || list.len() + 1 < m),
            }
        },
{
    proof {
        ioc.lemma_geometry();
    }
    let ghost shown = ioc@;
    let ghost before = node_at(shown, m, block);
    let mut handle = match ioc.get_mut(block) {
        Ok(handle) => handle,
        Err(e) => {
            return Err(BPTreeError::DiskError(e));
        },
    };
    let mut node = match NodeViewMut::get_from_bytes(handle.get(), m) {
        Ok(node) => node,
        Err(e) => {
            proof {
                assert(shown.update(block as int, shown[block as int]) =~= shown);
            }
            return Err(BPTreeError::NodeParseError(e));
        },
    };
    let ghost start = node.content();
    proof {
        lemma_well_sized(start.len(), m);
        lemma_slots(start, m as nat);
        assert(start == shown[block as int]);
        assert(node.image() == before);
    }
    let header = node.header();
    let n = header.num_keys;
    let ghost list = entries(before);
    let mut t: u64 = 0;
    while t < n && node.key(t) <= idx
        invariant
            node.wf(),
            node.m == m,
            node.image() == before,
            n == before.num_keys,
            n <= m,
            t <= n,
            list == entries(before),
            forall|u: int| 0 <= u < t ==> (#[trigger] list[u]).0 <= idx,
        decreases n - t,
    {
        t = t + 1;
    }
    proof {
        if t < n {
            assert(list[t as int].0 == before.keys[t as int]);
        }
        assert(ahead_at(list, t as int, idx));
        lemma_ahead(list, t as int, idx);
    }
    if t > 0 {
        let k = node.key(t - 1);
        let v = node.val(t - 1);
        proof {
            assert(list[t - 1] == (k, v));
        }
        if idx - k < v {
            proof {
                assert(shown.update(block as int, shown[block as int]) =~= shown);
            }
            return Ok(Pushed::Held);
        }
    }
    if t == n && header.next != NO_BLOCK {
        proof {
            assert(shown.update(block as int, shown[block as int]) =~= shown);
        }
        return Ok(Pushed::Onward(header.next));
    }
    if t > 0 {
        let k = node.key(t - 1);
        let v = node.val(t - 1);
        proof {
            assert(list[t - 1] == (k, v));
        }
        if k <= idx && idx - k == v {
            node.set_val(t - 1, v + 1);
            proof {
                assert(entries(node.image()) =~= given_back(list, t as int, idx));
            }
            return Ok(Pushed::Done);
        }
    }
    if t < n {
        let k = node.key(t);
        let v = node.val(t);
        proof {
            assert(list[t as int] == (k, v));
        }
        if k == idx + 1 {
            node.set_key(t, idx);
            node.set_val(t, v + 1);
            proof {
                assert(entries(node.image()) =~= given_back(list, t as int, idx));
            }
            return Ok(Pushed::Done);
        }
    }
    if n + 1 < m {
        node.shift_up(t, n);
        node.shift_up(m + t, m + n);
        node.set_slot(t, idx);
        node.set_slot(m + t, 1);
        node.set_num_keys(n + 1);
        proof {
            lemma_slots(node.content(), m as nat);
            let after = node.image();
            let want = given_back(list, t as int, idx);
            assert(entries(after).len() == want.len());
            assert forall|u: int| 0 <= u < n + 1 implies entries(after)[u] == want[u] by {
                assert(after.keys[u] == node.slots()[u]);
                assert(after.vals[u] == node.slots()[m + u]);
                if u < t {
                    assert(before.keys[u] == slots(start, m as nat)[u]);
                    assert(before.vals[u] == slots(start, m as nat)[m + u]);
                } else if u > t {
                    assert(before.keys[u - 1] == slots(start, m as nat)[u - 1]);
                    assert(before.vals[u - 1] == slots(start, m as nat)[m + u - 1]);
                }
            }
            assert(entries(after) =~= want);
        }
        return Ok(Pushed::Done);
    }
    proof {
        assert(shown.update(block as int, shown[block as int]) =~= shown);
    }
    Ok(Pushed::Full)
}

} // verus!
