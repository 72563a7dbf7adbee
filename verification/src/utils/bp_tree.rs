use vstd::prelude::*;
use crate::block_allocator::BlockAllocateError;
use crate::block_allocator::BlockAllocator;
use crate::block_allocator::same_outside;
use crate::block_device::BlockDevice;
use crate::block_device::BlockDeviceError;
use crate::io_context::IOContext;
use crate::io_context::lemma_admitted;
use crate::io_context::no_new_dirt;
use crate::io_context::same_device;
use crate::utils::cache::Cache;
use block_ops::add_separator;
use block_ops::copy_block;
use block_ops::find_child;
use block_ops::init_leaf;
use block_ops::init_root;
use block_ops::is_disk_failure;
use block_ops::kept;
use block_ops::leaf_put;
use block_ops::pop_leaf;
use block_ops::push_leaf;
use block_ops::Pushed;
use block_ops::read_header;
use block_ops::rewrite_outcome;
use block_ops::truncate_left;
use block_ops::write_right;
use bp_tree_node::image;
use bp_tree_node::NO_BLOCK;
use bp_tree_node::NodeParseError;
use bp_tree_node::NodeView;
use bp_tree_node::well_sized;
use chain::ahead;
use chain::chained;
use chain::entries;
use chain::extents;
use chain::first_live;
use chain::front;
use chain::lemma_extents_frame;
use chain::lemma_extents_split;
use chain::lemma_first_live_exists;
use chain::lemma_popped_behind_zeros;
use chain::lemma_popped_in_front;
use chain::lemma_prefix_emptied;
use chain::lemma_one_stop;
use chain::popped;
use chain::pushed_at;
use chain::stops_at;
use chain::trimmed;
use chain::walked;
use chain::wedged;
use extent::covered;
use extent::divides;
use extent::gained;
use extent::given_back_to;
use extent::lemma_count_below;
use extent::lemma_divides_clear;
use extent::lemma_pushed_done;
use extent::lemma_pushed_full;
use extent::lemma_pushed_held;
use extent::lemma_pushed_onward;
use extent::passed;
use extent::tidy;
use leaves::assoc;
use leaves::rising;
use search::lower_bound;
use search::upper_bound;
use shape::capped;
use shape::crowded;
use shape::forked;
use split::first_split;
use split::lemma_first_split;
use shape::home;
use shape::kid_hi;
use shape::put_image;
use block_ops::only_block_changed;
use shape::kid_lo;
use shape::kid_next;
use shape::lemma_frame;
use shape::lemma_in_range;
use shape::lemma_leaf_lookup;
use shape::lemma_leaf_put;
use shape::lemma_route;
use shape::left_image;
use shape::lookup;
use shape::parent_image;
use shape::rank;
use shape::right_image;
use shape::node_at;
use shape::route;
use shape::Shape;
use shape::valid;
use split::lemma_kid_replaced;
use split::lemma_new_root;
use split::lemma_split_inner;
use split::lemma_split_leaf;
use split::lemma_split_parent;
use split::middle_key;
use split::split_parent;
use split::with_kid;

pub mod block_ops;
pub mod bp_tree_node;
pub mod chain;
pub mod extent;
pub mod leaves;
pub mod node_ops;
pub mod search;
pub mod shape;
pub mod split;

verus! {

/// Why an operation on a tree failed.
#[derive(Debug)]
pub enum BPTreeError {
    FailedToSplit,
    DiskError(BlockDeviceError),
    NodeParseError(NodeParseError),
    AllocateError(BlockAllocateError),
    EmptyTree,
}

impl From<BlockDeviceError> for BPTreeError {
    fn from(e: BlockDeviceError) -> (r: BPTreeError)
        ensures
            r == BPTreeError::DiskError(e),
    {
        BPTreeError::DiskError(e)
    }
}

impl vstd::std_specs::convert::FromSpecImpl<BlockDeviceError> for BPTreeError {
    open spec fn obeys_from_spec() -> bool {
        true
    }

    open spec fn from_spec(e: BlockDeviceError) -> BPTreeError {
        BPTreeError::DiskError(e)
    }
}

impl From<NodeParseError> for BPTreeError {
    fn from(e: NodeParseError) -> (r: BPTreeError)
        ensures
            r == BPTreeError::NodeParseError(e),
    {
        BPTreeError::NodeParseError(e)
    }
}

impl vstd::std_specs::convert::FromSpecImpl<NodeParseError> for BPTreeError {
    open spec fn obeys_from_spec() -> bool {
        true
    }

    open spec fn from_spec(e: NodeParseError) -> BPTreeError {
        BPTreeError::NodeParseError(e)
    }
}

impl From<BlockAllocateError> for BPTreeError {
    fn from(e: BlockAllocateError) -> (r: BPTreeError)
        ensures
            r == BPTreeError::AllocateError(e),
    {
        BPTreeError::AllocateError(e)
    }
}

impl vstd::std_specs::convert::FromSpecImpl<BlockAllocateError> for BPTreeError {
    open spec fn obeys_from_spec() -> bool {
        true
    }

    open spec fn from_spec(e: BlockAllocateError) -> BPTreeError {
        BPTreeError::AllocateError(e)
    }
}

/// What stands behind a failure of an operation that takes blocks from an
/// allocator with the blocks `reach`, on a device of `count` blocks: the
/// allocator has no block; or the block that it handed out, which the error
/// names, is no block of the device; or, on a device that is not dependable,
/// the backing store failed.
pub open spec fn refusal(e: BPTreeError, dependable: bool, count: nat, reach: Set<u64>) -> bool {
    ||| e == BPTreeError::AllocateError(BlockAllocateError::NoFreeBlocks)
    ||| e matches BPTreeError::DiskError(d) && d is IOError && !dependable
    ||| e matches BPTreeError::DiskError(BlockDeviceError::IdxOutOfRange { idx, .. }) && idx >= count && reach.contains(
        idx,
    )
}

/// One above the greatest key.
pub open spec fn key_end() -> int {
    0x1_0000_0000_0000_0000
}

/// A map from 64-bit keys to 64-bit values, kept in blocks of a device: one
/// node in one block.
pub struct BPTree<A> {
    root_block: Option<u64>,
    first_leaf: u64,
    allocator: Option<A>,
    m: u64,
    shape: Ghost<Option<Shape>>,
    level: Ghost<nat>,
}

impl<A: BlockAllocator> BPTree<A> {
    /// The fan-out: the number of key slots of a node.
    pub closed spec fn fan_out(&self) -> u64 {
        self.m
    }

    /// The block of the root; none in an empty tree.
    pub closed spec fn root(&self) -> Option<u64> {
        self.root_block
    }

    /// The block where the chain of leaves starts.
    pub closed spec fn first(&self) -> u64 {
        self.first_leaf
    }

    /// The allocator that the tree takes its blocks from.
    pub closed spec fn allocator(&self) -> Option<A> {
        self.allocator
    }

    /// The blocks of the tree and how they hang together.
    pub closed spec fn shape(&self) -> Option<Shape> {
        self.shape@
    }

    /// The number of levels above the leaves.
    pub closed spec fn height(&self) -> nat {
        self.level@
    }

    /// The blocks `shown` hold this tree: a search tree of fan-out at least 3
    /// under the root, with every key of a node's range in the child that the
    /// node sends it to, at most `m - 1` keys in a node, and the leaves
    /// chained from left to right.
    pub open spec fn wf(&self, shown: Seq<Seq<u8>>) -> bool {
        &&& self.fan_out() >= 3
        &&& shown.len() <= u64::MAX
        &&& match self.shape() {
            None => self.root() is None && self.first() == NO_BLOCK,
            Some(shape) => {
                &&& self.root() == Some(shape.block())
                &&& self.first() == shape.first_leaf()
                &&& valid(shown, self.fan_out(), shape, self.height(), 0, key_end(), NO_BLOCK)
            },
        }
    }

    /// The value that the tree has for `key` in the blocks `shown`.
    pub open spec fn found(&self, shown: Seq<Seq<u8>>, key: u64) -> Option<u64> {
        match self.shape() {
            None => None,
            Some(shape) => lookup(shown, self.fan_out(), shape, key),
        }
    }

    /// The map that the tree holds in the blocks `shown`.
    pub open spec fn mapping(&self, shown: Seq<Seq<u8>>) -> Map<u64, u64> {
        Map::new(|key: u64| self.found(shown, key) is Some, |key: u64| self.found(shown, key)->Some_0)
    }

    /// No node of the tree holds as many keys as the fan-out.
    pub proof fn lemma_fan_out_cap(&self, shown: Seq<Seq<u8>>, b: u64)
        requires
            self.wf(shown),
            self.footprint().contains(b),
        ensures
            node_at(shown, self.fan_out(), b).num_keys < self.fan_out(),
    {
        shape::lemma_fan_out_cap(shown, self.fan_out(), self.shape()->Some_0, self.height(), 0, key_end(), NO_BLOCK, b);
    }

    /// The blocks of the tree.
    pub open spec fn footprint(&self) -> Set<u64> {
        match self.shape() {
            None => Set::empty(),
            Some(shape) => shape.footprint(),
        }
    }

    /// The blocks of the leaves, from left to right.
    pub open spec fn chain(&self) -> Seq<u64> {
        match self.shape() {
            None => Seq::empty(),
            Some(shape) => shape.leaves(),
        }
    }

    /// The chain of leaves is sound in the blocks `shown`: it starts at the
    /// first leaf, and each leaf is a block of the device with a node whose
    /// sibling is the leaf that follows.
    pub open spec fn chain_ok(&self, shown: Seq<Seq<u8>>) -> bool {
        &&& chained(shown, self.fan_out(), self.chain())
        &&& self.first() == (if self.chain().len() > 0 {
            self.chain()[0]
        } else {
            NO_BLOCK
        })
    }

    /// The entries of the leaves in the blocks `shown`, from the first leaf
    /// on.
    pub open spec fn records(&self, shown: Seq<Seq<u8>>) -> Seq<(u64, u64)> {
        extents(shown, self.fan_out(), self.chain(), 0)
    }

    /// No leaf of a sound chain holds as many keys as the fan-out: this holds
    /// of a tree that records extents too, whatever was taken from it and
    /// given back to it.
    pub proof fn lemma_chain_cap(&self, shown: Seq<Seq<u8>>, j: int)
        requires
            self.chain_ok(shown),
            0 <= j < self.chain().len(),
        ensures
            self.chain()[j] < shown.len(),
            node_at(shown, self.fan_out(), self.chain()[j]).num_keys < self.fan_out(),
    {
    }

    /// Each of the children that an inner node of the tree names is a
    /// block of the tree and of the device, and not the node itself.
    pub proof fn lemma_children(&self, shown: Seq<Seq<u8>>, b: u64, j: int)
        requires
            self.wf(shown),
            self.footprint().contains(b),
            node_at(shown, self.fan_out(), b).is_leaf != 1,
            0 <= j <= node_at(shown, self.fan_out(), b).num_keys,
        ensures
            self.footprint().contains(node_at(shown, self.fan_out(), b).vals[j]),
            node_at(shown, self.fan_out(), b).vals[j] < shown.len(),
            node_at(shown, self.fan_out(), b).vals[j] != b,
    {
        shape::lemma_children(shown, self.fan_out(), self.shape()->Some_0, self.height(), 0, key_end(), NO_BLOCK, b, j);
    }

    /// The descent for a key ends at one leaf, which is a block of the tree,
    /// and what the tree has for the key is what that leaf has for it.
    pub proof fn lemma_descent(&self, shown: Seq<Seq<u8>>, key: u64)
        requires
            self.wf(shown),
            self.shape() is Some,
        ensures
            self.footprint().contains(self.home(shown, key)),
            node_at(shown, self.fan_out(), self.home(shown, key)).is_leaf == 1,
            self.found(shown, key) == shape::leaf_lookup(
                node_at(shown, self.fan_out(), self.home(shown, key)).keys,
                node_at(shown, self.fan_out(), self.home(shown, key)).vals,
                node_at(shown, self.fan_out(), self.home(shown, key)).num_keys as int,
                key,
            ),
    {
        let shape = self.shape()->Some_0;
        shape::lemma_home(shown, self.fan_out(), shape, self.height(), 0, key_end(), NO_BLOCK, key);
        shape::lemma_lookup_at_home(shown, self.fan_out(), shape, self.height(), 0, key_end(), NO_BLOCK, key);
    }

    /// Who follows the siblings from the first leaf on meets every key of the
    /// tree, each once and with its value, and meets them in rising order.
    pub proof fn lemma_leaf_chain(&self, shown: Seq<Seq<u8>>)
        requires
            self.wf(shown),
        ensures
            self.chain_ok(shown),
            rising(self.records(shown), 0, key_end()),
            forall|k: u64| self.found(shown, k) == assoc(self.records(shown), k),
    {
        match self.shape() {
            None => {
                assert(self.records(shown) =~= Seq::<(u64, u64)>::empty());
            },
            Some(shape) => {
                leaves::lemma_leaf_chain(shown, self.fan_out(), shape, self.height(), 0, key_end(), NO_BLOCK);
                leaves::lemma_leaf_records(shown, self.fan_out(), shape, self.height(), 0, key_end(), NO_BLOCK);
            },
        }
    }

    /// An empty tree for the blocks of `ioc`, which takes its blocks from
    /// `allocator`. The fan-out is `(block size - 24) / 16`.
    pub fn new<D: BlockDevice, C: Cache<Vec<u8>>>(ioc: &IOContext<D, C>, allocator: Option<A>) -> (tree: Self)
        requires
            ioc.wf(),
            ioc.block_len() >= 72,
        ensures
            tree.wf(ioc@),
            tree.fan_out() == (ioc.block_len() - 24) / 16,
            tree.root() is None,
            tree.shape() is None,
            tree.height() == 0,
            tree.first() == NO_BLOCK,
            tree.allocator() == allocator,
            tree.mapping(ioc@) == Map::<u64, u64>::empty(),
    {
        proof {
            ioc.lemma_geometry();
        }
        let tree = Self {
            root_block: None,
            allocator,
            first_leaf: NO_BLOCK,
            m: (ioc.get_disk_block_size() - 24) / 16,
            shape: Ghost(None),
            level: Ghost(0),
        };
        assert(tree.mapping(ioc@) =~= Map::<u64, u64>::empty());
        tree
    }

    /// A tree that records the free blocks of the device behind `ioc`: block
    /// `beg_block` becomes a leaf with the one extent that starts behind it
    /// and runs to the end of the device. The tree has no allocator.
    pub fn new_as_block_manager<D: BlockDevice, C: Cache<Vec<u8>>>(ioc: &mut IOContext<D, C>, beg_block: u64) -> (r:
        Result<Self, BPTreeError>)
        requires
            old(ioc).wf(),
            old(ioc).block_len() >= 72,
        ensures
            rewrite_outcome(
                old(ioc),
                final(ioc),
                match r {
                    Ok(_) => Ok(()),
                    Err(e) => Err(e),
                },
                ((old(ioc).block_len() - 24) / 16) as u64,
                beg_block,
            ),
            r matches Ok(tree) ==> {
                &&& tree.fan_out() == (old(ioc).block_len() - 24) / 16
                &&& tree.root() == Some(beg_block)
                &&& tree.first() == beg_block
                &&& tree.allocator() is None
                &&& tree.shape() == Some(Shape::Leaf { block: beg_block })
                &&& tree.wf(final(ioc)@)
                &&& tree.chain_ok(final(ioc)@)
                &&& tree.records(final(ioc)@) == seq![((beg_block + 1) as u64, (old(ioc)@.len() - beg_block - 1) as u64)]
                &&& node_at(final(ioc)@, tree.fan_out(), beg_block).is_leaf == 1
                &&& node_at(final(ioc)@, tree.fan_out(), beg_block).num_keys == 1
                &&& node_at(final(ioc)@, tree.fan_out(), beg_block).next == NO_BLOCK
            },
    {
        proof {
            ioc.lemma_geometry();
        }
        let ghost s0 = ioc@;
        let size = ioc.get_disk_block_size();
        let m = (size - 24) / 16;
        let count = ioc.get_disk_capacity() / size;
        proof {
            assert((s0.len() * size) / (size as int) == s0.len()) by (nonlinear_arith)
                requires
                    size > 0,
            ;
        }
        if beg_block >= count {
            return Err(
                BPTreeError::DiskError(crate::block_device::BlockDeviceError::IdxOutOfRange { idx: beg_block, max: count }),
            );
        }
        match init_leaf(ioc, m, beg_block, beg_block + 1, count - beg_block - 1) {
            Ok(()) => {},
            Err(e) => {
                return Err(e);
            },
        }
        let tree = Self {
            root_block: Some(beg_block),
            first_leaf: beg_block,
            allocator: None,
            m,
            shape: Ghost(Some(Shape::Leaf { block: beg_block })),
            level: Ghost(0),
        };
        proof {
            let s1 = ioc@;
            let chain = tree.chain();
            assert(chain =~= seq![beg_block]);
            let node = node_at(s1, m, beg_block);
            assert(extents(s1, m, chain, 1) =~= Seq::<(u64, u64)>::empty());
            assert(extents(s1, m, chain, 0) =~= entries(node) + extents(s1, m, chain, 1));
            assert(entries(node) =~= seq![((beg_block + 1) as u64, (s0.len() - beg_block - 1) as u64)]);
            assert(tree.records(s1) =~= seq![((beg_block + 1) as u64, (s0.len() - beg_block - 1) as u64)]);
        }
        Ok(tree)
    }

    /// The fan-out.
    pub fn get_m(&self) -> (m: u64)
        ensures
            m == self.fan_out(),
    {
        self.m
    }

    /// The value under `key`, if the tree has one.
    pub fn get<D: BlockDevice, C: Cache<Vec<u8>>>(&self, ioc: &mut IOContext<D, C>, key: u64) -> (r: Result<
        Option<u64>,
        BPTreeError,
    >)
        requires
            old(ioc).wf(),
            self.wf(old(ioc)@),
        ensures
            final(ioc).wf(),
            final(ioc)@ == old(ioc)@,
            same_device(old(ioc).device(), final(ioc).device()),
            final(ioc).pool().limit() == old(ioc).pool().limit(),
            no_new_dirt(old(ioc).buffers(), final(ioc).buffers()),
            r matches Ok(v) ==> v == self.found(old(ioc)@, key) && v == self.mapping(old(ioc)@).get(key),
            r matches Err(e) ==> e is DiskError && e->DiskError_0 is IOError,
            old(ioc).dependable() || self.root() is None ==> r is Ok,
            self.root() is None ==> *final(ioc) == *old(ioc),
    {
        let mut cur = match self.root_block {
            Some(root) => root,
            None => {
                return Ok(None);
            },
        };
        let ghost shown = ioc@;
        let ghost mut shape = self.shape@->Some_0;
        let ghost mut level = self.level@;
        let ghost mut lo = 0int;
        let ghost mut hi = key_end();
        let ghost mut nxt = NO_BLOCK;
        loop
            invariant
                ioc.wf(),
                ioc@ == shown,
                shown == old(ioc)@,
                same_device(old(ioc).device(), ioc.device()),
                ioc.pool().limit() == old(ioc).pool().limit(),
                no_new_dirt(old(ioc).buffers(), ioc.buffers()),
                self.root() is Some,
                valid(shown, self.m, shape, level, lo, hi, nxt),
                shape.block() == cur,
                lookup(shown, self.m, shape, key) == self.found(shown, key),
            decreases level,
        {
            let block = match ioc.get(cur) {
                Ok(block) => block,
                Err(e) => {
                    return Err(BPTreeError::DiskError(e));
                },
            };
            let node = match NodeView::get_from_bytes(block.get(), self.m) {
                Ok(node) => node,
                Err(e) => {
                    return Err(BPTreeError::NodeParseError(e));
                },
            };
            let header = node.header();
            let n = header.num_keys;
            if header.is_leaf == 1 {
                let idx = lower_bound(&node, n, key);
                proof {
                    lemma_leaf_lookup(node.image().keys, node.image().vals, n as int, key);
                }
                if idx < n && node.key(idx) == key {
                    return Ok(Some(node.val(idx)));
                }
                return Ok(None);
            }
            let idx = upper_bound(&node, n, key);
            cur = node.val(idx);
            proof {
                let image = node_at(shown, self.m, shape.block());
                let kids = shape->Inner_kids;
                lemma_route(image.keys, n as int, key);
                let kid = kids[idx as int];
                lo = kid_lo(image, lo, idx as int);
                hi = kid_hi(image, hi, idx as int);
                nxt = kid_next(kids, nxt, idx as int);
                level = (level - 1) as nat;
                shape = kid;
            }
        }
    }

    /// The allocator is well formed over `shown` and keeps out of `blocks`.
    pub open spec fn supplied(&self, shown: Seq<Seq<u8>>, blocks: Set<u64>) -> bool {
        &&& self.allocator() matches Some(a)
        &&& a.wf(shown)
        &&& a.reach(shown).disjoint(blocks)
    }

    /// The reach of the allocator.
    pub open spec fn reach(&self, shown: Seq<Seq<u8>>) -> Set<u64> {
        match self.allocator() {
            Some(a) => a.reach(shown),
            None => Set::empty(),
        }
    }

    /// How many blocks the allocator is sure to supply.
    pub open spec fn supply(&self, shown: Seq<Seq<u8>>) -> nat {
        match self.allocator() {
            Some(a) => a.supply(shown),
            None => 0,
        }
    }

    /// Nothing but the allocator changed.
    pub open spec fn same_tree(&self, now: &Self) -> bool {
        &&& now.fan_out() == self.fan_out()
        &&& now.root() == self.root()
        &&& now.first() == self.first()
        &&& now.shape() == self.shape()
        &&& now.height() == self.height()
        &&& now.allocator() is Some == self.allocator() is Some
    }

    /// What the allocator and the blocks are after the tree worked on
    /// `blocks` and took blocks from the allocator: the allocator is well
    /// formed, its reach did not grow, and nothing changed outside `blocks`
    /// and the former reach.
    pub open spec fn worked(&self, now: &Self, shown: Seq<Seq<u8>>, shown_now: Seq<Seq<u8>>, blocks: Set<u64>) -> bool {
        &&& self.same_tree(now)
        &&& now.allocator() matches Some(a) && a.wf(shown_now)
        &&& now.reach(shown_now).subset_of(self.reach(shown))
        &&& same_outside(shown, shown_now, blocks.union(self.reach(shown)))
    }

    /// What the allocator and the blocks are after the tree worked on
    /// `blocks`, with or without an allocator: the reach did not grow,
    /// nothing changed outside `blocks` and the former reach, and an
    /// allocator that was well formed is so still.
    pub open spec fn stepped(&self, now: &Self, shown: Seq<Seq<u8>>, shown_now: Seq<Seq<u8>>, blocks: Set<u64>) -> bool {
        &&& self.same_tree(now)
        &&& now.reach(shown_now).subset_of(self.reach(shown))
        &&& same_outside(shown, shown_now, blocks.union(self.reach(shown)))
        &&& self.allocator() is Some ==> now.allocator() is Some && now.allocator()->Some_0.wf(shown_now)
        &&& self.allocator() is None ==> now.allocator() is None
    }

    /// Whether putting `key` takes a block: the tree is empty, or its root
    /// or a node on the way to the leaf of `key` is full.
    pub open spec fn needs_block(&self, shown: Seq<Seq<u8>>, key: u64) -> bool {
        match self.shape() {
            None => true,
            Some(shape) => node_at(shown, self.fan_out(), shape.block()).num_keys >= self.fan_out() - 1 || crowded(
                shown,
                self.fan_out(),
                shape,
                key,
            ),
        }
    }

    /// The block of the leaf that `key` belongs to.
    pub open spec fn home(&self, shown: Seq<Seq<u8>>, key: u64) -> u64 {
        match self.shape() {
            None => NO_BLOCK,
            Some(shape) => home(shown, self.fan_out(), shape, key),
        }
    }

    /// Takes a block from the allocator; a tree without an allocator takes
    /// the first block of its own first extent.
    fn alloc_block<D: BlockDevice, C: Cache<Vec<u8>>>(&mut self, ioc: &mut IOContext<D, C>) -> (r: Result<
        u64,
        BPTreeError,
    >)
        requires
            old(ioc).wf(),
            match old(self).allocator() {
                Some(a) => a.wf(old(ioc)@),
                None => old(self).chain_ok(old(ioc)@),
            },
        ensures
            kept(old(ioc), final(ioc)),
            old(self).same_tree(final(self)),
            old(self).allocator() is Some ==> {
                &&& old(self).worked(final(self), old(ioc)@, final(ioc)@, Set::empty())
                &&& r matches Ok(block) ==> old(self).reach(old(ioc)@).contains(block) && !final(self).reach(
                    final(ioc)@,
                ).contains(block)
                &&& r matches Err(e) ==> e == BPTreeError::AllocateError(BlockAllocateError::NoFreeBlocks)
                &&& old(ioc).dependable() && old(self).supply(old(ioc)@) > 0 ==> r is Ok && r->Ok_0 < old(ioc)@.len()
                    && final(self).supply(final(ioc)@) == old(self).supply(old(ioc)@) - 1
            },
            old(self).allocator() is None ==> {
                &&& final(self).chain_ok(final(ioc)@)
                &&& same_outside(old(ioc)@, final(ioc)@, old(self).chain().to_set())
                &&& r matches Ok(block) ==> front(old(self).records(old(ioc)@)) == Some(block) && final(self).records(
                    final(ioc)@,
                ) == popped(old(self).records(old(ioc)@))
                &&& r matches Err(e) ==> e is EmptyTree || is_disk_failure(e)
                &&& old(self).chain().len() == 0 ==> r is Err && r->Err_0 is EmptyTree && final(ioc)@ == old(ioc)@
            },
    {
        if self.allocator.is_none() {
            return self.pop_first_extent_block(ioc);
        }
        match &mut self.allocator {
            Some(a) => match a.alloc_block(ioc) {
                Ok(block) => Ok(block),
                Err(e) => Err(BPTreeError::AllocateError(e)),
            },
            None => vstd::pervasive::unreached(),
        }
    }

    /// Splits the full child `child` of the inner node `father`. A block is
    /// taken for a new node. The child keeps the entries below its middle
    /// key; the new node takes the others: in a leaf from the middle key on,
    /// in an inner node from behind the middle key on, with the children
    /// that hang there. The new node takes the sibling of the child, and the
    /// child gets the new node as its sibling. `father` takes the middle key
    /// at the place that keeps its keys sorted, with the new node behind it.
    /// Hands back the tree as it is afterwards and the block of the new node.
    #[verifier::spinoff_prover]
    #[verifier::rlimit(100)]
    fn split_node<D: BlockDevice, C: Cache<Vec<u8>>>(
        &mut self,
        ioc: &mut IOContext<D, C>,
        father: u64,
        child: u64,
        Ghost(shape): Ghost<Shape>,
        Ghost(i): Ghost<int>,
        Ghost(level): Ghost<nat>,
        Ghost(lo): Ghost<int>,
        Ghost(hi): Ghost<int>,
        Ghost(nxt): Ghost<u64>,
    ) -> (r: Result<(Ghost<Shape>, u64), BPTreeError>)
        requires
            old(ioc).wf(),
            old(self).fan_out() >= 3,
            shape is Inner,
            shape.block() == father,
            valid(old(ioc)@, old(self).fan_out(), shape, level, lo, hi, nxt),
            0 <= i < shape->Inner_kids.len(),
            shape->Inner_kids[i].block() == child,
            node_at(old(ioc)@, old(self).fan_out(), father).num_keys < old(self).fan_out() - 1,
            node_at(old(ioc)@, old(self).fan_out(), child).num_keys == old(self).fan_out() - 1,
            old(self).supplied(old(ioc)@, shape.footprint()),
        ensures
            kept(old(ioc), final(ioc)),
            old(self).worked(final(self), old(ioc)@, final(ioc)@, shape.footprint()),
            r matches Ok(done) ==> {
                let out = done.0@;
                let fresh = done.1;
                let m = old(self).fan_out();
                &&& old(self).reach(old(ioc)@).contains(fresh)
                &&& !final(self).reach(final(ioc)@).contains(fresh)
                &&& !shape.footprint().contains(fresh)
                &&& out == split_parent(shape, i, fresh)
                &&& right_image(node_at(old(ioc)@, m, child), node_at(final(ioc)@, m, fresh))
                &&& left_image(node_at(old(ioc)@, m, child), node_at(final(ioc)@, m, child), fresh)
                &&& parent_image(
                    node_at(old(ioc)@, m, father),
                    node_at(final(ioc)@, m, father),
                    middle_key(old(ioc)@, m, child),
                    fresh,
                )
                &&& rank(
                    node_at(old(ioc)@, m, father).keys,
                    node_at(old(ioc)@, m, father).num_keys as int,
                    middle_key(old(ioc)@, m, child),
                ) == i
                &&& forall|b: u64|
                    b < old(ioc)@.len() && b != father && b != child && !old(self).reach(old(ioc)@).contains(b)
                        ==> final(ioc)@[b as int] == old(ioc)@[b as int]
                &&& out is Inner
                &&& out.block() == father
                &&& out->Inner_kids.len() == shape->Inner_kids.len() + 1
                &&& valid(final(ioc)@, m, out, level, lo, hi, nxt)
                &&& out.first_leaf() == shape.first_leaf()
                &&& forall|k: u64| lookup(final(ioc)@, m, out, k) == lookup(old(ioc)@, m, shape, k)
                &&& forall|b: u64| out.footprint().contains(b) <==> shape.footprint().contains(b) || b == fresh
                &&& forall|q: int|
                    (q == i || q == i + 1) ==> node_at(final(ioc)@, m, (#[trigger] out->Inner_kids[q]).block()).num_keys < m
                        - 1
                &&& node_at(final(ioc)@, m, father).num_keys == node_at(old(ioc)@, m, father).num_keys + 1
                &&& forall|k: u64|
                    route(node_at(old(ioc)@, m, father).keys, node_at(old(ioc)@, m, father).num_keys as int, k) == i ==> {
                        let at = #[trigger] route(
                            node_at(final(ioc)@, m, father).keys,
                            node_at(final(ioc)@, m, father).num_keys as int,
                            k,
                        );
                        at == i || at == i + 1
                    }
            },
            r matches Err(e) ==> refusal(e, old(ioc).dependable(), old(ioc)@.len(), old(self).reach(old(ioc)@)),
            r is Err && old(ioc).pool().limit() >= 3 ==> {
                &&& valid(final(ioc)@, old(self).fan_out(), shape, level, lo, hi, nxt)
                &&& forall|k: u64|
                    lookup(final(ioc)@, old(self).fan_out(), shape, k) == lookup(old(ioc)@, old(self).fan_out(), shape, k)
            },
            r is Err ==> capped(final(ioc)@, old(self).fan_out(), shape.footprint()),
            old(self).fan_out() >= 4 && forked(old(ioc)@, old(self).fan_out(), shape.footprint().remove(father)) ==> {
                &&& forked(final(ioc)@, old(self).fan_out(), shape.footprint().remove(father))
                &&& r matches Ok(done) ==> forked(final(ioc)@, old(self).fan_out(), done.0@.footprint())
            },
            r is Err ==> final(ioc)@[father as int] == old(ioc)@[father as int],
            old(ioc).dependable() && old(self).supply(old(ioc)@) > 0 ==> r is Ok && final(self).supply(final(ioc)@)
                == old(self).supply(old(ioc)@) - 1,
    {
        let m = self.m;
        let ghost s0 = ioc@;
        let ghost kid = shape->Inner_kids[i];
        proof {
            ioc.lemma_geometry();
            lemma_in_range(s0, m, shape, level, lo, hi, nxt);
            shape::lemma_footprint(shape);
        }
        let taken = self.alloc_block(ioc);
        let ghost s1 = ioc@;
        let ghost a1 = self.allocator->Some_0;
        proof {
            ioc.lemma_geometry();
            assert forall|b: u64| shape.footprint().contains(b) implies s1[b as int] == s0[b as int] by {
                assert(!old(self).reach(s0).contains(b));
            }
            lemma_frame(s0, s1, m, shape, level, lo, hi, nxt);
            shape::lemma_footprint(kid);
            assert(shape.footprint().contains(child));
            let p = node_at(s1, m, father);
            assert(valid(s1, m, kid, (level - 1) as nat, kid_lo(p, lo, i), kid_hi(p, hi, i), kid_next(shape->Inner_kids, nxt, i)));
            shape::lemma_capped(s1, m, shape, level, lo, hi, nxt);
            if forked(s0, m, shape.footprint().remove(father)) {
                shape::lemma_forked_still(s0, s1, m, shape.footprint().remove(father));
            }
        }
        let fresh = match taken {
            Ok(block) => block,
            Err(e) => {
                return Err(e);
            },
        };
        assert(!shape.footprint().contains(fresh));
        let ghost limit = ioc.pool().limit();
        let ghost o0 = ioc.pool().order();
        match read_header(ioc, m, father) {
            Ok(_) => {},
            Err(e) => {
                return Err(e);
            },
        }
        let ghost o1 = ioc.pool().order();
        proof {
            ioc.lemma_geometry();
        }
        let source = match copy_block(ioc, child) {
            Ok(source) => source,
            Err(e) => {
                return Err(e);
            },
        };
        let ghost o2 = ioc.pool().order();
        proof {
            ioc.lemma_geometry();
        }
        let sep = match NodeView::get_from_bytes(source.as_slice(), m) {
            Ok(full) => {
                let n = full.header().num_keys;
                full.key(n / 2)
            },
            Err(e) => {
                return Err(BPTreeError::NodeParseError(e));
            },
        };
        match write_right(ioc, m, fresh, &source) {
            Ok(()) => {},
            Err(e) => {
                return Err(e);
            },
        }
        let ghost s2 = ioc@;
        let ghost o3 = ioc.pool().order();
        proof {
            ioc.lemma_geometry();
            a1.lemma_frame(s1, s2);
            if limit >= 3 {
                // the father and the child were used just before: they are
                // in the pool still
                lemma_admitted(o0, limit, father, father, 0);
                lemma_admitted(o1, limit, child, father, 1);
                lemma_admitted(o2, limit, fresh, father, 2);
                lemma_admitted(o2, limit, fresh, child, 1);
                lemma_admitted(o2, limit, fresh, father, 3);
                lemma_admitted(o2, limit, fresh, child, 2);
                assert(o3.contains(child));
                assert(o3.contains(father));
            }
        }
        match truncate_left(ioc, m, child, fresh) {
            Ok(()) => {},
            Err(e) => {
                proof {
                    shape::lemma_capped_still(s1, s2, m, shape.footprint());
                    if forked(s0, m, shape.footprint().remove(father)) {
                        shape::lemma_forked_still(s1, s2, m, shape.footprint().remove(father));
                    }
                }
                return Err(e);
            },
        }
        let ghost s3 = ioc@;
        proof {
            ioc.lemma_geometry();
            a1.lemma_frame(s2, s3);
            if limit >= 3 {
                lemma_admitted(o3, limit, child, father, 0);
            }
        }
        match add_separator(ioc, m, father, sep, fresh) {
            Ok(()) => {},
            Err(e) => {
                proof {
                    shape::lemma_capped_still(s1, s2, m, shape.footprint());
                    shape::lemma_capped_still(s2, s3, m, shape.footprint());
                    if forked(s0, m, shape.footprint().remove(father)) {
                        shape::lemma_forked_still(s1, s2, m, shape.footprint().remove(father));
                        shape::lemma_forked_still(s2, s3, m, shape.footprint().remove(father));
                    }
                }
                return Err(e);
            },
        }
        let ghost s4 = ioc@;
        proof {
            a1.lemma_frame(s3, s4);
            let p = node_at(s1, m, father);
            assert(s4[fresh as int] == s2[fresh as int]);
            assert(s4[child as int] == s3[child as int]);
            assert(s2[child as int] == s1[child as int]);
            assert(s3[father as int] == s1[father as int]);
            assert(sep == middle_key(s1, m, child));
            assert(valid(s1, m, kid, (level - 1) as nat, kid_lo(p, lo, i), kid_hi(p, hi, i), kid_next(shape->Inner_kids, nxt, i)));
            assert forall|b: u64|
                shape.footprint().contains(b) && b != father && b != child implies s4[b as int] == s1[b as int] by {
                assert(b != fresh);
                assert(s2[b as int] == s1[b as int]);
                assert(s3[b as int] == s2[b as int]);
                assert(s4[b as int] == s3[b as int]);
            }
            match kid {
                Shape::Leaf { block } => {
                    lemma_split_leaf(s1, s4, m, child, fresh, kid_lo(p, lo, i), kid_hi(p, hi, i), kid_next(shape->Inner_kids, nxt, i));
                },
                Shape::Inner { .. } => {
                    shape::lemma_footprint(kid);
                    assert forall|b: u64| kid.footprint().contains(b) && b != child implies s4[b as int] == s1[b as int] by {
                        assert(shape.footprint().contains(b));
                    }
                    lemma_split_inner(
                        s1,
                        s4,
                        m,
                        kid,
                        fresh,
                        (level - 1) as nat,
                        kid_lo(p, lo, i),
                        kid_hi(p, hi, i),
                        kid_next(shape->Inner_kids, nxt, i),
                    );
                },
            }
            lemma_split_parent(s1, s4, m, shape, i, fresh, level, lo, hi, nxt, sep);
            assert forall|k: u64| lookup(s4, m, split_parent(shape, i, fresh), k) == lookup(s0, m, shape, k) by {
                assert(lookup(s1, m, shape, k) == lookup(s0, m, shape, k));
            }
            assert(s1[child as int] == s0[child as int]);
            assert(s1[father as int] == s0[father as int]);
            assert forall|b: u64|
                b < s0.len() && b != father && b != child && !old(self).reach(s0).contains(b) implies s4[b as int]
                    == s0[b as int] by {
                assert(b != fresh);
                assert(s1[b as int] == s0[b as int]);
                assert(s2[b as int] == s1[b as int]);
                assert(s3[b as int] == s2[b as int]);
                assert(s4[b as int] == s3[b as int]);
            }
        }
        proof {
            if m >= 4 && forked(s0, m, shape.footprint().remove(father)) {
                let out = split_parent(shape, i, fresh);
                shape::lemma_forked_still(s1, s2, m, shape.footprint().remove(father));
                shape::lemma_forked_still(s2, s3, m, shape.footprint().remove(father));
                shape::lemma_forked_still(s3, s4, m, shape.footprint().remove(father));
                assert forall|b: u64| #[trigger] out.footprint().contains(b) implies node_at(s4, m, b).is_leaf == 1
                    || node_at(s4, m, b).num_keys >= 1 by {
                    if b != father && b != fresh {
                        assert(shape.footprint().remove(father).contains(b));
                    }
                }
            }
        }
        Ok((Ghost(split_parent(shape, i, fresh)), fresh))
    }

    /// Gives `key` the value `val` in the tree under `block_idx`, whose
    /// topmost node is not full. A full child on the way is split before the
    /// descent goes on. Hands back the tree as it is afterwards, and whether
    /// the value was put.
    #[verifier::spinoff_prover]
    #[verifier::rlimit(100)]
    fn insert_node<D: BlockDevice, C: Cache<Vec<u8>>>(
        &mut self,
        ioc: &mut IOContext<D, C>,
        block_idx: u64,
        key: u64,
        val: u64,
        Ghost(shape): Ghost<Shape>,
        Ghost(level): Ghost<nat>,
        Ghost(lo): Ghost<int>,
        Ghost(hi): Ghost<int>,
        Ghost(nxt): Ghost<u64>,
    ) -> (r: (Ghost<Shape>, Result<(), BPTreeError>))
        requires
            old(ioc).wf(),
            old(self).fan_out() >= 3,
            shape.block() == block_idx,
            valid(old(ioc)@, old(self).fan_out(), shape, level, lo, hi, nxt),
            lo <= key < hi,
            node_at(old(ioc)@, old(self).fan_out(), block_idx).num_keys < old(self).fan_out() - 1,
            old(self).supplied(old(ioc)@, shape.footprint()) || (old(self).allocator() is None && !crowded(
                old(ioc)@,
                old(self).fan_out(),
                shape,
                key,
            )),
        ensures
            kept(old(ioc), final(ioc)),
            old(self).stepped(final(self), old(ioc)@, final(ioc)@, shape.footprint()),
            !crowded(old(ioc)@, old(self).fan_out(), shape, key) ==> {
                let leaf = home(old(ioc)@, old(self).fan_out(), shape, key);
                &&& r.0@ == shape
                &&& final(self).allocator() == old(self).allocator()
                &&& final(self).supply(final(ioc)@) == old(self).supply(old(ioc)@)
                &&& final(self).reach(final(ioc)@) == old(self).reach(old(ioc)@)
                &&& shape.footprint().contains(leaf)
                &&& r.1 is Err ==> final(ioc)@ == old(ioc)@
                &&& r.1 is Ok ==> only_block_changed(old(ioc)@, final(ioc)@, leaf) && put_image(
                    node_at(old(ioc)@, old(self).fan_out(), leaf),
                    node_at(final(ioc)@, old(self).fan_out(), leaf),
                    key,
                    val,
                )
            },
            r.1 is Ok || old(ioc).pool().limit() >= 3 ==> {
                &&& r.0@.block() == block_idx
                &&& valid(final(ioc)@, old(self).fan_out(), r.0@, level, lo, hi, nxt)
                &&& r.0@.first_leaf() == shape.first_leaf()
                &&& forall|k: u64|
                    lookup(final(ioc)@, old(self).fan_out(), r.0@, k) == (if k == key && r.1 is Ok {
                        Some(val)
                    } else {
                        lookup(old(ioc)@, old(self).fan_out(), shape, k)
                    })
                &&& forall|b: u64|
                    r.0@.footprint().contains(b) ==> shape.footprint().contains(b) || (old(self).reach(old(ioc)@).contains(b)
                        && !final(self).reach(final(ioc)@).contains(b))
            },
            r.1 matches Err(e) ==> refusal(e, old(ioc).dependable(), old(ioc)@.len(), old(self).reach(old(ioc)@)),
            capped(final(ioc)@, old(self).fan_out(), shape.footprint()),
            capped(final(ioc)@, old(self).fan_out(), r.0@.footprint()),
            old(self).fan_out() >= 4 && forked(old(ioc)@, old(self).fan_out(), shape.footprint()) ==> {
                &&& forked(final(ioc)@, old(self).fan_out(), shape.footprint())
                &&& forked(final(ioc)@, old(self).fan_out(), r.0@.footprint())
            },
            old(ioc).dependable() && (old(self).supply(old(ioc)@) >= level || !crowded(
                old(ioc)@,
                old(self).fan_out(),
                shape,
                key,
            )) ==> r.1 is Ok && final(self).supply(final(ioc)@) >= old(self).supply(old(ioc)@) - level,
        decreases level,
    {
        let m = self.m;
        let ghost s0 = ioc@;
        proof {
            ioc.lemma_geometry();
            lemma_in_range(s0, m, shape, level, lo, hi, nxt);
            shape::lemma_footprint(shape);
            shape::lemma_home(s0, m, shape, level, lo, hi, nxt, key);
            shape::lemma_capped(s0, m, shape, level, lo, hi, nxt);
        }
        let header = match read_header(ioc, m, block_idx) {
            Ok(header) => header,
            Err(e) => {
                return (Ghost(shape), Err(e));
            },
        };
        if header.is_leaf == 1 {
            match leaf_put(ioc, m, block_idx, key, val) {
                Ok(()) => {},
                Err(e) => {
                    return (Ghost(shape), Err(e));
                },
            }
            proof {
                lemma_leaf_put(s0, ioc@, m, block_idx, lo, hi, nxt, key, val);
                shape::lemma_capped(ioc@, m, shape, level, lo, hi, nxt);
                if forked(s0, m, shape.footprint()) {
                    shape::lemma_forked_still(s0, ioc@, m, shape.footprint());
                }
                if self.allocator() is Some {
                    self.allocator->Some_0.lemma_frame(s0, ioc@);
                }
            }
            return (Ghost(shape), Ok(()));
        }
        let found = match find_child(ioc, m, block_idx, key) {
            Ok(found) => found,
            Err(e) => {
                return (Ghost(shape), Err(e));
            },
        };
        let ghost slot0 = found.0 as int;
        let ghost kids_then = shape->Inner_kids;
        proof {
            let start_node = node_at(s0, m, block_idx);
            shape::lemma_footprint(kids_then[slot0]);
            assert(shape.footprint().contains(kids_then[slot0].block()));
            assert(valid(
                s0,
                m,
                kids_then[slot0],
                (level - 1) as nat,
                kid_lo(start_node, lo, slot0),
                kid_hi(start_node, hi, slot0),
                kid_next(kids_then, nxt, slot0),
            ));
        }
        let child_header = match read_header(ioc, m, found.1) {
            Ok(header) => header,
            Err(e) => {
                return (Ghost(shape), Err(e));
            },
        };
        let mut idx = found.0;
        let mut child = found.1;
        let ghost mut cur = shape;
        if child_header.num_keys >= m - 1 {
            let out = match self.split_node(ioc, block_idx, child, Ghost(shape), Ghost(slot0), Ghost(level), Ghost(lo), Ghost(hi), Ghost(nxt)) {
                Ok(out) => out,
                Err(e) => {
                    proof {
                        if m >= 4 && forked(s0, m, shape.footprint()) {
                            shape::lemma_forked_around(s0, ioc@, m, shape.footprint(), shape.footprint().remove(block_idx));
                        }
                    }
                    return (Ghost(shape), Err(e));
                },
            };
            proof {
                cur = out.0@;
                ioc.lemma_geometry();
                lemma_in_range(ioc@, m, cur, level, lo, hi, nxt);
                shape::lemma_footprint(cur);
                shape::lemma_capped(ioc@, m, cur, level, lo, hi, nxt);
            }
            let again = match find_child(ioc, m, block_idx, key) {
                Ok(found) => found,
                Err(e) => {
                    return (Ghost(cur), Err(e));
                },
            };
            idx = again.0;
            child = again.1;
        }
        let ghost s1 = ioc@;
        let ghost mid = *self;
        let ghost i = idx as int;
        let ghost kids = cur->Inner_kids;
        let ghost kid = kids[i];
        let ghost p = node_at(s1, m, block_idx);
        proof {
            shape::lemma_footprint(cur);
            shape::lemma_footprint(kid);
            shape::lemma_route(p.keys, p.num_keys as int, key);
            assert(valid(s1, m, kid, (level - 1) as nat, kid_lo(p, lo, i), kid_hi(p, hi, i), kid_next(kids, nxt, i)));
            assert(kid_lo(p, lo, i) <= key < kid_hi(p, hi, i));
            assert forall|b: u64| kid.footprint().contains(b) implies cur.footprint().contains(b) by {}
            assert(self.reach(s1).disjoint(kid.footprint()));
        }
        let below = self.insert_node(
            ioc,
            child,
            key,
            val,
            Ghost(kid),
            Ghost((level - 1) as nat),
            Ghost(kid_lo(p, lo, i)),
            Ghost(kid_hi(p, hi, i)),
            Ghost(kid_next(kids, nxt, i)),
        );
        proof {
            let s2 = ioc@;
            lemma_in_range(s1, m, cur, level, lo, hi, nxt);
            assert forall|b: u64| cur.footprint().contains(b) && !kid.footprint().contains(b) implies #[trigger] s2[b as int]
                == s1[b as int] by {
                assert(!mid.reach(s1).contains(b));
            }
            shape::lemma_capped(s1, m, cur, level, lo, hi, nxt);
            shape::lemma_capped_around(s1, s2, m, cur.footprint(), kid.footprint());
            shape::lemma_capped_replaced(s2, m, cur, i, below.0@);
            if m >= 4 && forked(s0, m, shape.footprint()) {
                shape::lemma_forked_kid(s1, m, cur, i);
                shape::lemma_forked_around(s1, s2, m, cur.footprint(), kid.footprint());
                shape::lemma_forked_replaced(s2, m, cur, i, below.0@);
            }
            if below.1 is Ok || old(ioc).pool().limit() >= 3 {
                lemma_kid_replaced(s1, s2, m, cur, i, below.0@, level, lo, hi, nxt);
            }
            if !crowded(s0, m, shape, key) {
                assert(cur == shape);
                assert(s1 == s0);
                assert(below.0@ == kid);
                assert(kids.update(i, kid) =~= kids);
                assert(with_kid(cur, i, below.0@) == shape);
            }
        }
        (Ghost(with_kid(cur, i, below.0@)), below.1)
    }

    /// Gives `key` the value `val`.
    ///
    /// An empty tree takes a block and makes it a leaf with the one entry:
    /// its root and its first leaf. A full root gets a new root above it and
    /// is split before the descent starts; a full node on the way is split
    /// before the descent goes on. In the leaf a key that is there gets the
    /// value in place; another key gets an entry of its own. A split cuts a
    /// node in the middle: what becomes of a tree of one full leaf is stated
    /// node by node.
    ///
    /// The blocks come from the allocator. A tree without an allocator takes
    /// them from its own records: an empty one has none and fails with
    /// `EmptyTree`; one whose root or whose node on the way is full is not
    /// admitted here, because a block taken from the records changes the keys
    /// of a leaf, and the tree is no search tree then.
    ///
    /// Where the device or the allocator fails and the pool holds three
    /// blocks or more, the tree holds what it held before. Whatever comes of
    /// the call and whatever the pool holds, no node of the tree has as many
    /// keys as the fan-out afterwards; with a fan-out of four or more, every
    /// inner node keeps a key. (With a fan-out of three the upper half of a
    /// split inner node has none: of its two keys one goes up and one stays.)
    #[verifier::spinoff_prover]
    #[verifier::rlimit(100)]
    pub fn insert<D: BlockDevice, C: Cache<Vec<u8>>>(&mut self, ioc: &mut IOContext<D, C>, key: u64, val: u64) -> (r:
        Result<(), BPTreeError>)
        requires
            old(ioc).wf(),
            old(self).wf(old(ioc)@),
            old(self).allocator() is Some ==> old(self).supplied(old(ioc)@, old(self).footprint()),
            old(self).allocator() is None ==> old(self).root() is None || !old(self).needs_block(old(ioc)@, key),
        ensures
            kept(old(ioc), final(ioc)),
            final(self).fan_out() == old(self).fan_out(),
            old(self).allocator() is None ==> final(self).allocator() is None,
            old(self).allocator() is Some ==> final(self).allocator() is Some && final(self).allocator()->Some_0.wf(
                final(ioc)@,
            ),
            final(self).reach(final(ioc)@).subset_of(old(self).reach(old(ioc)@)),
            same_outside(old(ioc)@, final(ioc)@, old(self).footprint().union(old(self).reach(old(ioc)@))),
            r is Ok || old(ioc).pool().limit() >= 3 ==> {
                &&& final(self).wf(final(ioc)@)
                &&& old(self).allocator() is Some ==> final(self).supplied(final(ioc)@, final(self).footprint())
                &&& final(self).mapping(final(ioc)@) == (if r is Ok {
                    old(self).mapping(old(ioc)@).insert(key, val)
                } else {
                    old(self).mapping(old(ioc)@)
                })
                &&& forall|b: u64|
                    final(self).footprint().contains(b) ==> old(self).footprint().contains(b) || (old(self).reach(
                        old(ioc)@,
                    ).contains(b) && !final(self).reach(final(ioc)@).contains(b))
                &&& final(self).height() <= old(self).height() + 1
            },
            // an empty tree
            old(self).root() is None && r is Err ==> old(self).same_tree(final(self)),
            old(self).root() is None && old(self).allocator() is None ==> r is Err && r->Err_0 is EmptyTree && final(ioc)@
                == old(ioc)@,
            old(self).root() is None && r is Ok ==> {
                let block = final(self).root()->Some_0;
                let node = node_at(final(ioc)@, old(self).fan_out(), block);
                &&& final(self).root() == Some(block)
                &&& final(self).first() == block
                &&& final(self).shape() == Some(Shape::Leaf { block })
                &&& final(self).height() == 0
                &&& old(self).reach(old(ioc)@).contains(block)
                &&& !final(self).reach(final(ioc)@).contains(block)
                &&& node.is_leaf == 1
                &&& node.num_keys == 1
                &&& node.next == NO_BLOCK
                &&& node.keys[0] == key
                &&& node.vals[0] == val
            },
            // a tree with a root: a full root gets a new root above it
            old(self).root() is Some ==> final(self).first() == old(self).first(),
            old(self).root() is Some && r is Ok ==> {
                let top = old(self).root()->Some_0;
                if node_at(old(ioc)@, old(self).fan_out(), top).num_keys >= old(self).fan_out() - 1 {
                    &&& final(self).height() == old(self).height() + 1
                    &&& final(self).root() is Some
                    &&& final(self).root() != Some(top)
                    &&& old(self).reach(old(ioc)@).contains(final(self).root()->Some_0)
                    &&& !final(self).reach(final(ioc)@).contains(final(self).root()->Some_0)
                    &&& node_at(final(ioc)@, old(self).fan_out(), final(self).root()->Some_0).is_leaf == 0
                } else {
                    &&& final(self).root() == old(self).root()
                    &&& final(self).height() == old(self).height()
                }
            },
            // a tree of one full leaf
            old(self).shape() is Some && old(self).shape()->Some_0 is Leaf && r is Ok && node_at(
                old(ioc)@,
                old(self).fan_out(),
                old(self).root()->Some_0,
            ).num_keys >= old(self).fan_out() - 1 ==> {
                let m = old(self).fan_out();
                let top = old(self).root()->Some_0;
                let above = final(self).root()->Some_0;
                let fresh = node_at(final(ioc)@, m, above).vals[1];
                &&& final(self).shape() == Some(
                    Shape::Inner { block: above, kids: seq![Shape::Leaf { block: top }, Shape::Leaf { block: fresh }] },
                )
                &&& old(self).reach(old(ioc)@).contains(fresh)
                &&& !final(self).reach(final(ioc)@).contains(fresh)
                &&& fresh != above
                &&& first_split(
                    node_at(old(ioc)@, m, top),
                    node_at(final(ioc)@, m, above),
                    node_at(final(ioc)@, m, top),
                    node_at(final(ioc)@, m, fresh),
                    top,
                    fresh,
                    key,
                    val,
                )
            },
            // a tree that needs no block
            !old(self).needs_block(old(ioc)@, key) ==> {
                let leaf = old(self).home(old(ioc)@, key);
                &&& old(self).same_tree(final(self))
                &&& final(self).allocator() == old(self).allocator()
                &&& final(self).reach(final(ioc)@) == old(self).reach(old(ioc)@)
                &&& final(self).supply(final(ioc)@) == old(self).supply(old(ioc)@)
                &&& old(self).footprint().contains(leaf)
                &&& r is Err ==> final(ioc)@ == old(ioc)@
                &&& r is Ok ==> only_block_changed(old(ioc)@, final(ioc)@, leaf) && put_image(
                    node_at(old(ioc)@, old(self).fan_out(), leaf),
                    node_at(final(ioc)@, old(self).fan_out(), leaf),
                    key,
                    val,
                )
                &&& old(ioc).dependable() ==> r is Ok
            },
            // no node has as many keys as the fan-out, whatever came of the call
            capped(final(ioc)@, old(self).fan_out(), old(self).footprint()),
            capped(final(ioc)@, old(self).fan_out(), final(self).footprint()),
            // with a fan-out of four or more, every inner node keeps a key
            old(self).fan_out() >= 4 && forked(old(ioc)@, old(self).fan_out(), old(self).footprint()) ==> {
                &&& forked(final(ioc)@, old(self).fan_out(), old(self).footprint())
                &&& forked(final(ioc)@, old(self).fan_out(), final(self).footprint())
            },
            r matches Err(e) ==> {
                ||| refusal(e, old(ioc).dependable(), old(ioc)@.len(), old(self).reach(old(ioc)@))
                ||| e is NodeParseError && !well_sized(old(ioc).block_len(), old(self).fan_out()) && old(self).root() is None
                ||| e is EmptyTree && old(self).root() is None && old(self).allocator() is None
            },
            old(ioc).dependable() && well_sized(old(ioc).block_len(), old(self).fan_out()) && old(self).supply(old(ioc)@)
                >= old(self).height() + 3 ==> r is Ok && final(self).supply(final(ioc)@) >= old(self).supply(old(ioc)@)
                - old(self).height() - 3,
    {
        let m = self.m;
        let ghost s0 = ioc@;
        proof {
            ioc.lemma_geometry();
        }
        if let Some(root_block) = self.root_block {
            let ghost shape = self.shape@->Some_0;
            let ghost level = self.level@;
            proof {
                lemma_in_range(s0, m, shape, level, 0, key_end(), NO_BLOCK);
                shape::lemma_footprint(shape);
                shape::lemma_home(s0, m, shape, level, 0, key_end(), NO_BLOCK, key);
                shape::lemma_capped(s0, m, shape, level, 0, key_end(), NO_BLOCK);
            }
            let header = match read_header(ioc, m, root_block) {
                Ok(header) => header,
                Err(e) => {
                    return Err(e);
                },
            };
            let mut top = root_block;
            let ghost mut cur = shape;
            let ghost mut cur_level = level;
            let ghost mut raised = s0;
            let ghost mut right = root_block;
            if header.num_keys >= m - 1 {
                let taken = self.alloc_block(ioc);
                let ghost s1 = ioc@;
                proof {
                    ioc.lemma_geometry();
                    assert forall|b: u64| shape.footprint().contains(b) implies s1[b as int] == s0[b as int] by {
                        assert(!old(self).reach(s0).contains(b));
                    }
                    lemma_frame(s0, s1, m, shape, level, 0, key_end(), NO_BLOCK);
                    assert(self.mapping(s1) =~= old(self).mapping(s0));
                    shape::lemma_capped(s1, m, shape, level, 0, key_end(), NO_BLOCK);
                    if forked(s0, m, shape.footprint()) {
                        shape::lemma_forked_still(s0, s1, m, shape.footprint());
                    }
                }
                let new_root = match taken {
                    Ok(block) => block,
                    Err(e) => {
                        return Err(e);
                    },
                };
                match init_root(ioc, m, new_root, root_block) {
                    Ok(()) => {},
                    Err(e) => {
                        return Err(e);
                    },
                }
                let ghost s2 = ioc@;
                let ghost above = Shape::Inner { block: new_root, kids: seq![shape] };
                proof {
                    ioc.lemma_geometry();
                    self.allocator->Some_0.lemma_frame(s1, s2);
                    lemma_new_root(s1, s2, m, shape, new_root, level, 0, key_end(), NO_BLOCK);
                    assert(above->Inner_kids[0] == shape);
                    if forked(s0, m, shape.footprint()) {
                        shape::lemma_forked_still(s1, s2, m, shape.footprint());
                        assert forall|b: u64| #[trigger]
                            above.footprint().remove(new_root).contains(b) implies shape.footprint().contains(b) by {
                            let q = choose|q: int|
                                0 <= q < above->Inner_kids.len() && (#[trigger] above->Inner_kids[q]).footprint().contains(b);
                            assert(above->Inner_kids[q] == shape);
                        }
                        assert(forked(s2, m, above.footprint().remove(new_root)));
                    }
                }
                let out = match self.split_node(
                    ioc,
                    new_root,
                    root_block,
                    Ghost(above),
                    Ghost(0int),
                    Ghost(level + 1),
                    Ghost(0int),
                    Ghost(key_end()),
                    Ghost(NO_BLOCK),
                ) {
                    Ok(out) => out,
                    Err(e) => {
                        proof {
                            shape::lemma_footprint(above);
                            assert forall|b: u64| #[trigger] shape.footprint().contains(b) implies above.footprint().contains(
                                b,
                            ) && above.footprint().remove(new_root).contains(b) by {
                                assert(above->Inner_kids[0].footprint().contains(b));
                            }
                            if old(ioc).pool().limit() >= 3 {
                                let s3 = ioc@;
                                ioc.lemma_geometry();
                                let node = node_at(s3, m, new_root);
                                assert(valid(s3, m, above->Inner_kids[0], level, kid_lo(node, 0, 0), kid_hi(node, key_end(), 0), kid_next(above->Inner_kids, NO_BLOCK, 0)));
                                assert forall|k: u64| lookup(s3, m, shape, k) == lookup(s0, m, shape, k) by {
                                    assert(lookup(s3, m, above, k) == lookup(s2, m, above, k));
                                    assert(route(node.keys, 0, k) == 0);
                                    assert(route(node_at(s2, m, new_root).keys, 0, k) == 0);
                                }
                                shape::lemma_footprint(above);
                                assert forall|b: u64| shape.footprint().contains(b) implies above.footprint().contains(b) by {
                                    assert(above->Inner_kids[0].footprint().contains(b));
                                }
                                assert(self.mapping(s3) =~= old(self).mapping(s0));
                            }
                        }
                        return Err(e);
                    },
                };
                top = new_root;
                proof {
                    cur = out.0@;
                    cur_level = level + 1;
                    raised = s2;
                    right = out.1;
                    if shape is Leaf {
                        assert(cur->Inner_kids =~= seq![Shape::Leaf { block: root_block }, Shape::Leaf { block: right }]);
                        reveal_with_fuel(crowded, 2);
                        assert(!crowded(ioc@, m, cur, key));
                    }
                    shape::lemma_footprint(above);
                    assert forall|b: u64| #[trigger] shape.footprint().contains(b) implies cur.footprint().contains(b) by {
                        assert(above->Inner_kids[0].footprint().contains(b));
                        assert(above.footprint().contains(b));
                    }
                }
            }
            let ghost s3 = ioc@;
            let ghost mid = *self;
            let done = self.insert_node(
                ioc,
                top,
                key,
                val,
                Ghost(cur),
                Ghost(cur_level),
                Ghost(0int),
                Ghost(key_end()),
                Ghost(NO_BLOCK),
            );
            self.root_block = Some(top);
            self.shape = Ghost(Some(done.0@));
            self.level = Ghost(cur_level);
            proof {
                ioc.lemma_geometry();
                if shape is Leaf && top != root_block && done.1 is Ok {
                    lemma_in_range(s3, m, cur, cur_level, 0, key_end(), NO_BLOCK);
                    shape::lemma_footprint(cur);
                    assert(cur->Inner_kids[1].footprint().contains(right));
                    lemma_first_split(raised, s3, ioc@, m, root_block, top, right, key, val);
                }
                if !old(self).needs_block(s0, key) {
                    assert(cur == shape);
                    assert(s3 == s0);
                    assert(done.0@ == shape);
                }
                if done.1 is Ok || old(ioc).pool().limit() >= 3 {
                    assert(self.wf(ioc@));
                    assert forall|b: u64|
                        self.footprint().contains(b) implies old(self).footprint().contains(b) || (old(self).reach(
                        s0,
                    ).contains(b) && !self.reach(ioc@).contains(b)) by {
                        if !cur.footprint().contains(b) {
                            assert(mid.reach(s3).contains(b));
                        }
                    }
                    if old(self).allocator() is Some {
                        assert(self.supplied(ioc@, self.footprint()));
                    }
                    if done.1 is Ok {
                        assert(self.mapping(ioc@) =~= old(self).mapping(s0).insert(key, val));
                    } else {
                        assert(self.mapping(ioc@) =~= old(self).mapping(s0));
                    }
                }
            }
            done.1
        } else {
            proof {
                assert(self.chain() =~= Seq::<u64>::empty());
            }
            let taken = self.alloc_block(ioc);
            let ghost s1 = ioc@;
            proof {
                ioc.lemma_geometry();
                assert(self.mapping(s1) =~= old(self).mapping(s0));
            }
            let block = match taken {
                Ok(block) => block,
                Err(e) => {
                    return Err(e);
                },
            };
            match init_leaf(ioc, m, block, key, val) {
                Ok(()) => {},
                Err(e) => {
                    return Err(e);
                },
            }
            self.root_block = Some(block);
            self.first_leaf = block;
            self.shape = Ghost(Some(Shape::Leaf { block }));
            self.level = Ghost(0);
            proof {
                let s2 = ioc@;
                self.allocator->Some_0.lemma_frame(s1, s2);
                let node = node_at(s2, m, block);
                assert forall|k: u64|
                    lookup(s2, m, Shape::Leaf { block }, k) == (if k == key {
                        Some(val)
                    } else {
                        None
                    }) by {
                    lemma_leaf_lookup(node.keys, node.vals, 1, k);
                }
                ioc.lemma_geometry();
                assert(self.wf(s2));
                assert(self.supplied(s2, self.footprint()));
                assert(self.mapping(s2) =~= old(self).mapping(s0).insert(key, val));
            }
            Ok(())
        }
    }

    /// Gives every key of `list` its value, one entry after the other, and
    /// stops at the first that fails. Says how many entries were put: the
    /// tree holds what it held before and these entries, each key with the
    /// value that was put last. After a failure this is known where the pool
    /// holds three blocks or more.
    pub fn insert_all<D: BlockDevice, C: Cache<Vec<u8>>>(
        &mut self,
        ioc: &mut IOContext<D, C>,
        list: &Vec<(u64, u64)>,
    ) -> (r: (usize, Result<(), BPTreeError>))
        requires
            old(ioc).wf(),
            old(self).wf(old(ioc)@),
            old(self).supplied(old(ioc)@, old(self).footprint()),
        ensures
            kept(old(ioc), final(ioc)),
            final(self).fan_out() == old(self).fan_out(),
            r.0 <= list@.len(),
            r.1 is Ok ==> r.0 == list@.len(),
            old(ioc).dependable() && well_sized(old(ioc).block_len(), old(self).fan_out()) && old(self).supply(old(ioc)@)
                >= list@.len() * (old(self).height() + list@.len() + 3) ==> r.1 is Ok,
            r.1 is Ok || old(ioc).pool().limit() >= 3 ==> {
                &&& final(self).wf(final(ioc)@)
                &&& final(self).supplied(final(ioc)@, final(self).footprint())
                &&& old(self).fan_out() >= 4 && forked(old(ioc)@, old(self).fan_out(), old(self).footprint()) ==> forked(
                    final(ioc)@,
                    old(self).fan_out(),
                    final(self).footprint(),
                )
                &&& final(self).mapping(final(ioc)@) == put_all(old(self).mapping(old(ioc)@), list@.subrange(0, r.0 as int))
                &&& forall|i: int|
                    0 <= i < r.0 && (forall|j: int| i < j < r.0 ==> list@[j].0 != list@[i].0) ==> final(self).mapping(
                        final(ioc)@,
                    ).get(#[trigger] list@[i].0) == Some(list@[i].1)
                &&& forall|k: u64|
                    (forall|i: int| 0 <= i < r.0 ==> list@[i].0 != k) ==> #[trigger] final(self).mapping(final(ioc)@).get(k)
                        == old(self).mapping(old(ioc)@).get(k)
            },
    {
        let mut done: usize = 0;
        let mut result: Result<(), BPTreeError> = Ok(());
        let ghost per = old(self).height() + list@.len() + 3;
        let ghost sure = old(ioc).dependable() && well_sized(old(ioc).block_len(), old(self).fan_out()) && old(
            self,
        ).supply(old(ioc)@) >= list@.len() * per;
        proof {
            assert(list@.subrange(0, 0) =~= Seq::<(u64, u64)>::empty());
            assert(0 * per == 0) by (nonlinear_arith);
        }
        while done < list.len() && result.is_ok()
            invariant
                done <= list@.len(),
                ioc.wf(),
                kept(old(ioc), ioc),
                ioc.dependable() == old(ioc).dependable(),
                ioc.block_len() == old(ioc).block_len(),
                self.fan_out() == old(self).fan_out(),
                per == old(self).height() + list@.len() + 3,
                sure == (old(ioc).dependable() && well_sized(old(ioc).block_len(), old(self).fan_out()) && old(self).supply(
                    old(ioc)@,
                ) >= list@.len() * per),
                sure ==> result is Ok && self.height() <= old(self).height() + done && self.supply(ioc@) + done * per
                    >= old(self).supply(old(ioc)@),
                result is Ok || ioc.pool().limit() >= 3 ==> {
                    &&& self.wf(ioc@)
                    &&& self.supplied(ioc@, self.footprint())
                    &&& old(self).fan_out() >= 4 && forked(old(ioc)@, old(self).fan_out(), old(self).footprint())
                        ==> forked(ioc@, old(self).fan_out(), self.footprint())
                    &&& self.mapping(ioc@) == put_all(old(self).mapping(old(ioc)@), list@.subrange(0, done as int))
                },
            decreases list@.len() - done + (if result is Ok {
                1int
            } else {
                0int
            }),
        {
            let entry = list[done];
            let ghost had = self.supply(ioc@);
            let ghost tall = self.height();
            proof {
                ioc.lemma_geometry();
                if sure {
                    let n = list@.len() as int;
                    let d = done as int;
                    assert(n * per - d * per >= per) by (nonlinear_arith)
                        requires
                            d < n,
                            per >= 0,
                    ;
                }
            }
            match self.insert(ioc, entry.0, entry.1) {
                Ok(()) => {
                    proof {
                        let upto = list@.subrange(0, done + 1);
                        assert(upto.drop_last() =~= list@.subrange(0, done as int));
                        assert(upto.last() == list@[done as int]);
                        assert((done + 1) * per == done * per + per) by (nonlinear_arith);
                    }
                    done = done + 1;
                },
                Err(e) => {
                    result = Err(e);
                },
            }
        }
        proof {
            if result is Ok || ioc.pool().limit() >= 3 {
                let upto = list@.subrange(0, done as int);
                assert forall|i: int|
                    0 <= i < done && (forall|j: int| i < j < done ==> list@[j].0 != list@[i].0) implies self.mapping(
                    ioc@,
                ).get(#[trigger] list@[i].0) == Some(list@[i].1) by {
                    lemma_last_put(old(self).mapping(old(ioc)@), upto, i);
                }
                assert forall|k: u64| (forall|i: int| 0 <= i < done ==> list@[i].0 != k) implies #[trigger] self.mapping(
                    ioc@,
                ).get(k) == old(self).mapping(old(ioc)@).get(k) by {
                    assert forall|a: int| 0 <= a < upto.len() implies upto[a].0 != k by {
                        assert(upto[a] == list@[a]);
                    }
                    lemma_absent(old(self).mapping(old(ioc)@), upto, k);
                }
            }
        }
        (done, result)
    }

    /// Takes the first block of the first extent: walks the chain of leaves
    /// to the first entry whose value is above zero, takes that entry's key
    /// as the block, lets the entry start one block later and be one block
    /// shorter, and drops the entries that it passed. Fails where no entry is
    /// above zero.
    #[verifier::spinoff_prover]
    #[verifier::rlimit(100)]
    pub fn pop_first_extent_block<D: BlockDevice, C: Cache<Vec<u8>>>(&mut self, ioc: &mut IOContext<D, C>) -> (r:
        Result<u64, BPTreeError>)
        requires
            old(ioc).wf(),
            old(self).chain_ok(old(ioc)@),
        ensures
            kept(old(ioc), final(ioc)),
            old(self).same_tree(final(self)),
            final(self).allocator() == old(self).allocator(),
            final(self).chain_ok(final(ioc)@),
            same_outside(old(ioc)@, final(ioc)@, old(self).chain().to_set()),
            r matches Ok(block) ==> front(old(self).records(old(ioc)@)) == Some(block),
            r matches Err(e) ==> e is EmptyTree || is_disk_failure(e),
            (r is Err && r->Err_0 is EmptyTree) ==> front(old(self).records(old(ioc)@)) is None,
            old(self).chain().len() == 0 ==> r is Err && r->Err_0 is EmptyTree && final(ioc)@ == old(ioc)@,
            exists|j: int|
                #[trigger] walked(old(ioc)@, final(ioc)@, old(self).fan_out(), old(self).chain(), j, r is Ok) && ((r is Err
                    && r->Err_0 is EmptyTree) ==> j == old(self).chain().len()),
            (r is Ok || (r is Err && r->Err_0 is EmptyTree)) ==> final(self).records(final(ioc)@) == popped(
                old(self).records(old(ioc)@),
            ),
            (r is Err && r->Err_0 is DiskError) ==> trimmed(old(self).records(old(ioc)@), final(self).records(final(ioc)@)),
            old(ioc).dependable() ==> r is Ok || (r is Err && r->Err_0 is EmptyTree),
    {
        let m = self.m;
        let ghost s0 = ioc@;
        let ghost chain = self.chain();
        let ghost all = self.records(s0);
        let mut cur = self.first_leaf;
        let ghost mut j = 0int;
        let ghost mut skipped = 0int;
        proof {
            ioc.lemma_geometry();
            lemma_first_live_exists(all);
            assert(all.subrange(0, all.len() as int) =~= all);
        }
        loop
            invariant
                ioc.wf(),
                kept(old(ioc), ioc),
                *self == *old(self),
                m == self.m,
                s0 == old(ioc)@,
                chain == self.chain(),
                self.first() == (if chain.len() > 0 {
                    chain[0]
                } else {
                    NO_BLOCK
                }),
                all == extents(s0, m, chain, 0),
                chained(s0, m, chain),
                chained(ioc@, m, chain),
                same_outside(s0, ioc@, chain.to_set()),
                0 <= j <= chain.len(),
                cur == (if j < chain.len() {
                    chain[j]
                } else {
                    NO_BLOCK
                }),
                forall|q: int| j <= q < chain.len() ==> ioc@[(#[trigger] chain[q]) as int] == s0[chain[q] as int],
                extents(ioc@, m, chain, 0) == extents(ioc@, m, chain, j),
                popped(all) == popped(extents(s0, m, chain, j)),
                front(all) == front(extents(s0, m, chain, j)),
                0 <= skipped <= first_live(all),
                extents(s0, m, chain, j) == all.subrange(skipped, all.len() as int),
                walked(s0, ioc@, m, chain, j, false),
            decreases chain.len() - j,
        {
            let ghost s1 = ioc@;
            proof {
                lemma_extents_frame(s0, s1, m, chain, j);
            }
            if cur == NO_BLOCK {
                proof {
                    assert(j == chain.len());
                    assert(extents(s0, m, chain, j) =~= Seq::<(u64, u64)>::empty());
                    lemma_first_live_exists(Seq::<(u64, u64)>::empty());
                }
                return Err(BPTreeError::EmptyTree);
            }
            proof {
                ioc.lemma_geometry();
                assert(chain[j] < s1.len());
            }
            let out = match pop_leaf(ioc, m, cur) {
                Ok(out) => out,
                Err(e) => {
                    return Err(e);
                },
            };
            let ghost s2 = ioc@;
            proof {
                let before = entries(node_at(s1, m, cur));
                let rest = extents(s0, m, chain, j + 1);
                assert(chain.to_set().contains(cur));
                assert forall|q: int| 0 <= q < chain.len() && q != j implies s2[(#[trigger] chain[q]) as int] == s1[chain[q] as int] by {
                }
                lemma_extents_frame(s0, s2, m, chain, j + 1);
                lemma_first_live_exists(before);
                assert(extents(s0, m, chain, j) == before + rest);
                lemma_prefix_emptied(s1, s2, m, chain, j);
                assert(extents(s2, m, chain, j) == entries(node_at(s2, m, cur)) + extents(s2, m, chain, j + 1));
                if out.0 is Some {
                    lemma_popped_in_front(before, rest);
                } else {
                    lemma_popped_behind_zeros(before, rest);
                    assert(extents(s2, m, chain, j) =~= extents(s2, m, chain, j + 1));
                    lemma_first_live_exists(all);
                    let tail = all.subrange(skipped, all.len() as int);
                    assert(rest =~= all.subrange(skipped + before.len(), all.len() as int)) by {
                        assert(tail == before + rest);
                        assert(rest =~= tail.subrange(before.len() as int, tail.len() as int));
                    }
                    assert(skipped + before.len() <= first_live(all)) by {
                        if skipped + before.len() > first_live(all) {
                            let t = first_live(all);
                            assert(tail[t - skipped] == all[t]);
                            assert(tail[t - skipped] == before[t - skipped]);
                            assert(before[t - skipped].1 == 0);
                        }
                    }
                }
                assert(chained(s2, m, chain)) by {
                    assert forall|q: int| 0 <= q < chain.len() implies {
                        let node = node_at(s2, m, #[trigger] chain[q]);
                        &&& chain[q] < s2.len()
                        &&& well_sized(s2[chain[q] as int].len(), m)
                        &&& node.num_keys < m
                        &&& node.next == (if q + 1 < chain.len() {
                            chain[q + 1]
                        } else {
                            NO_BLOCK
                        })
                    } by {
                        if q == j {
                            assert(entries(node_at(s2, m, cur)).len() <= before.len());
                        }
                    }
                }
                assert(same_outside(s0, s2, chain.to_set()));
            }
            proof {
                let before = entries(node_at(s1, m, cur));
                assert(s1[cur as int] == s0[cur as int]);
                assert forall|q: int| 0 <= q < chain.len() && q != j implies chain[q] != chain[j] by {}
                if out.0 is Some {
                    assert(walked(s0, s2, m, chain, j, true));
                } else {
                    assert(entries(node_at(s2, m, cur)).len() == 0);
                    assert(walked(s0, s2, m, chain, j + 1, false));
                }
            }
            match out.0 {
                Some(block) => {
                    return Ok(block);
                },
                None => {},
            }
            cur = out.1;
            proof {
                skipped = skipped + entries(node_at(s1, m, chain[j])).len();
                j = j + 1;
            }
        }
    }

    /// Whether `idx` is the block of a leaf: walks the chain of leaves and
    /// looks at each block.
    fn on_chain<D: BlockDevice, C: Cache<Vec<u8>>>(&self, ioc: &mut IOContext<D, C>, idx: u64) -> (r: Result<
        bool,
        BPTreeError,
    >)
        requires
            old(ioc).wf(),
            self.chain_ok(old(ioc)@),
        ensures
            kept(old(ioc), final(ioc)),
            final(ioc)@ == old(ioc)@,
            r matches Ok(found) ==> found == self.chain().contains(idx),
            r matches Err(e) ==> is_disk_failure(e),
            old(ioc).dependable() ==> r is Ok,
    {
        let m = self.m;
        let ghost chain = self.chain();
        let mut cur = self.first_leaf;
        let ghost mut j = 0int;
        loop
            invariant
                ioc.wf(),
                kept(old(ioc), ioc),
                ioc@ == old(ioc)@,
                m == self.m,
                chain == self.chain(),
                chained(ioc@, m, chain),
                0 <= j <= chain.len(),
                cur == (if j < chain.len() {
                    chain[j]
                } else {
                    NO_BLOCK
                }),
                forall|q: int| 0 <= q < j ==> chain[q] != idx,
            decreases chain.len() - j,
        {
            if cur == NO_BLOCK {
                proof {
                    assert(j == chain.len());
                }
                return Ok(false);
            }
            if cur == idx {
                proof {
                    assert(chain[j] == idx);
                }
                return Ok(true);
            }
            proof {
                ioc.lemma_geometry();
            }
            let header = match read_header(ioc, m, cur) {
                Ok(header) => header,
                Err(e) => {
                    return Err(e);
                },
            };
            cur = header.next;
            proof {
                j = j + 1;
            }
        }
    }

    /// Gives the block `idx` back to the extents: walks the chain of leaves
    /// to the place in front of the first entry whose key is above `idx`;
    /// there an entry that ends at `idx` or starts right behind it takes the
    /// block, else the block becomes an entry of its own.
    ///
    /// A block that is no block of the device, that is the block of a leaf,
    /// or that the extents hold already is refused as out of range. A block
    /// that needs an entry of its own in a full leaf is refused for want of
    /// room, and then only: no leaf comes to hold more keys than the fan-out
    /// less one, and the tree takes no block for a new leaf from the extents
    /// that it is walking.
    pub fn push_extent_block<D: BlockDevice, C: Cache<Vec<u8>>>(&mut self, ioc: &mut IOContext<D, C>, idx: u64) -> (r:
        Result<(), BPTreeError>)
        requires
            old(ioc).wf(),
            old(self).chain_ok(old(ioc)@),
            tidy(old(self).records(old(ioc)@), old(self).chain(), old(ioc)@.len()),
        ensures
            kept(old(ioc), final(ioc)),
            old(self).same_tree(final(self)),
            final(self).allocator() == old(self).allocator(),
            final(self).chain_ok(final(ioc)@),
            same_outside(old(ioc)@, final(ioc)@, old(self).chain().to_set()),
            r is Ok ==> old(self).takes(old(ioc)@, idx) && gained(
                old(self).records(old(ioc)@),
                final(self).records(final(ioc)@),
                old(self).chain(),
                old(ioc)@.len(),
                idx,
            ) && given_back_to(old(self).records(old(ioc)@), final(self).records(final(ioc)@), idx),
            r is Err ==> final(ioc)@ == old(ioc)@,
            r matches Err(e) ==> is_disk_failure(e) || e is AllocateError,
            r matches Err(BPTreeError::AllocateError(e)) ==> (e is IdxOutOfRange <==> !old(self).takes(old(ioc)@, idx)),
            r matches Err(BPTreeError::AllocateError(e)) ==> e is NoFreeBlocks ==> !old(self).roomy(old(ioc)@),
            r matches Err(BPTreeError::AllocateError(e)) ==> e is NoFreeBlocks ==> old(self).chain().len() == 0 || wedged(
                old(ioc)@,
                old(self).fan_out(),
                old(self).chain(),
                idx,
            ),
            r is Ok ==> !wedged(old(ioc)@, old(self).fan_out(), old(self).chain(), idx),
            r is Ok ==> exists|j: int| #[trigger] pushed_at(old(ioc)@, final(ioc)@, old(self).fan_out(), old(self).chain(), j, idx),
            old(ioc).dependable() && old(self).takes(old(ioc)@, idx) ==> (r is Ok <==> old(self).chain().len() > 0
                && !wedged(old(ioc)@, old(self).fan_out(), old(self).chain(), idx)),
            old(ioc).dependable() ==> r is Ok || (r is Err && r->Err_0 is AllocateError),
            old(ioc).dependable() && old(self).takes(old(ioc)@, idx) && old(self).roomy(old(ioc)@) ==> r is Ok,
    {
        let m = self.m;
        let ghost s0 = ioc@;
        let ghost chain = self.chain();
        let ghost all = self.records(s0);
        proof {
            ioc.lemma_geometry();
        }
        let size = ioc.get_disk_block_size();
        let count = ioc.get_disk_capacity() / size;
        proof {
            assert((s0.len() * size) / (size as int) == s0.len()) by (nonlinear_arith)
                requires
                    size > 0,
            ;
        }
        if idx >= count {
            return Err(BPTreeError::AllocateError(BlockAllocateError::IdxOutOfRange));
        }
        match self.on_chain(ioc, idx) {
            Ok(false) => {},
            Ok(true) => {
                return Err(BPTreeError::AllocateError(BlockAllocateError::IdxOutOfRange));
            },
            Err(e) => {
                return Err(e);
            },
        }
        let mut cur = self.first_leaf;
        let ghost mut j = 0int;
        proof {
            ioc.lemma_geometry();
            lemma_extents_split(s0, m, chain, 0);
        }
        loop
            invariant
                ioc.wf(),
                kept(old(ioc), ioc),
                *self == *old(self),
                m == self.m,
                s0 == old(ioc)@,
                ioc@ == s0,
                chain == self.chain(),
                self.first() == (if chain.len() > 0 {
                    chain[0]
                } else {
                    NO_BLOCK
                }),
                all == extents(s0, m, chain, 0),
                chained(s0, m, chain),
                tidy(all, chain, s0.len()),
                idx < s0.len(),
                !chain.contains(idx),
                0 <= j <= chain.len(),
                j == chain.len() ==> chain.len() == 0,
                cur == (if j < chain.len() {
                    chain[j]
                } else {
                    NO_BLOCK
                }),
                passed(s0, m, chain, j, idx),
                forall|q: int|
                    0 <= q < j ==> ahead(entries(node_at(s0, m, #[trigger] chain[q])), idx) == entries(
                        node_at(s0, m, chain[q]),
                    ).len(),
            decreases chain.len() - j,
        {
            if cur == NO_BLOCK {
                proof {
                    assert(divides(all, 0, idx)) by {
                        assert(all =~= Seq::<(u64, u64)>::empty());
                    }
                    lemma_divides_clear(all, 0, idx);
                }
                return Err(BPTreeError::AllocateError(BlockAllocateError::NoFreeBlocks));
            }
            let ghost head = extents(s0, m, chain.subrange(0, j), 0);
            let ghost leaf = entries(node_at(s0, m, chain[j]));
            let ghost tail = extents(s0, m, chain, j + 1);
            proof {
                ioc.lemma_geometry();
                lemma_extents_split(s0, m, chain, j);
                assert(extents(s0, m, chain, j) == leaf + tail);
                assert(all == head + (leaf + tail));
                assert forall|t: int| 0 <= t < leaf.len() implies (#[trigger] leaf[t]).1 < u64::MAX by {
                    assert(all[head.len() + t] == leaf[t]);
                    assert(all[head.len() + t].0 + all[head.len() + t].1 <= s0.len());
                    lemma_count_below(s0.len(), ioc.block_len());
                }
            }
            let out = match push_leaf(ioc, m, cur, idx) {
                Ok(out) => out,
                Err(e) => {
                    return Err(e);
                },
            };
            let ghost s1 = ioc@;
            match out {
                Pushed::Held => {
                    proof {
                        lemma_pushed_held(s0, m, chain, j, idx);
                    }
                    return Err(BPTreeError::AllocateError(BlockAllocateError::IdxOutOfRange));
                },
                Pushed::Onward(next) => {
                    proof {
                        lemma_pushed_onward(s0, m, chain, j, idx);
                    }
                    cur = next;
                    proof {
                        j = j + 1;
                    }
                },
                Pushed::Full => {
                    proof {
                        lemma_pushed_full(s0, m, chain, j, idx);
                        assert(stops_at(s0, m, chain, j, idx));
                    }
                    return Err(BPTreeError::AllocateError(BlockAllocateError::NoFreeBlocks));
                },
                Pushed::Done => {
                    proof {
                        lemma_pushed_done(s0, s1, m, chain, j, idx);
                        assert(stops_at(s0, m, chain, j, idx));
                        assert(pushed_at(s0, s1, m, chain, j, idx));
                        assert forall|k: int| #[trigger] stops_at(s0, m, chain, k, idx) implies k == j by {
                            lemma_one_stop(s0, m, chain, j, k, idx);
                        }
                    }
                    return Ok(());
                },
            }
        }
    }

    /// Whether the block `idx` can be given back: it is a block of the
    /// device, no block of a leaf, and in no extent.
    pub open spec fn takes(&self, shown: Seq<Seq<u8>>, idx: u64) -> bool {
        &&& idx < shown.len()
        &&& !self.chain().contains(idx)
        &&& !covered(self.records(shown), idx)
    }

    /// There is a leaf, and no leaf is full: each holds fewer keys than the
    /// fan-out less one.
    pub open spec fn roomy(&self, shown: Seq<Seq<u8>>) -> bool {
        &&& self.chain().len() > 0
        &&& forall|j: int|
            0 <= j < self.chain().len() ==> node_at(shown, self.fan_out(), #[trigger] self.chain()[j]).num_keys + 1
                < self.fan_out()
    }
}

/// The map `base` after the entries `list` were put into it, one after the
/// other.
pub open spec fn put_all(base: Map<u64, u64>, list: Seq<(u64, u64)>) -> Map<u64, u64>
    decreases list.len(),
{
    if list.len() == 0 {
        base
    } else {
        put_all(base, list.drop_last()).insert(list.last().0, list.last().1)
    }
}

/// A run of puts, each of which gives the map of the one before it with one
/// entry more, ends with the first map after all the entries were put into
/// it: `maps[i + 1]` is what `insert` leaves of `maps[i]`.
pub proof fn lemma_run_of_puts(maps: Seq<Map<u64, u64>>, list: Seq<(u64, u64)>)
    requires
        maps.len() == list.len() + 1,
        forall|i: int| 0 <= i < list.len() ==> #[trigger] maps[i + 1] == maps[i].insert(list[i].0, list[i].1),
    ensures
        maps.last() == put_all(maps[0], list),
    decreases list.len(),
{
    if list.len() > 0 {
        let front = list.drop_last();
        let before = maps.drop_last();
        assert forall|i: int| 0 <= i < front.len() implies #[trigger] before[i + 1] == before[i].insert(
            front[i].0,
            front[i].1,
        ) by {
            assert(maps[i + 1] == maps[i].insert(list[i].0, list[i].1));
        }
        lemma_run_of_puts(before, front);
        assert(maps[list.len() as int - 1 + 1] == maps[list.len() - 1].insert(list.last().0, list.last().1));
    }
}

/// What was put under distinct keys is there: each key has the value that
/// was put under it.
pub proof fn lemma_round_trip(base: Map<u64, u64>, list: Seq<(u64, u64)>, i: int)
    requires
        0 <= i < list.len(),
        forall|a: int, b: int| 0 <= a < b < list.len() ==> list[a].0 != list[b].0,
    ensures
        put_all(base, list).get(list[i].0) == Some(list[i].1),
    decreases list.len(),
{
    if i < list.len() - 1 {
        let front = list.drop_last();
        assert(front[i] == list[i]);
        assert forall|a: int, b: int| 0 <= a < b < front.len() implies front[a].0 != front[b].0 by {
            assert(front[a] == list[a]);
            assert(front[b] == list[b]);
        }
        lemma_round_trip(base, front, i);
    }
}

/// The value that was put last under a key is there.
pub proof fn lemma_last_put(base: Map<u64, u64>, list: Seq<(u64, u64)>, i: int)
    requires
        0 <= i < list.len(),
        forall|j: int| i < j < list.len() ==> list[j].0 != list[i].0,
    ensures
        put_all(base, list).get(list[i].0) == Some(list[i].1),
    decreases list.len(),
{
    if i < list.len() - 1 {
        let front = list.drop_last();
        assert(front[i] == list[i]);
        assert forall|j: int| i < j < front.len() implies front[j].0 != front[i].0 by {
            assert(front[j] == list[j]);
        }
        lemma_last_put(base, front, i);
    }
}

/// Of two values put under one key, the later one is there.
pub proof fn lemma_last_write_wins(base: Map<u64, u64>, key: u64, first: u64, second: u64)
    ensures
        base.insert(key, first).insert(key, second).get(key) == Some(second),
        base.insert(key, first).insert(key, second) == base.insert(key, second),
{
    assert(base.insert(key, first).insert(key, second) =~= base.insert(key, second));
}

/// A key that was never put is not there: it has what it had before.
pub proof fn lemma_absent(base: Map<u64, u64>, list: Seq<(u64, u64)>, key: u64)
    requires
        forall|a: int| 0 <= a < list.len() ==> list[a].0 != key,
    ensures
        put_all(base, list).get(key) == base.get(key),
    decreases list.len(),
{
    if list.len() > 0 {
        let front = list.drop_last();
        assert forall|a: int| 0 <= a < front.len() implies front[a].0 != key by {
            assert(front[a] == list[a]);
        }
        lemma_absent(base, front, key);
    }
}

} // verus!
