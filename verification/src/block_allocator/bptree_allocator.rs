use vstd::prelude::*;
use crate::block_allocator::BlockAllocateError;
use crate::block_allocator::BlockAllocator;
use crate::block_allocator::none_allocator::NoneAllocator;
use crate::block_device::BlockDevice;
use crate::io_context::IOContext;
use crate::utils::bp_tree::block_ops::rewrite_outcome;
use crate::utils::bp_tree::BPTree;
use crate::utils::bp_tree::BPTreeError;
use crate::utils::bp_tree::chain::front;
use crate::utils::bp_tree::chain::lemma_extents_frame;
use crate::utils::bp_tree::chain::popped;
use crate::utils::bp_tree::chain::pushed_at;
use crate::utils::bp_tree::chain::walked;
use crate::utils::bp_tree::chain::wedged;
use crate::utils::bp_tree::extent::covered;
use crate::utils::bp_tree::extent::given_back_to;
use crate::utils::bp_tree::extent::lemma_tidy_popped;
use crate::utils::bp_tree::extent::lemma_tidy_trimmed;
use crate::utils::bp_tree::extent::lemma_total_front;
use crate::utils::bp_tree::extent::tidy;
use crate::utils::bp_tree::extent::total;
use crate::utils::cache::Cache;

verus! {

/// An allocator that records the free blocks of a device in a tree on that
/// device: each entry of a leaf is an extent of free blocks, its first block
/// and its length.
pub struct BPTreeAllocator {
    bptree: BPTree<NoneAllocator>,
}

impl BPTreeAllocator {
    /// The tree of free extents.
    pub closed spec fn tree(&self) -> BPTree<NoneAllocator> {
        self.bptree
    }

    /// The free extents in the blocks `shown`, in the order of the leaves.
    pub open spec fn free_extents(&self, shown: Seq<Seq<u8>>) -> Seq<(u64, u64)> {
        self.tree().records(shown)
    }

    /// An allocator for the device behind `ioc` that keeps its records in
    /// block `beg_block` and has every block behind it free.
    pub fn try_new<D: BlockDevice, C: Cache<Vec<u8>>>(ioc: &mut IOContext<D, C>, beg_block: u64) -> (r: Result<
        Self,
        BPTreeError,
    >)
        requires
            old(ioc).wf(),
            old(ioc).block_len() >= 72,
        ensures
            rewrite_outcome(
                old(ioc),
                final(ioc),
                match r {
                    Ok(_) => Ok(()),
                    Err(e) => Err(e),
                },
                ((old(ioc).block_len() - 24) / 16) as u64,
                beg_block,
            ),
            r matches Ok(a) ==> {
                &&& a.wf(final(ioc)@)
                &&& a.tree().chain() == seq![beg_block]
                &&& crate::utils::bp_tree::shape::node_at(final(ioc)@, a.tree().fan_out(), beg_block).is_leaf == 1
                &&& crate::utils::bp_tree::shape::node_at(final(ioc)@, a.tree().fan_out(), beg_block).num_keys == 1
                &&& crate::utils::bp_tree::shape::node_at(final(ioc)@, a.tree().fan_out(), beg_block).next
                    == crate::utils::bp_tree::bp_tree_node::NO_BLOCK
                &&& a.tree().fan_out() == (old(ioc).block_len() - 24) / 16
                &&& a.free_extents(final(ioc)@) == seq![((beg_block + 1) as u64, (old(ioc)@.len() - beg_block - 1) as u64)]
                &&& a.supply(final(ioc)@) == old(ioc)@.len() - beg_block - 1
                &&& forall|b: u64| a.reach(final(ioc)@).contains(b) <==> beg_block <= b < old(ioc)@.len()
            },
    {
        proof {
            ioc.lemma_geometry();
        }
        let ghost s0 = ioc@;
        let bptree = match BPTree::new_as_block_manager(ioc, beg_block) {
            Ok(bptree) => bptree,
            Err(e) => {
                return Err(e);
            },
        };
        let a = Self { bptree };
        proof {
            let s1 = ioc@;
            let list = a.free_extents(s1);
            let chain = a.tree().chain();
            assert(chain =~= seq![beg_block]);
            assert(list[0] == ((beg_block + 1) as u64, (s0.len() - beg_block - 1) as u64));
            assert forall|b: u64| covered(list, b) <==> beg_block < b < s0.len() by {
                if beg_block < b < s0.len() {
                    assert(list[0].0 <= b < list[0].0 + list[0].1);
                }
            }
            assert(tidy(list, chain, s1.len()));
            assert(total(list) == s0.len() - beg_block - 1) by {
                assert(list.subrange(1, 1) =~= Seq::<(u64, u64)>::empty());
                assert(total(list.subrange(1, 1)) == 0);
            }
            assert forall|b: u64| a.reach(s1).contains(b) <==> beg_block <= b < s0.len() by {
                if b == beg_block {
                    assert(chain[0] == b);
                    assert(chain.contains(b));
                }
            }
        }
        Ok(a)
    }
}

impl BlockAllocator for BPTreeAllocator {
    open spec fn wf(&self, shown: Seq<Seq<u8>>) -> bool {
        &&& self.tree().chain_ok(shown)
        &&& self.tree().allocator() is None
        &&& tidy(self.free_extents(shown), self.tree().chain(), shown.len())
    }

    open spec fn reach(&self, shown: Seq<Seq<u8>>) -> Set<u64> {
        Set::new(|b: u64| self.tree().chain().contains(b) || covered(self.free_extents(shown), b))
    }

    open spec fn supply(&self, shown: Seq<Seq<u8>>) -> nat {
        total(self.free_extents(shown))
    }

    proof fn lemma_frame(&self, before: Seq<Seq<u8>>, now: Seq<Seq<u8>>) {
        let chain = self.tree().chain();
        assert forall|j: int| 0 <= j < chain.len() implies now[(#[trigger] chain[j]) as int] == before[chain[j] as int] by {
            assert(chain.contains(chain[j]));
            assert(self.reach(before).contains(chain[j]));
        }
        lemma_extents_frame(before, now, self.tree().fan_out(), chain, 0);
        assert(self.reach(now) =~= self.reach(before));
    }

    fn alloc_block<D: BlockDevice, C: Cache<Vec<u8>>>(&mut self, ioc: &mut IOContext<D, C>) -> (r: Result<
        u64,
        BlockAllocateError,
    >)
        ensures
            final(self).tree().chain() == old(self).tree().chain(),
            r matches Ok(block) ==> front(old(self).free_extents(old(ioc)@)) == Some(block) && final(self).free_extents(
                final(ioc)@,
            ) == popped(old(self).free_extents(old(ioc)@)),
            old(ioc).dependable() ==> (r is Ok <==> front(old(self).free_extents(old(ioc)@)) is Some),
            exists|j: int| #[trigger]
                walked(old(ioc)@, final(ioc)@, old(self).tree().fan_out(), old(self).tree().chain(), j, r is Ok),
    {
        let ghost s0 = ioc@;
        let ghost list = self.free_extents(s0);
        let ghost chain = self.tree().chain();
        proof {
            lemma_tidy_popped(list, chain, s0.len());
            lemma_total_front(list);
        }
        let ghost mut place = 0int;
        let r = self.bptree.pop_first_extent_block(ioc);
        proof {
            let s1 = ioc@;
            let left = self.free_extents(s1);
            assert(self.tree().chain() == chain);
            place = choose|j: int| #[trigger]
                walked(s0, s1, old(self).tree().fan_out(), chain, j, r is Ok) && ((r is Err && r->Err_0 is EmptyTree) ==> j
                    == chain.len());
            if r is Err && r->Err_0 is DiskError {
                lemma_tidy_trimmed(list, left, chain, s0.len());
            }
            assert(self.reach(s1).subset_of(old(self).reach(s0)));
            assert forall|i: int| 0 <= i < s0.len() && !old(self).reach(s0).contains(i as u64) implies #[trigger] s1[i]
                == s0[i] by {
                assert(!chain.to_set().contains(i as u64));
            }
        }
        let out = match r {
            Ok(block) => Ok(block),
            Err(_) => Err(BlockAllocateError::NoFreeBlocks),
        };
        proof {
            assert(walked(s0, ioc@, old(self).tree().fan_out(), chain, place, out is Ok));
        }
        out
    }

    fn free<D: BlockDevice, C: Cache<Vec<u8>>>(&mut self, ioc: &mut IOContext<D, C>, idx: u64) -> (r: Result<
        (),
        BlockAllocateError,
    >)
        ensures
            final(self).tree().chain() == old(self).tree().chain(),
            r is Ok ==> old(self).tree().takes(old(ioc)@, idx) && final(self).reach(final(ioc)@) == old(self).reach(
                old(ioc)@,
            ).insert(idx) && final(self).supply(final(ioc)@) == old(self).supply(old(ioc)@) + 1 && given_back_to(
                old(self).free_extents(old(ioc)@),
                final(self).free_extents(final(ioc)@),
                idx,
            ),
            r is Ok ==> exists|j: int| #[trigger]
                pushed_at(old(ioc)@, final(ioc)@, old(self).tree().fan_out(), old(self).tree().chain(), j, idx),
            r is Err ==> final(ioc)@ == old(ioc)@,
            r == Err::<(), BlockAllocateError>(BlockAllocateError::IdxOutOfRange) ==> !old(self).tree().takes(
                old(ioc)@,
                idx,
            ),
            old(ioc).dependable() && !old(self).tree().takes(old(ioc)@, idx) ==> r == Err::<(), BlockAllocateError>(
                BlockAllocateError::IdxOutOfRange,
            ),
            old(ioc).dependable() && old(self).tree().takes(old(ioc)@, idx) && old(self).tree().roomy(old(ioc)@) ==> r
                is Ok,
            old(ioc).dependable() && old(self).tree().takes(old(ioc)@, idx) ==> (r is Ok <==> old(self).tree().chain().len()
                > 0 && !wedged(old(ioc)@, old(self).tree().fan_out(), old(self).tree().chain(), idx)),
    {
        let ghost s0 = ioc@;
        let ghost chain = self.tree().chain();
        let r = self.bptree.push_extent_block(ioc, idx);
        proof {
            let s1 = ioc@;
            assert(self.tree().chain() == chain);
            assert forall|i: int| 0 <= i < s0.len() && !old(self).reach(s0).contains(i as u64) implies #[trigger] s1[i]
                == s0[i] by {
                assert(!chain.to_set().contains(i as u64));
            }
            if r is Ok {
                assert(self.reach(s1) =~= old(self).reach(s0).insert(idx));
            } else {
                assert(self.reach(s1) =~= old(self).reach(s0));
            }
        }
        match r {
            Ok(()) => Ok(()),
            Err(BPTreeError::AllocateError(e)) => Err(e),
            Err(_) => Err(BlockAllocateError::NoFreeBlocks),
        }
    }
}

} // verus!
