use vstd::prelude::*;
use crate::block_device::BlockDevice;
use crate::block_device::BlockDeviceError;
use crate::block_device::device_wf;
use crate::utils::cache::Cache;
use crate::utils::cache::cache_wf;
use crate::utils::cache::promoted;

pub mod data_block;

pub use data_block::MutableBlock;
pub use data_block::ReadOnlyBlock;

verus! {

/// A device behind a write-back pool of block buffers.
///
/// The view is the content of every block as a reader sees it: the buffer of
/// a block that is in the pool, the device's sector otherwise.
pub struct IOContext<D, C> {
    cache: C,
    disk: D,
    block_size: u64,
}

impl<D: BlockDevice, C: Cache<Vec<u8>>> View for IOContext<D, C> {
    type V = Seq<Seq<u8>>;

    closed spec fn view(&self) -> Seq<Seq<u8>> {
        overlay(self.disk.blocks(), self.cache.entries())
    }
}

/// The sectors `blocks`, each replaced by its buffer where `held` has one.
pub open spec fn overlay(blocks: Seq<Seq<u8>>, held: Map<u64, (Vec<u8>, bool)>) -> Seq<Seq<u8>> {
    Seq::new(
        blocks.len(),
        |i: int|
            if held.contains_key(i as u64) {
                held[i as u64].0@
            } else {
                blocks[i]
            },
    )
}

/// The bytes and the dirty flag of each buffer of `held`.
pub open spec fn shown_buffers(held: Map<u64, (Vec<u8>, bool)>) -> Map<u64, (Seq<u8>, bool)> {
    Map::new(|k: u64| held.contains_key(k), |k: u64| (held[k].0@, held[k].1))
}

/// The keys of the pool after an access to block `idx`: `idx` comes to the
/// front; where it was absent and the pool was full, the last key leaves.
pub open spec fn admitted(order: Seq<u64>, limit: nat, idx: u64) -> Seq<u64> {
    if order.contains(idx) {
        promoted(order, idx)
    } else if order.len() >= limit {
        order.drop_last().insert(0, idx)
    } else {
        order.insert(0, idx)
    }
}

/// Block `idx` is among the first `k` keys of `order`: among the `k` most
/// recently used blocks.
pub open spec fn recent(order: Seq<u64>, idx: u64, k: int) -> bool {
    exists|i: int| 0 <= i < k && i < order.len() && #[trigger] order[i] == idx
}

/// After an access to block `idx`, `idx` is the most recently used block; a
/// block that was among the `k` most recently used is among the `k + 1` most
/// recently used, as long as the pool holds more than `k` blocks; and a block
/// that is in the pool stays there where `idx` was in the pool already.
pub proof fn lemma_admitted(order: Seq<u64>, limit: nat, idx: u64, other: u64, k: int)
    requires
        order.no_duplicates(),
        order.len() <= limit,
        1 <= limit,
    ensures
        recent(admitted(order, limit, idx), idx, 1),
        admitted(order, limit, idx).contains(idx),
        other != idx && recent(order, other, k) && k < limit ==> recent(admitted(order, limit, idx), other, k + 1),
        order.contains(idx) && order.contains(other) ==> admitted(order, limit, idx).contains(other),
        recent(admitted(order, limit, idx), other, k) ==> admitted(order, limit, idx).contains(other),
{
    let now = admitted(order, limit, idx);
    assert(now[0] == idx);
    if other != idx && recent(order, other, k) && k < limit {
        let i = choose|i: int| 0 <= i < k && i < order.len() && #[trigger] order[i] == other;
        if order.contains(idx) {
            let p = order.index_of(idx);
            assert(order[p] == idx);
            if i < p {
                assert(now[i + 1] == other);
            } else {
                assert(now[i] == other);
            }
        } else {
            assert(now[i + 1] == other);
        }
    }
    if order.contains(idx) && order.contains(other) {
        let p = order.index_of(idx);
        let i = order.index_of(other);
        assert(order[p] == idx);
        assert(order[i] == other);
        if i == p {
            assert(now[0] == other);
        } else if i < p {
            assert(now[i + 1] == other);
        } else {
            assert(now[i] == other);
        }
    }
    if recent(now, other, k) {
        let i = choose|i: int| 0 <= i < k && i < now.len() && #[trigger] now[i] == other;
        assert(now[i] == other);
    }
}

/// The buffers of the pool after an access to block `idx`, whose bytes on
/// the device are `bytes`: a buffer that was there stays, and becomes dirty
/// where the access is for writing; else the block comes in, and where the
/// pool was full the buffer of its last key leaves.
pub open spec fn admitted_buffers(
    held: Map<u64, (Seq<u8>, bool)>,
    order: Seq<u64>,
    limit: nat,
    idx: u64,
    bytes: Seq<u8>,
    dirty: bool,
) -> Map<u64, (Seq<u8>, bool)> {
    if held.contains_key(idx) {
        held.insert(idx, (held[idx].0, held[idx].1 || dirty))
    } else if order.len() >= limit {
        held.remove(order.last()).insert(idx, (bytes, dirty))
    } else {
        held.insert(idx, (bytes, dirty))
    }
}

/// No buffer became dirty: every dirty buffer of `now` was in `before`, and
/// dirty there.
pub open spec fn no_new_dirt(before: Map<u64, (Seq<u8>, bool)>, now: Map<u64, (Seq<u8>, bool)>) -> bool {
    forall|k: u64| #[trigger] now.contains_key(k) && now[k].1 ==> before.contains_key(k) && before[k].1
}

/// How far a flush came. A buffer that is in the pool still is as it was. A
/// sector differs from what it was only where a dirty buffer stood for it:
/// it then holds what the buffer held, unless the write failed and the
/// buffer is in the pool still. A dirty buffer that left the pool is on the
/// device.
pub open spec fn flushed(
    sectors: Seq<Seq<u8>>,
    now: Seq<Seq<u8>>,
    held: Map<u64, (Seq<u8>, bool)>,
    left: Map<u64, (Seq<u8>, bool)>,
) -> bool {
    &&& now.len() == sectors.len()
    &&& forall|k: u64| #[trigger] left.contains_key(k) ==> held.contains_key(k) && left[k] == held[k]
    &&& forall|k: u64|
        k < sectors.len() && #[trigger] now[k as int] != sectors[k as int] ==> held.contains_key(k) && held[k].1 && (
        now[k as int] == held[k].0 || left.contains_key(k))
    &&& forall|k: u64|
        #[trigger] held.contains_key(k) && held[k].1 && !left.contains_key(k) ==> k < sectors.len() && now[k as int]
            == held[k].0
}

/// No buffer is dirty.
pub open spec fn all_clean(held: Map<u64, (Seq<u8>, bool)>) -> bool {
    forall|k: u64| #[trigger] held.contains_key(k) ==> !held[k].1
}

/// The sectors of the device after an access to block `idx`: where the
/// access drives a dirty buffer out of the pool, that buffer is on the
/// device; else the device is as it was.
pub open spec fn written_back(
    blocks: Seq<Seq<u8>>,
    held: Map<u64, (Seq<u8>, bool)>,
    order: Seq<u64>,
    limit: nat,
    idx: u64,
) -> Seq<Seq<u8>> {
    if !held.contains_key(idx) && order.len() >= limit && held[order.last()].1 {
        blocks.update(order.last() as int, held[order.last()].0)
    } else {
        blocks
    }
}

/// Every buffer of `held` belongs to a sector of `blocks`, has the sector
/// size, and equals its sector unless it is dirty.
pub open spec fn coherent(blocks: Seq<Seq<u8>>, block_len: nat, held: Map<u64, (Vec<u8>, bool)>) -> bool {
    forall|k: u64| #[trigger]
        held.contains_key(k) ==> k < blocks.len() && held[k].0@.len() == block_len && (!held[k].1 ==> held[k].0@
            == blocks[k as int])
}

impl<D: BlockDevice, C: Cache<Vec<u8>>> IOContext<D, C> {
    /// The device and the pool are well formed and fit together.
    pub closed spec fn wf(&self) -> bool {
        &&& device_wf(&self.disk)
        &&& cache_wf::<Vec<u8>, C>(&self.cache)
        &&& self.block_size == self.disk.block_len()
        &&& self.block_size <= usize::MAX
        &&& coherent(self.disk.blocks(), self.disk.block_len(), self.cache.entries())
    }

    /// The device.
    pub closed spec fn device(&self) -> D {
        self.disk
    }

    /// The pool.
    pub closed spec fn pool(&self) -> C {
        self.cache
    }

    /// What the pool holds: under each key the bytes of its buffer and its
    /// dirty flag.
    pub open spec fn buffers(&self) -> Map<u64, (Seq<u8>, bool)> {
        shown_buffers(self.pool().entries())
    }

    /// The size of a block in bytes.
    pub open spec fn block_len(&self) -> nat {
        self.device().block_len()
    }

    /// Whether the device never fails.
    pub open spec fn dependable(&self) -> bool {
        self.device().dependable()
    }

    /// A well-formed context shows as many blocks as the device has sectors,
    /// each of the block size.
    pub proof fn lemma_geometry(&self)
        requires
            self.wf(),
        ensures
            device_wf(&self.device()),
            cache_wf::<Vec<u8>, C>(&self.pool()),
            self@ == overlay(self.device().blocks(), self.pool().entries()),
            coherent(self.device().blocks(), self.block_len(), self.pool().entries()),
            self@.len() == self.device().blocks().len(),
            self.block_len() > 0,
            self.block_len() <= usize::MAX,
            self@.len() * self.block_len() <= u64::MAX,
            forall|i: int| 0 <= i < self@.len() ==> (#[trigger] self@[i]).len() == self.block_len(),
            self@.len() <= u64::MAX,
    {
        lemma_count_fits(self.disk.blocks().len(), self.disk.block_len());
    }

    /// A context over `disk` with an empty pool for `cache_size` blocks.
    pub fn new(cache_size: u64, disk: D) -> (ioc: Self)
        requires
            cache_size > 0,
            device_wf(&disk),
            disk.block_len() <= usize::MAX,
        ensures
            ioc.wf(),
            ioc.device() == disk,
            ioc@ == disk.blocks(),
            ioc.pool().limit() == cache_size,
            ioc.pool().order().len() == 0,
    {
        let block_size = disk.get_block_size();
        let ioc = Self { cache: C::new(cache_size), disk, block_size };
        proof {
            assert forall|k: u64| !ioc.cache.entries().contains_key(k) by {
                assert(!ioc.cache.order().contains(k));
            }
            assert(ioc@ =~= disk.blocks());
        }
        ioc
    }

    /// The size of a block in bytes.
    pub fn get_disk_block_size(&self) -> (size: u64)
        requires
            self.wf(),
        ensures
            size == self.block_len(),
    {
        self.disk.get_block_size()
    }

    /// The capacity of the device in bytes.
    pub fn get_disk_capacity(&self) -> (cap: u64)
        requires
            self.wf(),
        ensures
            cap == self@.len() * self.block_len(),
    {
        self.disk.get_capacity()
    }

    /// The pool, to look into.
    pub fn cache(&self) -> (c: &C)
        ensures
            *c == self.pool(),
    {
        &self.cache
    }

    /// Hands the device back, as it is: what the pool still holds is given up.
    pub fn into_device(self) -> (disk: D)
        ensures
            disk == self.device(),
    {
        self.disk
    }

    /// Writes `data` to sector `key` of `disk` if `dirty` says that the two
    /// differ.
    fn flush_block(disk: &mut D, key: u64, data: &[u8], dirty: bool) -> (r: Result<(), BlockDeviceError>)
        requires
            device_wf(old(disk)),
            key < old(disk).blocks().len(),
            data@.len() == old(disk).block_len(),
        ensures
            device_wf(final(disk)),
            same_device(*old(disk), *final(disk)),
            old(disk).dependable() ==> r is Ok,
            r is Err ==> r->Err_0 is IOError,
            !dirty ==> r is Ok && final(disk).blocks() == old(disk).blocks(),
            dirty && r is Ok ==> final(disk).blocks() == old(disk).blocks().update(key as int, data@),
            forall|i: int|
                0 <= i < old(disk).blocks().len() && i != key ==> #[trigger] final(disk).blocks()[i] == old(
                    disk,
                ).blocks()[i],
    {
        if !dirty {
            return Ok(());
        }
        disk.write(key, data)
    }

    /// Brings block `sector_idx` into the pool. Where that drives a dirty
    /// block out, the block is written to the device first; if the device
    /// fails, nothing is driven out and nothing is brought in.
    fn load(&mut self, sector_idx: u64) -> (r: Result<(), BlockDeviceError>)
        requires
            old(self).wf(),
            !old(self).cache.entries().contains_key(sector_idx),
        ensures
            final(self).wf(),
            final(self)@ == old(self)@,
            same_device(old(self).disk, final(self).disk),
            final(self).cache.limit() == old(self).cache.limit(),
            access_outcome(r, sector_idx, old(self)@.len(), old(self).dependable()),
            r is Ok ==> final(self).cache.entries().contains_key(sector_idx),
            r is Ok ==> {
                &&& final(self).cache.order() == admitted(old(self).cache.order(), old(self).cache.limit(), sector_idx)
                &&& final(self).buffers() == admitted_buffers(
                    old(self).buffers(),
                    old(self).cache.order(),
                    old(self).cache.limit(),
                    sector_idx,
                    old(self)@[sector_idx as int],
                    false,
                )
                &&& final(self).disk.blocks() == written_back(
                    old(self).disk.blocks(),
                    old(self).buffers(),
                    old(self).cache.order(),
                    old(self).cache.limit(),
                    sector_idx,
                )
            },
            r is Err ==> final(self).cache == old(self).cache,
    {
        let mut v = vec![0u8; self.block_size as usize];
        match self.disk.read(sector_idx, v.as_mut_slice()) {
            Ok(()) => {},
            Err(e) => {
                return Err(e);
            },
        }
        let ghost blocks = self.disk.blocks();
        let ghost held = self.cache.entries();
        let ghost order = self.cache.order();
        let ghost full = order.len() >= self.cache.limit();
        let wrote = match self.cache.victim() {
            Some((key, data, dirty)) => {
                proof {
                    assert(order.contains(order.last()));
                    assert(held.contains_key(key));
                }
                Self::flush_block(&mut self.disk, key, data.as_slice(), dirty)
            },
            None => Ok(()),
        };
        let ghost blocks2 = self.disk.blocks();
        proof {
            lemma_count_fits(blocks.len(), self.disk.block_len());
            if full {
                assert(order.contains(order.last()));
                assert(held.contains_key(order.last()));
            }
            assert(overlay(blocks2, held) =~= overlay(blocks, held));
            assert(coherent(blocks2, self.disk.block_len(), held)) by {
                assert forall|k: u64| #[trigger] held.contains_key(k) implies k < blocks2.len() && held[k].0@.len()
                    == self.disk.block_len() && (!held[k].1 ==> held[k].0@ == blocks2[k as int]) by {
                    if full && k == order.last() {
                    } else {
                        assert(blocks2[k as int] == blocks[k as int]);
                    }
                }
            }
        }
        match wrote {
            Ok(()) => {},
            Err(e) => {
                return Err(e);
            },
        }
        assert(!order.contains(sector_idx));
        let _ = self.cache.put(sector_idx, v);
        proof {
            let now = self.cache.entries();
            if full {
                let victim = order.last();
                assert(now == held.remove(victim).insert(sector_idx, (v, false)));
                assert(blocks2[victim as int] == held[victim].0@);
            } else {
                assert(now == held.insert(sector_idx, (v, false)));
            }
            assert(blocks2[sector_idx as int] == blocks[sector_idx as int]);
            assert(overlay(blocks2, now) =~= overlay(blocks, held));
            assert(coherent(blocks2, self.disk.block_len(), now));
            assert(self.buffers() =~= admitted_buffers(
                old(self).buffers(),
                order,
                old(self).cache.limit(),
                sector_idx,
                old(self)@[sector_idx as int],
                false,
            ));
            assert(blocks2 =~= written_back(old(self).disk.blocks(), old(self).buffers(), order, old(self).cache.limit(), sector_idx));
        }
        Ok(())
    }

    /// Lends block `sector_idx` for reading. A block that is not in the pool
    /// is read from the device first.
    pub fn get(&mut self, sector_idx: u64) -> (r: Result<ReadOnlyBlock<'_>, BlockDeviceError>)
        requires
            old(self).wf(),
        ensures
            final(self).wf(),
            final(self)@ == old(self)@,
            same_device(old(self).device(), final(self).device()),
            final(self).pool().limit() == old(self).pool().limit(),
            access_outcome(r, sector_idx, old(self)@.len(), old(self).dependable()),
            r matches Ok(block) ==> block.data@ == old(self)@[sector_idx as int],
            r is Ok ==> {
                &&& final(self).pool().order() == admitted(old(self).pool().order(), old(self).pool().limit(), sector_idx)
                &&& final(self).buffers() == admitted_buffers(
                    old(self).buffers(),
                    old(self).pool().order(),
                    old(self).pool().limit(),
                    sector_idx,
                    old(self)@[sector_idx as int],
                    false,
                )
                &&& final(self).device().blocks() == written_back(
                    old(self).device().blocks(),
                    old(self).buffers(),
                    old(self).pool().order(),
                    old(self).pool().limit(),
                    sector_idx,
                )
            },
            r is Err ==> final(self).pool() == old(self).pool(),
            old(self).buffers().contains_key(sector_idx) ==> r is Ok,
            no_new_dirt(old(self).buffers(), final(self).buffers()),
    {
        let ghost order0 = self.cache.order();
        let ghost held0 = self.buffers();
        let ghost hit = self.cache.entries().contains_key(sector_idx);
        proof {
            self.lemma_geometry();
            assert(hit <==> order0.contains(sector_idx));
        }
        if self.cache.peek(sector_idx).is_none() {
            match self.load(sector_idx) {
                Ok(()) => {},
                Err(e) => {
                    return Err(e);
                },
            }
        }
        let ghost order1 = self.cache.order();
        proof {
            self.lemma_geometry();
            assert(order1[0] == sector_idx || hit);
            if !hit {
                assert(order1.contains(sector_idx));
                assert(order1.index_of(sector_idx) == 0);
                assert(promoted(order1, sector_idx) =~= order1);
                assert(self.buffers() =~= admitted_buffers(
                    held0,
                    order0,
                    self.cache.limit(),
                    sector_idx,
                    self@[sector_idx as int],
                    false,
                ));
            } else {
                assert(self.buffers() =~= admitted_buffers(
                    held0,
                    order0,
                    self.cache.limit(),
                    sector_idx,
                    self@[sector_idx as int],
                    false,
                ));
            }
        }
        match self.cache.get(&sector_idx) {
            Some(v) => Ok(ReadOnlyBlock { data: v.as_slice() }),
            None => vstd::pervasive::unreached(),
        }
    }

    /// Lends block `sector_idx` for writing and marks it dirty. What is
    /// written through the handle is the block's content from then on.
    pub fn get_mut(&mut self, sector_idx: u64) -> (r: Result<MutableBlock<'_>, BlockDeviceError>)
        requires
            old(self).wf(),
        ensures
            same_device(old(self).device(), final(self).device()),
            final(self).pool().limit() == old(self).pool().limit(),
            access_outcome(r, sector_idx, old(self)@.len(), old(self).dependable()),
            r is Err ==> final(self).wf() && final(self)@ == old(self)@ && final(self).pool() == old(self).pool(),
            old(self).buffers().contains_key(sector_idx) ==> r is Ok,
            r matches Ok(block) ==> {
                &&& block.data@ == old(self)@[sector_idx as int]
                &&& final(self)@ == old(self)@.update(sector_idx as int, final(block.data)@)
                &&& final(block.data)@.len() == block.data@.len() ==> final(self).wf()
                &&& final(self).pool().order() == admitted(old(self).pool().order(), old(self).pool().limit(), sector_idx)
                &&& final(self).buffers() == admitted_buffers(
                    old(self).buffers(),
                    old(self).pool().order(),
                    old(self).pool().limit(),
                    sector_idx,
                    old(self)@[sector_idx as int],
                    true,
                ).insert(sector_idx, (final(block.data)@, true))
                &&& final(self).device().blocks() == written_back(
                    old(self).device().blocks(),
                    old(self).buffers(),
                    old(self).pool().order(),
                    old(self).pool().limit(),
                    sector_idx,
                )
            },
    {
        let ghost order0 = self.cache.order();
        let ghost held0 = self.buffers();
        let ghost hit = self.cache.entries().contains_key(sector_idx);
        proof {
            self.lemma_geometry();
            assert(hit <==> order0.contains(sector_idx));
        }
        if self.cache.peek(sector_idx).is_none() {
            match self.load(sector_idx) {
                Ok(()) => {},
                Err(e) => {
                    return Err(e);
                },
            }
        }
        let ghost shown = self@;
        let ghost order1 = self.cache.order();
        let ghost held1 = self.buffers();
        proof {
            self.lemma_geometry();
            if !hit {
                assert(order1[0] == sector_idx);
                assert(order1.contains(sector_idx));
                assert(order1.index_of(sector_idx) == 0);
                assert(promoted(order1, sector_idx) =~= order1);
            }
        }
        let _ = self.cache.get(&sector_idx);
        let _ = self.cache.mark_dirty(&sector_idx);
        let ghost held = self.cache.entries();
        let ghost blocks = self.disk.blocks();
        let ghost limit = self.cache.limit();
        proof {
            lemma_count_fits(blocks.len(), self.disk.block_len());
            assert(held.contains_key(sector_idx));
            assert(overlay(blocks, held) =~= shown);
        }
        match self.cache.peek_mut(sector_idx) {
            Some(v) => {
                proof {
                    let after = held.insert(sector_idx, (*final(v), true));
                    assert(after.contains_key(sector_idx));
                    assert(overlay(blocks, after) =~= shown.update(sector_idx as int, final(v)@));
                    assert(final(v)@.len() == v@.len() ==> coherent(blocks, self.disk.block_len(), after));
                    assert(shown_buffers(held) =~= held1.insert(sector_idx, (held1[sector_idx].0, true)));
                    assert(shown_buffers(after) =~= held1.insert(sector_idx, (final(v)@, true)));
                    if hit {
                        assert(held1 == held0);
                    } else {
                        assert(held1 == admitted_buffers(held0, order0, limit, sector_idx, shown[sector_idx as int], false));
                    }
                    assert(shown_buffers(after) =~= admitted_buffers(
                        held0,
                        order0,
                        limit,
                        sector_idx,
                        shown[sector_idx as int],
                        true,
                    ).insert(sector_idx, (final(v)@, true)));
                }
                let data = v.as_mut_slice();
                Ok(MutableBlock { data })
            },
            None => vstd::pervasive::unreached(),
        }
    }

    /// Writes every dirty block to the device and empties the pool. If the
    /// device fails, the blocks that are not written yet stay in the pool.
    pub fn flush(&mut self) -> (r: Result<(), BlockDeviceError>)
        requires
            old(self).wf(),
        ensures
            final(self).wf(),
            final(self)@ == old(self)@,
            same_device(old(self).device(), final(self).device()),
            final(self).pool().limit() == old(self).pool().limit(),
            r is Ok ==> final(self).pool().order().len() == 0 && final(self).device().blocks() == old(self)@,
            r is Err ==> r->Err_0 is IOError,
            old(self).dependable() || all_clean(old(self).buffers()) ==> r is Ok,
            all_clean(old(self).buffers()) ==> final(self).device().blocks() == old(self).device().blocks(),
            flushed(old(self).device().blocks(), final(self).device().blocks(), old(self).buffers(), final(self).buffers()),
    {
        proof {
            lemma_count_fits(self.disk.blocks().len(), self.disk.block_len());
        }
        let ghost sectors = self.disk.blocks();
        let ghost shown = self@;
        let ghost held = self.cache.entries();
        let ghost clean = all_clean(self.buffers());
        let mut entries = self.cache.drain();
        proof {
            lemma_listed(entries@);
            assert(listed(entries@) =~= held);
            if clean {
                assert forall|i: int| 0 <= i < entries@.len() implies !(#[trigger] entries@[i]).2 by {
                    assert(held.contains_key(entries@[i].0));
                    assert(shown_buffers(held).contains_key(entries@[i].0));
                }
            }
        }
        while entries.len() > 0
            invariant
                clean == all_clean(old(self).buffers()),
                clean ==> forall|i: int| 0 <= i < entries@.len() ==> !(#[trigger] entries@[i]).2,
                clean ==> self.disk.blocks() == old(self).disk.blocks(),
                device_wf(&self.disk),
                cache_wf::<Vec<u8>, C>(&self.cache),
                self.cache.order().len() == 0,
                self.cache.limit() == old(self).cache.limit(),
                self.block_size == old(self).block_size,
                self.block_size == self.disk.block_len(),
                self.block_size <= usize::MAX,
                same_device(old(self).disk, self.disk),
                self.disk.blocks().len() <= u64::MAX,
                entries@.len() <= self.cache.limit(),
                forall|i: int, j: int| 0 <= i < j < entries@.len() ==> entries@[i].0 != entries@[j].0,
                coherent(self.disk.blocks(), self.disk.block_len(), listed(entries@)),
                overlay(self.disk.blocks(), listed(entries@)) == shown,
                shown == old(self)@,
                held == old(self).cache.entries(),
                sectors == old(self).disk.blocks(),
                flushed(sectors, self.disk.blocks(), shown_buffers(held), shown_buffers(listed(entries@))),
            decreases entries@.len(),
        {
            let ghost blocks = self.disk.blocks();
            let ghost before = entries@;
            let (key, data, dirty) = entries.pop().unwrap();
            proof {
                lemma_listed(before);
                lemma_listed(entries@);
                assert(before[before.len() - 1].0 == key);
                assert(listed(before).contains_key(key));
                assert(listed(before) =~= listed(entries@).insert(key, (data, dirty))) by {
                    assert forall|k: u64| listed(before).contains_key(k) implies listed(entries@).insert(
                        key,
                        (data, dirty),
                    ).contains_key(k) by {
                        let i = choose|i: int| 0 <= i < before.len() && #[trigger] before[i].0 == k;
                        if i < before.len() - 1 {
                            assert(entries@[i].0 == k);
                        }
                    }
                    assert forall|k: u64| listed(entries@).contains_key(k) implies listed(before).contains_key(k)
                        && listed(before)[k] == listed(entries@)[k] by {
                        let i = choose|i: int| 0 <= i < entries@.len() && #[trigger] entries@[i].0 == k;
                        assert(before[i].0 == k);
                    }
                }
                assert(!listed(entries@).contains_key(key)) by {
                    if listed(entries@).contains_key(key) {
                        let i = choose|i: int| 0 <= i < entries@.len() && #[trigger] entries@[i].0 == key;
                        assert(before[i].0 != before[before.len() - 1].0);
                    }
                }
            }
            proof {
                assert(listed(entries@) =~= listed(before).remove(key));
            }
            match Self::flush_block(&mut self.disk, key, data.as_slice(), dirty) {
                Ok(()) => {
                    proof {
                        lemma_flushed_step(
                            sectors,
                            blocks,
                            self.disk.blocks(),
                            held,
                            listed(before),
                            listed(entries@),
                            key,
                            data,
                            dirty,
                            true,
                        );
                        assert(self.disk.blocks()[key as int] == data@);
                        assert(overlay(self.disk.blocks(), listed(entries@)) =~= shown);
                        assert(coherent(self.disk.blocks(), self.disk.block_len(), listed(entries@))) by {
                            assert forall|k: u64| #[trigger] listed(entries@).contains_key(k) implies k
                                < self.disk.blocks().len() && listed(entries@)[k].0@.len() == self.disk.block_len() && (
                            !listed(entries@)[k].1 ==> listed(entries@)[k].0@ == self.disk.blocks()[k as int]) by {
                                assert(listed(before).contains_key(k));
                                assert(self.disk.blocks()[k as int] == blocks[k as int]);
                            }
                        }
                    }
                },
                Err(e) => {
                    entries.push((key, data, dirty));
                    proof {
                        lemma_flushed_step(
                            sectors,
                            blocks,
                            self.disk.blocks(),
                            held,
                            listed(before),
                            listed(before),
                            key,
                            data,
                            dirty,
                            false,
                        );
                        assert(entries@ =~= before);
                        assert(overlay(self.disk.blocks(), listed(before)) =~= shown);
                        assert(coherent(self.disk.blocks(), self.disk.block_len(), listed(before))) by {
                            assert forall|k: u64| #[trigger] listed(before).contains_key(k) implies k
                                < self.disk.blocks().len() && listed(before)[k].0@.len() == self.disk.block_len() && (
                            !listed(before)[k].1 ==> listed(before)[k].0@ == self.disk.blocks()[k as int]) by {
                                if k != key {
                                    assert(self.disk.blocks()[k as int] == blocks[k as int]);
                                }
                            }
                        }
                    }
                    self.restore(entries);
                    return Err(e);
                },
            }
        }
        proof {
            assert forall|k: u64| !self.cache.entries().contains_key(k) by {
                assert(!self.cache.order().contains(k));
            }
            assert(overlay(self.disk.blocks(), self.cache.entries()) =~= self.disk.blocks());
            assert(overlay(self.disk.blocks(), listed(entries@)) =~= self.disk.blocks());
        }
        Ok(())
    }

    /// Puts entries that were taken out of the pool back into it.
    fn restore(&mut self, entries: Vec<(u64, Vec<u8>, bool)>)
        requires
            cache_wf::<Vec<u8>, C>(&old(self).cache),
            old(self).cache.order().len() == 0,
            entries@.len() <= old(self).cache.limit(),
            forall|i: int, j: int| 0 <= i < j < entries@.len() ==> entries@[i].0 != entries@[j].0,
        ensures
            cache_wf::<Vec<u8>, C>(&final(self).cache),
            final(self).cache.limit() == old(self).cache.limit(),
            final(self).cache.entries() == listed(entries@),
            final(self).disk == old(self).disk,
            final(self).block_size == old(self).block_size,
    {
        let mut entries = entries;
        let ghost all = entries@;
        proof {
            assert forall|k: u64| !self.cache.entries().contains_key(k) by {
                assert(!self.cache.order().contains(k));
            }
        }
        while entries.len() > 0
            invariant
                cache_wf::<Vec<u8>, C>(&self.cache),
                self.cache.limit() == old(self).cache.limit(),
                self.disk == old(self).disk,
                self.block_size == old(self).block_size,
                entries@ == all.subrange(0, entries@.len() as int),
                entries@.len() <= all.len() <= self.cache.limit(),
                self.cache.order().len() + entries@.len() == all.len(),
                forall|i: int, j: int| 0 <= i < j < all.len() ==> all[i].0 != all[j].0,
                forall|k: u64|
                    self.cache.entries().contains_key(k) <==> exists|i: int|
                        entries@.len() <= i < all.len() && #[trigger] all[i].0 == k,
                forall|i: int|
                    entries@.len() <= i < all.len() ==> self.cache.entries()[#[trigger] all[i].0] == (all[i].1, all[i].2),
            decreases entries@.len(),
        {
            let ghost before = self.cache.entries();
            let ghost order = self.cache.order();
            let ghost at = entries@.len() - 1;
            let (key, data, dirty) = entries.pop().unwrap();
            proof {
                assert(all[at].0 == key);
                if before.contains_key(key) {
                    let i = choose|i: int| entries@.len() <= i < all.len() && #[trigger] all[i].0 == key;
                    assert(all[at].0 != all[i].0);
                }
                assert(!self.cache.order().contains(key));
            }
            let _ = self.cache.put(key, data);
            if dirty {
                let _ = self.cache.mark_dirty(&key);
            }
            proof {
                assert(self.cache.order() == order.insert(0, key));
                assert(self.cache.entries().contains_key(key));
                assert forall|k: u64| self.cache.entries().contains_key(k) implies exists|i: int|
                    entries@.len() <= i < all.len() && #[trigger] all[i].0 == k by {
                    if k == key {
                        assert(all[at].0 == k);
                    } else {
                        let i = choose|i: int| at < i < all.len() && #[trigger] all[i].0 == k;
                        assert(all[i].0 == k);
                    }
                }
                assert forall|i: int| entries@.len() <= i < all.len() implies self.cache.entries()[#[trigger] all[i].0]
                    == (all[i].1, all[i].2) by {
                    if i != at {
                        assert(all[i].0 != all[at].0);
                    }
                }
            }
        }
        proof {
            lemma_listed(all);
            assert(self.cache.entries() =~= listed(all));
        }
    }
}

/// One step of a flush keeps `flushed`: the buffer under `key` left the
/// pool, written to its sector where it was dirty; or the write failed and
/// the buffer stays.
pub proof fn lemma_flushed_step(
    sectors: Seq<Seq<u8>>,
    blocks: Seq<Seq<u8>>,
    now: Seq<Seq<u8>>,
    held: Map<u64, (Vec<u8>, bool)>,
    before: Map<u64, (Vec<u8>, bool)>,
    after: Map<u64, (Vec<u8>, bool)>,
    key: u64,
    data: Vec<u8>,
    dirty: bool,
    done: bool,
)
    requires
        flushed(sectors, blocks, shown_buffers(held), shown_buffers(before)),
        before.contains_key(key),
        before[key] == (data, dirty),
        key < blocks.len(),
        now.len() == blocks.len(),
        forall|i: int| 0 <= i < blocks.len() && i != key ==> #[trigger] now[i] == blocks[i],
        done ==> after == before.remove(key) && now[key as int] == (if dirty {
            data@
        } else {
            blocks[key as int]
        }),
        !done ==> after == before && dirty,
    ensures
        flushed(sectors, now, shown_buffers(held), shown_buffers(after)),
{
    let was = shown_buffers(held);
    let left = shown_buffers(before);
    let stays = shown_buffers(after);
    assert(left.contains_key(key));
    assert(was.contains_key(key) && left[key] == was[key]);
    assert forall|k: u64| #[trigger] stays.contains_key(k) implies was.contains_key(k) && stays[k] == was[k] by {
        assert(left.contains_key(k));
    }
    assert forall|k: u64| k < sectors.len() && #[trigger] now[k as int] != sectors[k as int] implies was.contains_key(k)
        && was[k].1 && (now[k as int] == was[k].0 || stays.contains_key(k)) by {
        if k != key {
            assert(now[k as int] == blocks[k as int]);
            if left.contains_key(k) {
                assert(stays.contains_key(k));
            }
        } else if done && !dirty {
            assert(now[k as int] == blocks[k as int]);
        }
    }
    assert forall|k: u64| #[trigger] was.contains_key(k) && was[k].1 && !stays.contains_key(k) implies k < sectors.len()
        && now[k as int] == was[k].0 by {
        if k != key {
            assert(!left.contains_key(k));
            assert(now[k as int] == blocks[k as int]);
        }
    }
}

/// The map that lists `entries`: each key with its value and flag.
pub open spec fn listed(entries: Seq<(u64, Vec<u8>, bool)>) -> Map<u64, (Vec<u8>, bool)> {
    Map::new(
        |k: u64| exists|i: int| 0 <= i < entries.len() && #[trigger] entries[i].0 == k,
        |k: u64|
            {
                let i = choose|i: int| 0 <= i < entries.len() && #[trigger] entries[i].0 == k;
                (entries[i].1, entries[i].2)
            },
    )
}

/// Under distinct keys, `listed` holds each entry under its key.
pub proof fn lemma_listed(entries: Seq<(u64, Vec<u8>, bool)>)
    requires
        forall|i: int, j: int| 0 <= i < j < entries.len() ==> entries[i].0 != entries[j].0,
    ensures
        forall|i: int|
            0 <= i < entries.len() ==> listed(entries).contains_key(#[trigger] entries[i].0) && listed(
                entries,
            )[entries[i].0] == (entries[i].1, entries[i].2),
{
    assert forall|i: int| 0 <= i < entries.len() implies listed(entries).contains_key(#[trigger] entries[i].0)
        && listed(entries)[entries[i].0] == (entries[i].1, entries[i].2) by {
        let k = entries[i].0;
        let j = choose|j: int| 0 <= j < entries.len() && #[trigger] entries[j].0 == k;
        if i < j {
            assert(entries[i].0 != entries[j].0);
        } else if j < i {
            assert(entries[j].0 != entries[i].0);
        }
    }
}

/// A device whose capacity in bytes fits `u64` has a number of sectors that
/// fits too.
pub proof fn lemma_count_fits(count: nat, block_len: nat)
    requires
        block_len > 0,
        count * block_len <= u64::MAX,
    ensures
        count <= u64::MAX,
{
    assert(count <= count * block_len) by (nonlinear_arith)
        requires
            block_len > 0,
    ;
}

/// The two devices have the same shape and are both dependable or both not.
pub open spec fn same_device<D: BlockDevice>(a: D, b: D) -> bool {
    &&& a.block_len() == b.block_len()
    &&& a.blocks().len() == b.blocks().len()
    &&& a.dependable() == b.dependable()
}

/// What an access to block `idx` of `count` blocks may answer: a refusal by
/// its index where it names no block; else success or a failure of the
/// backing store, and success on a dependable device.
pub open spec fn access_outcome<T>(r: Result<T, BlockDeviceError>, idx: u64, count: nat, dependable: bool) -> bool {
    if idx >= count {
        r is Err && r->Err_0 == (BlockDeviceError::IdxOutOfRange { idx, max: count as u64 })
    } else if dependable {
        r is Ok
    } else {
        r is Ok || (r is Err && r->Err_0 is IOError)
    }
}

} // verus!
