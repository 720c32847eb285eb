//! The block cache: a bounded, write-back pool of in-memory block buffers.
//!
//! The cache manager owns the block device; every read or write of block
//! bytes goes through it. Its view is the *effective* disk: the device
//! contents overlaid with whatever the cache holds. A buffer is loaded on
//! first access and reused afterwards, so a read after a write inside the
//! cache sees the written bytes; a dirty buffer reaches the device only on
//! [`BlockCacheManager::sync_all`] or when it is evicted to make room.

use vstd::prelude::*;

use crate::block_dev::BlockDevice;
use crate::BLOCK_SZ;

verus! {

/// The most buffers the cache may hold at once.
pub const BLOCK_CACHE_SIZE: usize = 16;

/// One cached block buffer.
pub struct BlockCache {
    /// Index of the block this buffer mirrors.
    pub block_id: usize,
    /// The buffered bytes, always exactly [`BLOCK_SZ`] of them.
    pub data: Vec<u8>,
    /// Whether the buffer has been written since it was loaded or flushed.
    pub dirty: bool,
}

/// The bounded pool of block buffers, together with the device it mirrors.
pub struct BlockCacheManager {
    dev: BlockDevice,
    slots: Vec<BlockCache>,
}

/// Whether some cache slot buffers block `id`.
pub open spec fn has_block(slots: Seq<BlockCache>, id: int) -> bool {
    exists|i: int| 0 <= i < slots.len() && (#[trigger] slots[i]).block_id == id
}

/// The index of the slot buffering block `id` (meaningful when ids are
/// distinct and `has_block` holds).
pub open spec fn slot_of(slots: Seq<BlockCache>, id: int) -> int {
    choose|i: int| 0 <= i < slots.len() && (#[trigger] slots[i]).block_id == id
}

/// `block` with `data` spliced in at byte offset `off`.
pub open spec fn splice(block: Seq<u8>, off: int, data: Seq<u8>) -> Seq<u8> {
    Seq::new(block.len(), |j: int| if off <= j < off + data.len() {
        data[j - off]
    } else {
        block[j]
    })
}

impl BlockCacheManager {
    /// The effective disk: per block, the cached bytes if the block is
    /// buffered, else the device bytes.
    pub closed spec fn view(&self) -> Seq<Seq<u8>> {
        Seq::new(self.dev@.len(), |b: int| if has_block(self.slots@, b) {
            self.slots@[slot_of(self.slots@, b)].data@
        } else {
            self.dev@[b]
        })
    }

    /// The device contents alone, without the cache overlay: what would
    /// survive a crash right now.
    pub closed spec fn persisted(&self) -> Seq<Seq<u8>> {
        self.dev@
    }

    /// No buffer holds changes the device has not seen.
    pub closed spec fn clean(&self) -> bool {
        forall|i: int| 0 <= i < self.slots@.len() ==> !(#[trigger] self.slots@[i]).dirty
    }

    /// Cache well-formedness: the device is well formed, the pool is bounded,
    /// buffered block ids are distinct and in range, every buffer holds
    /// exactly one block's worth of bytes, and a clean buffer agrees with the
    /// device.
    pub closed spec fn wf(&self) -> bool {
        &&& self.dev.wf()
        &&& self.slots@.len() <= BLOCK_CACHE_SIZE
        &&& forall|i: int, j: int|
            0 <= i < j < self.slots@.len() ==> (#[trigger] self.slots@[i]).block_id != (
            #[trigger] self.slots@[j]).block_id
        &&& forall|i: int|
            0 <= i < self.slots@.len() ==> (#[trigger] self.slots@[i]).block_id < self.dev@.len()
        &&& forall|i: int|
            0 <= i < self.slots@.len() ==> (#[trigger] self.slots@[i]).data@.len() == BLOCK_SZ
        &&& forall|i: int|
            0 <= i < self.slots@.len() && !(#[trigger] self.slots@[i]).dirty
                ==> self.slots@[i].data@ == self.dev@[self.slots@[i].block_id as int]
    }

    /// With distinct ids, any slot holding block `b` holds the effective bytes.
    proof fn lemma_cached_value(&self, i: int)
        requires
            self.wf(),
            0 <= i < self.slots@.len(),
        ensures
            self@[self.slots@[i].block_id as int] == self.slots@[i].data@,
    {
        let b = self.slots@[i].block_id as int;
        assert(has_block(self.slots@, b));
        let k = slot_of(self.slots@, b);
        assert(0 <= k < self.slots@.len() && self.slots@[k].block_id == b);
        if k != i {
            assert(self.slots@[k].block_id != self.slots@[i].block_id);
        }
    }

    /// Every block of the effective disk holds exactly [`BLOCK_SZ`] bytes.
    pub proof fn lemma_block_len(&self, b: int)
        requires
            self.wf(),
            0 <= b < self@.len(),
        ensures
            self@[b].len() == BLOCK_SZ,
    {
        if has_block(self.slots@, b) {
            let k = slot_of(self.slots@, b);
            assert(0 <= k < self.slots@.len() && self.slots@[k].block_id == b);
        }
    }

    /// A fresh cache over `dev`: empty pool, effective disk equal to the
    /// device contents.
    pub fn new(dev: BlockDevice) -> (cm: BlockCacheManager)
        requires
            dev.wf(),
        ensures
            cm.wf(),
            cm.clean(),
            cm@ == dev@,
    {
        let cm = BlockCacheManager { dev, slots: Vec::new() };
        assert(cm@ =~= cm.dev@);
        cm
    }

    /// The number of blocks of the underlying device.
    pub fn total_blocks(&self) -> (n: usize)
        requires
            self.wf(),
        ensures
            n == self@.len(),
    {
        self.dev.total_blocks()
    }

    /// Find the slot buffering `block_id`, if any.
    fn find(&self, block_id: usize) -> (r: Option<usize>)
        ensures
            match r {
                Some(i) => i < self.slots@.len() && self.slots@[i as int].block_id == block_id,
                None => !has_block(self.slots@, block_id as int),
            },
    {
        let mut i: usize = 0;
        while i < self.slots.len()
            invariant
                i <= self.slots@.len(),
                forall|k: int| 0 <= k < i ==> (#[trigger] self.slots@[k]).block_id != block_id,
            decreases self.slots@.len() - i,
        {
            if self.slots[i].block_id == block_id {
                return Some(i);
            }
            i += 1;
        }
        None
    }

    /// Make room, then load `block_id` into a slot; return its index.
    /// The effective disk does not change: eviction flushes a dirty buffer
    /// to the device first, and a load copies the device bytes.
    fn get_slot(&mut self, block_id: usize) -> (i: usize)
        requires
            old(self).wf(),
            block_id < old(self)@.len(),
        ensures
            final(self).wf(),
            final(self)@ == old(self)@,
            final(self)@.len() == old(self)@.len(),
            i < final(self).slots@.len(),
            final(self).slots@[i as int].block_id == block_id,
    {
        let ghost v0 = self@;
        if let Some(i) = self.find(block_id) {
            return i;
        }
        if self.slots.len() >= BLOCK_CACHE_SIZE {
            // Evict the oldest buffer, flushing it first if it is dirty.
            let ghost pre = *self;
            let evicted_id = self.slots[0].block_id;
            if self.slots[0].dirty {
                self.dev.write_block(evicted_id, &self.slots[0].data);
                let mut slot0 = BlockCache {
                    block_id: evicted_id,
                    data: Vec::new(),
                    dirty: false,
                };
                // Re-read the now-persisted bytes so the clean invariant holds.
                self.dev.read_block(evicted_id, &mut slot0.data);
                self.slots.set(0, slot0);
                proof {
                    assert(self.slots@[0].data@ == pre.slots@[0].data@);
                    assert forall|b: int| 0 <= b < self@.len() implies self@[b] == v0[b] by {
                        if has_block(pre.slots@, b) {
                            let w = slot_of(pre.slots@, b);
                            assert(self.slots@[w].block_id == b);
                        }
                        if has_block(self.slots@, b) {
                            let w = slot_of(self.slots@, b);
                            assert(pre.slots@[w].block_id == b);
                        }
                        assert(has_block(self.slots@, b) == has_block(pre.slots@, b));
                        if has_block(self.slots@, b) {
                            let k = slot_of(self.slots@, b);
                            pre.lemma_cached_value(k);
                            self.lemma_cached_value(k);
                            assert(self.slots@[k].data@ == pre.slots@[k].data@);
                        } else {
                            assert(self.dev@[b] == pre.dev@[b]);
                        }
                    }
                    assert(self@ =~= v0);
                }
            }
            let ghost mid = *self;
            let removed = self.slots.remove(0);
            proof {
                assert forall|b: int| 0 <= b < self@.len() implies self@[b] == v0[b] by {
                    if b == removed.block_id {
                        // The removed buffer was clean, so the device holds its bytes.
                        assert(mid.slots@[0].block_id == b);
                        mid.lemma_cached_value(0);
                        if has_block(self.slots@, b) {
                            let k = slot_of(self.slots@, b);
                            assert(mid.slots@[k + 1].block_id == b);
                            assert(mid.slots@[0].block_id == mid.slots@[k + 1].block_id);
                            assert(false);
                        }
                        assert(self@[b] == mid.dev@[b]);
                    } else {
                        if has_block(mid.slots@, b) {
                            let k = slot_of(mid.slots@, b);
                            assert(k != 0);
                            assert(self.slots@[k - 1].block_id == b);
                            mid.lemma_cached_value(k);
                            self.lemma_cached_value(k - 1);
                        } else {
                            if has_block(self.slots@, b) {
                                let k = slot_of(self.slots@, b);
                                assert(mid.slots@[k + 1].block_id == b);
                                assert(false);
                            }
                        }
                    }
                }
                assert(self@ =~= v0);
            }
        }
        let ghost before = *self;
        let mut data: Vec<u8> = Vec::new();
        self.dev.read_block(block_id, &mut data);
        let idx = self.slots.len();
        self.slots.push(BlockCache { block_id, data, dirty: false });
        proof {
            assert forall|b: int| 0 <= b < self@.len() implies self@[b] == v0[b] by {
                if b == block_id {
                    self.lemma_cached_value(idx as int);
                    assert(!has_block(before.slots@, b));
                } else {
                    if has_block(before.slots@, b) {
                        let k = slot_of(before.slots@, b);
                        before.lemma_cached_value(k);
                        self.lemma_cached_value(k);
                    } else {
                        if has_block(self.slots@, b) {
                            let k = slot_of(self.slots@, b);
                            assert(before.slots@[k].block_id == b);
                            assert(false);
                        }
                    }
                }
            }
            assert(self@ =~= v0);
        }
        idx
    }

    /// Read `len` bytes of block `block_id` starting at byte `offset`.
    pub fn read_range(&mut self, block_id: usize, offset: usize, len: usize) -> (r: Vec<u8>)
        requires
            old(self).wf(),
            block_id < old(self)@.len(),
            offset + len <= BLOCK_SZ,
        ensures
            final(self).wf(),
            final(self)@ == old(self)@,
            r@ == old(self)@[block_id as int].subrange(offset as int, offset + len),
    {
        let i = self.get_slot(block_id);
        proof {
            self.lemma_cached_value(i as int);
        }
        let mut r: Vec<u8> = Vec::new();
        let mut k: usize = 0;
        while k < len
            invariant
                k <= len,
                i < self.slots@.len(),
                offset + len <= BLOCK_SZ,
                self.slots@[i as int].data@.len() == BLOCK_SZ,
                r@ == self.slots@[i as int].data@.subrange(offset as int, offset + k),
            decreases len - k,
        {
            r.push(self.slots[i].data[offset + k]);
            assert(r@ =~= self.slots@[i as int].data@.subrange(offset as int, offset + k + 1));
            k += 1;
        }
        r
    }

    /// Write `data` into block `block_id` at byte `offset`, marking the
    /// buffer dirty. Only that byte range of the effective disk changes.
    pub fn write_range(&mut self, block_id: usize, offset: usize, data: &[u8])
        requires
            old(self).wf(),
            block_id < old(self)@.len(),
            offset + data@.len() <= BLOCK_SZ,
        ensures
            final(self).wf(),
            final(self)@ == old(self)@.update(
                block_id as int,
                splice(old(self)@[block_id as int], offset as int, data@),
            ),
    {
        let ghost v0 = self@;
        let i = self.get_slot(block_id);
        proof {
            self.lemma_cached_value(i as int);
        }
        let ghost pre = *self;
        let mut buf: Vec<u8> = Vec::new();
        let mut k: usize = 0;
        // Copy the buffer, replacing the target range.
        while k < BLOCK_SZ
            invariant
                k <= BLOCK_SZ,
                i < self.slots@.len(),
                *self == pre,
                self.slots@[i as int].data@.len() == BLOCK_SZ,
                offset + data@.len() <= BLOCK_SZ,
                buf@ == splice(self.slots@[i as int].data@, offset as int, data@).subrange(
                    0,
                    k as int,
                ),
            decreases BLOCK_SZ - k,
        {
            let byte: u8 = if offset <= k && k < offset + data.len() {
                data[k - offset]
            } else {
                self.slots[i].data[k]
            };
            buf.push(byte);
            assert(buf@ =~= splice(self.slots@[i as int].data@, offset as int, data@).subrange(
                0,
                k + 1,
            ));
            k += 1;
        }
        assert(buf@ =~= splice(self.slots@[i as int].data@, offset as int, data@));
        self.slots.set(i, BlockCache { block_id, data: buf, dirty: true });
        proof {
            assert forall|b: int|
                0 <= b < self@.len() && b != block_id implies self@[b] == v0[b] by {
                if has_block(pre.slots@, b) {
                    let k = slot_of(pre.slots@, b);
                    assert(k != i);
                    pre.lemma_cached_value(k);
                    self.lemma_cached_value(k);
                } else {
                    if has_block(self.slots@, b) {
                        let k = slot_of(self.slots@, b);
                        assert(pre.slots@[k].block_id == b);
                        assert(false);
                    }
                }
            }
            self.lemma_cached_value(i as int);
            assert(self@[block_id as int] == splice(v0[block_id as int], offset as int, data@));
            assert(self@ =~= v0.update(
                block_id as int,
                splice(v0[block_id as int], offset as int, data@),
            ));
        }
    }

    /// Flush every dirty buffer to the device. Afterwards the device holds
    /// exactly the effective disk: this is the only persistence guarantee.
    pub fn sync_all(&mut self)
        requires
            old(self).wf(),
        ensures
            final(self).wf(),
            final(self).clean(),
            final(self)@ == old(self)@,
            final(self).persisted() == old(self)@,
    {
        let ghost v0 = self@;
        let mut i: usize = 0;
        while i < self.slots.len()
            invariant
                old(self).wf(),
                self.wf(),
                i <= self.slots@.len(),
                self@ == v0,
                self.slots@.len() == old(self).slots@.len(),
                forall|k: int| 0 <= k < i ==> !(#[trigger] self.slots@[k]).dirty,
            decreases self.slots@.len() - i,
        {
            if self.slots[i].dirty {
                let ghost pre = *self;
                let id = self.slots[i].block_id;
                self.dev.write_block(id, &self.slots[i].data);
                let mut slot = BlockCache { block_id: id, data: Vec::new(), dirty: false };
                self.dev.read_block(id, &mut slot.data);
                self.slots.set(i, slot);
                proof {
                    assert(self.slots@[i as int].data@ == pre.slots@[i as int].data@);
                    assert forall|b: int| 0 <= b < self@.len() implies self@[b] == v0[b] by {
                        if has_block(pre.slots@, b) {
                            let w = slot_of(pre.slots@, b);
                            assert(self.slots@[w].block_id == b);
                        }
                        if has_block(self.slots@, b) {
                            let w = slot_of(self.slots@, b);
                            assert(pre.slots@[w].block_id == b);
                        }
                        assert(has_block(self.slots@, b) == has_block(pre.slots@, b));
                        if has_block(self.slots@, b) {
                            let k = slot_of(self.slots@, b);
                            pre.lemma_cached_value(k);
                            self.lemma_cached_value(k);
                            assert(self.slots@[k].data@ == pre.slots@[k].data@);
                        } else {
                            assert(pre.slots@[i as int].block_id != b);
                            assert(self.dev@[b] == pre.dev@[b]);
                        }
                    }
                    assert(self@ =~= v0);
                }
            }
            i += 1;
        }
        proof {
            assert forall|b: int| 0 <= b < self@.len() implies self.dev@[b] == self@[b] by {
                if has_block(self.slots@, b) {
                    let k = slot_of(self.slots@, b);
                    self.lemma_cached_value(k);
                    assert(!self.slots@[k].dirty);
                }
            }
            assert(self.dev@ =~= self@);
        }
    }
}

} // verus!
