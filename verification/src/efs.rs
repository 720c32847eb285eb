//! The filesystem manager: owner of the on-disk geometry, the two bitmap
//! allocators and the cached device. Every allocation or deallocation
//! decision is made here and nowhere else; the inode layer receives the
//! blocks it is to use as arguments.
//!
//! Layout of the disk: block 0 is the super block, then the inode bitmap,
//! the inode area (packed inode records), the data bitmap, and the data
//! area. A caller that shares one filesystem value across threads wraps it
//! in a lock; every operation takes `&mut self`, so exclusive access is
//! already demanded by the types.

use vstd::prelude::*;

use crate::bitmap::{spec_bit, Bitmap, BLOCK_BITS};
use crate::block_cache::BlockCacheManager;
use crate::block_dev::BlockDevice;
use crate::layout::{
    decode_inode, encode_inode, encode_super_block, lemma_super_block_round_trip, write_inode,
    DiskInode, DiskInodeType, InodeView, SuperBlockView, EFS_MAGIC, INODES_PER_BLOCK, INODE_SZ,
};
use crate::{FsError, BLOCK_SZ};

verus! {

/// The filesystem manager.
pub struct EasyFileSystem {
    /// The cached block device; all byte access goes through it.
    pub cache: BlockCacheManager,
    /// Allocator over inode slots.
    pub inode_bitmap: Bitmap,
    /// Allocator over data-area blocks.
    pub data_bitmap: Bitmap,
    /// First block of the inode area.
    pub inode_area_start_block: u32,
    /// First block of the data area.
    pub data_area_start_block: u32,
}

impl EasyFileSystem {
    /// The effective disk this filesystem works over.
    pub open spec fn bs(&self) -> Seq<Seq<u8>> {
        self.cache@
    }

    /// Geometry well-formedness: the cache is sound, the two bitmap regions
    /// and the two areas are laid out in order inside the device, and each
    /// bitmap matches its area.
    pub open spec fn wf(&self) -> bool {
        &&& self.cache.wf()
        &&& self.inode_bitmap.wf(self.bs())
        &&& self.data_bitmap.wf(self.bs())
        &&& self.inode_bitmap.start_block_id == 1
        &&& self.inode_area_start_block == 1 + self.inode_bitmap.blocks
        &&& self.data_bitmap.start_block_id == self.inode_area_start_block + (
        self.inode_bitmap.max_bits + INODES_PER_BLOCK - 1) / (INODES_PER_BLOCK as int)
        &&& self.data_area_start_block == self.data_bitmap.start_block_id
            + self.data_bitmap.blocks
        &&& self.data_area_start_block + self.data_bitmap.max_bits <= self.bs().len()
        &&& self.bs().len() <= u32::MAX
        &&& self.inode_bitmap.max_bits >= 1
    }

    /// The record position of inode slot `id`: its block and byte offset.
    pub open spec fn spec_inode_pos(&self, id: int) -> (int, int) {
        (
            self.inode_area_start_block + id / (INODES_PER_BLOCK as int),
            (id % (INODES_PER_BLOCK as int)) * INODE_SZ,
        )
    }

    /// The decoded inode record of slot `id`.
    pub open spec fn inode_view(&self, id: int) -> InodeView {
        let (b, o) = self.spec_inode_pos(id);
        decode_inode(self.bs()[b].subrange(o, o + INODE_SZ))
    }

    /// Whether inode slot `id` is marked allocated.
    pub open spec fn inode_allocated(&self, id: int) -> bool {
        spec_bit(self.bs(), self.inode_bitmap.start_block_id as int, id)
    }

    /// Whether the data-area block `block_id` is marked in use.
    pub open spec fn data_block_used(&self, block_id: int) -> bool {
        spec_bit(
            self.bs(),
            self.data_bitmap.start_block_id as int,
            block_id - self.data_area_start_block,
        )
    }

    /// Slot `id` is a valid inode slot and its record lies inside the disk.
    pub open spec fn id_ok(&self, id: int) -> bool {
        &&& 0 <= id < self.inode_bitmap.max_bits
        &&& self.spec_inode_pos(id).0 < self.bs().len()
    }

    /// Every valid slot's record block lies in the inode area, before the
    /// data bitmap.
    pub proof fn lemma_inode_pos_ok(&self, id: int)
        requires
            self.wf(),
            0 <= id < self.inode_bitmap.max_bits,
        ensures
            self.inode_area_start_block <= self.spec_inode_pos(id).0
                < self.data_bitmap.start_block_id,
            0 <= self.spec_inode_pos(id).1,
            self.spec_inode_pos(id).1 + INODE_SZ <= BLOCK_SZ,
            self.id_ok(id),
    {
        let (b, o) = self.spec_inode_pos(id);
        assert(id / (INODES_PER_BLOCK as int) < (self.inode_bitmap.max_bits + INODES_PER_BLOCK
            - 1) / (INODES_PER_BLOCK as int) && 0 <= id / (INODES_PER_BLOCK as int) && 0 <= id % (
        INODES_PER_BLOCK as int) < INODES_PER_BLOCK) by (nonlinear_arith)
            requires
                0 <= id < self.inode_bitmap.max_bits,
                INODES_PER_BLOCK == 4,
        ;
        assert(o == (id % (INODES_PER_BLOCK as int)) * INODE_SZ);
        assert(0 <= o && o + INODE_SZ <= BLOCK_SZ) by (nonlinear_arith)
            requires
                o == (id % (INODES_PER_BLOCK as int)) * INODE_SZ,
                0 <= id % (INODES_PER_BLOCK as int) < 4,
                INODE_SZ == 128,
                BLOCK_SZ == 512,
        ;
    }

    /// Format a fresh filesystem on a zeroed in-memory device of
    /// `total_blocks` blocks, with `inode_bitmap_blocks` blocks of inode
    /// bitmap. The super block is written, the root directory occupies inode
    /// slot 0, and everything is flushed.
    pub fn create(total_blocks: u32, inode_bitmap_blocks: u32) -> (fs: EasyFileSystem)
        requires
            1 <= inode_bitmap_blocks,
            total_blocks <= 0x400000,
            // Enough room for block 0, the bitmaps, the inode area and at
            // least one data block.
            1 + inode_bitmap_blocks + (inode_bitmap_blocks * BLOCK_BITS) / (INODES_PER_BLOCK
                as int) + total_blocks / (BLOCK_BITS as u32) + 2 <= total_blocks,
        ensures
            fs.wf(),
            fs.bs().len() == total_blocks,
            // Block 0 opens with the super block: the magic value and the
            // four region sizes, as formatted.
            fs.bs()[0].subrange(0, 24) == encode_super_block(
                SuperBlockView {
                    magic: EFS_MAGIC,
                    total_blocks,
                    inode_bitmap_blocks,
                    inode_area_blocks: ((inode_bitmap_blocks * BLOCK_BITS) / (
                    INODES_PER_BLOCK as int)) as u32,
                    data_bitmap_blocks: (fs.data_area_start_block
                        - fs.data_bitmap.start_block_id) as u32,
                    data_area_blocks: fs.data_bitmap.max_bits as u32,
                },
            ),
            fs.cache.persisted() == fs.bs(),
            fs.inode_allocated(0),
            fs.inode_view(0).size == 0,
            fs.inode_view(0).is_dir,
            fs.inode_view(0).nlink == 1,
            fs.inode_bitmap.max_bits == inode_bitmap_blocks * BLOCK_BITS,
    {
        let dev = BlockDevice::new(total_blocks as usize);
        let mut cache = BlockCacheManager::new(dev);
        let inode_num: usize = inode_bitmap_blocks as usize * BLOCK_BITS;
        let inode_area_blocks: usize = inode_num / INODES_PER_BLOCK;
        let inode_total: usize = inode_bitmap_blocks as usize + inode_area_blocks;
        let remaining: usize = total_blocks as usize - 1 - inode_total;
        // One bitmap block serves BLOCK_BITS data blocks; round up.
        let data_bitmap_blocks: usize = (remaining + BLOCK_BITS) / (BLOCK_BITS + 1);
        let data_area_blocks: usize = remaining - data_bitmap_blocks;
        let inode_bitmap = Bitmap::new(1, inode_bitmap_blocks as usize, inode_num);
        let data_bitmap = Bitmap::new(
            1 + inode_total,
            data_bitmap_blocks,
            data_area_blocks,
        );
        let inode_area_start_block: u32 = 1 + inode_bitmap_blocks;
        let data_area_start_block: u32 = (1 + inode_total + data_bitmap_blocks) as u32;
        proof {
            assert(data_bitmap_blocks * BLOCK_BITS >= data_area_blocks && data_bitmap_blocks
                <= remaining) by (nonlinear_arith)
                requires
                    data_bitmap_blocks == (remaining + BLOCK_BITS) / (BLOCK_BITS + 1),
                    data_area_blocks == remaining - data_bitmap_blocks,
                    remaining >= 2,
                    BLOCK_BITS == 4096,
            ;
        }
        // Super block.
        let ghost sb = SuperBlockView {
            magic: EFS_MAGIC,
            total_blocks,
            inode_bitmap_blocks,
            inode_area_blocks: inode_area_blocks as u32,
            data_bitmap_blocks: data_bitmap_blocks as u32,
            data_area_blocks: data_area_blocks as u32,
        };
        let mut sbv: Vec<u8> = Vec::new();
        let mut m1 = vstd::bytes::u32_to_le_bytes(EFS_MAGIC);
        sbv.append(&mut m1);
        let mut m2 = vstd::bytes::u32_to_le_bytes(total_blocks);
        sbv.append(&mut m2);
        let mut m3 = vstd::bytes::u32_to_le_bytes(inode_bitmap_blocks);
        sbv.append(&mut m3);
        let mut m4 = vstd::bytes::u32_to_le_bytes(inode_area_blocks as u32);
        sbv.append(&mut m4);
        let mut m5 = vstd::bytes::u32_to_le_bytes(data_bitmap_blocks as u32);
        sbv.append(&mut m5);
        let mut m6 = vstd::bytes::u32_to_le_bytes(data_area_blocks as u32);
        sbv.append(&mut m6);
        proof {
            lemma_super_block_round_trip(sb);
            assert(sbv@ =~= encode_super_block(sb));
        }
        cache.write_range(0, 0, sbv.as_slice());
        let mut fs = EasyFileSystem {
            cache,
            inode_bitmap,
            data_bitmap,
            inode_area_start_block,
            data_area_start_block,
        };
        proof {
            fs.cache.lemma_block_len(1);
            // A zeroed bitmap has bit 0 clear, so allocation finds slot 0.
            assert(fs.bs()[1][0] == 0u8);
            assert(((0u8 >> 0u8) & 1u8) == 0u8) by (bit_vector);
            assert(!fs.inode_allocated(0));
        }
        let ghost pre_alloc = fs;
        // Slot 0 becomes the root directory.
        let root = fs.alloc_inode();
        if root.is_none() {
            proof {
                assert(pre_alloc.inode_allocated(0));
                assert(false);
            }
        }
        let root_id: u32 = match root {
            Some(id) => id,
            None => 0,
        };
        proof {
            if root_id != 0 {
                assert(pre_alloc.inode_allocated(0));
                assert(false);
            }
            fs.lemma_inode_pos_ok(0);
        }
        let (rb, ro) = fs.get_disk_inode_pos(root_id);
        let di = DiskInode::initialize(DiskInodeType::Directory);
        write_inode(&mut fs.cache, rb as usize, ro, &di);
        proof {
            crate::layout::lemma_inode_round_trip(di@);
            assert(fs.bs()[rb as int].subrange(ro as int, ro + INODE_SZ) =~= encode_inode(di@));
        }
        let ghost pre_sync = fs;
        fs.cache.sync_all();
        proof {
            assert(fs.bs() == pre_sync.bs());
            assert(fs.inode_allocated(0));
            assert(fs.inode_view(0) == decode_inode(encode_inode(di@)));
            // Block 0 was written once, by the super-block write: the
            // allocation touched the inode bitmap (from block 1) and the
            // root record sits in the inode area.
            assert(fs.bs()[0].subrange(0, 24) =~= encode_super_block(sb));
        }
        fs
    }

    /// The record position (block, byte offset) of inode slot `id`; this
    /// mapping never changes over the filesystem's life.
    pub fn get_disk_inode_pos(&self, id: u32) -> (r: (u32, usize))
        requires
            self.wf(),
            id < self.inode_bitmap.max_bits,
        ensures
            r.0 == self.spec_inode_pos(id as int).0,
            r.1 == self.spec_inode_pos(id as int).1,
            self.inode_area_start_block <= r.0 < self.data_bitmap.start_block_id,
            r.1 + INODE_SZ <= BLOCK_SZ,
    {
        proof {
            self.lemma_inode_pos_ok(id as int);
        }
        let block = self.inode_area_start_block + id / (INODES_PER_BLOCK as u32);
        let offset = (id as usize % INODES_PER_BLOCK) * INODE_SZ;
        (block, offset)
    }

    /// Allocate an inode slot: the first free one, now marked used.
    /// Exhaustion is reported as `None`.
    pub fn alloc_inode(&mut self) -> (r: Option<u32>)
        requires
            old(self).wf(),
        ensures
            final(self).wf(),
            final(self).geometry_unchanged(*old(self)),
            final(self).bs().len() == old(self).bs().len(),
            match r {
                Some(id) => {
                    &&& id < final(self).inode_bitmap.max_bits
                    &&& !old(self).inode_allocated(id as int)
                    &&& final(self).inode_allocated(id as int)
                    &&& forall|j: int| 0 <= j < id ==> old(self).inode_allocated(j)
                    &&& forall|j: int|
                        0 <= j < final(self).inode_bitmap.blocks * BLOCK_BITS && j != id
                            ==> final(self).inode_allocated(j) == old(self).inode_allocated(j)
                    &&& forall|b: int|
                        0 <= b < old(self).bs().len() && !(final(self).inode_bitmap.start_block_id
                            <= b < final(self).inode_bitmap.start_block_id + final(self).inode_bitmap.blocks) ==> final(self).bs()[b] == old(self).bs()[b]
                },
                None => {
                    &&& final(self).bs() == old(self).bs()
                    &&& forall|j: int|
                        0 <= j < final(self).inode_bitmap.max_bits ==> old(self).inode_allocated(
                            j,
                        )
                },
            },
    {
        let bm = self.inode_bitmap;
        let r = bm.allocate(&mut self.cache);
        match r {
            Some(i) => Some(i as u32),
            None => None,
        }
    }

    /// The fields that never change after format.
    pub open spec fn geometry_unchanged(&self, other: EasyFileSystem) -> bool {
        &&& self.inode_bitmap == other.inode_bitmap
        &&& self.data_bitmap == other.data_bitmap
        &&& self.inode_area_start_block == other.inode_area_start_block
        &&& self.data_area_start_block == other.data_area_start_block
    }

    /// Allocate a data block: the first free one, zero-filled and marked
    /// used; its absolute block index is returned. Exhaustion is `None`.
    pub fn alloc_data(&mut self) -> (r: Option<u32>)
        requires
            old(self).wf(),
        ensures
            final(self).wf(),
            final(self).geometry_unchanged(*old(self)),
            final(self).bs().len() == old(self).bs().len(),
            match r {
                Some(b) => {
                    &&& final(self).data_area_start_block <= b < final(self).data_area_start_block
                        + final(self).data_bitmap.max_bits
                    &&& !old(self).data_block_used(b as int)
                    &&& final(self).data_block_used(b as int)
                    &&& final(self).bs()[b as int] == crate::layout::zero_block()
                    &&& forall|j: int|
                        final(self).data_area_start_block <= j < final(self).data_area_start_block
                            + final(self).data_bitmap.max_bits && j != b ==> final(self).data_block_used(j) == old(self).data_block_used(j)
                    &&& forall|blk: int|
                        0 <= blk < old(self).bs().len() && blk != b && !(final(self).data_bitmap.start_block_id <= blk < final(self).data_bitmap.start_block_id
                            + final(self).data_bitmap.blocks) ==> final(self).bs()[blk] == old(self).bs()[blk]
                },
                None => {
                    &&& final(self).bs() == old(self).bs()
                    &&& forall|j: int|
                        final(self).data_area_start_block <= j < final(self).data_area_start_block
                            + final(self).data_bitmap.max_bits ==> old(self).data_block_used(j)
                },
            },
    {
        let bm = self.data_bitmap;
        let r = bm.allocate(&mut self.cache);
        match r {
            Some(i) => {
                let b: u32 = self.data_area_start_block + i as u32;
                // Fresh blocks read as zero: new contents must not leak old
                // bytes, and growth exposes them as zeros.
                let mut zeros: Vec<u8> = Vec::new();
                let mut z: usize = 0;
                while z < BLOCK_SZ
                    invariant
                        z <= BLOCK_SZ,
                        zeros@.len() == z,
                        forall|q: int| 0 <= q < z ==> zeros@[q] == 0u8,
                    decreases BLOCK_SZ - z,
                {
                    zeros.push(0u8);
                    z += 1;
                }
                proof {
                    self.cache.lemma_block_len(b as int);
                }
                self.cache.write_range(b as usize, 0, zeros.as_slice());
                proof {
                    assert(self.bs()[b as int] =~= crate::layout::zero_block());
                    // The data block written lies beyond both bitmap regions,
                    // so every bit keeps its value.
                    assert forall|j: int|
                        self.data_area_start_block <= j < self.data_area_start_block
                            + self.data_bitmap.max_bits && j != b implies self.data_block_used(j)
                        == old(self).data_block_used(j) by {}
                }
                Some(b)
            },
            None => None,
        }
    }

    /// Return a data block to the allocator. Freeing a block that is already
    /// free is corruption.
    pub fn dealloc_data(&mut self, block_id: u32) -> (r: Result<(), FsError>)
        requires
            old(self).wf(),
            old(self).data_area_start_block <= block_id < old(self).data_area_start_block + old(self).data_bitmap.max_bits,
        ensures
            final(self).wf(),
            final(self).geometry_unchanged(*old(self)),
            final(self).bs().len() == old(self).bs().len(),
            match r {
                Ok(()) => {
                    &&& old(self).data_block_used(block_id as int)
                    &&& !final(self).data_block_used(block_id as int)
                    &&& forall|j: int|
                        final(self).data_area_start_block <= j < final(self).data_area_start_block
                            + final(self).data_bitmap.max_bits && j != block_id ==> final(self).data_block_used(j) == old(self).data_block_used(j)
                    &&& forall|blk: int|
                        0 <= blk < old(self).bs().len() && !(final(self).data_bitmap.start_block_id <= blk < final(self).data_bitmap.start_block_id
                            + final(self).data_bitmap.blocks) ==> final(self).bs()[blk] == old(self).bs()[blk]
                },
                Err(e) => {
                    &&& e == FsError::Corrupt
                    &&& !old(self).data_block_used(block_id as int)
                    &&& final(self).bs() == old(self).bs()
                },
            },
    {
        let bm = self.data_bitmap;
        let bit: usize = (block_id - self.data_area_start_block) as usize;
        bm.deallocate(&mut self.cache, bit)
    }

    /// Return inode slot `id` to the allocator. The design exposes no
    /// reclamation of linked inodes; this undoes a slot taken by a creation
    /// whose directory growth then failed, so no partial allocation is left
    /// behind. Freeing a free slot is corruption.
    pub fn dealloc_inode(&mut self, id: u32) -> (r: Result<(), FsError>)
        requires
            old(self).wf(),
            id < old(self).inode_bitmap.max_bits,
        ensures
            final(self).wf(),
            final(self).geometry_unchanged(*old(self)),
            final(self).bs().len() == old(self).bs().len(),
            match r {
                Ok(()) => {
                    &&& old(self).inode_allocated(id as int)
                    &&& !final(self).inode_allocated(id as int)
                    &&& forall|j: int|
                        0 <= j < final(self).inode_bitmap.blocks * BLOCK_BITS && j != id
                            ==> final(self).inode_allocated(j) == old(self).inode_allocated(j)
                    &&& forall|b: int|
                        0 <= b < old(self).bs().len() && !(final(self).inode_bitmap.start_block_id
                            <= b < final(self).inode_bitmap.start_block_id + final(self).inode_bitmap.blocks) ==> final(self).bs()[b] == old(self).bs()[b]
                },
                Err(e) => {
                    &&& e == FsError::Corrupt
                    &&& !old(self).inode_allocated(id as int)
                    &&& final(self).bs() == old(self).bs()
                },
            },
    {
        let bm = self.inode_bitmap;
        proof {
            assert((id as int) < self.inode_bitmap.blocks * BLOCK_BITS);
        }
        bm.deallocate(&mut self.cache, id as usize)
    }
}

/// Number of free data blocks among the first `n` of the data area.
pub open spec fn spec_free_data(fs: EasyFileSystem, n: int) -> int
    decreases n,
{
    if n <= 0 {
        0
    } else {
        spec_free_data(fs, n - 1) + (if fs.data_block_used(fs.data_area_start_block + (n - 1)) {
            0int
        } else {
            1int
        })
    }
}

/// Equal bits give equal free counts.
pub proof fn lemma_free_data_same(fsA: EasyFileSystem, fsB: EasyFileSystem, n: int)
    requires
        fsB.data_area_start_block == fsA.data_area_start_block,
        forall|j: int|
            fsA.data_area_start_block <= j < fsA.data_area_start_block + n
                ==> fsB.data_block_used(j) == fsA.data_block_used(j),
    ensures
        spec_free_data(fsB, n) == spec_free_data(fsA, n),
    decreases n,
{
    if n > 0 {
        lemma_free_data_same(fsA, fsB, n - 1);
    }
}

/// Marking one previously free block used costs exactly one from the count.
pub proof fn lemma_free_data_one_taken(
    fsA: EasyFileSystem,
    fsB: EasyFileSystem,
    b: int,
    n: int,
)
    requires
        fsB.data_area_start_block == fsA.data_area_start_block,
        fsA.data_area_start_block <= b < fsA.data_area_start_block + n,
        !fsA.data_block_used(b),
        fsB.data_block_used(b),
        forall|j: int|
            fsA.data_area_start_block <= j < fsA.data_area_start_block + n && j != b
                ==> fsB.data_block_used(j) == fsA.data_block_used(j),
    ensures
        spec_free_data(fsB, n) == spec_free_data(fsA, n) - 1,
    decreases n,
{
    if fsA.data_area_start_block + (n - 1) == b {
        lemma_free_data_same(fsA, fsB, n - 1);
    } else {
        lemma_free_data_one_taken(fsA, fsB, b, n - 1);
    }
}

/// When every block is marked used, the free count is zero.
pub proof fn lemma_free_data_none(fs: EasyFileSystem, n: int)
    requires
        forall|j: int|
            fs.data_area_start_block <= j < fs.data_area_start_block + n ==> fs.data_block_used(
                j,
            ),
    ensures
        spec_free_data(fs, n) == 0,
    decreases n,
{
    if n > 0 {
        lemma_free_data_none(fs, n - 1);
    }
}

/// Distinct blocks with clear bits witness at least that much free space.
pub proof fn lemma_free_data_lower(fs: EasyFileSystem, blocks: Seq<u32>, n: int)
    requires
        forall|i: int, j: int|
            0 <= i < j < blocks.len() ==> #[trigger] blocks[i] != #[trigger] blocks[j],
        forall|i: int|
            0 <= i < blocks.len() ==> fs.data_area_start_block <= #[trigger] blocks[i]
                < fs.data_area_start_block + n,
        forall|i: int| 0 <= i < blocks.len() ==> !fs.data_block_used(#[trigger] blocks[i] as int),
        0 <= n,
    ensures
        spec_free_data(fs, n) >= blocks.len(),
    decreases n,
{
    if n == 0 {
        assert(blocks.len() == 0) by {
            if blocks.len() > 0 {
                assert(fs.data_area_start_block <= blocks[0]);
                assert(blocks[0] < fs.data_area_start_block + n);
                assert(false);
            }
        }
    } else {
        let last = fs.data_area_start_block + (n - 1);
        if exists|i: int| 0 <= i < blocks.len() && blocks[i] == last {
            let idx = choose|i: int| 0 <= i < blocks.len() && blocks[i] == last;
            let rest = blocks.subrange(0, idx) + blocks.subrange(
                idx + 1,
                blocks.len() as int,
            );
            assert(rest.len() == blocks.len() - 1);
            assert forall|i: int| 0 <= i < rest.len() implies #[trigger] rest[i] == (if i < idx {
                blocks[i]
            } else {
                blocks[i + 1]
            }) by {}
            assert forall|i: int|
                0 <= i < rest.len() implies fs.data_area_start_block <= #[trigger] rest[i]
                    < fs.data_area_start_block + (n - 1) by {
                if i < idx {
                    assert(rest[i] == blocks[i]);
                    assert(blocks[i] != blocks[idx]);
                } else {
                    assert(rest[i] == blocks[i + 1]);
                    assert(blocks[i + 1] != blocks[idx]);
                }
            }
            assert forall|i: int, j: int|
                0 <= i < j < rest.len() implies #[trigger] rest[i] != #[trigger] rest[j] by {}
            assert forall|i: int| 0 <= i < rest.len() implies !fs.data_block_used(
                #[trigger] rest[i] as int,
            ) by {}
            lemma_free_data_lower(fs, rest, n - 1);
            assert(!fs.data_block_used(last as int));
        } else {
            assert forall|i: int|
                0 <= i < blocks.len() implies fs.data_area_start_block <= #[trigger] blocks[i]
                    < fs.data_area_start_block + (n - 1) by {
                assert(blocks[i] != last);
            }
            lemma_free_data_lower(fs, blocks, n - 1);
        }
    }
}

} // verus!
