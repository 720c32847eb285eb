//! The block device: storage addressed as a flat array of fixed-size blocks.
//!
//! The device is the persistence boundary of the filesystem: a block is the
//! unit of transfer, reads and writes are whole-block and atomic, and nothing
//! below this interface is modelled. This implementation keeps the blocks in
//! memory, which is what the tests and any RAM-disk user need; its view is
//! the sequence of block contents.

use vstd::prelude::*;

use crate::BLOCK_SZ;

verus! {

/// A memory-backed block device: `total_blocks` blocks of [`BLOCK_SZ`] bytes.
pub struct BlockDevice {
    blocks: Vec<Vec<u8>>,
}

impl BlockDevice {
    /// The contents of every block, in block-index order.
    pub closed spec fn view(&self) -> Seq<Seq<u8>> {
        self.blocks@.map_values(|b: Vec<u8>| b@)
    }

    /// Every block holds exactly [`BLOCK_SZ`] bytes.
    pub open spec fn wf(&self) -> bool {
        forall|i: int| 0 <= i < self@.len() ==> (#[trigger] self@[i]).len() == BLOCK_SZ
    }

    /// A device of `total_blocks` zeroed blocks.
    pub fn new(total_blocks: usize) -> (dev: BlockDevice)
        ensures
            dev.wf(),
            dev@.len() == total_blocks,
            forall|i: int, j: int|
                0 <= i < total_blocks && 0 <= j < BLOCK_SZ ==> #[trigger] dev@[i][j] == 0u8,
    {
        let mut blocks: Vec<Vec<u8>> = Vec::new();
        for n in 0..total_blocks
            invariant
                blocks@.len() == n,
                forall|i: int|
                    0 <= i < n ==> (#[trigger] blocks@[i])@.len() == BLOCK_SZ,
                forall|i: int, j: int|
                    0 <= i < n && 0 <= j < BLOCK_SZ ==> #[trigger] blocks@[i]@[j] == 0u8,
        {
            let mut block: Vec<u8> = Vec::new();
            for k in 0..BLOCK_SZ
                invariant
                    block@.len() == k,
                    forall|j: int| 0 <= j < k ==> #[trigger] block@[j] == 0u8,
            {
                block.push(0u8);
            }
            blocks.push(block);
        }
        let dev = BlockDevice { blocks };
        assert forall|i: int| 0 <= i < dev@.len() implies (#[trigger] dev@[i]).len()
            == BLOCK_SZ by {
            assert(dev@[i] == dev.blocks@[i]@);
        }
        assert forall|i: int, j: int|
            0 <= i < total_blocks && 0 <= j < BLOCK_SZ implies #[trigger] dev@[i][j] == 0u8 by {
            assert(dev@[i] == dev.blocks@[i]@);
        }
        dev
    }

    /// Read block `block_id` in full into `buf`.
    pub fn read_block(&self, block_id: usize, buf: &mut Vec<u8>)
        requires
            self.wf(),
            block_id < self@.len(),
        ensures
            final(buf)@ == self@[block_id as int],
    {
        buf.clear();
        let blk: &Vec<u8> = &self.blocks[block_id];
        let mut k: usize = 0;
        while k < blk.len()
            invariant
                k <= blk@.len(),
                blk == self.blocks@[block_id as int],
                buf@ == blk@.subrange(0, k as int),
            decreases blk@.len() - k,
        {
            buf.push(blk[k]);
            k += 1;
        }
        assert(blk@.subrange(0, blk@.len() as int) == blk@);
        assert(self@[block_id as int] == self.blocks@[block_id as int]@);
    }

    /// Overwrite block `block_id` in full with `buf`.
    pub fn write_block(&mut self, block_id: usize, buf: &Vec<u8>)
        requires
            old(self).wf(),
            block_id < old(self)@.len(),
            buf@.len() == BLOCK_SZ,
        ensures
            final(self).wf(),
            final(self)@ == old(self)@.update(block_id as int, buf@),
    {
        let mut copy: Vec<u8> = Vec::new();
        let mut k: usize = 0;
        while k < buf.len()
            invariant
                k <= buf@.len(),
                copy@ == buf@.subrange(0, k as int),
            decreases buf@.len() - k,
        {
            copy.push(buf[k]);
            k += 1;
        }
        assert(buf@.subrange(0, buf@.len() as int) == buf@);
        self.blocks.set(block_id, copy);
        assert(self@ =~= old(self)@.update(block_id as int, buf@));
    }

    /// The number of blocks the device holds.
    pub fn total_blocks(&self) -> (n: usize)
        ensures
            n == self@.len(),
    {
        self.blocks.len()
    }
}

} // verus!
