//! The bitmap allocator: free-space tracking over a contiguous run of
//! blocks, one bit per allocatable unit.
//!
//! Two instances exist in a filesystem: one over inode slots, one over data
//! blocks. `allocate` finds the first clear bit, sets it and returns its index;
//! `deallocate` clears a set bit and reports corruption when the bit was
//! already clear (a double free).

use vstd::prelude::*;

use crate::block_cache::{splice, BlockCacheManager};
use crate::{FsError, BLOCK_SZ};

verus! {

/// Bits held by one bitmap block.
pub const BLOCK_BITS: usize = 4096;

/// Bit `i` of the bitmap region starting at block `start`, read from the
/// effective disk `bs`.
pub open spec fn spec_bit(bs: Seq<Seq<u8>>, start: int, i: int) -> bool {
    ((bs[start + i / (BLOCK_BITS as int)][(i % (BLOCK_BITS as int)) / 8] >> ((i % 8) as u8))
        & 1u8) == 1u8
}

proof fn lemma_bit_index(blk: int, byi: int, k: int)
    by (nonlinear_arith)
    requires
        0 <= blk,
        0 <= byi < BLOCK_SZ,
        0 <= k < 8,
    ensures
        (BLOCK_BITS * blk + 8 * byi + k) / (BLOCK_BITS as int) == blk,
        ((BLOCK_BITS * blk + 8 * byi + k) % (BLOCK_BITS as int)) / 8 == byi,
        (BLOCK_BITS * blk + 8 * byi + k) % 8 == k,
{
}

/// A bitmap over the blocks `[start_block_id, start_block_id + blocks)`,
/// managing `max_bits` allocatable units.
#[derive(Clone, Copy, PartialEq, Eq, Structural, Debug)]
pub struct Bitmap {
    pub start_block_id: usize,
    pub blocks: usize,
    pub max_bits: usize,
}

impl Bitmap {
    /// The region lies inside the disk and can hold `max_bits` bits.
    pub open spec fn wf(&self, bs: Seq<Seq<u8>>) -> bool {
        &&& self.start_block_id + self.blocks <= bs.len()
        &&& self.start_block_id + self.blocks <= usize::MAX
        &&& self.max_bits <= self.blocks * BLOCK_BITS
        &&& self.blocks * BLOCK_BITS <= u32::MAX
    }

    /// A bitmap over the given region.
    pub fn new(start_block_id: usize, blocks: usize, max_bits: usize) -> (bm: Bitmap)
        ensures
            bm.start_block_id == start_block_id,
            bm.blocks == blocks,
            bm.max_bits == max_bits,
    {
        Bitmap { start_block_id, blocks, max_bits }
    }

    /// Allocate the first clear bit: set it and return its index, or report
    /// exhaustion when every bit is set. Nothing outside the bitmap's own
    /// region of the effective disk changes, and no other bit changes.
    pub fn allocate(&self, cache: &mut BlockCacheManager) -> (r: Option<usize>)
        requires
            old(cache).wf(),
            self.wf(old(cache)@),
        ensures
            final(cache).wf(),
            final(cache)@.len() == old(cache)@.len(),
            match r {
                Some(i) => {
                    &&& i < self.max_bits
                    &&& !spec_bit(old(cache)@, self.start_block_id as int, i as int)
                    &&& spec_bit(final(cache)@, self.start_block_id as int, i as int)
                    &&& forall|j: int|
                        0 <= j < i ==> spec_bit(old(cache)@, self.start_block_id as int, j)
                    &&& forall|j: int|
                        0 <= j < self.blocks * BLOCK_BITS && j != i ==> spec_bit(
                            final(cache)@,
                            self.start_block_id as int,
                            j,
                        ) == spec_bit(old(cache)@, self.start_block_id as int, j)
                    &&& forall|b: int|
                        0 <= b < old(cache)@.len() && !(self.start_block_id <= b
                            < self.start_block_id + self.blocks) ==> final(cache)@[b] == old(
                            cache,
                        )@[b]
                },
                None => {
                    &&& final(cache)@ == old(cache)@
                    &&& forall|j: int|
                        0 <= j < self.max_bits ==> spec_bit(
                            old(cache)@,
                            self.start_block_id as int,
                            j,
                        )
                },
            },
    {
        let ghost bs0 = cache@;
        let ghost start = self.start_block_id as int;
        let mut blk: usize = 0;
        while blk < self.blocks
            invariant
                cache.wf(),
                cache@ == bs0,
                bs0 == old(cache)@,
                self.wf(cache@),
                blk <= self.blocks,
                forall|j: int| 0 <= j < blk * BLOCK_BITS ==> spec_bit(bs0, start, j),
                start == self.start_block_id,
            decreases self.blocks - blk,
        {
            let buf = cache.read_range(self.start_block_id + blk, 0, BLOCK_SZ);
            proof {
                cache.lemma_block_len(start + blk);
            }
            let mut byi: usize = 0;
            while byi < BLOCK_SZ
                invariant
                    cache.wf(),
                    cache@ == bs0,
                    bs0 == old(cache)@,
                    self.wf(cache@),
                    blk < self.blocks,
                    byi <= BLOCK_SZ,
                    start == self.start_block_id,
                    buf@ == bs0[start + blk].subrange(0, BLOCK_SZ as int),
                    bs0[start + blk].len() == BLOCK_SZ,
                    forall|j: int| 0 <= j < blk * BLOCK_BITS ==> spec_bit(bs0, start, j),
                    forall|j: int|
                        blk * BLOCK_BITS <= j < blk * BLOCK_BITS + 8 * byi ==> spec_bit(
                            bs0,
                            start,
                            j,
                        ),
                decreases BLOCK_SZ - byi,
            {
                let byte = buf[byi];
                if byte != 255u8 {
                    // A clear bit lives in this byte.
                    let mut k: usize = 0;
                    while k < 8
                        invariant
                            k <= 8,
                            byte == buf@[byi as int],
                            byi < BLOCK_SZ,
                            blk < self.blocks,
                            start == self.start_block_id,
                            cache.wf(),
                            cache@ == bs0,
                            bs0 == old(cache)@,
                            self.wf(cache@),
                            buf@ == bs0[start + blk].subrange(0, BLOCK_SZ as int),
                            bs0[start + blk].len() == BLOCK_SZ,
                            forall|j: int| 0 <= j < blk * BLOCK_BITS ==> spec_bit(bs0, start, j),
                            forall|j: int|
                                blk * BLOCK_BITS <= j < blk * BLOCK_BITS + 8 * byi ==> spec_bit(
                                    bs0,
                                    start,
                                    j,
                                ),
                            forall|k2: u8| k2 < k as u8 ==> (#[trigger] (byte >> k2) & 1u8) == 1u8,
                        decreases 8 - k,
                    {
                        if (byte >> (k as u8)) & 1u8 == 0u8 {
                            let i: usize = BLOCK_BITS * blk + 8 * byi + k;
                            proof {
                                lemma_bit_index(blk as int, byi as int, k as int);
                                assert(i < self.blocks * BLOCK_BITS) by (nonlinear_arith)
                                    requires
                                        i == BLOCK_BITS * blk + 8 * byi + k,
                                        0 <= blk < self.blocks,
                                        0 <= byi < BLOCK_SZ,
                                        0 <= k < 8,
                                        BLOCK_BITS == 4096,
                                        BLOCK_SZ == 512,
                                ;
                            }
                            if i >= self.max_bits {
                                // Everything below max_bits is set.
                                proof {
                                    assert forall|j: int| 0 <= j < self.max_bits implies spec_bit(
                                        bs0,
                                        start,
                                        j,
                                    ) by {
                                        if j >= blk * BLOCK_BITS + 8 * byi {
                                            let jb = j - (blk * BLOCK_BITS + 8 * byi);
                                            assert(0 <= jb < k) by (nonlinear_arith)
                                                requires
                                                    blk * BLOCK_BITS + 8 * byi <= j,
                                                    j < self.max_bits <= i,
                                                    i == BLOCK_BITS * blk + 8 * byi + k,
                                                    jb == j - (blk * BLOCK_BITS + 8 * byi),
                                                    BLOCK_BITS == 4096,
                                            ;
                                            assert(j == BLOCK_BITS * blk + 8 * byi + jb);
                                            lemma_bit_index(blk as int, byi as int, jb);
                                            assert(((byte >> (jb as u8)) & 1u8) == 1u8);
                                        }
                                    }
                                }
                                return None;
                            }
                            let newbyte: u8 = byte | (1u8 << (k as u8));
                            let mut one: Vec<u8> = Vec::new();
                            one.push(newbyte);
                            cache.write_range(self.start_block_id + blk, byi, one.as_slice());
                            proof {
                                let bsf = cache@;
                                assert(bsf[start + blk] == splice(
                                    bs0[start + blk],
                                    byi as int,
                                    one@,
                                ));
                                assert(bsf[start + blk][byi as int] == newbyte);
                                assert(((newbyte >> (k as u8)) & 1u8) == 1u8) by (bit_vector)
                                    requires
                                        newbyte == byte | (1u8 << (k as u8)),
                                        k < 8,
                                ;
                                assert(spec_bit(bsf, start, i as int));
                                assert(!spec_bit(bs0, start, i as int));
                                assert forall|j: int|
                                    0 <= j < self.blocks * BLOCK_BITS && j != i implies spec_bit(
                                    bsf,
                                    start,
                                    j,
                                ) == spec_bit(bs0, start, j) by {
                                    let jblk = j / (BLOCK_BITS as int);
                                    let jby = (j % (BLOCK_BITS as int)) / 8;
                                    let jk = j % 8;
                                    assert(0 <= jblk < self.blocks && 0 <= jby < BLOCK_SZ && 0
                                        <= jk < 8 && j == BLOCK_BITS * jblk + 8 * jby + jk) by (
                                    nonlinear_arith)
                                        requires
                                            0 <= j < self.blocks * BLOCK_BITS,
                                            jblk == j / (BLOCK_BITS as int),
                                            jby == (j % (BLOCK_BITS as int)) / 8,
                                            jk == j % 8,
                                            BLOCK_BITS == 4096,
                                            BLOCK_SZ == 512,
                                    ;
                                    if jblk != blk {
                                        assert(bsf[start + jblk] == bs0[start + jblk]);
                                    } else if jby != byi {
                                        assert(bsf[start + blk][jby] == bs0[start + blk][jby]);
                                    } else {
                                        assert(jk != k);
                                        let jku = jk as u8;
                                        assert(((newbyte >> jku) & 1u8) == ((byte >> jku)
                                            & 1u8)) by (bit_vector)
                                            requires
                                                newbyte == byte | (1u8 << (k as u8)),
                                                k < 8,
                                                jku < 8,
                                                jku != k as u8,
                                        ;
                                        assert(bsf[start + blk][byi as int] == newbyte);
                                        assert(bs0[start + blk][byi as int] == byte);
                                    }
                                }
                                assert forall|j: int| 0 <= j < i implies spec_bit(
                                    bs0,
                                    start,
                                    j,
                                ) by {
                                    if j >= blk * BLOCK_BITS + 8 * byi {
                                        let jb = j - (blk * BLOCK_BITS + 8 * byi);
                                        assert(0 <= jb < k);
                                        assert(j == BLOCK_BITS * blk + 8 * byi + jb);
                                        lemma_bit_index(blk as int, byi as int, jb);
                                        assert(((byte >> (jb as u8)) & 1u8) == 1u8);
                                    }
                                }
                                assert forall|b: int|
                                    0 <= b < bs0.len() && !(start <= b < start
                                        + self.blocks) implies cache@[b] == bs0[b] by {}
                            }
                            return Some(i);
                        }
                        proof {
                            assert(((byte >> (k as u8)) & 1u8) == 1u8) by (bit_vector)
                                requires
                                    ((byte >> (k as u8)) & 1u8) != 0u8,
                            ;
                        }
                        k += 1;
                    }
                    proof {
                        let bb = byte;
                        assert(((bb >> 0u8) & 1u8) == 1u8);
                        assert(((bb >> 1u8) & 1u8) == 1u8);
                        assert(((bb >> 2u8) & 1u8) == 1u8);
                        assert(((bb >> 3u8) & 1u8) == 1u8);
                        assert(((bb >> 4u8) & 1u8) == 1u8);
                        assert(((bb >> 5u8) & 1u8) == 1u8);
                        assert(((bb >> 6u8) & 1u8) == 1u8);
                        assert(((bb >> 7u8) & 1u8) == 1u8);
                        assert((((bb >> 0u8) & 1u8) == 1u8 && ((bb >> 1u8) & 1u8) == 1u8 && ((bb
                            >> 2u8) & 1u8) == 1u8 && ((bb >> 3u8) & 1u8) == 1u8 && ((bb >> 4u8)
                            & 1u8) == 1u8 && ((bb >> 5u8) & 1u8) == 1u8 && ((bb >> 6u8) & 1u8)
                            == 1u8 && ((bb >> 7u8) & 1u8) == 1u8) ==> bb == 255u8) by (bit_vector);
                        assert(byte == 255u8);
                        assert(false);
                    }
                }
                proof {
                    assert forall|j: int|
                        blk * BLOCK_BITS + 8 * byi <= j < blk * BLOCK_BITS + 8 * (byi
                            + 1) implies spec_bit(bs0, start, j) by {
                        let jb = j - (blk * BLOCK_BITS + 8 * byi);
                        assert(0 <= jb < 8);
                        assert(j == BLOCK_BITS * blk + 8 * byi + jb);
                        lemma_bit_index(blk as int, byi as int, jb);
                        let jbu = jb as u8;
                        assert(((255u8 >> jbu) & 1u8) == 1u8) by (bit_vector)
                            requires
                                jbu < 8,
                        ;
                    }
                }
                byi += 1;
            }
            proof {
                assert forall|j: int|
                    0 <= j < (blk + 1) * BLOCK_BITS implies spec_bit(bs0, start, j) by {
                    assert((blk + 1) * BLOCK_BITS == blk * BLOCK_BITS + BLOCK_BITS) by (
                    nonlinear_arith);
                }
            }
            blk += 1;
        }
        proof {
            assert forall|j: int| 0 <= j < self.max_bits implies spec_bit(bs0, start, j) by {
                assert(self.max_bits <= self.blocks * BLOCK_BITS);
            }
        }
        None
    }

    /// Clear bit `i`. A double free (the bit is already clear) is reported
    /// as corruption and changes nothing.
    pub fn deallocate(&self, cache: &mut BlockCacheManager, i: usize) -> (r: Result<(), FsError>)
        requires
            old(cache).wf(),
            self.wf(old(cache)@),
            i < self.blocks * BLOCK_BITS,
        ensures
            final(cache).wf(),
            final(cache)@.len() == old(cache)@.len(),
            match r {
                Ok(()) => {
                    &&& spec_bit(old(cache)@, self.start_block_id as int, i as int)
                    &&& !spec_bit(final(cache)@, self.start_block_id as int, i as int)
                    &&& forall|j: int|
                        0 <= j < self.blocks * BLOCK_BITS && j != i ==> spec_bit(
                            final(cache)@,
                            self.start_block_id as int,
                            j,
                        ) == spec_bit(old(cache)@, self.start_block_id as int, j)
                    &&& forall|b: int|
                        0 <= b < old(cache)@.len() && !(self.start_block_id <= b
                            < self.start_block_id + self.blocks) ==> final(cache)@[b] == old(
                            cache,
                        )@[b]
                },
                Err(e) => {
                    &&& e == FsError::Corrupt
                    &&& !spec_bit(old(cache)@, self.start_block_id as int, i as int)
                    &&& final(cache)@ == old(cache)@
                },
            },
    {
        let ghost bs0 = cache@;
        let ghost start = self.start_block_id as int;
        let blk: usize = i / BLOCK_BITS;
        let byi: usize = (i % BLOCK_BITS) / 8;
        let k: usize = i % 8;
        proof {
            assert(blk < self.blocks && byi < BLOCK_SZ && k < 8 && i == BLOCK_BITS * blk + 8 * byi
                + k) by (nonlinear_arith)
                requires
                    i < self.blocks * BLOCK_BITS,
                    blk == i as int / (BLOCK_BITS as int),
                    byi == (i as int % (BLOCK_BITS as int)) / 8,
                    k == i as int % 8,
                    BLOCK_BITS == 4096,
                    BLOCK_SZ == 512,
            ;
            cache.lemma_block_len(start + blk);
        }
        let buf = cache.read_range(self.start_block_id + blk, byi, 1);
        let byte = buf[0];
        if (byte >> (k as u8)) & 1u8 == 0u8 {
            return Err(FsError::Corrupt);
        }
        proof {
            assert(((byte >> (k as u8)) & 1u8) == 1u8) by (bit_vector)
                requires
                    ((byte >> (k as u8)) & 1u8) != 0u8,
            ;
        }
        let newbyte: u8 = byte & !(1u8 << (k as u8));
        let mut one: Vec<u8> = Vec::new();
        one.push(newbyte);
        cache.write_range(self.start_block_id + blk, byi, one.as_slice());
        proof {
            let bsf = cache@;
            assert(bsf[start + blk][byi as int] == newbyte);
            assert(((newbyte >> (k as u8)) & 1u8) == 0u8) by (bit_vector)
                requires
                    newbyte == byte & !(1u8 << (k as u8)),
                    k < 8,
            ;
            assert(!spec_bit(bsf, start, i as int));
            assert(spec_bit(bs0, start, i as int));
            assert forall|j: int|
                0 <= j < self.blocks * BLOCK_BITS && j != i implies spec_bit(bsf, start, j)
                == spec_bit(bs0, start, j) by {
                let jblk = j / (BLOCK_BITS as int);
                let jby = (j % (BLOCK_BITS as int)) / 8;
                let jk = j % 8;
                assert(0 <= jblk < self.blocks && 0 <= jby < BLOCK_SZ && 0 <= jk < 8 && j
                    == BLOCK_BITS * jblk + 8 * jby + jk) by (nonlinear_arith)
                    requires
                        0 <= j < self.blocks * BLOCK_BITS,
                        jblk == j / (BLOCK_BITS as int),
                        jby == (j % (BLOCK_BITS as int)) / 8,
                        jk == j % 8,
                        BLOCK_BITS == 4096,
                        BLOCK_SZ == 512,
                ;
                if jblk != blk {
                    assert(bsf[start + jblk] == bs0[start + jblk]);
                } else if jby != byi {
                    assert(bsf[start + blk][jby] == bs0[start + blk][jby]);
                } else {
                    assert(jk != k);
                    let jku = jk as u8;
                    assert(((newbyte >> jku) & 1u8) == ((byte >> jku) & 1u8)) by (bit_vector)
                        requires
                            newbyte == byte & !(1u8 << (k as u8)),
                            k < 8,
                            jku < 8,
                            jku != k as u8,
                    ;
                    assert(bs0[start + blk][byi as int] == byte);
                }
            }
        }
        Ok(())
    }
}

} // verus!
