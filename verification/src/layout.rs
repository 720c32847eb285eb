//! The on-disk records and their byte encodings: the super block, the
//! disk-resident inode, and the directory entry.
//!
//! Each record has a ghost view (`SuperBlockView`, `InodeView`,
//! `DirEntryView`), a pair of spec functions giving its exact byte encoding
//! and decoding, proved inverse to each other, and executable read/write
//! paths through the block cache whose contracts are stated over those spec
//! functions. The disk inode also carries the pure size arithmetic: how many
//! data blocks cover a byte length, and how many blocks in total (index
//! blocks included) a file of that length occupies.

use vstd::arithmetic::div_mod::lemma_div_is_ordered;
use vstd::bytes::{
    lemma_auto_spec_u32_to_from_le_bytes, spec_u32_from_le_bytes, spec_u32_to_le_bytes,
    u32_from_le_bytes, u32_to_le_bytes,
};
use vstd::prelude::*;
use vstd::slice::slice_subrange;

use crate::block_cache::{splice, BlockCacheManager};
use crate::BLOCK_SZ;

verus! {

/// Magic value stored in the super block to validate the filesystem.
pub const EFS_MAGIC: u32 = 0x3b800001;

/// Number of direct block pointers held in an inode record.
pub const INODE_DIRECT_COUNT: usize = 27;

/// Number of u32 block pointers held by one index block.
pub const INODE_INDIRECT1_COUNT: usize = 128;

/// First data-block index served through the level-1 index block.
pub const DIRECT_BOUND: usize = 27;

/// First data-block index served through the level-2 index block.
pub const INDIRECT1_BOUND: usize = 155;

/// One past the greatest data-block index an inode can address
/// (direct + level-1 + level-2 capacity).
pub const INODE_MAX_DATA_BLOCKS: usize = 16539;

/// Size in bytes of one encoded inode record.
pub const INODE_SZ: usize = 128;

/// Inode records packed into one block.
pub const INODES_PER_BLOCK: usize = 4;

/// Greatest number of bytes a name may hold in a directory entry.
pub const NAME_LENGTH_LIMIT: usize = 27;

/// Size in bytes of one encoded directory entry.
pub const DIRENT_SZ: usize = 32;

/// Whether an inode describes a regular file or a directory.
#[derive(Clone, Copy, PartialEq, Eq, Structural, Debug)]
pub enum DiskInodeType {
    File,
    Directory,
}

/// The u32 stored at byte `off` of block `b` of the effective disk `bs`.
pub open spec fn u32_at(bs: Seq<Seq<u8>>, b: int, off: int) -> u32 {
    spec_u32_from_le_bytes(bs[b].subrange(off, off + 4))
}

// ---------------------------------------------------------------------------
// Super block
// ---------------------------------------------------------------------------
/// Ghost view of the super block: the magic value and the region sizes.
pub ghost struct SuperBlockView {
    pub magic: u32,
    pub total_blocks: u32,
    pub inode_bitmap_blocks: u32,
    pub inode_area_blocks: u32,
    pub data_bitmap_blocks: u32,
    pub data_area_blocks: u32,
}

/// Byte encoding of the super block: six little-endian u32 fields.
pub open spec fn encode_super_block(v: SuperBlockView) -> Seq<u8> {
    spec_u32_to_le_bytes(v.magic) + spec_u32_to_le_bytes(v.total_blocks) + spec_u32_to_le_bytes(
        v.inode_bitmap_blocks,
    ) + spec_u32_to_le_bytes(v.inode_area_blocks) + spec_u32_to_le_bytes(v.data_bitmap_blocks)
        + spec_u32_to_le_bytes(v.data_area_blocks)
}

/// Decoding of the first 24 bytes of block 0 into the super block fields.
pub open spec fn decode_super_block(bytes: Seq<u8>) -> SuperBlockView {
    SuperBlockView {
        magic: spec_u32_from_le_bytes(bytes.subrange(0, 4)),
        total_blocks: spec_u32_from_le_bytes(bytes.subrange(4, 8)),
        inode_bitmap_blocks: spec_u32_from_le_bytes(bytes.subrange(8, 12)),
        inode_area_blocks: spec_u32_from_le_bytes(bytes.subrange(12, 16)),
        data_bitmap_blocks: spec_u32_from_le_bytes(bytes.subrange(16, 20)),
        data_area_blocks: spec_u32_from_le_bytes(bytes.subrange(20, 24)),
    }
}

/// Encoding then decoding a super block yields the same fields.
pub proof fn lemma_super_block_round_trip(v: SuperBlockView)
    ensures
        encode_super_block(v).len() == 24,
        decode_super_block(encode_super_block(v)) == v,
{
    lemma_auto_spec_u32_to_from_le_bytes();
    let e = encode_super_block(v);
    assert(e.subrange(0, 4) =~= spec_u32_to_le_bytes(v.magic));
    assert(e.subrange(4, 8) =~= spec_u32_to_le_bytes(v.total_blocks));
    assert(e.subrange(8, 12) =~= spec_u32_to_le_bytes(v.inode_bitmap_blocks));
    assert(e.subrange(12, 16) =~= spec_u32_to_le_bytes(v.inode_area_blocks));
    assert(e.subrange(16, 20) =~= spec_u32_to_le_bytes(v.data_bitmap_blocks));
    assert(e.subrange(20, 24) =~= spec_u32_to_le_bytes(v.data_area_blocks));
}

// ---------------------------------------------------------------------------
// Disk inode
// ---------------------------------------------------------------------------
/// Ghost view of one inode record.
pub ghost struct InodeView {
    /// Byte length of the file contents.
    pub size: u32,
    /// Whether the record describes a directory.
    pub is_dir: bool,
    /// Number of directory entries pointing at this inode.
    pub nlink: u32,
    /// The direct data-block pointers, always [`INODE_DIRECT_COUNT`] of them.
    pub direct: Seq<u32>,
    /// Block holding the level-1 pointer table.
    pub indirect1: u32,
    /// Block holding the level-2 table of pointer-table blocks.
    pub indirect2: u32,
}

/// Record layout, byte by byte: size at 0, the direct pointers at 4,
/// indirect1 at 112, indirect2 at 116, nlink at 120, and the type word
/// (1 for a directory, 0 for a file) at 124.
pub open spec fn encode_inode(v: InodeView) -> Seq<u8> {
    Seq::new(INODE_SZ as nat, |j: int|
        if j < 4 {
            spec_u32_to_le_bytes(v.size)[j]
        } else if j < 112 {
            spec_u32_to_le_bytes(v.direct[(j - 4) / 4])[(j - 4) % 4]
        } else if j < 116 {
            spec_u32_to_le_bytes(v.indirect1)[j - 112]
        } else if j < 120 {
            spec_u32_to_le_bytes(v.indirect2)[j - 116]
        } else if j < 124 {
            spec_u32_to_le_bytes(v.nlink)[j - 120]
        } else {
            spec_u32_to_le_bytes(if v.is_dir { 1u32 } else { 0u32 })[j - 124]
        })
}

/// Decoding of a 128-byte inode record.
pub open spec fn decode_inode(bytes: Seq<u8>) -> InodeView {
    InodeView {
        size: spec_u32_from_le_bytes(bytes.subrange(0, 4)),
        is_dir: spec_u32_from_le_bytes(bytes.subrange(124, 128)) == 1u32,
        nlink: spec_u32_from_le_bytes(bytes.subrange(120, 124)),
        direct: Seq::new(INODE_DIRECT_COUNT as nat, |k: int|
            spec_u32_from_le_bytes(bytes.subrange(4 + 4 * k, 8 + 4 * k))),
        indirect1: spec_u32_from_le_bytes(bytes.subrange(112, 116)),
        indirect2: spec_u32_from_le_bytes(bytes.subrange(116, 120)),
    }
}

/// A view is encodable when it has the full complement of direct pointers.
pub open spec fn inode_view_wf(v: InodeView) -> bool {
    v.direct.len() == INODE_DIRECT_COUNT
}

/// Encoding then decoding an inode record yields the same fields.
pub proof fn lemma_inode_round_trip(v: InodeView)
    requires
        inode_view_wf(v),
    ensures
        encode_inode(v).len() == INODE_SZ,
        decode_inode(encode_inode(v)) == v,
{
    lemma_auto_spec_u32_to_from_le_bytes();
    let e = encode_inode(v);
    let d = decode_inode(e);
    assert(e.subrange(0, 4) =~= spec_u32_to_le_bytes(v.size));
    assert(e.subrange(112, 116) =~= spec_u32_to_le_bytes(v.indirect1));
    assert(e.subrange(116, 120) =~= spec_u32_to_le_bytes(v.indirect2));
    assert(e.subrange(120, 124) =~= spec_u32_to_le_bytes(v.nlink));
    assert(e.subrange(124, 128) =~= spec_u32_to_le_bytes(if v.is_dir { 1u32 } else { 0u32 }));
    assert forall|k: int| 0 <= k < INODE_DIRECT_COUNT implies #[trigger] d.direct[k]
        == v.direct[k] by {
        assert forall|j: int| 4 + 4 * k <= j < 8 + 4 * k implies e[j] == spec_u32_to_le_bytes(
            v.direct[k],
        )[j - (4 + 4 * k)] by {
            assert((j - 4) / 4 == k) by (nonlinear_arith)
                requires 4 + 4 * k <= j < 8 + 4 * k;
            assert((j - 4) % 4 == j - (4 + 4 * k)) by (nonlinear_arith)
                requires 4 + 4 * k <= j < 8 + 4 * k;
        }
        assert(e.subrange(4 + 4 * k, 8 + 4 * k) =~= spec_u32_to_le_bytes(v.direct[k]));
    }
    assert(d.direct =~= v.direct);
    if v.is_dir {
        assert(spec_u32_from_le_bytes(spec_u32_to_le_bytes(1u32)) == 1u32);
    } else {
        assert(spec_u32_from_le_bytes(spec_u32_to_le_bytes(0u32)) == 0u32);
    }
}

/// In-memory copy of one inode record.
pub struct DiskInode {
    pub size: u32,
    pub ty: DiskInodeType,
    pub nlink: u32,
    pub direct: Vec<u32>,
    pub indirect1: u32,
    pub indirect2: u32,
}

impl View for DiskInode {
    type V = InodeView;

    open spec fn view(&self) -> InodeView {
        InodeView {
            size: self.size,
            is_dir: self.ty is Directory,
            nlink: self.nlink,
            direct: self.direct@,
            indirect1: self.indirect1,
            indirect2: self.indirect2,
        }
    }
}

// ---------------------------------------------------------------------------
// Size arithmetic
// ---------------------------------------------------------------------------
/// Number of data blocks needed to cover `size` bytes.
pub open spec fn spec_data_blocks(size: u32) -> int {
    (size + BLOCK_SZ - 1) / (BLOCK_SZ as int)
}

/// Number of blocks, index blocks included, occupied by a file of `size`
/// bytes: the data blocks, plus the level-1 index block once the direct
/// pointers are exhausted, plus the level-2 index block and one level-1
/// style block per started group of [`INODE_INDIRECT1_COUNT`] pointers
/// beyond the level-1 capacity.
pub open spec fn spec_total_blocks(size: u32) -> int {
    let n = spec_data_blocks(size);
    n + (if n > DIRECT_BOUND {
        1int
    } else {
        0int
    }) + (if n > INDIRECT1_BOUND {
        1 + (n - INDIRECT1_BOUND + INODE_INDIRECT1_COUNT - 1) / (INODE_INDIRECT1_COUNT as int)
    } else {
        0int
    })
}

/// A larger size never needs fewer data blocks.
pub proof fn lemma_data_blocks_monotone(a: u32, b: u32)
    requires
        a <= b,
    ensures
        spec_data_blocks(a) <= spec_data_blocks(b),
{
    lemma_div_is_ordered(a + BLOCK_SZ - 1, b + BLOCK_SZ - 1, BLOCK_SZ as int);
}

/// A larger size never occupies fewer blocks in total.
pub proof fn lemma_total_blocks_monotone(a: u32, b: u32)
    requires
        a <= b,
    ensures
        spec_total_blocks(a) <= spec_total_blocks(b),
{
    lemma_data_blocks_monotone(a, b);
    let na = spec_data_blocks(a);
    let nb = spec_data_blocks(b);
    if nb > INDIRECT1_BOUND && na > INDIRECT1_BOUND {
        lemma_div_is_ordered(
            na - INDIRECT1_BOUND + INODE_INDIRECT1_COUNT - 1,
            nb - INDIRECT1_BOUND + INODE_INDIRECT1_COUNT - 1,
            INODE_INDIRECT1_COUNT as int,
        );
    }
}

impl DiskInode {
    /// The in-memory record is encodable and its size within capacity.
    pub open spec fn wf(&self) -> bool {
        &&& self.direct@.len() == INODE_DIRECT_COUNT
        &&& spec_data_blocks(self.size) <= INODE_MAX_DATA_BLOCKS
    }

    /// A zeroed record of the given type: size 0, link count 1, no blocks.
    pub fn initialize(ty: DiskInodeType) -> (di: DiskInode)
        ensures
            di.wf(),
            di@.size == 0,
            di@.nlink == 1,
            di@.is_dir == (ty is Directory),
            di@.indirect1 == 0,
            di@.indirect2 == 0,
            forall|k: int| 0 <= k < INODE_DIRECT_COUNT ==> #[trigger] di@.direct[k] == 0u32,
    {
        let mut direct: Vec<u32> = Vec::new();
        let mut k: usize = 0;
        while k < INODE_DIRECT_COUNT
            invariant
                k <= INODE_DIRECT_COUNT,
                direct@.len() == k,
                forall|i: int| 0 <= i < k ==> #[trigger] direct@[i] == 0u32,
            decreases INODE_DIRECT_COUNT - k,
        {
            direct.push(0u32);
            k += 1;
        }
        DiskInode { size: 0, ty, nlink: 1, direct, indirect1: 0, indirect2: 0 }
    }

    /// Whether the record describes a directory.
    pub fn is_dir(&self) -> (r: bool)
        ensures
            r == self@.is_dir,
    {
        match self.ty {
            DiskInodeType::Directory => true,
            DiskInodeType::File => false,
        }
    }

    /// Data blocks needed to cover `size` bytes.
    pub fn data_blocks(size: u32) -> (n: u32)
        ensures
            n == spec_data_blocks(size),
    {
        let n: u64 = (size as u64 + (BLOCK_SZ as u64 - 1)) / (BLOCK_SZ as u64);
        n as u32
    }

    /// Total blocks, index blocks included, occupied by `size` bytes.
    pub fn total_blocks(size: u32) -> (n: u32)
        ensures
            n == spec_total_blocks(size),
    {
        let data = Self::data_blocks(size);
        let mut total = data;
        if data as usize > DIRECT_BOUND {
            total += 1;
        }
        if data as usize > INDIRECT1_BOUND {
            total += 1;
            total += (data - INDIRECT1_BOUND as u32 + INODE_INDIRECT1_COUNT as u32 - 1)
                / INODE_INDIRECT1_COUNT as u32;
        }
        total
    }

    /// How many fresh blocks (data and index) growing to `new_size` takes.
    pub fn blocks_num_needed(&self, new_size: u32) -> (n: u32)
        requires
            new_size >= self@.size,
        ensures
            n == spec_total_blocks(new_size) - spec_total_blocks(self@.size),
    {
        proof {
            lemma_total_blocks_monotone(self.size, new_size);
        }
        Self::total_blocks(new_size) - Self::total_blocks(self.size)
    }
}

// ---------------------------------------------------------------------------
// Directory entries
// ---------------------------------------------------------------------------
/// Ghost view of one directory entry: the name bytes and the inode slot.
pub ghost struct DirEntryView {
    pub name: Seq<u8>,
    pub inode_number: u32,
}

/// A storable name: at most [`NAME_LENGTH_LIMIT`] bytes, none of them zero
/// (zero is the padding terminator of the on-disk name field).
pub open spec fn valid_name_bytes(name: Seq<u8>) -> bool {
    &&& name.len() <= NAME_LENGTH_LIMIT
    &&& forall|i: int| 0 <= i < name.len() ==> name[i] != 0u8
}

/// Entry layout: the name zero-padded to 28 bytes, then the inode slot as a
/// little-endian u32.
pub open spec fn encode_dirent(v: DirEntryView) -> Seq<u8> {
    Seq::new(DIRENT_SZ as nat, |j: int|
        if j < 28 {
            if j < v.name.len() {
                v.name[j]
            } else {
                0u8
            }
        } else {
            spec_u32_to_le_bytes(v.inode_number)[j - 28]
        })
}

/// Length of the name stored in a zero-padded field: the bytes before the
/// first zero.
pub open spec fn stored_name_len(s: Seq<u8>) -> int
    decreases s.len(),
{
    if s.len() == 0 {
        0
    } else if s[0] == 0u8 {
        0
    } else {
        1 + stored_name_len(s.subrange(1, s.len() as int))
    }
}

/// Decoding of a 32-byte directory entry.
pub open spec fn decode_dirent(bytes: Seq<u8>) -> DirEntryView {
    let field = bytes.subrange(0, 28);
    DirEntryView {
        name: field.subrange(0, stored_name_len(field)),
        inode_number: spec_u32_from_le_bytes(bytes.subrange(28, 32)),
    }
}

/// If the first `nl` bytes of a field are non-zero and the field ends or
/// holds a zero right after them, the stored name length is `nl`.
pub proof fn lemma_stored_name_len_from_prefix(field: Seq<u8>, nl: int)
    requires
        0 <= nl <= field.len(),
        forall|i: int| 0 <= i < nl ==> field[i] != 0u8,
        nl == field.len() || field[nl] == 0u8,
    ensures
        stored_name_len(field) == nl,
    decreases nl,
{
    if nl > 0 {
        lemma_stored_name_len_from_prefix(field.subrange(1, field.len() as int), nl - 1);
    }
}

/// In a field holding `name` zero-padded to length `padded`, the stored name
/// length is exactly `name.len()`.
pub proof fn lemma_stored_name_len(name: Seq<u8>, padded: Seq<u8>)
    requires
        forall|i: int| 0 <= i < name.len() ==> name[i] != 0u8,
        name.len() <= padded.len(),
        forall|j: int|
            0 <= j < padded.len() ==> padded[j] == (if j < name.len() {
                name[j]
            } else {
                0u8
            }),
    ensures
        stored_name_len(padded) == name.len(),
    decreases name.len() + 1,
{
    if name.len() == 0 {
        if padded.len() > 0 {
            assert(padded[0] == 0u8);
        }
    } else {
        assert(padded[0] == name[0]);
        let name1 = name.subrange(1, name.len() as int);
        let padded1 = padded.subrange(1, padded.len() as int);
        lemma_stored_name_len(name1, padded1);
    }
}

/// Encoding then decoding a directory entry with a storable name yields the
/// same fields.
pub proof fn lemma_dirent_round_trip(v: DirEntryView)
    requires
        valid_name_bytes(v.name),
    ensures
        encode_dirent(v).len() == DIRENT_SZ,
        decode_dirent(encode_dirent(v)) == v,
{
    lemma_auto_spec_u32_to_from_le_bytes();
    let e = encode_dirent(v);
    let field = e.subrange(0, 28);
    lemma_stored_name_len(v.name, field);
    assert(field.subrange(0, stored_name_len(field)) =~= v.name);
    assert(e.subrange(28, 32) =~= spec_u32_to_le_bytes(v.inode_number));
}

/// In-memory copy of one directory entry.
pub struct DirEntry {
    pub name: Vec<u8>,
    pub inode_number: u32,
}

impl View for DirEntry {
    type V = DirEntryView;

    open spec fn view(&self) -> DirEntryView {
        DirEntryView { name: self.name@, inode_number: self.inode_number }
    }
}

impl DirEntry {
    /// An entry binding `name` to inode slot `inode_number`.
    pub fn new(name: Vec<u8>, inode_number: u32) -> (e: DirEntry)
        requires
            valid_name_bytes(name@),
        ensures
            e@.name == name@,
            e@.inode_number == inode_number,
    {
        DirEntry { name, inode_number }
    }

    /// The 32-byte encoding of this entry.
    pub fn encode(&self) -> (b: Vec<u8>)
        requires
            self@.name.len() <= 28,
        ensures
            b@ == encode_dirent(self@),
    {
        let mut b: Vec<u8> = Vec::new();
        let mut j: usize = 0;
        while j < 28
            invariant
                j <= 28,
                self@.name.len() <= 28,
                b@.len() == j,
                forall|i: int| 0 <= i < j ==> b@[i] == encode_dirent(self@)[i],
            decreases 28 - j,
        {
            if j < self.name.len() {
                let c = self.name[j];
                b.push(c);
            } else {
                b.push(0u8);
            }
            j += 1;
        }
        let mut tail = u32_to_le_bytes(self.inode_number);
        b.append(&mut tail);
        proof {
            lemma_auto_spec_u32_to_from_le_bytes();
            assert(b@ =~= encode_dirent(self@));
        }
        b
    }

    /// Decode a 32-byte entry as read from a directory's contents.
    pub fn parse(bytes: &[u8]) -> (e: DirEntry)
        requires
            bytes@.len() == DIRENT_SZ,
        ensures
            e@ == decode_dirent(bytes@),
            e@.name.len() <= 28,
    {
        let ghost field = bytes@.subrange(0, 28);
        let mut nl: usize = 0;
        while nl < 28 && *vstd::slice::slice_index_get(bytes, nl) != 0u8
            invariant
                bytes@.len() == DIRENT_SZ,
                nl <= 28,
                field == bytes@.subrange(0, 28),
                forall|i: int| 0 <= i < nl ==> field[i] != 0u8,
            decreases 28 - nl,
        {
            nl += 1;
        }
        let mut name: Vec<u8> = Vec::new();
        let mut j: usize = 0;
        while j < nl
            invariant
                bytes@.len() == DIRENT_SZ,
                j <= nl <= 28,
                field == bytes@.subrange(0, 28),
                name@ == field.subrange(0, j as int),
            decreases nl - j,
        {
            name.push(*vstd::slice::slice_index_get(bytes, j));
            assert(name@ =~= field.subrange(0, j + 1));
            j += 1;
        }
        proof {
            lemma_stored_name_len_from_prefix(field, nl as int);
            assert(field.subrange(0, stored_name_len(field)) =~= name@);
        }
        let num_slice = slice_subrange(bytes, 28, 32);
        let inode_number = u32_from_le_bytes(num_slice);
        assert(num_slice@ =~= bytes@.subrange(28, 32));
        DirEntry { name, inode_number }
    }
}

// ---------------------------------------------------------------------------
// Inode records on disk
// ---------------------------------------------------------------------------
proof fn lemma_direct_index(j: int, k: int)
    by (nonlinear_arith)
    requires
        4 + 4 * k <= j < 8 + 4 * k,
    ensures
        (j - 4) / 4 == k,
        (j - 4) % 4 == j - (4 + 4 * k),
{
}

/// Read the inode record at byte `offset` of block `block_id`.
pub fn read_inode(cache: &mut BlockCacheManager, block_id: usize, offset: usize) -> (di: DiskInode)
    requires
        old(cache).wf(),
        block_id < old(cache)@.len(),
        offset + INODE_SZ <= BLOCK_SZ,
    ensures
        final(cache).wf(),
        final(cache)@ == old(cache)@,
        di.direct@.len() == INODE_DIRECT_COUNT,
        di@ == decode_inode(old(cache)@[block_id as int].subrange(offset as int, offset + INODE_SZ)),
{
    proof {
        old(cache).lemma_block_len(block_id as int);
    }
    let buf = cache.read_range(block_id, offset, INODE_SZ);
    let ghost rec = old(cache)@[block_id as int].subrange(offset as int, offset + INODE_SZ);
    assert(buf@ == rec);
    assert(buf@.len() == INODE_SZ);
    let size = u32_from_le_bytes(slice_subrange(buf.as_slice(), 0, 4));
    let indirect1 = u32_from_le_bytes(slice_subrange(buf.as_slice(), 112, 116));
    let indirect2 = u32_from_le_bytes(slice_subrange(buf.as_slice(), 116, 120));
    let nlink = u32_from_le_bytes(slice_subrange(buf.as_slice(), 120, 124));
    let tyv = u32_from_le_bytes(slice_subrange(buf.as_slice(), 124, 128));
    let ty = if tyv == 1 {
        DiskInodeType::Directory
    } else {
        DiskInodeType::File
    };
    let mut direct: Vec<u32> = Vec::new();
    let mut k: usize = 0;
    while k < INODE_DIRECT_COUNT
        invariant
            k <= INODE_DIRECT_COUNT,
            buf@ == rec,
            buf@.len() == INODE_SZ,
            direct@.len() == k,
            forall|i: int|
                0 <= i < k ==> #[trigger] direct@[i] == decode_inode(rec).direct[i],
        decreases INODE_DIRECT_COUNT - k,
    {
        let p = u32_from_le_bytes(slice_subrange(buf.as_slice(), 4 + 4 * k, 8 + 4 * k));
        direct.push(p);
        k += 1;
    }
    let di = DiskInode { size, ty, nlink, direct, indirect1, indirect2 };
    proof {
        let d = decode_inode(rec);
        assert(di@.direct =~= d.direct);
        assert(di@ == d);
    }
    di
}

/// Write `di` as the inode record at byte `offset` of block `block_id`:
/// only those [`INODE_SZ`] bytes of the effective disk change.
pub fn write_inode(cache: &mut BlockCacheManager, block_id: usize, offset: usize, di: &DiskInode)
    requires
        old(cache).wf(),
        block_id < old(cache)@.len(),
        offset + INODE_SZ <= BLOCK_SZ,
        di.direct@.len() == INODE_DIRECT_COUNT,
    ensures
        final(cache).wf(),
        final(cache)@ == old(cache)@.update(
            block_id as int,
            splice(old(cache)@[block_id as int], offset as int, encode_inode(di@)),
        ),
{
    let ghost enc = encode_inode(di@);
    proof {
        lemma_inode_round_trip(di@);
        lemma_auto_spec_u32_to_from_le_bytes();
    }
    let mut b = u32_to_le_bytes(di.size);
    let mut k: usize = 0;
    while k < INODE_DIRECT_COUNT
        invariant
            k <= INODE_DIRECT_COUNT,
            di.direct@.len() == INODE_DIRECT_COUNT,
            enc == encode_inode(di@),
            b@.len() == 4 + 4 * k,
            forall|j: int| 0 <= j < b@.len() ==> b@[j] == enc[j],
        decreases INODE_DIRECT_COUNT - k,
    {
        let mut tail = u32_to_le_bytes(di.direct[k]);
        b.append(&mut tail);
        proof {
            lemma_auto_spec_u32_to_from_le_bytes();
            assert forall|j: int| 4 + 4 * k <= j < 8 + 4 * k implies b@[j] == enc[j] by {
                lemma_direct_index(j, k as int);
            }
        }
        k += 1;
    }
    let mut t1 = u32_to_le_bytes(di.indirect1);
    b.append(&mut t1);
    let mut t2 = u32_to_le_bytes(di.indirect2);
    b.append(&mut t2);
    let mut t3 = u32_to_le_bytes(di.nlink);
    b.append(&mut t3);
    let tyv: u32 = match di.ty {
        DiskInodeType::Directory => 1,
        DiskInodeType::File => 0,
    };
    let mut t4 = u32_to_le_bytes(tyv);
    b.append(&mut t4);
    proof {
        lemma_auto_spec_u32_to_from_le_bytes();
        assert(b@ =~= enc);
    }
    cache.write_range(block_id, offset, b.as_slice());
}

// ---------------------------------------------------------------------------
// The extent map: byte offsets to data blocks
// ---------------------------------------------------------------------------
/// A block full of little-endian u32 pointers, `ids` padded with zeros.
pub open spec fn encode_ptr_block(ids: Seq<u32>) -> Seq<u8> {
    Seq::new(BLOCK_SZ as nat, |j: int|
        if (j / 4) < ids.len() {
            spec_u32_to_le_bytes(ids[j / 4])[j % 4]
        } else {
            0u8
        })
}

/// The data block serving data-block index `k` of inode view `v`, read from
/// the effective disk `bs` for the indirect tiers.
pub open spec fn spec_extent_slot(bs: Seq<Seq<u8>>, v: InodeView, k: int) -> u32 {
    if k < DIRECT_BOUND {
        v.direct[k]
    } else if k < INDIRECT1_BOUND {
        u32_at(bs, v.indirect1 as int, 4 * (k - DIRECT_BOUND))
    } else {
        u32_at(
            bs,
            u32_at(bs, v.indirect2 as int, 4 * ((k - INDIRECT1_BOUND) / (
            INODE_INDIRECT1_COUNT as int))) as int,
            4 * ((k - INDIRECT1_BOUND) % (INODE_INDIRECT1_COUNT as int)),
        )
    }
}

/// All data blocks of the inode, in file order.
pub open spec fn spec_extent(bs: Seq<Seq<u8>>, v: InodeView) -> Seq<u32> {
    Seq::new(spec_data_blocks(v.size) as nat, |k: int| spec_extent_slot(bs, v, k))
}

/// Number of level-1 style blocks hanging off the level-2 index block.
pub open spec fn spec_ind2_children(n: int) -> int {
    if n > INDIRECT1_BOUND {
        (n - INDIRECT1_BOUND + INODE_INDIRECT1_COUNT - 1) / (INODE_INDIRECT1_COUNT as int)
    } else {
        0
    }
}

/// The level-1 style block at slot `t` of the level-2 index block.
pub open spec fn spec_ind2_child(bs: Seq<Seq<u8>>, v: InodeView, t: int) -> u32 {
    u32_at(bs, v.indirect2 as int, 4 * t)
}

/// Every block index the extent resolution may read or return is a valid
/// block of `bs`: the two index-block pointers, the level-2 children, and
/// every data block of the extent.
pub open spec fn inode_ptrs_in_range(bs: Seq<Seq<u8>>, v: InodeView) -> bool {
    &&& spec_data_blocks(v.size) > DIRECT_BOUND ==> v.indirect1 < bs.len()
    &&& spec_data_blocks(v.size) > INDIRECT1_BOUND ==> v.indirect2 < bs.len()
    &&& forall|t: int|
        0 <= t < spec_ind2_children(spec_data_blocks(v.size)) ==> (#[trigger] spec_ind2_child(
            bs,
            v,
            t,
        )) < bs.len()
    &&& forall|k: int|
        0 <= k < spec_data_blocks(v.size) ==> (#[trigger] spec_extent_slot(bs, v, k)) < bs.len()
}

/// The index blocks the inode occupies, in a fixed order: the level-1 block,
/// then the level-2 block, then its children in slot order.
pub open spec fn spec_meta_blocks(bs: Seq<Seq<u8>>, v: InodeView) -> Seq<u32> {
    let n = spec_data_blocks(v.size);
    (if n > DIRECT_BOUND {
        seq![v.indirect1]
    } else {
        Seq::<u32>::empty()
    }) + (if n > INDIRECT1_BOUND {
        seq![v.indirect2] + Seq::new(spec_ind2_children(n) as nat, |t: int|
            u32_at(bs, v.indirect2 as int, 4 * t))
    } else {
        Seq::<u32>::empty()
    })
}

/// Every block the inode occupies: index blocks, then data blocks.
pub open spec fn spec_all_blocks(bs: Seq<Seq<u8>>, v: InodeView) -> Seq<u32> {
    spec_meta_blocks(bs, v) + spec_extent(bs, v)
}

/// The file contents: the first `size` bytes addressed through the extent.
pub open spec fn spec_content(bs: Seq<Seq<u8>>, v: InodeView) -> Seq<u8> {
    Seq::new(v.size as nat, |i: int|
        bs[spec_extent_slot(bs, v, i / (BLOCK_SZ as int)) as int][i % (BLOCK_SZ as int)])
}

/// Every block the inode occupies lies in the data area `[data_start, bs.len())`
/// and no two of them coincide.
pub open spec fn inode_blocks_wf(bs: Seq<Seq<u8>>, v: InodeView, data_start: int) -> bool {
    let all = spec_all_blocks(bs, v);
    &&& forall|i: int| 0 <= i < all.len() ==> data_start <= #[trigger] all[i] < bs.len()
    &&& forall|i: int, j: int| 0 <= i < j < all.len() ==> all[i] != all[j]
}

/// Bytes of the last partial data block beyond `size` read as zero, so that
/// growth exposes zeros. (Blocks are zero-filled when allocated and writes
/// stay inside `[0, size)`, which preserves this.)
pub open spec fn spec_tail_zero(bs: Seq<Seq<u8>>, v: InodeView) -> bool {
    forall|i: int|
        v.size <= i < spec_data_blocks(v.size) * (BLOCK_SZ as int) ==> bs[spec_extent_slot(
            bs,
            v,
            #[trigger] (i / (BLOCK_SZ as int)),
        ) as int][i % (BLOCK_SZ as int)] == 0u8
}

/// The number of blocks occupied in total is the data blocks plus the index
/// blocks of the fixed order above.
pub proof fn lemma_all_blocks_len(bs: Seq<Seq<u8>>, v: InodeView)
    ensures
        spec_meta_blocks(bs, v).len() == spec_total_blocks(v.size) - spec_data_blocks(v.size),
        spec_all_blocks(bs, v).len() == spec_total_blocks(v.size),
{
}

impl DiskInode {
    /// The data block serving data-block index `inner`, resolved through the
    /// direct pointers or the one- or two-level index blocks.
    pub fn get_block_id(&self, cache: &mut BlockCacheManager, inner: u32) -> (r: u32)
        requires
            old(cache).wf(),
            self.wf(),
            inner < spec_data_blocks(self@.size),
            inode_ptrs_in_range(old(cache)@, self@),
        ensures
            final(cache).wf(),
            final(cache)@ == old(cache)@,
            r == spec_extent_slot(old(cache)@, self@, inner as int),
    {
        proof {
            lemma_auto_spec_u32_to_from_le_bytes();
        }
        if (inner as usize) < DIRECT_BOUND {
            self.direct[inner as usize]
        } else if (inner as usize) < INDIRECT1_BOUND {
            proof {
                cache.lemma_block_len(self.indirect1 as int);
            }
            let off: usize = 4 * (inner as usize - DIRECT_BOUND);
            let b = cache.read_range(self.indirect1 as usize, off, 4);
            u32_from_le_bytes(b.as_slice())
        } else {
            proof {
                cache.lemma_block_len(self.indirect2 as int);
            }
            let rest: usize = inner as usize - INDIRECT1_BOUND;
            let t: usize = rest / INODE_INDIRECT1_COUNT;
            proof {
                let n = spec_data_blocks(self@.size);
                assert(t < spec_ind2_children(n) && t < INODE_INDIRECT1_COUNT) by (
                nonlinear_arith)
                    requires
                        t == (rest as int) / (INODE_INDIRECT1_COUNT as int),
                        0 <= rest as int,
                        rest as int == inner - INDIRECT1_BOUND,
                        INDIRECT1_BOUND <= inner < n <= INODE_MAX_DATA_BLOCKS,
                        spec_ind2_children(n) == (n - INDIRECT1_BOUND + INODE_INDIRECT1_COUNT
                            - 1) / (INODE_INDIRECT1_COUNT as int),
                ;
                assert(spec_ind2_child(old(cache)@, self@, t as int) < old(cache)@.len());
            }
            let off2: usize = 4 * t;
            let b2 = cache.read_range(self.indirect2 as usize, off2, 4);
            let child = u32_from_le_bytes(b2.as_slice());
            proof {
                assert(child == spec_ind2_child(old(cache)@, self@, t as int));
                cache.lemma_block_len(child as int);
            }
            let off1: usize = 4 * (rest % INODE_INDIRECT1_COUNT);
            let b1 = cache.read_range(child as usize, off1, 4);
            u32_from_le_bytes(b1.as_slice())
        }
    }

    /// Copy `min(len, size - offset)` content bytes starting at `offset`;
    /// zero bytes are copied when `offset >= size`.
    pub fn read_at(&self, cache: &mut BlockCacheManager, offset: usize, len: usize) -> (r: Vec<u8>)
        requires
            old(cache).wf(),
            self.wf(),
            inode_ptrs_in_range(old(cache)@, self@),
        ensures
            final(cache).wf(),
            final(cache)@ == old(cache)@,
            r@ == if offset >= self@.size {
                Seq::<u8>::empty()
            } else {
                spec_content(old(cache)@, self@).subrange(
                    offset as int,
                    if offset + len <= self@.size {
                        offset + len
                    } else {
                        self@.size as int
                    },
                )
            },
    {
        let mut r: Vec<u8> = Vec::new();
        if offset >= self.size as usize {
            return r;
        }
        let end: usize = if len <= self.size as usize - offset {
            offset + len
        } else {
            self.size as usize
        };
        let mut i: usize = offset;
        while i < end
            invariant
                old(cache).wf(),
                cache.wf(),
                cache@ == old(cache)@,
                self.wf(),
                inode_ptrs_in_range(cache@, self@),
                offset <= i <= end <= self@.size,
                r@ == spec_content(cache@, self@).subrange(offset as int, i as int),
            decreases end - i,
        {
            let inner: u32 = (i / BLOCK_SZ) as u32;
            assert(inner < spec_data_blocks(self@.size)) by {
                assert((i as int) / (BLOCK_SZ as int) * (BLOCK_SZ as int) <= i as int) by (
                nonlinear_arith);
                assert((i as int) / (BLOCK_SZ as int) < spec_data_blocks(self@.size)) by (
                nonlinear_arith)
                    requires
                        0 <= i as int,
                        (i as int) < self@.size,
                        spec_data_blocks(self@.size) == (self@.size + BLOCK_SZ - 1) / (
                        BLOCK_SZ as int),
                ;
            }
            let b = self.get_block_id(cache, inner);
            let byte = cache.read_range(b as usize, i % BLOCK_SZ, 1);
            proof {
                cache.lemma_block_len(b as int);
            }
            r.push(byte[0]);
            assert(r@ =~= spec_content(cache@, self@).subrange(offset as int, i + 1));
            i += 1;
        }
        r
    }
}

/// If the index blocks an inode uses kept their bytes, every extent slot and
/// the meta-block list keep their values, whatever happened to other blocks.
pub proof fn lemma_extent_slots_stable(bs: Seq<Seq<u8>>, bs2: Seq<Seq<u8>>, v: InodeView)
    requires
        bs2.len() == bs.len(),
        inode_view_wf(v),
        spec_data_blocks(v.size) > DIRECT_BOUND ==> v.indirect1 < bs.len() && bs2[v.indirect1 as int]
            == bs[v.indirect1 as int],
        spec_data_blocks(v.size) > INDIRECT1_BOUND ==> v.indirect2 < bs.len()
            && bs2[v.indirect2 as int] == bs[v.indirect2 as int] && forall|t: int|
            0 <= t < spec_ind2_children(spec_data_blocks(v.size)) ==> (#[trigger] spec_ind2_child(
                bs,
                v,
                t,
            )) < bs.len() && bs2[spec_ind2_child(bs, v, t) as int] == bs[spec_ind2_child(
                bs,
                v,
                t,
            ) as int],
    ensures
        forall|k: int|
            0 <= k < spec_data_blocks(v.size) ==> #[trigger] spec_extent_slot(bs2, v, k)
                == spec_extent_slot(bs, v, k),
        forall|t: int|
            0 <= t < spec_ind2_children(spec_data_blocks(v.size)) ==> #[trigger] spec_ind2_child(
                bs2,
                v,
                t,
            ) == spec_ind2_child(bs, v, t),
        spec_extent(bs2, v) =~= spec_extent(bs, v),
        spec_meta_blocks(bs2, v) =~= spec_meta_blocks(bs, v),
{
    let n = spec_data_blocks(v.size);
    assert forall|t: int| 0 <= t < spec_ind2_children(n) implies #[trigger] spec_ind2_child(
        bs2,
        v,
        t,
    ) == spec_ind2_child(bs, v, t) by {
        if n > INDIRECT1_BOUND {
            assert(bs2[v.indirect2 as int].subrange(4 * t, 4 * t + 4) == bs[v.indirect2 as int]
                .subrange(4 * t, 4 * t + 4));
        }
    }
    assert forall|k: int| 0 <= k < n implies #[trigger] spec_extent_slot(bs2, v, k)
        == spec_extent_slot(bs, v, k) by {
        if k < DIRECT_BOUND {
        } else if k < INDIRECT1_BOUND {
            assert(bs2[v.indirect1 as int].subrange(4 * (k - DIRECT_BOUND), 4 * (k - DIRECT_BOUND)
                + 4) == bs[v.indirect1 as int].subrange(
                4 * (k - DIRECT_BOUND),
                4 * (k - DIRECT_BOUND) + 4,
            ));
        } else {
            let t = (k - INDIRECT1_BOUND) / (INODE_INDIRECT1_COUNT as int);
            assert(0 <= t < spec_ind2_children(n)) by (nonlinear_arith)
                requires
                    INDIRECT1_BOUND <= k < n,
                    t == (k - INDIRECT1_BOUND) / (INODE_INDIRECT1_COUNT as int),
                    spec_ind2_children(n) == (n - INDIRECT1_BOUND + INODE_INDIRECT1_COUNT - 1) / (
                    INODE_INDIRECT1_COUNT as int),
            ;
            assert(spec_ind2_child(bs2, v, t) == spec_ind2_child(bs, v, t));
            let child = spec_ind2_child(bs, v, t);
            let r = (k - INDIRECT1_BOUND) % (INODE_INDIRECT1_COUNT as int);
            assert(bs2[child as int].subrange(4 * r, 4 * r + 4) == bs[child as int].subrange(
                4 * r,
                4 * r + 4,
            ));
        }
    }
}

/// With all of an inode's blocks distinct, a given data block of its extent
/// is not an index block and not any other slot's data block.
pub proof fn lemma_data_block_not_meta(bs: Seq<Seq<u8>>, v: InodeView, m: int)
    requires
        inode_view_wf(v),
        0 <= m < spec_data_blocks(v.size),
        forall|i: int, j: int|
            0 <= i < j < spec_all_blocks(bs, v).len() ==> #[trigger] spec_all_blocks(bs, v)[i]
                != #[trigger] spec_all_blocks(bs, v)[j],
    ensures
        spec_data_blocks(v.size) > DIRECT_BOUND ==> spec_extent_slot(bs, v, m) != v.indirect1,
        spec_data_blocks(v.size) > INDIRECT1_BOUND ==> spec_extent_slot(bs, v, m) != v.indirect2
            && forall|t: int|
            0 <= t < spec_ind2_children(spec_data_blocks(v.size)) ==> spec_extent_slot(bs, v, m)
                != #[trigger] spec_ind2_child(bs, v, t),
        forall|m2: int|
            0 <= m2 < spec_data_blocks(v.size) && m2 != m ==> spec_extent_slot(bs, v, m)
                != #[trigger] spec_extent_slot(bs, v, m2),
{
    let n = spec_data_blocks(v.size);
    let all = spec_all_blocks(bs, v);
    let meta = spec_meta_blocks(bs, v);
    let ml = meta.len();
    assert(all[ml + m] == spec_extent(bs, v)[m]);
    if n > DIRECT_BOUND {
        assert(meta[0] == v.indirect1);
        assert(all[0] == v.indirect1);
    }
    if n > INDIRECT1_BOUND {
        assert(meta[1] == v.indirect2);
        assert(all[1] == v.indirect2);
        assert forall|t: int| 0 <= t < spec_ind2_children(n) implies spec_extent_slot(bs, v, m)
            != #[trigger] spec_ind2_child(bs, v, t) by {
            assert(meta[2 + t] == spec_ind2_child(bs, v, t));
            assert(all[2 + t] == spec_ind2_child(bs, v, t));
        }
    }
    assert forall|m2: int| 0 <= m2 < n && m2 != m implies spec_extent_slot(bs, v, m)
        != #[trigger] spec_extent_slot(bs, v, m2) by {
        assert(all[ml + m2] == spec_extent(bs, v)[m2]);
    }
}

impl DiskInode {
    /// Write `buf` at byte `offset` of the contents. The caller must already
    /// have grown the inode so the range lies inside `[0, size)`; only the
    /// touched data blocks of the effective disk change.
    pub fn write_at(&self, cache: &mut BlockCacheManager, offset: usize, buf: &[u8])
        requires
            old(cache).wf(),
            self.wf(),
            offset + buf@.len() <= self@.size,
            inode_ptrs_in_range(old(cache)@, self@),
            forall|i: int, j: int|
                0 <= i < j < spec_all_blocks(old(cache)@, self@).len() ==> #[trigger] spec_all_blocks(
                    old(cache)@,
                    self@,
                )[i] != #[trigger] spec_all_blocks(old(cache)@, self@)[j],
        ensures
            final(cache).wf(),
            final(cache)@.len() == old(cache)@.len(),
            spec_content(final(cache)@, self@) == splice(
                spec_content(old(cache)@, self@),
                offset as int,
                buf@,
            ),
            spec_extent(final(cache)@, self@) == spec_extent(old(cache)@, self@),
            spec_meta_blocks(final(cache)@, self@) == spec_meta_blocks(old(cache)@, self@),
            inode_ptrs_in_range(final(cache)@, self@),
            forall|b: int|
                0 <= b < old(cache)@.len() && !spec_extent(old(cache)@, self@).contains(b as u32)
                    ==> final(cache)@[b] == old(cache)@[b],
            spec_tail_zero(old(cache)@, self@) ==> spec_tail_zero(final(cache)@, self@),
    {
        let ghost bs0 = old(cache)@;
        let ghost v = self@;
        let ghost n = spec_data_blocks(v.size);
        let mut i: usize = offset;
        let end: usize = offset + buf.len();
        while i < end
            invariant
                cache.wf(),
                self.wf(),
                v == self@,
                n == spec_data_blocks(v.size),
                offset <= i <= end <= self@.size,
                end == offset + buf@.len(),
                cache@.len() == bs0.len(),
                inode_ptrs_in_range(cache@, v),
                forall|k: int|
                    0 <= k < n ==> #[trigger] spec_extent_slot(cache@, v, k) == spec_extent_slot(
                        bs0,
                        v,
                        k,
                    ),
                spec_extent(cache@, v) == spec_extent(bs0, v),
                spec_meta_blocks(cache@, v) == spec_meta_blocks(bs0, v),
                forall|i2: int, j2: int|
                    0 <= i2 < j2 < spec_all_blocks(cache@, v).len() ==> #[trigger] spec_all_blocks(
                        cache@,
                        v,
                    )[i2] != #[trigger] spec_all_blocks(cache@, v)[j2],
                spec_content(cache@, v) == splice(
                    spec_content(bs0, v),
                    offset as int,
                    buf@.subrange(0, i - offset),
                ),
                forall|b: int|
                    0 <= b < bs0.len() && !spec_extent(bs0, v).contains(b as u32)
                        ==> #[trigger] cache@[b] == bs0[b],
                spec_tail_zero(bs0, v) ==> spec_tail_zero(cache@, v),
            decreases end - i,
        {
            let ghost pre = cache@;
            let inner: u32 = (i / BLOCK_SZ) as u32;
            proof {
                assert(inner < n) by (nonlinear_arith)
                    requires
                        inner == (i as int) / (BLOCK_SZ as int),
                        0 <= i as int,
                        (i as int) < v.size,
                        n == (v.size + BLOCK_SZ - 1) / (BLOCK_SZ as int),
                ;
            }
            let b = self.get_block_id(cache, inner);
            let mut one: Vec<u8> = Vec::new();
            one.push(*vstd::slice::slice_index_get(buf, i - offset));
            proof {
                cache.lemma_block_len(b as int);
            }
            cache.write_range(b as usize, i % BLOCK_SZ, one.as_slice());
            proof {
                let bnow = cache@;
                lemma_data_block_not_meta(pre, v, inner as int);
                lemma_extent_slots_stable(pre, bnow, v);
                // Extent and meta keep their values; all_blocks too.
                assert(spec_extent(bnow, v) =~= spec_extent(pre, v));
                assert(spec_meta_blocks(bnow, v) =~= spec_meta_blocks(pre, v));
                assert(spec_all_blocks(bnow, v) =~= spec_all_blocks(pre, v));
                assert(inode_ptrs_in_range(bnow, v));
                // Content changes exactly at byte i.
                assert forall|p: int| 0 <= p < v.size implies #[trigger] spec_content(bnow, v)[p]
                    == splice(spec_content(bs0, v), offset as int, buf@.subrange(
                    0,
                    i + 1 - offset,
                ))[p] by {
                    let kp = p / (BLOCK_SZ as int);
                    assert(0 <= kp < n) by (nonlinear_arith)
                        requires
                            kp == p / (BLOCK_SZ as int),
                            0 <= p < v.size,
                            n == (v.size + BLOCK_SZ - 1) / (BLOCK_SZ as int),
                    ;
                    let slot = spec_extent_slot(pre, v, kp);
                    assert(spec_extent_slot(bnow, v, kp) == slot);
                    assert(spec_content(bnow, v)[p] == bnow[slot as int][p % (BLOCK_SZ as int)]);
                    assert(spec_content(pre, v)[p] == pre[slot as int][p % (BLOCK_SZ as int)]);
                    let goal = splice(spec_content(bs0, v), offset as int, buf@.subrange(
                        0,
                        i + 1 - offset,
                    ))[p];
                    if p == i {
                        assert(kp == inner as int);
                        assert(slot == b);
                        assert(bnow[slot as int] == splice(
                            pre[b as int],
                            (i % BLOCK_SZ) as int,
                            one@,
                        ));
                        assert(bnow[slot as int][p % (BLOCK_SZ as int)] == one@[0]);
                        assert(bnow[slot as int][p % (BLOCK_SZ as int)] == buf@[i - offset]);
                        assert(goal == buf@[i - offset]);
                    } else if kp == inner as int {
                        assert(p % (BLOCK_SZ as int) != (i as int) % (BLOCK_SZ as int)) by (
                        nonlinear_arith)
                            requires
                                p != i as int,
                                p / (BLOCK_SZ as int) == (i as int) / (BLOCK_SZ as int),
                                0 <= p,
                                0 <= i as int,
                                BLOCK_SZ == 512,
                                kp == p / (BLOCK_SZ as int),
                        ;
                        assert(bnow[slot as int][p % (BLOCK_SZ as int)] == pre[slot as int][p % (
                        BLOCK_SZ as int)]);
                        assert(goal == spec_content(pre, v)[p]);
                    } else {
                        lemma_data_block_not_meta(pre, v, kp);
                        assert(slot != spec_extent_slot(pre, v, inner as int));
                        assert(bnow[slot as int] == pre[slot as int]);
                        assert(goal == spec_content(pre, v)[p]);
                    }
                }
                assert(spec_content(bnow, v) =~= splice(
                    spec_content(bs0, v),
                    offset as int,
                    buf@.subrange(0, i + 1 - offset),
                ));
                // Frame: only the written data block changed.
                assert forall|x: int|
                    0 <= x < bs0.len() && !spec_extent(bs0, v).contains(x as u32) implies
                    #[trigger] cache@[x] == bs0[x] by {
                    assert(spec_extent(bs0, v)[inner as int] == b);
                    assert(x != b);
                }
                // Tail bytes beyond size stay zero.
                if spec_tail_zero(bs0, v) {
                    assert forall|p: int|
                        v.size <= p < n * (BLOCK_SZ as int) implies bnow[spec_extent_slot(
                        bnow,
                        v,
                        #[trigger] (p / (BLOCK_SZ as int)),
                    ) as int][p % (BLOCK_SZ as int)] == 0u8 by {
                        let kp = p / (BLOCK_SZ as int);
                        assert(0 <= kp < n) by (nonlinear_arith)
                            requires
                                kp == p / (BLOCK_SZ as int),
                                0 <= v.size <= p,
                                p < n * (BLOCK_SZ as int),
                                n == (v.size + BLOCK_SZ - 1) / (BLOCK_SZ as int),
                                BLOCK_SZ == 512,
                        ;
                        let slot = spec_extent_slot(pre, v, kp);
                        assert(spec_extent_slot(bnow, v, kp) == slot);
                        if kp == inner as int {
                            assert(p % (BLOCK_SZ as int) != (i as int) % (BLOCK_SZ as int)) by (
                            nonlinear_arith)
                                requires
                                    p != i as int,
                                    p / (BLOCK_SZ as int) == (i as int) / (BLOCK_SZ as int),
                                    0 <= p,
                                    0 <= i as int,
                                    BLOCK_SZ == 512,
                                    kp == p / (BLOCK_SZ as int),
                            ;
                            assert(bnow[slot as int][p % (BLOCK_SZ as int)] == pre[slot as int][p
                                % (BLOCK_SZ as int)]);
                        } else {
                            lemma_data_block_not_meta(pre, v, kp);
                            assert(bnow[slot as int] == pre[slot as int]);
                        }
                    }
                }
            }
            i += 1;
        }
        proof {
            assert(buf@.subrange(0, end - offset) =~= buf@);
        }
    }
}

proof fn lemma_ptr_index(j: int, m: int)
    by (nonlinear_arith)
    requires
        4 * m <= j < 4 * m + 4,
    ensures
        j / 4 == m,
        j % 4 == j - 4 * m,
{
}

/// In a block holding `encode_ptr_block(ids)`, pointer slot `m` reads back
/// as `ids[m]`.
pub proof fn lemma_ptr_block_u32_at(bs: Seq<Seq<u8>>, b: int, ids: Seq<u32>, m: int)
    requires
        0 <= b < bs.len(),
        bs[b] == encode_ptr_block(ids),
        0 <= m < ids.len(),
        ids.len() <= INODE_INDIRECT1_COUNT,
    ensures
        u32_at(bs, b, 4 * m) == ids[m],
{
    lemma_auto_spec_u32_to_from_le_bytes();
    assert forall|j: int| 4 * m <= j < 4 * m + 4 implies encode_ptr_block(ids)[j]
        == spec_u32_to_le_bytes(ids[m])[j - 4 * m] by {
        lemma_ptr_index(j, m);
    }
    assert(bs[b].subrange(4 * m, 4 * m + 4) =~= spec_u32_to_le_bytes(ids[m]));
}

/// Build one block's worth of bytes holding the pointers `ids[lo..hi]`,
/// zero-padded.
fn build_ptr_block(ids: &Vec<u32>, lo: usize, hi: usize) -> (b: Vec<u8>)
    requires
        lo <= hi <= ids@.len(),
        hi - lo <= INODE_INDIRECT1_COUNT,
    ensures
        b@.len() == BLOCK_SZ,
        b@ == encode_ptr_block(ids@.subrange(lo as int, hi as int)),
{
    let ghost target = encode_ptr_block(ids@.subrange(lo as int, hi as int));
    proof {
        lemma_auto_spec_u32_to_from_le_bytes();
    }
    let mut b: Vec<u8> = Vec::new();
    let mut m: usize = 0;
    while m < hi - lo
        invariant
            lo <= hi <= ids@.len(),
            hi - lo <= INODE_INDIRECT1_COUNT,
            m <= hi - lo,
            b@.len() == 4 * m,
            target == encode_ptr_block(ids@.subrange(lo as int, hi as int)),
            forall|j: int| 0 <= j < b@.len() ==> b@[j] == target[j],
        decreases hi - lo - m,
    {
        let mut tail = u32_to_le_bytes(ids[lo + m]);
        b.append(&mut tail);
        proof {
            lemma_auto_spec_u32_to_from_le_bytes();
            assert forall|j: int| 4 * m <= j < 4 * m + 4 implies b@[j] == target[j] by {
                lemma_ptr_index(j, m as int);
                assert(ids@.subrange(lo as int, hi as int)[m as int] == ids@[lo + m]);
            }
        }
        m += 1;
    }
    while m < INODE_INDIRECT1_COUNT
        invariant
            lo <= hi <= ids@.len(),
            hi - lo <= m <= INODE_INDIRECT1_COUNT,
            b@.len() == 4 * m,
            target == encode_ptr_block(ids@.subrange(lo as int, hi as int)),
            forall|j: int| 0 <= j < b@.len() ==> b@[j] == target[j],
        decreases INODE_INDIRECT1_COUNT - m,
    {
        let mut z: Vec<u8> = Vec::new();
        z.push(0u8);
        z.push(0u8);
        z.push(0u8);
        z.push(0u8);
        b.append(&mut z);
        proof {
            assert forall|j: int| 4 * m <= j < 4 * m + 4 implies b@[j] == target[j] by {
                lemma_ptr_index(j, m as int);
            }
        }
        m += 1;
    }
    proof {
        assert(b@ =~= target);
    }
    b
}

/// The index blocks needed for `n` data blocks, in the fixed meta order.
pub open spec fn spec_meta_count(n: int) -> int {
    (if n > DIRECT_BOUND {
        1int
    } else {
        0int
    }) + (if n > INDIRECT1_BOUND {
        1 + spec_ind2_children(n)
    } else {
        0int
    })
}

/// The meta-block count is exactly the gap between total and data blocks.
pub proof fn lemma_meta_count(size: u32)
    ensures
        spec_meta_count(spec_data_blocks(size)) == spec_total_blocks(size) - spec_data_blocks(
            size,
        ),
{
}

/// More data blocks never need fewer index blocks.
pub proof fn lemma_meta_count_monotone(a: int, b: int)
    requires
        0 <= a <= b,
    ensures
        spec_meta_count(a) <= spec_meta_count(b),
{
    if b > INDIRECT1_BOUND && a > INDIRECT1_BOUND {
        lemma_div_is_ordered(
            a - INDIRECT1_BOUND + INODE_INDIRECT1_COUNT - 1,
            b - INDIRECT1_BOUND + INODE_INDIRECT1_COUNT - 1,
            INODE_INDIRECT1_COUNT as int,
        );
    }
}

impl DiskInode {
    /// Rewrite the whole pointer structure so that data-block index `k`
    /// resolves to `data_ids[k]`, using exactly the index blocks `meta_ids`
    /// in the fixed meta order. Only the `meta_ids` blocks of the effective
    /// disk are written.
    pub fn store_extent(
        &mut self,
        cache: &mut BlockCacheManager,
        data_ids: &Vec<u32>,
        meta_ids: &Vec<u32>,
    )
        requires
            old(cache).wf(),
            old(self).direct@.len() == INODE_DIRECT_COUNT,
            data_ids@.len() <= INODE_MAX_DATA_BLOCKS,
            meta_ids@.len() == spec_meta_count(data_ids@.len() as int),
            forall|i: int, j: int|
                0 <= i < j < meta_ids@.len() ==> #[trigger] meta_ids@[i] != #[trigger] meta_ids@[j],
            forall|i: int| 0 <= i < meta_ids@.len() ==> #[trigger] meta_ids@[i] < old(cache)@.len(),
        ensures
            final(cache).wf(),
            final(cache)@.len() == old(cache)@.len(),
            final(self).direct@.len() == INODE_DIRECT_COUNT,
            final(self).size == old(self).size,
            final(self).nlink == old(self).nlink,
            final(self).ty == old(self).ty,
            forall|k: int|
                0 <= k < data_ids@.len() ==> #[trigger] spec_extent_slot(
                    final(cache)@,
                    final(self)@,
                    k,
                ) == data_ids@[k],
            forall|b: int|
                0 <= b < old(cache)@.len() && !meta_ids@.contains(b as u32)
                    ==> #[trigger] final(cache)@[b] == old(cache)@[b],
            data_ids@.len() > DIRECT_BOUND ==> final(self).indirect1 == meta_ids@[0],
            data_ids@.len() > INDIRECT1_BOUND ==> final(self).indirect2 == meta_ids@[1]
                && forall|t: int|
                0 <= t < spec_ind2_children(data_ids@.len() as int) ==> #[trigger] spec_ind2_child(
                    final(cache)@,
                    final(self)@,
                    t,
                ) == meta_ids@[2 + t],
    {
        let ghost bs0 = old(cache)@;
        let n = data_ids.len();
        // Direct pointers.
        let mut k: usize = 0;
        while k < INODE_DIRECT_COUNT && k < n
            invariant
                n == data_ids@.len(),
                self.direct@.len() == INODE_DIRECT_COUNT,
                k <= INODE_DIRECT_COUNT,
                self.size == old(self).size,
                self.nlink == old(self).nlink,
                self.ty == old(self).ty,
                self.indirect1 == old(self).indirect1,
                self.indirect2 == old(self).indirect2,
                forall|i: int| 0 <= i < k && i < n ==> #[trigger] self.direct@[i] == data_ids@[i],
            decreases INODE_DIRECT_COUNT - k,
        {
            self.direct.set(k, data_ids[k]);
            k += 1;
        }
        if n <= DIRECT_BOUND {
            return ;
        }
        // Level-1 index block.
        let ghost pre1 = cache@;
        self.indirect1 = meta_ids[0];
        let hi1: usize = if n < INDIRECT1_BOUND {
            n
        } else {
            INDIRECT1_BOUND
        };
        let blk1 = build_ptr_block(data_ids, DIRECT_BOUND, hi1);
        proof {
            cache.lemma_block_len(self.indirect1 as int);
        }
        cache.write_range(self.indirect1 as usize, 0, blk1.as_slice());
        proof {
            assert(cache@[self.indirect1 as int] =~= blk1@);
        }
        if n <= INDIRECT1_BOUND {
            proof {
                assert forall|k2: int| 0 <= k2 < n implies #[trigger] spec_extent_slot(
                    cache@,
                    self@,
                    k2,
                ) == data_ids@[k2] by {
                    if k2 >= DIRECT_BOUND {
                        lemma_ptr_block_u32_at(
                            cache@,
                            self.indirect1 as int,
                            data_ids@.subrange(DIRECT_BOUND as int, hi1 as int),
                            k2 - DIRECT_BOUND,
                        );
                    }
                }
            }
            return ;
        }
        // Level-2 index block and its children.
        self.indirect2 = meta_ids[1];
        let g: usize = (n - INDIRECT1_BOUND + INODE_INDIRECT1_COUNT - 1) / INODE_INDIRECT1_COUNT;
        proof {
            assert(g == spec_ind2_children(n as int));
            assert(meta_ids@.len() == 2 + g);
            assert(g <= INODE_INDIRECT1_COUNT) by (nonlinear_arith)
                requires
                    g == (n - INDIRECT1_BOUND + INODE_INDIRECT1_COUNT - 1) / (
                    INODE_INDIRECT1_COUNT as int),
                    INDIRECT1_BOUND < n <= INODE_MAX_DATA_BLOCKS,
            ;
        }
        let blk2 = build_ptr_block(meta_ids, 2, 2 + g);
        proof {
            cache.lemma_block_len(self.indirect2 as int);
        }
        cache.write_range(self.indirect2 as usize, 0, blk2.as_slice());
        proof {
            assert(cache@[self.indirect2 as int] =~= blk2@);
            assert(cache@[self.indirect1 as int] == blk1@);
        }
        let ghost children = meta_ids@.subrange(2, 2 + g);
        let mut t: usize = 0;
        while t < g
            invariant
                cache.wf(),
                cache@.len() == bs0.len(),
                n == data_ids@.len(),
                INDIRECT1_BOUND < n <= INODE_MAX_DATA_BLOCKS,
                g == spec_ind2_children(n as int),
                g <= INODE_INDIRECT1_COUNT,
                t <= g,
                self.direct@.len() == INODE_DIRECT_COUNT,
                self.size == old(self).size,
                self.nlink == old(self).nlink,
                self.ty == old(self).ty,
                forall|i: int| 0 <= i < n && i < INODE_DIRECT_COUNT ==> #[trigger] self.direct@[i]
                    == data_ids@[i],
                self.indirect1 == meta_ids@[0],
                self.indirect2 == meta_ids@[1],
                meta_ids@.len() == 2 + g,
                hi1 == INDIRECT1_BOUND,
                forall|i: int, j: int|
                    0 <= i < j < meta_ids@.len() ==> #[trigger] meta_ids@[i] != #[trigger] meta_ids@[j],
                forall|i: int| 0 <= i < meta_ids@.len() ==> #[trigger] meta_ids@[i] < cache@.len(),
                children == meta_ids@.subrange(2, 2 + g as int),
                cache@[self.indirect1 as int] == encode_ptr_block(
                    data_ids@.subrange(DIRECT_BOUND as int, INDIRECT1_BOUND as int),
                ),
                cache@[self.indirect2 as int] == encode_ptr_block(children),
                forall|t2: int|
                    0 <= t2 < t ==> #[trigger] cache@[meta_ids@[2 + t2] as int]
                        == encode_ptr_block(data_ids@.subrange(
                        INDIRECT1_BOUND + INODE_INDIRECT1_COUNT * t2,
                        if INDIRECT1_BOUND + INODE_INDIRECT1_COUNT * (t2 + 1) < n {
                            INDIRECT1_BOUND + INODE_INDIRECT1_COUNT * (t2 + 1)
                        } else {
                            n as int
                        },
                    )),
                forall|b: int|
                    0 <= b < bs0.len() && !meta_ids@.contains(b as u32) ==> #[trigger] cache@[b]
                        == bs0[b],
            decreases g - t,
        {
            let lo: usize = INDIRECT1_BOUND + INODE_INDIRECT1_COUNT * t;
            proof {
                assert(lo < n && INODE_INDIRECT1_COUNT * t <= INODE_INDIRECT1_COUNT * (g - 1)) by (
                nonlinear_arith)
                    requires
                        0 <= t < g,
                        g == (n - INDIRECT1_BOUND + INODE_INDIRECT1_COUNT - 1) / (
                        INODE_INDIRECT1_COUNT as int),
                        INDIRECT1_BOUND < n <= INODE_MAX_DATA_BLOCKS,
                        lo == INDIRECT1_BOUND + INODE_INDIRECT1_COUNT * t,
                ;
            }
            let hi: usize = if n < lo + INODE_INDIRECT1_COUNT {
                n
            } else {
                lo + INODE_INDIRECT1_COUNT
            };
            let child = meta_ids[2 + t];
            let blkc = build_ptr_block(data_ids, lo, hi);
            proof {
                cache.lemma_block_len(child as int);
            }
            cache.write_range(child as usize, 0, blkc.as_slice());
            proof {
                assert(cache@[child as int] =~= blkc@);
            }
            t += 1;
        }
        proof {
            let bsf = cache@;
            let vf = self@;
            assert forall|k2: int| 0 <= k2 < n implies #[trigger] spec_extent_slot(bsf, vf, k2)
                == data_ids@[k2] by {
                if k2 < DIRECT_BOUND {
                } else if k2 < INDIRECT1_BOUND {
                    lemma_ptr_block_u32_at(
                        bsf,
                        vf.indirect1 as int,
                        data_ids@.subrange(DIRECT_BOUND as int, INDIRECT1_BOUND as int),
                        k2 - DIRECT_BOUND,
                    );
                } else {
                    let t2 = (k2 - INDIRECT1_BOUND) / (INODE_INDIRECT1_COUNT as int);
                    let r2 = (k2 - INDIRECT1_BOUND) % (INODE_INDIRECT1_COUNT as int);
                    assert(0 <= t2 < g && 0 <= r2 < INODE_INDIRECT1_COUNT && k2 == INDIRECT1_BOUND
                        + INODE_INDIRECT1_COUNT * t2 + r2) by (nonlinear_arith)
                        requires
                            INDIRECT1_BOUND <= k2 < n,
                            t2 == (k2 - INDIRECT1_BOUND) / (INODE_INDIRECT1_COUNT as int),
                            r2 == (k2 - INDIRECT1_BOUND) % (INODE_INDIRECT1_COUNT as int),
                            g == (n - INDIRECT1_BOUND + INODE_INDIRECT1_COUNT - 1) / (
                            INODE_INDIRECT1_COUNT as int),
                            INDIRECT1_BOUND < n <= INODE_MAX_DATA_BLOCKS,
                    ;
                    lemma_ptr_block_u32_at(bsf, vf.indirect2 as int, children, t2);
                    assert(spec_ind2_child(bsf, vf, t2) == children[t2]);
                    let lo2 = INDIRECT1_BOUND + INODE_INDIRECT1_COUNT * t2;
                    let hi2: int = if lo2 + INODE_INDIRECT1_COUNT < n {
                        lo2 + INODE_INDIRECT1_COUNT
                    } else {
                        n as int
                    };
                    assert(cache@[meta_ids@[2 + t2] as int] == encode_ptr_block(
                        data_ids@.subrange(lo2, hi2),
                    ));
                    lemma_ptr_block_u32_at(
                        bsf,
                        meta_ids@[2 + t2] as int,
                        data_ids@.subrange(lo2, hi2),
                        r2,
                    );
                    assert(data_ids@.subrange(lo2, hi2)[r2] == data_ids@[k2]);
                }
            }
            assert forall|t2: int| 0 <= t2 < spec_ind2_children(n as int) implies
                #[trigger] spec_ind2_child(cache@, self@, t2) == meta_ids@[2 + t2] by {
                lemma_ptr_block_u32_at(cache@, self.indirect2 as int, children, t2);
            }
        }
    }
}

/// A block of all zero bytes.
pub open spec fn zero_block() -> Seq<u8> {
    Seq::new(BLOCK_SZ as nat, |j: int| 0u8)
}

/// After the pointer structure of an inode has been rewritten to append
/// fresh, zero-filled blocks, the old contents persist, the new range reads
/// zero, the occupied blocks are the old ones plus the fresh ones, and they
/// stay distinct and in range.
#[verifier::rlimit(100)]
proof fn lemma_grow_post(
    bs0: Seq<Seq<u8>>,
    bsf: Seq<Seq<u8>>,
    v0: InodeView,
    vf: InodeView,
    old_meta_s: Seq<u32>,
    old_data_s: Seq<u32>,
    news: Seq<u32>,
    fresh_meta: int,
    new_size: u32,
)
    requires
        bsf.len() == bs0.len(),
        inode_view_wf(v0),
        inode_view_wf(vf),
        vf.size == new_size,
        v0.size <= new_size,
        spec_data_blocks(new_size) <= INODE_MAX_DATA_BLOCKS,
        old_meta_s == spec_meta_blocks(bs0, v0),
        old_data_s == spec_extent(bs0, v0),
        inode_ptrs_in_range(bs0, v0),
        forall|i: int, j: int|
            0 <= i < j < spec_all_blocks(bs0, v0).len() ==> #[trigger] spec_all_blocks(bs0, v0)[i]
                != #[trigger] spec_all_blocks(bs0, v0)[j],
        spec_tail_zero(bs0, v0),
        forall|i: int| 0 <= i < news.len() ==> #[trigger] news[i] < bs0.len(),
        forall|i: int| 0 <= i < news.len() ==> bs0[#[trigger] news[i] as int] == zero_block(),
        forall|i: int, j: int| 0 <= i < j < news.len() ==> #[trigger] news[i] != #[trigger] news[j],
        forall|i: int|
            0 <= i < news.len() ==> !spec_all_blocks(bs0, v0).contains(#[trigger] news[i]),
        0 <= fresh_meta <= news.len(),
        spec_meta_blocks(bsf, vf) == old_meta_s + news.subrange(0, fresh_meta),
        spec_extent(bsf, vf) == old_data_s + news.subrange(fresh_meta, news.len() as int),
        spec_extent(bsf, vf).len() == spec_data_blocks(new_size),
        forall|b: int|
            0 <= b < bs0.len() && !spec_meta_blocks(bsf, vf).contains(b as u32)
                ==> #[trigger] bsf[b] == bs0[b],
    ensures
        inode_ptrs_in_range(bsf, vf),
        forall|i: int, j: int|
            0 <= i < j < spec_all_blocks(bsf, vf).len() ==> #[trigger] spec_all_blocks(bsf, vf)[i]
                != #[trigger] spec_all_blocks(bsf, vf)[j],
        spec_tail_zero(bsf, vf),
        forall|p: int|
            0 <= p < v0.size ==> #[trigger] spec_content(bsf, vf)[p] == spec_content(bs0, v0)[p],
        forall|p: int| v0.size <= p < new_size ==> #[trigger] spec_content(bsf, vf)[p] == 0u8,
        forall|b: u32|
            #![trigger spec_all_blocks(bsf, vf).contains(b)]
            #![trigger spec_all_blocks(bs0, v0).contains(b)]
            spec_all_blocks(bsf, vf).contains(b) <==> (spec_all_blocks(bs0, v0).contains(b)
                || news.contains(b)),
        forall|blk: int|
            0 <= blk < bs0.len() && !old_meta_s.contains(blk as u32) && !news.contains(blk as u32)
                ==> #[trigger] bsf[blk] == bs0[blk],
{
    let all0 = spec_all_blocks(bs0, v0);
    let allf = spec_all_blocks(bsf, vf);
    let meta_s = spec_meta_blocks(bsf, vf);
    let data_s = spec_extent(bsf, vf);
    let m0 = old_meta_s.len();
    let n0 = old_data_s.len();
    let mf = meta_s.len();
    let n_new = data_s.len();
    assert(n0 == spec_data_blocks(v0.size));
    assert(all0 =~= old_meta_s + old_data_s);
    assert(allf =~= meta_s + data_s);
    // Frame: a block outside the old index blocks and the fresh blocks kept
    // its bytes.
    assert forall|blk: int|
        0 <= blk < bs0.len() && !old_meta_s.contains(blk as u32) && !news.contains(blk as u32)
            implies #[trigger] bsf[blk] == bs0[blk] by {
        if meta_s.contains(blk as u32) {
            let w = choose|w: int| 0 <= w < meta_s.len() && meta_s[w] == blk as u32;
            if w < m0 {
                assert(old_meta_s[w] == blk as u32);
            } else {
                assert(news[w - m0] == blk as u32);
            }
            assert(false);
        }
    }
    // Old data blocks and fresh data blocks kept their bytes.
    assert forall|k: int| 0 <= k < n_new implies bsf[#[trigger] data_s[k] as int]
        == bs0[data_s[k] as int] && data_s[k] < bs0.len() by {
        if k < n0 {
            assert(data_s[k] == old_data_s[k]);
            assert(all0[m0 + k] == old_data_s[k]);
            if old_meta_s.contains(old_data_s[k]) {
                let w = choose|w: int| 0 <= w < m0 && old_meta_s[w] == old_data_s[k];
                assert(all0[w] == all0[m0 + k]);
                assert(false);
            }
            if news.contains(old_data_s[k]) {
                let w = choose|w: int| 0 <= w < news.len() && news[w] == old_data_s[k];
                assert(all0.contains(news[w]));
                assert(false);
            }
            assert(spec_extent_slot(bs0, v0, k) < bs0.len());
        } else {
            assert(data_s[k] == news[fresh_meta + (k - n0)]);
            if old_meta_s.contains(data_s[k]) {
                let w = choose|w: int| 0 <= w < m0 && old_meta_s[w] == data_s[k];
                assert(all0[w] == data_s[k]);
                assert(all0.contains(news[fresh_meta + (k - n0)]));
                assert(false);
            }
            if news.subrange(0, fresh_meta).contains(data_s[k]) {
                let w = choose|w: int|
                    0 <= w < fresh_meta && news.subrange(0, fresh_meta)[w] == data_s[k];
                assert(news[w] == news[fresh_meta + (k - n0)]);
                assert(false);
            }
        }
    }
    // Distinctness.
    assert forall|x: int, y: int| 0 <= x < y < allf.len() implies #[trigger] allf[x]
        != #[trigger] allf[y] by {
        let xv = if x < mf {
            if x < m0 {
                all0[x]
            } else {
                news[x - m0]
            }
        } else {
            if x - mf < n0 {
                all0[m0 + (x - mf)]
            } else {
                news[fresh_meta + (x - mf - n0)]
            }
        };
        let yv = if y < mf {
            if y < m0 {
                all0[y]
            } else {
                news[y - m0]
            }
        } else {
            if y - mf < n0 {
                all0[m0 + (y - mf)]
            } else {
                news[fresh_meta + (y - mf - n0)]
            }
        };
        assert(allf[x] == xv);
        assert(allf[y] == yv);
        assert(xv != yv);
    }
    // Membership.
    assert forall|b: u32|
        allf.contains(b) <==> (all0.contains(b) || news.contains(b)) by {
        if allf.contains(b) {
            let z = choose|z: int| 0 <= z < allf.len() && allf[z] == b;
            if z < mf {
                if z < m0 {
                    assert(all0[z] == b);
                } else {
                    assert(news[z - m0] == b);
                }
            } else {
                if z - mf < n0 {
                    assert(all0[m0 + (z - mf)] == b);
                } else {
                    assert(news[fresh_meta + (z - mf - n0)] == b);
                }
            }
        }
        if all0.contains(b) {
            let z = choose|z: int| 0 <= z < all0.len() && all0[z] == b;
            if z < m0 {
                assert(allf[z] == b);
            } else {
                assert(allf[mf + (z - m0)] == b);
            }
        }
        if news.contains(b) {
            let z = choose|z: int| 0 <= z < news.len() && news[z] == b;
            if z < fresh_meta {
                assert(allf[m0 + z] == b);
            } else {
                assert(allf[mf + n0 + (z - fresh_meta)] == b);
            }
        }
    }
    // Pointer ranges.
    assert(inode_ptrs_in_range(bsf, vf)) by {
        if spec_data_blocks(vf.size) > DIRECT_BOUND {
            assert(meta_s[0] == vf.indirect1);
            assert(vf.indirect1 < bs0.len()) by {
                if 0 < m0 {
                    assert(all0[0] == old_meta_s[0]);
                    assert(old_meta_s[0] == spec_meta_blocks(bs0, v0)[0]);
                    assert(spec_meta_blocks(bs0, v0)[0] == v0.indirect1);
                } else {
                    assert(meta_s[0] == news[0]);
                }
            }
        }
        if spec_data_blocks(vf.size) > INDIRECT1_BOUND {
            assert(meta_s[1] == vf.indirect2);
            assert(vf.indirect2 < bs0.len()) by {
                if 1 < m0 {
                    assert(old_meta_s[1] == spec_meta_blocks(bs0, v0)[1]);
                    assert(spec_meta_blocks(bs0, v0)[1] == v0.indirect2);
                } else {
                    assert(meta_s[1] == news[1 - m0]);
                }
            }
        }
        assert forall|t: int|
            0 <= t < spec_ind2_children(spec_data_blocks(vf.size)) implies (
        #[trigger] spec_ind2_child(bsf, vf, t)) < bsf.len() by {
            assert(meta_s[2 + t] == spec_ind2_child(bsf, vf, t));
            if 2 + t < m0 {
                assert(old_meta_s[2 + t] == spec_meta_blocks(bs0, v0)[2 + t]);
                assert(spec_meta_blocks(bs0, v0)[2 + t] == spec_ind2_child(bs0, v0, t));
            } else {
                assert(meta_s[2 + t] == news[2 + t - m0]);
            }
        }
        assert forall|k: int|
            0 <= k < spec_data_blocks(vf.size) implies (#[trigger] spec_extent_slot(bsf, vf, k))
                < bsf.len() by {
            assert(spec_extent_slot(bsf, vf, k) == data_s[k]);
        }
    }
    // Contents and the zero tail.
    assert forall|p: int| 0 <= p < new_size implies #[trigger] spec_content(bsf, vf)[p] == (if p
        < v0.size {
        spec_content(bs0, v0)[p]
    } else {
        0u8
    }) by {
        let kp = p / (BLOCK_SZ as int);
        assert(0 <= kp < n_new && (p < v0.size ==> kp < n0) && (v0.size <= p && kp < n0 ==> p < n0
            * (BLOCK_SZ as int))) by (nonlinear_arith)
            requires
                kp == p / (BLOCK_SZ as int),
                0 <= p < new_size,
                n_new == (new_size + BLOCK_SZ - 1) / (BLOCK_SZ as int),
                n0 == (v0.size + BLOCK_SZ - 1) / (BLOCK_SZ as int),
                BLOCK_SZ == 512,
        ;
        let slot = spec_extent_slot(bsf, vf, kp);
        assert(slot == data_s[kp]);
        assert(bsf[slot as int] == bs0[slot as int]);
        if kp < n0 {
            assert(data_s[kp] == old_data_s[kp]);
            assert(spec_extent_slot(bs0, v0, kp) == old_data_s[kp]);
            if p < v0.size {
                assert(spec_content(bs0, v0)[p] == bs0[spec_extent_slot(bs0, v0, p / (
                BLOCK_SZ as int)) as int][p % (BLOCK_SZ as int)]);
            } else {
                assert(bs0[spec_extent_slot(bs0, v0, p / (BLOCK_SZ as int)) as int][p % (
                BLOCK_SZ as int)] == 0u8);
            }
        } else {
            assert(data_s[kp] == news[fresh_meta + (kp - n0)]);
            assert(bs0[slot as int] == zero_block());
            assert(bsf[slot as int][p % (BLOCK_SZ as int)] == 0u8);
        }
    }
    assert forall|p: int|
        new_size <= p < spec_data_blocks(vf.size) * (BLOCK_SZ as int) implies bsf[spec_extent_slot(
        bsf,
        vf,
        #[trigger] (p / (BLOCK_SZ as int)),
    ) as int][p % (BLOCK_SZ as int)] == 0u8 by {
        let kp = p / (BLOCK_SZ as int);
        assert(0 <= kp < n_new && v0.size <= p && (kp < n0 ==> p < n0 * (BLOCK_SZ as int))) by (
        nonlinear_arith)
            requires
                kp == p / (BLOCK_SZ as int),
                0 <= new_size <= p,
                v0.size <= new_size,
                p < spec_data_blocks(vf.size) * (BLOCK_SZ as int),
                spec_data_blocks(vf.size) == n_new,
                n0 == (v0.size + BLOCK_SZ - 1) / (BLOCK_SZ as int),
                BLOCK_SZ == 512,
        ;
        let slot = spec_extent_slot(bsf, vf, kp);
        assert(slot == data_s[kp]);
        assert(bsf[slot as int] == bs0[slot as int]);
        if kp < n0 {
            assert(data_s[kp] == old_data_s[kp]);
            assert(spec_extent_slot(bs0, v0, kp) == old_data_s[kp]);
            assert(bs0[spec_extent_slot(bs0, v0, p / (BLOCK_SZ as int)) as int][p % (
            BLOCK_SZ as int)] == 0u8);
        } else {
            assert(data_s[kp] == news[fresh_meta + (kp - n0)]);
            assert(bs0[slot as int] == zero_block());
        }
    }
}

impl DiskInode {
    /// Collect the inode's occupied blocks: the data blocks in file order and
    /// the index blocks in the fixed meta order. Reads only.
    pub fn collect_blocks(&self, cache: &mut BlockCacheManager) -> (r: (Vec<u32>, Vec<u32>))
        requires
            old(cache).wf(),
            self.wf(),
            inode_ptrs_in_range(old(cache)@, self@),
        ensures
            final(cache).wf(),
            final(cache)@ == old(cache)@,
            r.0@ == spec_extent(old(cache)@, self@),
            r.1@ == spec_meta_blocks(old(cache)@, self@),
    {
        let n = Self::data_blocks(self.size) as usize;
        let mut data: Vec<u32> = Vec::new();
        let mut k: usize = 0;
        while k < n
            invariant
                cache.wf(),
                cache@ == old(cache)@,
                self.wf(),
                inode_ptrs_in_range(cache@, self@),
                n == spec_data_blocks(self@.size),
                k <= n,
                data@.len() == k,
                forall|i: int|
                    0 <= i < k ==> #[trigger] data@[i] == spec_extent_slot(cache@, self@, i),
            decreases n - k,
        {
            let b = self.get_block_id(cache, k as u32);
            data.push(b);
            k += 1;
        }
        let mut meta: Vec<u32> = Vec::new();
        if n > DIRECT_BOUND {
            meta.push(self.indirect1);
        }
        if n > INDIRECT1_BOUND {
            meta.push(self.indirect2);
            let g: usize = (n - INDIRECT1_BOUND + INODE_INDIRECT1_COUNT - 1)
                / INODE_INDIRECT1_COUNT;
            proof {
                assert(g == spec_ind2_children(n as int));
                cache.lemma_block_len(self.indirect2 as int);
            }
            let mut t: usize = 0;
            while t < g
                invariant
                    cache.wf(),
                    cache@ == old(cache)@,
                    self.wf(),
                    self@.indirect2 < cache@.len(),
                    n == spec_data_blocks(self@.size),
                    n > INDIRECT1_BOUND,
                    g == spec_ind2_children(n as int),
                    g <= INODE_INDIRECT1_COUNT,
                    t <= g,
                    meta@.len() == 2 + t,
                    meta@[0] == self@.indirect1,
                    meta@[1] == self@.indirect2,
                    forall|t2: int|
                        0 <= t2 < t ==> #[trigger] meta@[2 + t2] == spec_ind2_child(
                            cache@,
                            self@,
                            t2,
                        ),
                decreases g - t,
            {
                proof {
                    assert(4 * t + 4 <= BLOCK_SZ);
                    cache.lemma_block_len(self@.indirect2 as int);
                }
                let w = cache.read_range(self.indirect2 as usize, 4 * t, 4);
                let child = u32_from_le_bytes(w.as_slice());
                meta.push(child);
                t += 1;
            }
        }
        proof {
            assert(data@ =~= spec_extent(cache@, self@));
            let sm = spec_meta_blocks(cache@, self@);
            assert(meta@.len() == sm.len());
            assert forall|x: int| 0 <= x < sm.len() implies meta@[x] == sm[x] by {
                let n_ = spec_data_blocks(self@.size);
                if x == 0 {
                    assert(sm[0] == self@.indirect1);
                } else if x == 1 {
                    assert(sm[1] == self@.indirect2);
                } else {
                    assert(sm[x] == spec_ind2_child(cache@, self@, x - 2));
                    assert(meta@[2 + (x - 2)] == spec_ind2_child(cache@, self@, x - 2));
                }
            }
            assert(meta@ =~= sm);
        }
        (data, meta)
    }

    /// Grow the inode to `new_size`, wiring the freshly allocated blocks
    /// `new_blocks` (zero-filled, fresh and distinct) into the pointer
    /// structure: exactly `blocks_num_needed(new_size)` of them, covering
    /// both the new data blocks and any new index blocks. The bytes
    /// `[0, old size)` of the contents keep their values and the bytes up to
    /// `new_size` read as zero.
    #[verifier::rlimit(100)]
    pub fn increase_size(
        &mut self,
        cache: &mut BlockCacheManager,
        new_size: u32,
        new_blocks: &Vec<u32>,
    )
        requires
            old(cache).wf(),
            old(self).wf(),
            old(self)@.size <= new_size,
            spec_data_blocks(new_size) <= INODE_MAX_DATA_BLOCKS,
            new_blocks@.len() == spec_total_blocks(new_size) - spec_total_blocks(old(self)@.size),
            inode_ptrs_in_range(old(cache)@, old(self)@),
            forall|i: int, j: int|
                0 <= i < j < spec_all_blocks(old(cache)@, old(self)@).len() ==> #[trigger] spec_all_blocks(
                    old(cache)@,
                    old(self)@,
                )[i] != #[trigger] spec_all_blocks(old(cache)@, old(self)@)[j],
            spec_tail_zero(old(cache)@, old(self)@),
            forall|i: int|
                0 <= i < new_blocks@.len() ==> #[trigger] new_blocks@[i] < old(cache)@.len(),
            forall|i: int|
                0 <= i < new_blocks@.len() ==> old(cache)@[#[trigger] new_blocks@[i] as int]
                    == zero_block(),
            forall|i: int, j: int|
                0 <= i < j < new_blocks@.len() ==> #[trigger] new_blocks@[i]
                    != #[trigger] new_blocks@[j],
            forall|i: int|
                0 <= i < new_blocks@.len() ==> !spec_all_blocks(old(cache)@, old(self)@).contains(
                    #[trigger] new_blocks@[i],
                ),
        ensures
            final(cache).wf(),
            final(cache)@.len() == old(cache)@.len(),
            final(self).wf(),
            final(self)@.size == new_size,
            final(self)@.nlink == old(self)@.nlink,
            final(self)@.is_dir == old(self)@.is_dir,
            inode_ptrs_in_range(final(cache)@, final(self)@),
            forall|i: int, j: int|
                0 <= i < j < spec_all_blocks(final(cache)@, final(self)@).len()
                    ==> #[trigger] spec_all_blocks(final(cache)@, final(self)@)[i]
                    != #[trigger] spec_all_blocks(final(cache)@, final(self)@)[j],
            spec_tail_zero(final(cache)@, final(self)@),
            spec_content(final(cache)@, final(self)@).len() == new_size,
            forall|p: int|
                0 <= p < old(self)@.size ==> #[trigger] spec_content(final(cache)@, final(self)@)[p]
                    == spec_content(old(cache)@, old(self)@)[p],
            forall|p: int|
                old(self)@.size <= p < new_size ==> #[trigger] spec_content(
                    final(cache)@,
                    final(self)@,
                )[p] == 0u8,
            forall|b: u32|
                #![trigger spec_all_blocks(final(cache)@, final(self)@).contains(b)]
                #![trigger spec_all_blocks(old(cache)@, old(self)@).contains(b)]
                spec_all_blocks(final(cache)@, final(self)@).contains(b) <==> (spec_all_blocks(
                    old(cache)@,
                    old(self)@,
                ).contains(b) || new_blocks@.contains(b)),
            forall|blk: int|
                0 <= blk < old(cache)@.len() && !spec_meta_blocks(old(cache)@, old(self)@).contains(
                    blk as u32,
                ) && !new_blocks@.contains(blk as u32) ==> #[trigger] final(cache)@[blk] == old(
                    cache,
                )@[blk],
    {
        let ghost bs0 = old(cache)@;
        let ghost v0 = old(self)@;
        let ghost n0 = spec_data_blocks(v0.size);
        let (old_data, old_meta) = self.collect_blocks(cache);
        let n_new: usize = Self::data_blocks(new_size) as usize;
        let n_old: usize = old_data.len();
        let mcount_new: usize = (Self::total_blocks(new_size) - Self::data_blocks(
            new_size,
        )) as usize;
        proof {
            lemma_meta_count(new_size);
            lemma_meta_count(self.size);
            lemma_data_blocks_monotone(self.size, new_size);
            lemma_total_blocks_monotone(self.size, new_size);
        }
        proof {
            assert(old_meta@.len() == spec_meta_count(n0 as int));
            lemma_meta_count_monotone(n0 as int, n_new as int);
            assert(mcount_new == spec_meta_count(n_new as int));
        }
        let fresh_meta: usize = mcount_new - old_meta.len();
        let ghost old_meta_s = old_meta@;
        proof {
            assert(fresh_meta + (n_new - n_old) == new_blocks@.len());
        }
        let mut meta = old_meta;
        proof {
            assert(meta@ =~= old_meta_s + new_blocks@.subrange(0, 0));
        }
        let mut i: usize = 0;
        while i < fresh_meta
            invariant
                i <= fresh_meta,
                fresh_meta <= new_blocks@.len(),
                meta@ == old_meta_s + new_blocks@.subrange(0, i as int),
            decreases fresh_meta - i,
        {
            meta.push(new_blocks[i]);
            proof {
                assert(meta@ =~= old_meta_s + new_blocks@.subrange(0, i + 1));
            }
            i += 1;
        }
        let mut data = old_data;
        let ghost old_data_s = data@;
        proof {
            assert(data@ =~= old_data_s + new_blocks@.subrange(
                fresh_meta as int,
                fresh_meta as int,
            ));
        }
        let mut k: usize = 0;
        while k < n_new - n_old
            invariant
                k <= n_new - n_old,
                n_old <= n_new,
                n_old == old_data_s.len(),
                new_blocks@.len() <= usize::MAX,
                fresh_meta + (n_new - n_old) == new_blocks@.len(),
                data@ == old_data_s + new_blocks@.subrange(
                    fresh_meta as int,
                    fresh_meta + k as int,
                ),
            decreases n_new - n_old - k,
        {
            data.push(new_blocks[fresh_meta + k]);
            proof {
                assert(data@ =~= old_data_s + new_blocks@.subrange(
                    fresh_meta as int,
                    fresh_meta + k + 1,
                ));
            }
            k += 1;
        }
        proof {
            // The prefix property: the old structure's index blocks sit at
            // the same meta positions in the grown structure.
            assert(meta@.len() == mcount_new);
            assert(data@ == old_data_s + new_blocks@.subrange(
                fresh_meta as int,
                new_blocks@.len() as int,
            ));
            assert(data@.len() == n_new);
            let all0 = spec_all_blocks(bs0, v0);
            let m0 = old_meta_s.len();
            assert(all0 =~= old_meta_s + old_data_s);
            // Distinctness and range of the meta list handed on.
            assert forall|x: int, y: int| 0 <= x < y < meta@.len() implies #[trigger] meta@[x]
                != #[trigger] meta@[y] by {
                if y < m0 {
                    assert(all0[x] == meta@[x] && all0[y] == meta@[y]);
                } else if x < m0 {
                    assert(all0[x] == meta@[x]);
                    assert(meta@[y] == new_blocks@[y - m0]);
                    assert(!all0.contains(new_blocks@[y - m0]));
                } else {
                    assert(meta@[x] == new_blocks@[x - m0] && meta@[y] == new_blocks@[y - m0]);
                }
            }
            assert forall|x: int| 0 <= x < meta@.len() implies #[trigger] meta@[x]
                < cache@.len() by {
                if x < m0 {
                    assert(meta@[x] == spec_meta_blocks(bs0, v0)[x]);
                    if x == 0 {
                        assert(spec_meta_blocks(bs0, v0)[0] == v0.indirect1);
                    } else if x == 1 {
                        assert(spec_meta_blocks(bs0, v0)[1] == v0.indirect2);
                    } else {
                        assert(spec_meta_blocks(bs0, v0)[x] == spec_ind2_child(bs0, v0, x - 2));
                    }
                } else {
                    assert(meta@[x] == new_blocks@[x - m0]);
                }
            }
        }
        self.store_extent(cache, &data, &meta);
        let ghost vmid = self@;
        self.size = new_size;
        proof {
            let bsf = cache@;
            let vf = self@;
            // Setting the size leaves every pointer field alone, so slot
            // resolution is unchanged.
            assert forall|k2: int| 0 <= k2 < data@.len() implies #[trigger] spec_extent_slot(
                bsf,
                vf,
                k2,
            ) == data@[k2] by {
                assert(spec_extent_slot(bsf, vmid, k2) == data@[k2]);
                if k2 >= INDIRECT1_BOUND {
                    assert(u32_at(bsf, vf.indirect2 as int, 4 * ((k2 - INDIRECT1_BOUND) / (
                    INODE_INDIRECT1_COUNT as int))) == u32_at(
                        bsf,
                        vmid.indirect2 as int,
                        4 * ((k2 - INDIRECT1_BOUND) / (INODE_INDIRECT1_COUNT as int)),
                    ));
                }
            }
            let smf = spec_meta_blocks(bsf, vf);
            assert(smf.len() == meta@.len());
            assert forall|x: int| 0 <= x < meta@.len() implies smf[x] == meta@[x] by {
                if x == 0 {
                    assert(smf[0] == vf.indirect1);
                } else if x == 1 {
                    assert(smf[1] == vf.indirect2);
                } else {
                    assert(smf[x] == spec_ind2_child(bsf, vf, x - 2));
                    assert(spec_ind2_child(bsf, vmid, x - 2) == meta@[2 + (x - 2)]);
                    assert(spec_ind2_child(bsf, vf, x - 2) == spec_ind2_child(bsf, vmid, x - 2));
                }
            }
            assert(spec_meta_blocks(bsf, vf) =~= meta@);
            assert(spec_extent(bsf, vf) =~= data@);
            lemma_grow_post(
                bs0,
                bsf,
                v0,
                vf,
                old_meta_s,
                old_data_s,
                new_blocks@,
                fresh_meta as int,
                new_size,
            );
        }
    }

    /// Truncate to size zero: hand back every occupied block (index blocks
    /// first, then the data blocks in file order) and clear the pointers.
    /// Nothing is written to the effective disk; the record itself is the
    /// caller's to persist.
    pub fn clear_size(&mut self, cache: &mut BlockCacheManager) -> (freed: Vec<u32>)
        requires
            old(cache).wf(),
            old(self).wf(),
            inode_ptrs_in_range(old(cache)@, old(self)@),
        ensures
            final(cache).wf(),
            final(cache)@ == old(cache)@,
            freed@ == spec_all_blocks(old(cache)@, old(self)@),
            freed@.len() == spec_total_blocks(old(self)@.size),
            final(self).wf(),
            final(self)@.size == 0,
            final(self)@.nlink == old(self)@.nlink,
            final(self)@.is_dir == old(self)@.is_dir,
            spec_all_blocks(final(cache)@, final(self)@).len() == 0,
            inode_ptrs_in_range(final(cache)@, final(self)@),
    {
        let (data, meta) = self.collect_blocks(cache);
        proof {
            lemma_all_blocks_len(old(cache)@, old(self)@);
        }
        let mut freed = meta;
        let mut data = data;
        freed.append(&mut data);
        self.size = 0;
        self.indirect1 = 0;
        self.indirect2 = 0;
        let mut k: usize = 0;
        while k < INODE_DIRECT_COUNT
            invariant
                k <= INODE_DIRECT_COUNT,
                self.direct@.len() == INODE_DIRECT_COUNT,
                self.size == 0,
                self.nlink == old(self).nlink,
                self.ty == old(self).ty,
                self.indirect1 == 0,
                self.indirect2 == 0,
            decreases INODE_DIRECT_COUNT - k,
        {
            self.direct.set(k, 0u32);
            k += 1;
        }
        proof {
            assert(spec_all_blocks(cache@, self@) =~= Seq::<u32>::empty());
        }
        freed
    }
}

} // verus!
