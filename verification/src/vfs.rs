//! The handle layer: a lightweight reference to one inode slot, exposing
//! name resolution, reading, writing, hard links and directory listing.
//!
//! A directory's contents are a packed sequence of fixed-size entries,
//! addressed through the ordinary byte-range read/write path of its inode.
//! Every operation takes the filesystem manager by `&mut`, which plays the
//! part of holding its exclusive lock for the whole operation: two callers
//! cannot interleave a check with an update, so a duplicate name can never
//! be created by a race.
//!
//! Handles are plain values: several may refer to the same slot (as hard
//! links do) and none is privileged.

use vstd::prelude::*;
use vstd::string::StringSliceAdditionalSpecFns;
use vstd::utf8::{decode_utf8, valid_utf8};

use crate::block_cache::splice;
use crate::efs::{lemma_free_data_lower, lemma_free_data_none, lemma_free_data_one_taken, lemma_free_data_same, spec_free_data, EasyFileSystem};
use crate::layout::{
    decode_dirent, encode_inode, inode_ptrs_in_range, inode_view_wf, lemma_inode_round_trip,
    read_inode, spec_all_blocks, spec_content, spec_data_blocks, spec_tail_zero,
    spec_total_blocks, valid_name_bytes, write_inode, DirEntry, DirEntryView, DiskInode,
    DiskInodeType, InodeView, DIRENT_SZ, INODES_PER_BLOCK, INODE_MAX_DATA_BLOCKS, INODE_SZ,
};
use crate::{FsError, BLOCK_SZ};

verus! {

// ---------------------------------------------------------------------------
// The directory model
// ---------------------------------------------------------------------------
/// The entries encoded in a directory's contents: one per full
/// [`DIRENT_SZ`]-byte record, in storage order.
pub open spec fn spec_entries(content: Seq<u8>) -> Seq<DirEntryView> {
    Seq::new(((content.len() as int) / (DIRENT_SZ as int)) as nat, |e: int|
        decode_dirent(content.subrange(DIRENT_SZ * e, DIRENT_SZ * e + DIRENT_SZ)))
}

/// The inode slot the first entry carrying `name` points at, if any.
pub open spec fn spec_find_entry(entries: Seq<DirEntryView>, name: Seq<u8>) -> Option<u32>
    decreases entries.len(),
{
    if entries.len() == 0 {
        None
    } else if entries[0].name == name {
        Some(entries[0].inode_number)
    } else {
        spec_find_entry(entries.subrange(1, entries.len() as int), name)
    }
}

/// The entries that survive unlinking `name`: the original sequence with
/// exactly the first entry carrying the name dropped (later duplicates,
/// which only `link` can create, stay).
pub open spec fn spec_remove_entry(entries: Seq<DirEntryView>, name: Seq<u8>) -> Seq<
    DirEntryView,
>
    decreases entries.len(),
{
    if entries.len() == 0 {
        entries
    } else if entries[0].name == name {
        entries.subrange(1, entries.len() as int)
    } else {
        seq![entries[0]] + spec_remove_entry(entries.subrange(1, entries.len() as int), name)
    }
}

/// Appending an entry binds its name and leaves every other name's
/// resolution alone: the law behind create and link.
pub proof fn lemma_append_find(entries: Seq<DirEntryView>, e: DirEntryView, name: Seq<u8>)
    ensures
        spec_find_entry(entries, name) is Some ==> spec_find_entry(entries.push(e), name)
            == spec_find_entry(entries, name),
        spec_find_entry(entries, name) is None && e.name == name ==> spec_find_entry(
            entries.push(e),
            name,
        ) == Some(e.inode_number),
        spec_find_entry(entries, name) is None && e.name != name ==> spec_find_entry(
            entries.push(e),
            name,
        ) is None,
    decreases entries.len(),
{
    if entries.len() == 0 {
        assert(entries.push(e)[0] == e);
        assert(entries.push(e).subrange(1, 1) =~= Seq::<DirEntryView>::empty());
        assert(spec_find_entry(entries.push(e).subrange(1, 1), name) is None);
        if e.name != name {
            assert(entries.push(e).len() == 1);
            assert(spec_find_entry(entries.push(e), name) == spec_find_entry(
                entries.push(e).subrange(1, 1),
                name,
            ));
        }
    } else {
        let tail = entries.subrange(1, entries.len() as int);
        lemma_append_find(tail, e, name);
        assert(entries.push(e)[0] == entries[0]);
        assert(entries.push(e).subrange(1, entries.len() as int + 1) =~= tail.push(e));
        assert(spec_find_entry(entries.push(e), name) == (if entries[0].name == name {
            Some(entries[0].inode_number)
        } else {
            spec_find_entry(tail.push(e), name)
        }));
        assert(spec_find_entry(entries, name) == (if entries[0].name == name {
            Some(entries[0].inode_number)
        } else {
            spec_find_entry(tail, name)
        }));
    }
}

/// Unlinking removes exactly the first entry carrying the name: every other
/// name resolves as before, the survivors keep their relative order (they
/// are the original sequence with that one entry dropped), and when the
/// name occurred only once it no longer resolves at all.
pub proof fn lemma_remove_find(entries: Seq<DirEntryView>, name: Seq<u8>, other: Seq<u8>)
    requires
        name != other,
    ensures
        spec_find_entry(spec_remove_entry(entries, name), other) == spec_find_entry(
            entries,
            other,
        ),
        (forall|i: int, j: int|
            0 <= i < j < entries.len() ==> !((#[trigger] entries[i]).name == name && (
            #[trigger] entries[j]).name == name)) ==> spec_find_entry(
            spec_remove_entry(entries, name),
            name,
        ) is None,
    decreases entries.len(),
{
    if entries.len() > 0 {
        let tail = entries.subrange(1, entries.len() as int);
        lemma_remove_find(tail, name, other);
        if entries[0].name == name {
            // The survivors are the tail; a unique occurrence means the
            // tail holds no entry named `name`.
            if forall|i: int, j: int|
                0 <= i < j < entries.len() ==> !((#[trigger] entries[i]).name == name && (
                #[trigger] entries[j]).name == name) {
                assert forall|i: int| 0 <= i < tail.len() implies (#[trigger] tail[i]).name
                    != name by {
                    assert(entries[0].name == name && entries[i + 1] == tail[i]);
                }
                lemma_find_first(tail, name, tail.len() as int);
            }
        } else {
            let rest = spec_remove_entry(tail, name);
            let whole = seq![entries[0]] + rest;
            assert(whole[0] == entries[0]);
            assert(whole.subrange(1, whole.len() as int) =~= rest);
            if forall|i: int, j: int|
                0 <= i < j < entries.len() ==> !((#[trigger] entries[i]).name == name && (
                #[trigger] entries[j]).name == name) {
                assert forall|i: int, j: int|
                    0 <= i < j < tail.len() implies !((#[trigger] tail[i]).name == name && (
                    #[trigger] tail[j]).name == name) by {
                    assert(tail[i] == entries[i + 1] && tail[j] == entries[j + 1]);
                }
            }
        }
    }
}

/// Appending one encoded entry to packed directory contents appends exactly
/// its decoding to the entry sequence.
pub proof fn lemma_entries_append(c: Seq<u8>, b: Seq<u8>)
    requires
        (c.len() as int) % (DIRENT_SZ as int) == 0,
        b.len() == DIRENT_SZ,
    ensures
        spec_entries(c + b) == spec_entries(c).push(decode_dirent(b)),
{
    let whole = c + b;
    let n = c.len() as int / (DIRENT_SZ as int);
    assert(whole.len() as int / (DIRENT_SZ as int) == n + 1 && DIRENT_SZ * n == c.len()) by (
    nonlinear_arith)
        requires
            (c.len() as int) % (DIRENT_SZ as int) == 0,
            whole.len() == c.len() + DIRENT_SZ,
            n == c.len() as int / (DIRENT_SZ as int),
            DIRENT_SZ == 32,
    ;
    assert forall|e: int| 0 <= e < n + 1 implies #[trigger] spec_entries(whole)[e]
        == spec_entries(c).push(decode_dirent(b))[e] by {
        assert(DIRENT_SZ * e + DIRENT_SZ <= DIRENT_SZ * (n + 1) && (e < n ==> DIRENT_SZ * e
            + DIRENT_SZ <= DIRENT_SZ * n)) by (nonlinear_arith)
            requires
                0 <= e < n + 1,
                DIRENT_SZ == 32,
        ;
        if e < n {
            assert(whole.subrange(DIRENT_SZ * e, DIRENT_SZ * e + DIRENT_SZ) =~= c.subrange(
                DIRENT_SZ * e,
                DIRENT_SZ * e + DIRENT_SZ,
            ));
        } else {
            assert(whole.subrange(DIRENT_SZ * e, DIRENT_SZ * e + DIRENT_SZ) =~= b);
        }
    }
    assert(spec_entries(whole) =~= spec_entries(c).push(decode_dirent(b)));
}

/// The packed encoding of a sequence of entries, in order.
pub open spec fn spec_encode_entries(s: Seq<DirEntryView>) -> Seq<u8>
    decreases s.len(),
{
    if s.len() == 0 {
        Seq::<u8>::empty()
    } else {
        spec_encode_entries(s.drop_last()) + crate::layout::encode_dirent(s.last())
    }
}

/// Packed entries decode back to themselves, record by record.
pub proof fn lemma_encode_entries_decodes(s: Seq<DirEntryView>)
    requires
        forall|i: int| 0 <= i < s.len() ==> valid_name_bytes((#[trigger] s[i]).name),
    ensures
        spec_encode_entries(s).len() == DIRENT_SZ * s.len(),
        spec_entries(spec_encode_entries(s)) == s,
    decreases s.len(),
{
    if s.len() == 0 {
        assert(spec_entries(spec_encode_entries(s)) =~= s);
    } else {
        let s0 = s.drop_last();
        assert forall|i: int| 0 <= i < s0.len() implies valid_name_bytes(
            (#[trigger] s0[i]).name,
        ) by {
            assert(s0[i] == s[i]);
        }
        lemma_encode_entries_decodes(s0);
        crate::layout::lemma_dirent_round_trip(s.last());
        lemma_entries_append(spec_encode_entries(s0), crate::layout::encode_dirent(s.last()));
        assert(spec_entries(spec_encode_entries(s)) =~= s);
    }
}

/// How dropping the first match interacts with appending one more entry.
pub proof fn lemma_remove_push(s: Seq<DirEntryView>, x: DirEntryView, name: Seq<u8>)
    ensures
        spec_find_entry(s, name) is None && x.name == name ==> spec_remove_entry(
            s.push(x),
            name,
        ) == s,
        (spec_find_entry(s, name) is Some || x.name != name) ==> spec_remove_entry(
            s.push(x),
            name,
        ) == spec_remove_entry(s, name).push(x),
    decreases s.len(),
{
    if s.len() == 0 {
        assert(s.push(x)[0] == x);
        if x.name == name {
            assert(spec_remove_entry(s.push(x), name) =~= s);
        } else {
            assert(s.push(x).subrange(1, 1) =~= Seq::<DirEntryView>::empty());
            assert(spec_remove_entry(s.push(x), name) == seq![x] + spec_remove_entry(
                s.push(x).subrange(1, 1),
                name,
            ));
            assert(spec_remove_entry(s.push(x), name) =~= spec_remove_entry(s, name).push(x));
        }
    } else {
        let tail = s.subrange(1, s.len() as int);
        lemma_remove_push(tail, x, name);
        assert(s.push(x)[0] == s[0]);
        assert(s.push(x).subrange(1, s.len() as int + 1) =~= tail.push(x));
        if s[0].name == name {
            assert(spec_remove_entry(s.push(x), name) =~= s.push(x).subrange(
                1,
                s.len() as int + 1,
            ));
            assert(spec_remove_entry(s, name) == tail);
            assert(spec_remove_entry(s.push(x), name) =~= spec_remove_entry(s, name).push(x));
        } else {
            if spec_find_entry(s, name) is None && x.name == name {
                assert(spec_find_entry(tail, name) is None);
                assert(spec_remove_entry(tail.push(x), name) == tail);
                assert(spec_remove_entry(s.push(x), name) =~= s);
            } else {
                assert(spec_find_entry(tail, name) is Some || x.name != name) by {
                    if spec_find_entry(s, name) is Some && s[0].name != name {
                        assert(spec_find_entry(s, name) == spec_find_entry(tail, name));
                    }
                }
                assert(spec_remove_entry(tail.push(x), name) == spec_remove_entry(
                    tail,
                    name,
                ).push(x));
                assert(spec_remove_entry(s.push(x), name) =~= spec_remove_entry(s, name).push(
                    x,
                ));
            }
        }
    }
}

/// When no entry carries the name, dropping the first match changes
/// nothing.
pub proof fn lemma_remove_absent(s: Seq<DirEntryView>, name: Seq<u8>)
    requires
        spec_find_entry(s, name) is None,
    ensures
        spec_remove_entry(s, name) == s,
    decreases s.len(),
{
    if s.len() > 0 {
        let tail = s.subrange(1, s.len() as int);
        lemma_remove_absent(tail, name);
        assert(spec_remove_entry(s, name) =~= s);
    }
}

/// The survivors of a removal are entries of the original sequence.
pub proof fn lemma_remove_keeps_entries(s: Seq<DirEntryView>, name: Seq<u8>)
    ensures
        forall|i: int|
            0 <= i < spec_remove_entry(s, name).len() ==> s.contains(
                #[trigger] spec_remove_entry(s, name)[i],
            ),
        spec_remove_entry(s, name).len() <= s.len(),
    decreases s.len(),
{
    if s.len() > 0 {
        let tail = s.subrange(1, s.len() as int);
        lemma_remove_keeps_entries(tail, name);
        assert forall|i: int|
            0 <= i < spec_remove_entry(s, name).len() implies s.contains(
            #[trigger] spec_remove_entry(s, name)[i],
        ) by {
            if s[0].name == name {
                assert(spec_remove_entry(s, name)[i] == tail[i]);
                assert(s[i + 1] == tail[i]);
            } else {
                if i == 0 {
                    assert(spec_remove_entry(s, name)[0] == s[0]);
                } else {
                    assert(spec_remove_entry(s, name)[i] == spec_remove_entry(tail, name)[i
                        - 1]);
                    assert(tail.contains(spec_remove_entry(tail, name)[i - 1]));
                    let w = choose|w: int|
                        0 <= w < tail.len() && tail[w] == spec_remove_entry(tail, name)[i - 1];
                    assert(s[w + 1] == tail[w]);
                }
            }
        }
    }
}

/// How many entries of a directory reference inode slot `id`.
pub open spec fn spec_count_refs(entries: Seq<DirEntryView>, id: u32) -> int
    decreases entries.len(),
{
    if entries.len() == 0 {
        0
    } else {
        (if entries[0].inode_number == id {
            1int
        } else {
            0int
        }) + spec_count_refs(entries.subrange(1, entries.len() as int), id)
    }
}

/// The bookkeeping half of the link-count invariant, for appends: binding a
/// name (as `create` and `link` do, per their entries clauses) raises the
/// reference count of exactly the bound slot by one.
pub proof fn lemma_count_refs_push(entries: Seq<DirEntryView>, e: DirEntryView, id: u32)
    ensures
        spec_count_refs(entries.push(e), id) == spec_count_refs(entries, id) + (
        if e.inode_number == id {
            1int
        } else {
            0int
        }),
    decreases entries.len(),
{
    if entries.len() == 0 {
        assert(entries.push(e)[0] == e);
        assert(entries.push(e).subrange(1, 1) =~= Seq::<DirEntryView>::empty());
        assert(spec_count_refs(entries.push(e), id) == (if e.inode_number == id {
            1int
        } else {
            0int
        }) + spec_count_refs(entries.push(e).subrange(1, 1), id));
    } else {
        let tail = entries.subrange(1, entries.len() as int);
        lemma_count_refs_push(tail, e, id);
        assert(entries.push(e)[0] == entries[0]);
        assert(entries.push(e).subrange(1, entries.len() as int + 1) =~= tail.push(e));
        assert(spec_count_refs(entries.push(e), id) == (if entries[0].inode_number == id {
            1int
        } else {
            0int
        }) + spec_count_refs(tail.push(e), id));
    }
}

/// The bookkeeping half for removals: dropping the first entry carrying a
/// name (as `unlink` does) lowers the reference count of exactly the slot
/// that name resolved to by one.
pub proof fn lemma_count_refs_remove(entries: Seq<DirEntryView>, name: Seq<u8>, id: u32)
    ensures
        spec_count_refs(spec_remove_entry(entries, name), id) == spec_count_refs(entries, id)
            - (if spec_find_entry(entries, name) == Some(id) {
            1int
        } else {
            0int
        }),
    decreases entries.len(),
{
    if entries.len() > 0 {
        let tail = entries.subrange(1, entries.len() as int);
        lemma_count_refs_remove(tail, name, id);
        if entries[0].name == name {
        } else {
            let rest = spec_remove_entry(tail, name);
            let whole = seq![entries[0]] + rest;
            assert(whole[0] == entries[0]);
            assert(whole.subrange(1, whole.len() as int) =~= rest);
        }
    }
}

/// Writing a range and reading it back yields the bytes written: the law
/// behind the byte-level round trip.
pub proof fn lemma_splice_read_back(content: Seq<u8>, offset: int, data: Seq<u8>)
    requires
        0 <= offset,
        offset + data.len() <= content.len(),
    ensures
        splice(content, offset, data).subrange(offset, offset + data.len()) == data,
        splice(content, offset, data).len() == content.len(),
{
    assert(splice(content, offset, data).subrange(offset, offset + data.len()) =~= data);
}

// ---------------------------------------------------------------------------
// The handle
// ---------------------------------------------------------------------------
/// A handle to one inode slot. Copies of a handle are interchangeable; the
/// filesystem manager is passed to each operation, which serializes them.
#[derive(Clone, Copy, PartialEq, Eq, Structural, Debug)]
pub struct Inode {
    /// The inode slot this handle refers to.
    pub inode_id: u32,
    /// The block holding the slot's record.
    pub block_id: u32,
    /// The record's byte offset inside that block.
    pub block_offset: usize,
}

impl Inode {
    /// A handle for inode slot `inode_id`, whose record lives at
    /// `(block_id, block_offset)`.
    pub fn new(inode_id: u32, block_id: u32, block_offset: usize) -> (ino: Inode)
        ensures
            ino.inode_id == inode_id,
            ino.block_id == block_id,
            ino.block_offset == block_offset,
    {
        Inode { inode_id, block_id, block_offset }
    }

    /// The handle agrees with the filesystem's geometry about where its
    /// record lives.
    pub open spec fn pos_ok(&self, fs: EasyFileSystem) -> bool {
        &&& 0 <= self.inode_id < fs.inode_bitmap.max_bits
        &&& self.block_id == fs.spec_inode_pos(self.inode_id as int).0
        &&& self.block_offset == fs.spec_inode_pos(self.inode_id as int).1
    }

    /// This handle's decoded inode record.
    pub open spec fn iv(&self, fs: EasyFileSystem) -> InodeView {
        fs.inode_view(self.inode_id as int)
    }

    /// This handle's file contents.
    pub open spec fn contents(&self, fs: EasyFileSystem) -> Seq<u8> {
        spec_content(fs.bs(), self.iv(fs))
    }

    /// The directory entries of this handle, when it is a directory.
    pub open spec fn entries(&self, fs: EasyFileSystem) -> Seq<DirEntryView> {
        spec_entries(self.contents(fs))
    }

    /// Structural health of this handle's inode: the record is encodable,
    /// its size within capacity, every occupied block distinct and lying in
    /// the data area with its bitmap bit set, and the bytes beyond `size`
    /// in its last data block zero.
    pub open spec fn inode_ok(&self, fs: EasyFileSystem) -> bool {
        let v = self.iv(fs);
        let all = spec_all_blocks(fs.bs(), v);
        &&& inode_view_wf(v)
        &&& spec_data_blocks(v.size) <= INODE_MAX_DATA_BLOCKS
        &&& inode_ptrs_in_range(fs.bs(), v)
        &&& forall|i: int, j: int| 0 <= i < j < all.len() ==> all[i] != all[j]
        &&& forall|i: int|
            0 <= i < all.len() ==> fs.data_area_start_block <= #[trigger] all[i]
                < fs.data_area_start_block + fs.data_bitmap.max_bits
        &&& forall|i: int| 0 <= i < all.len() ==> fs.data_block_used(#[trigger] all[i] as int)
        &&& spec_tail_zero(fs.bs(), v)
    }

    /// Read this handle's record from storage.
    fn read_disk_inode(&self, fs: &mut EasyFileSystem) -> (di: DiskInode)
        requires
            old(fs).wf(),
            self.pos_ok(*old(fs)),
        ensures
            final(fs).wf(),
            *final(fs) == (EasyFileSystem { cache: final(fs).cache, ..*old(fs) }),
            final(fs).bs() == old(fs).bs(),
            di.direct@.len() == crate::layout::INODE_DIRECT_COUNT,
            di@ == self.iv(*old(fs)),
    {
        proof {
            fs.lemma_inode_pos_ok(self.inode_id as int);
        }
        read_inode(&mut fs.cache, self.block_id as usize, self.block_offset)
    }

    /// Write this handle's record back to storage: only those record bytes
    /// of the effective disk change.
    fn modify_disk_inode(&self, fs: &mut EasyFileSystem, di: &DiskInode)
        requires
            old(fs).wf(),
            self.pos_ok(*old(fs)),
            di.direct@.len() == crate::layout::INODE_DIRECT_COUNT,
        ensures
            final(fs).wf(),
            *final(fs) == (EasyFileSystem { cache: final(fs).cache, ..*old(fs) }),
            final(fs).bs() == old(fs).bs().update(
                self.block_id as int,
                splice(
                    old(fs).bs()[self.block_id as int],
                    self.block_offset as int,
                    encode_inode(di@),
                ),
            ),
            self.iv(*final(fs)) == di@,
    {
        proof {
            fs.lemma_inode_pos_ok(self.inode_id as int);
        }
        proof {
            assert(self.block_id < old(fs).bs().len());
            old(fs).cache.lemma_block_len(self.block_id as int);
        }
        write_inode(&mut fs.cache, self.block_id as usize, self.block_offset, di);
        proof {
            lemma_inode_round_trip(di@);
            assert(fs.bs()[self.block_id as int].subrange(
                self.block_offset as int,
                self.block_offset + INODE_SZ,
            ) =~= encode_inode(di@));
        }
    }

    /// The link count: how many directory entries point at this inode.
    pub fn nlink(&self, fs: &mut EasyFileSystem) -> (n: u32)
        requires
            old(fs).wf(),
            self.pos_ok(*old(fs)),
        ensures
            final(fs).wf(),
            *final(fs) == (EasyFileSystem { cache: final(fs).cache, ..*old(fs) }),
            final(fs).bs() == old(fs).bs(),
            n == self.iv(*old(fs)).nlink,
    {
        let di = self.read_disk_inode(fs);
        di.nlink
    }

    /// The inode slot this handle refers to.
    pub fn inode_id(&self) -> (id: u64)
        ensures
            id == self.inode_id,
    {
        self.inode_id as u64
    }

    /// Whether the inode describes a directory.
    pub fn is_dir(&self, fs: &mut EasyFileSystem) -> (r: bool)
        requires
            old(fs).wf(),
            self.pos_ok(*old(fs)),
        ensures
            final(fs).wf(),
            *final(fs) == (EasyFileSystem { cache: final(fs).cache, ..*old(fs) }),
            final(fs).bs() == old(fs).bs(),
            r == self.iv(*old(fs)).is_dir,
    {
        let di = self.read_disk_inode(fs);
        di.is_dir()
    }

    /// The handle for the root directory, inode slot 0.
    pub fn root(fs: &EasyFileSystem) -> (ino: Inode)
        requires
            fs.wf(),
        ensures
            ino.pos_ok(*fs),
            ino.inode_id == 0,
    {
        proof {
            fs.lemma_inode_pos_ok(0);
        }
        let block = fs.inode_area_start_block;
        Inode { inode_id: 0, block_id: block, block_offset: 0 }
    }
}

/// When the first `e` entries carry other names, resolution is decided at
/// entry `e`: a match there resolves to it, and no match anywhere means the
/// name is absent.
pub proof fn lemma_find_first(entries: Seq<DirEntryView>, name: Seq<u8>, e: int)
    requires
        0 <= e <= entries.len(),
        forall|i: int| 0 <= i < e ==> (#[trigger] entries[i]).name != name,
    ensures
        e < entries.len() && entries[e].name == name ==> spec_find_entry(entries, name) == Some(
            entries[e].inode_number,
        ),
        e == entries.len() ==> spec_find_entry(entries, name) is None,
    decreases e,
{
    if e == 0 {
        if entries.len() > 0 && entries[0].name == name {
        }
    } else {
        let tail = entries.subrange(1, entries.len() as int);
        lemma_find_first(tail, name, e - 1);
        assert(entries[0].name != name);
        if e < entries.len() && entries[e].name == name {
            assert(tail[e - 1] == entries[e]);
        }
    }
}

/// Byte-for-byte equality of two slices.
fn bytes_eq(a: &[u8], b: &[u8]) -> (r: bool)
    ensures
        r == (a@ == b@),
{
    if a.len() != b.len() {
        proof {
            assert(a@ != b@);
        }
        return false;
    }
    let mut i: usize = 0;
    while i < a.len()
        invariant
            i <= a@.len(),
            a@.len() == b@.len(),
            forall|j: int| 0 <= j < i ==> a@[j] == b@[j],
        decreases a@.len() - i,
    {
        if *vstd::slice::slice_index_get(a, i) != *vstd::slice::slice_index_get(b, i) {
            proof {
                assert(a@[i as int] != b@[i as int]);
            }
            return false;
        }
        i += 1;
    }
    proof {
        assert(a@ =~= b@);
    }
    true
}

/// Relies on `String::from_utf8`: valid UTF-8 bytes decode to exactly the
/// characters vstd's `decode_utf8` gives for them, and decoding cannot fail.
#[verifier::external_body]
fn string_from_utf8(bytes: Vec<u8>) -> (r: String)
    requires
        valid_utf8(bytes@),
    ensures
        r@ == decode_utf8(bytes@),
{
    String::from_utf8(bytes).unwrap_or_default()
}

impl Inode {
    /// The inode can be read through its extent: the record is encodable,
    /// the size within capacity, and every referenced block in range.
    pub open spec fn readable(&self, fs: EasyFileSystem) -> bool {
        &&& inode_view_wf(self.iv(fs))
        &&& spec_data_blocks(self.iv(fs).size) <= INODE_MAX_DATA_BLOCKS
        &&& inode_ptrs_in_range(fs.bs(), self.iv(fs))
    }

    /// The handle is a healthy directory: its record says directory, and
    /// every stored entry carries a storable, UTF-8 name and a valid inode
    /// slot.
    pub open spec fn dir_ok(&self, fs: EasyFileSystem) -> bool {
        &&& self.iv(fs).is_dir
        &&& (self.iv(fs).size as int) % (DIRENT_SZ as int) == 0
        &&& forall|i: int|
            0 <= i < self.entries(fs).len() ==> (#[trigger] self.entries(fs)[i]).inode_number
                < fs.inode_bitmap.max_bits
        &&& forall|i: int|
            0 <= i < self.entries(fs).len() ==> valid_name_bytes(
                (#[trigger] self.entries(fs)[i]).name,
            ) && valid_utf8(self.entries(fs)[i].name)
    }

    /// Copy `min(len, size - offset)` content bytes starting at `offset`;
    /// nothing is copied when `offset >= size`.
    pub fn read_at(&self, fs: &mut EasyFileSystem, offset: usize, len: usize) -> (r: Vec<u8>)
        requires
            old(fs).wf(),
            self.pos_ok(*old(fs)),
            self.readable(*old(fs)),
        ensures
            final(fs).wf(),
            *final(fs) == (EasyFileSystem { cache: final(fs).cache, ..*old(fs) }),
            final(fs).bs() == old(fs).bs(),
            r@ == if offset >= self.iv(*old(fs)).size {
                Seq::<u8>::empty()
            } else {
                self.contents(*old(fs)).subrange(
                    offset as int,
                    if offset + len <= self.iv(*old(fs)).size {
                        offset + len
                    } else {
                        self.iv(*old(fs)).size as int
                    },
                )
            },
    {
        let di = self.read_disk_inode(fs);
        di.read_at(&mut fs.cache, offset, len)
    }

    /// Read the whole directory contents.
    fn read_dir(&self, fs: &mut EasyFileSystem) -> (r: Vec<u8>)
        requires
            old(fs).wf(),
            self.pos_ok(*old(fs)),
            self.readable(*old(fs)),
        ensures
            final(fs).wf(),
            *final(fs) == (EasyFileSystem { cache: final(fs).cache, ..*old(fs) }),
            final(fs).bs() == old(fs).bs(),
            r@ == self.contents(*old(fs)),
    {
        let di = self.read_disk_inode(fs);
        let size = di.size as usize;
        let r = di.read_at(&mut fs.cache, 0, size);
        proof {
            if size > 0 {
                assert(self.contents(*old(fs)).subrange(0, size as int) =~= self.contents(
                    *old(fs),
                ));
            } else {
                assert(self.contents(*old(fs)) =~= Seq::<u8>::empty());
            }
        }
        r
    }

    /// Resolve `name` in this directory: a linear scan in storage order,
    /// first match wins. The returned handle points at the entry's inode
    /// slot; `None` means no entry carries the name.
    pub fn find(&self, fs: &mut EasyFileSystem, name: &str) -> (r: Option<Inode>)
        requires
            old(fs).wf(),
            self.pos_ok(*old(fs)),
            self.readable(*old(fs)),
            self.dir_ok(*old(fs)),
        ensures
            final(fs).wf(),
            *final(fs) == (EasyFileSystem { cache: final(fs).cache, ..*old(fs) }),
            final(fs).bs() == old(fs).bs(),
            match r {
                Some(h) => {
                    &&& spec_find_entry(self.entries(*old(fs)), name.spec_bytes()) == Some(
                        h.inode_id,
                    )
                    &&& h.pos_ok(*old(fs))
                },
                None => spec_find_entry(self.entries(*old(fs)), name.spec_bytes()) is None,
            },
    {
        let content = self.read_dir(fs);
        let count = content.len() / DIRENT_SZ;
        let target = name.as_bytes();
        let ghost entries = self.entries(*old(fs));
        let mut e: usize = 0;
        while e < count
            invariant
                fs.wf(),
                *fs == (EasyFileSystem { cache: fs.cache, ..*old(fs) }),
                fs.bs() == old(fs).bs(),
                self.pos_ok(*old(fs)),
                e <= count,
                content@ == self.contents(*old(fs)),
                count == entries.len(),
                entries == self.entries(*old(fs)),
                count * DIRENT_SZ <= content@.len(),
                target@ == name.spec_bytes(),
                self.dir_ok(*old(fs)),
                forall|i: int| 0 <= i < e ==> (#[trigger] entries[i]).name != name.spec_bytes(),
            decreases count - e,
        {
            proof {
                assert(DIRENT_SZ * e + DIRENT_SZ <= count * DIRENT_SZ) by (nonlinear_arith)
                    requires
                        e < count,
                        DIRENT_SZ == 32,
                ;
            }
            let slice = vstd::slice::slice_subrange(
                content.as_slice(),
                DIRENT_SZ * e,
                DIRENT_SZ * e + DIRENT_SZ,
            );
            let ent = DirEntry::parse(slice);
            proof {
                assert(slice@ =~= content@.subrange(
                    DIRENT_SZ * e as int,
                    DIRENT_SZ * e + DIRENT_SZ,
                ));
                assert(ent@ == entries[e as int]);
            }
            if bytes_eq(ent.name.as_slice(), target) {
                proof {
                    lemma_find_first(entries, name.spec_bytes(), e as int);
                    assert(entries[e as int].inode_number < fs.inode_bitmap.max_bits);
                }
                let (block_id, block_offset) = fs.get_disk_inode_pos(ent.inode_number);
                return Some(Inode::new(ent.inode_number, block_id, block_offset));
            }
            e += 1;
        }
        proof {
            lemma_find_first(entries, name.spec_bytes(), count as int);
        }
        None
    }

    /// List the entry names in storage order.
    pub fn ls(&self, fs: &mut EasyFileSystem) -> (r: Vec<String>)
        requires
            old(fs).wf(),
            self.pos_ok(*old(fs)),
            self.readable(*old(fs)),
            self.dir_ok(*old(fs)),
        ensures
            final(fs).wf(),
            *final(fs) == (EasyFileSystem { cache: final(fs).cache, ..*old(fs) }),
            final(fs).bs() == old(fs).bs(),
            r@.len() == self.entries(*old(fs)).len(),
            forall|i: int|
                0 <= i < r@.len() ==> (#[trigger] r@[i])@ == decode_utf8(
                    self.entries(*old(fs))[i].name,
                ),
    {
        let content = self.read_dir(fs);
        let count = content.len() / DIRENT_SZ;
        let ghost entries = self.entries(*old(fs));
        let mut r: Vec<String> = Vec::new();
        let mut e: usize = 0;
        while e < count
            invariant
                fs.wf(),
                *fs == (EasyFileSystem { cache: fs.cache, ..*old(fs) }),
                fs.bs() == old(fs).bs(),
                self.pos_ok(*old(fs)),
                e <= count,
                content@ == self.contents(*old(fs)),
                count == entries.len(),
                entries == self.entries(*old(fs)),
                count * DIRENT_SZ <= content@.len(),
                self.dir_ok(*old(fs)),
                r@.len() == e,
                forall|i: int|
                    0 <= i < e ==> (#[trigger] r@[i])@ == decode_utf8(entries[i].name),
            decreases count - e,
        {
            proof {
                assert(DIRENT_SZ * e + DIRENT_SZ <= count * DIRENT_SZ) by (nonlinear_arith)
                    requires
                        e < count,
                        DIRENT_SZ == 32,
                ;
            }
            let slice = vstd::slice::slice_subrange(
                content.as_slice(),
                DIRENT_SZ * e,
                DIRENT_SZ * e + DIRENT_SZ,
            );
            let ent = DirEntry::parse(slice);
            proof {
                assert(slice@ =~= content@.subrange(
                    DIRENT_SZ * e as int,
                    DIRENT_SZ * e + DIRENT_SZ,
                ));
                assert(ent@ == entries[e as int]);
            }
            let s = string_from_utf8(ent.name);
            r.push(s);
            e += 1;
        }
        r
    }
}

/// The largest byte size a file can reach: every data block addressable.
pub const MAX_FILE_SIZE: usize = 8467968;

impl Inode {
    /// Blocks of the effective disk that no inode operation on this handle
    /// may change: everything outside the data area, the data bitmap region
    /// and this inode's own record block.
    pub open spec fn frame_except(
        &self,
        fs0: EasyFileSystem,
        fs1: EasyFileSystem,
    ) -> bool {
        &&& forall|blk: int|
            0 <= blk < fs0.bs().len() && blk != self.block_id && !(fs0.data_area_start_block
                <= blk < fs0.bs().len()) && !(fs0.data_bitmap.start_block_id <= blk
                < fs0.data_bitmap.start_block_id + fs0.data_bitmap.blocks) ==> #[trigger] fs1.bs()[blk]
                == fs0.bs()[blk]
        &&& forall|j: int|
            0 <= j < BLOCK_SZ && !(self.block_offset <= j < self.block_offset + INODE_SZ)
                ==> #[trigger] fs1.bs()[self.block_id as int][j] == fs0.bs()[self.block_id as int][j]
    }

    /// Write `buf` at byte `offset`, growing the file first when the range
    /// reaches past the current size; the bytes between the old size and
    /// `offset` read as zero afterwards. Growth allocates exactly the blocks
    /// needed; exhaustion surfaces as an error with every freshly taken
    /// block returned, and the file unchanged.
    #[verifier::rlimit(100)]
    pub fn write_at(&self, fs: &mut EasyFileSystem, offset: usize, buf: &[u8]) -> (r: Result<
        usize,
        FsError,
    >)
        requires
            old(fs).wf(),
            self.pos_ok(*old(fs)),
            self.inode_ok(*old(fs)),
            offset + buf@.len() <= MAX_FILE_SIZE,
        ensures
            final(fs).wf(),
            *final(fs) == (EasyFileSystem { cache: final(fs).cache, ..*old(fs) }),
            final(fs).bs().len() == old(fs).bs().len(),
            self.pos_ok(*final(fs)),
            self.readable(*final(fs)),
            self.inode_ok(*final(fs)),
            self.frame_except(*old(fs), *final(fs)),
            // A set data-bitmap bit is never cleared, and bits outside this
            // file's final block set keep their values: growth consumes
            // exactly the blocks the file ends up owning.
            forall|j: int|
                old(fs).data_area_start_block <= j < old(fs).data_area_start_block + old(fs).data_bitmap.max_bits && old(fs).data_block_used(j) ==> final(fs).data_block_used(j),
            forall|j: int|
                old(fs).data_area_start_block <= j < old(fs).data_area_start_block + old(fs).data_bitmap.max_bits && !spec_all_blocks(final(fs).bs(), self.iv(*final(fs))).contains(
                    j as u32,
                ) ==> final(fs).data_block_used(j) == old(fs).data_block_used(j),
            // A used data block of any other file keeps its bytes.
            forall|blk: int|
                old(fs).data_area_start_block <= blk < old(fs).bs().len() && old(fs).data_block_used(blk) && !spec_all_blocks(old(fs).bs(), self.iv(*old(fs))).contains(
                    blk as u32,
                ) ==> final(fs).bs()[blk] == old(fs).bs()[blk],
            self.iv(*final(fs)).nlink == self.iv(*old(fs)).nlink,
            self.iv(*final(fs)).is_dir == self.iv(*old(fs)).is_dir,
            match r {
                Ok(n) => {
                    &&& n == buf@.len()
                    &&& self.iv(*final(fs)).size == (if offset + buf@.len() > self.iv(
                        *old(fs),
                    ).size {
                        offset + buf@.len()
                    } else {
                        self.iv(*old(fs)).size as int
                    })
                    &&& self.contents(*final(fs)) == splice(
                        self.contents(*old(fs)) + Seq::new(
                            (self.iv(*final(fs)).size - self.iv(*old(fs)).size) as nat,
                            |q: int| 0u8,
                        ),
                        offset as int,
                        buf@,
                    )
                },
                Err(e) => {
                    &&& e == FsError::NoSpace
                    // Failure is owed only to true exhaustion: fewer free
                    // data blocks than the growth needs.
                    &&& spec_free_data(*old(fs), old(fs).data_bitmap.max_bits as int)
                        < spec_total_blocks(
                        if offset + buf@.len() > self.iv(*old(fs)).size {
                            (offset + buf@.len()) as u32
                        } else {
                            self.iv(*old(fs)).size
                        },
                    ) - spec_total_blocks(self.iv(*old(fs)).size)
                    &&& self.iv(*final(fs)) == self.iv(*old(fs))
                    &&& self.contents(*final(fs)) == self.contents(*old(fs))
                    &&& self.inode_ok(*final(fs))
                    &&& forall|j: int|
                        old(fs).data_area_start_block <= j < old(fs).data_area_start_block + old(fs).data_bitmap.max_bits ==> final(fs).data_block_used(j) == old(fs).data_block_used(j)
                },
            },
    {
        let ghost fs0 = *fs;
        let ghost v0 = self.iv(*old(fs));
        let ghost all0 = spec_all_blocks(old(fs).bs(), v0);
        let mut di = self.read_disk_inode(fs);
        let new_size: u32 = if offset + buf.len() > di.size as usize {
            (offset + buf.len()) as u32
        } else {
            di.size
        };
        proof {
            assert(spec_data_blocks(new_size) <= INODE_MAX_DATA_BLOCKS) by (nonlinear_arith)
                requires
                    new_size <= MAX_FILE_SIZE,
                    MAX_FILE_SIZE == 8467968,
                    INODE_MAX_DATA_BLOCKS == 16539,
                    BLOCK_SZ == 512,
                    spec_data_blocks(new_size) == (new_size + BLOCK_SZ - 1) / (BLOCK_SZ as int),
            ;
        }
        let needed = di.blocks_num_needed(new_size);
        let mut news: Vec<u32> = Vec::new();
        let mut t: usize = 0;
        proof {
            lemma_free_data_same(fs0, *fs, fs0.data_bitmap.max_bits as int);
        }
        while t < needed as usize
            invariant
                spec_free_data(*fs, fs0.data_bitmap.max_bits as int) == spec_free_data(
                    fs0,
                    fs0.data_bitmap.max_bits as int,
                ) - t,
                fs.data_bitmap == fs0.data_bitmap,
                fs.data_area_start_block == fs0.data_area_start_block,
                needed == spec_total_blocks(new_size) - spec_total_blocks(v0.size),
                new_size == (if offset + buf@.len() > v0.size {
                    offset + buf@.len()
                } else {
                    v0.size as int
                }),
                fs.wf(),
                fs0 == *old(fs),
                fs0.wf(),
                *fs == (EasyFileSystem { cache: fs.cache, ..fs0 }),
                fs.bs().len() == fs0.bs().len(),
                t == news@.len(),
                t <= needed,
                self.pos_ok(fs0),
                self.inode_ok(fs0),
                v0 == self.iv(fs0),
                all0 == spec_all_blocks(fs0.bs(), v0),
                // Fresh blocks: in the data area, marked used, zero-filled,
                // pairwise distinct, and absent from the inode's old blocks.
                forall|i: int|
                    0 <= i < t ==> fs.data_area_start_block <= #[trigger] news@[i]
                        < fs.data_area_start_block + fs.data_bitmap.max_bits,
                forall|i: int| 0 <= i < t ==> fs.data_block_used(#[trigger] news@[i] as int),
                forall|i: int|
                    0 <= i < t ==> fs.bs()[#[trigger] news@[i] as int]
                        == crate::layout::zero_block(),
                forall|i: int, j: int|
                    0 <= i < j < t ==> #[trigger] news@[i] != #[trigger] news@[j],
                forall|i: int| 0 <= i < t ==> !all0.contains(#[trigger] news@[i]),
                forall|i: int| 0 <= i < t ==> !fs0.data_block_used(#[trigger] news@[i] as int),
                forall|j: int|
                    fs0.data_area_start_block <= j < fs0.data_area_start_block
                        + fs0.data_bitmap.max_bits && !news@.contains(j as u32)
                        ==> fs.data_block_used(j) == fs0.data_block_used(j),
                // Every old bit stays set; every untouched block keeps its
                // bytes.
                forall|i: int|
                    0 <= i < all0.len() ==> fs.data_block_used(#[trigger] all0[i] as int),
                forall|blk: int|
                    0 <= blk < fs0.bs().len() && !news@.contains(blk as u32) && !(
                    fs0.data_bitmap.start_block_id <= blk < fs0.data_bitmap.start_block_id
                        + fs0.data_bitmap.blocks) ==> #[trigger] fs.bs()[blk] == fs0.bs()[blk],
            decreases needed - t,
        {
            let ghost pre = *fs;
            let ghost news_pre = news@;
            match fs.alloc_data() {
                Some(b) => {
                    news.push(b);
                    proof {
                        lemma_free_data_one_taken(
                            pre,
                            *fs,
                            b as int,
                            fs0.data_bitmap.max_bits as int,
                        );
                        assert(news@[t as int] == b);
                        assert forall|i: int|
                            0 <= i < t + 1 implies fs.bs()[#[trigger] news@[i] as int]
                                == crate::layout::zero_block() by {
                            if i < t {
                                assert(news_pre[i] == news@[i]);
                                assert(pre.data_block_used(news@[i] as int));
                                assert(news@[i] != b);
                                assert(fs.bs()[news@[i] as int] == pre.bs()[news@[i] as int]);
                            }
                        }
                        assert forall|i: int|
                            0 <= i < all0.len() implies fs.data_block_used(
                            #[trigger] all0[i] as int,
                        ) by {
                            assert(pre.data_block_used(all0[i] as int));
                            if all0[i] == b {
                                assert(!pre.data_block_used(b as int));
                            }
                        }
                        assert forall|i: int|
                            0 <= i < t + 1 implies !all0.contains(#[trigger] news@[i]) by {
                            if i < t {
                                assert(news_pre[i] == news@[i]);
                            } else {
                                if all0.contains(b) {
                                    let w = choose|w: int| 0 <= w < all0.len() && all0[w] == b;
                                    assert(pre.data_block_used(all0[w] as int));
                                    assert(false);
                                }
                            }
                        }
                        assert forall|i: int|
                            0 <= i < t + 1 implies fs.data_block_used(
                            #[trigger] news@[i] as int,
                        ) by {
                            if i < t {
                                assert(news_pre[i] == news@[i]);
                                assert(pre.data_block_used(news@[i] as int));
                                assert(news@[i] != b);
                            }
                        }
                        assert forall|blk: int|
                            0 <= blk < fs0.bs().len() && !news@.contains(blk as u32) && !(
                            fs0.data_bitmap.start_block_id <= blk < fs0.data_bitmap.start_block_id
                                + fs0.data_bitmap.blocks) implies #[trigger] fs.bs()[blk]
                            == fs0.bs()[blk] by {
                            assert(blk != b);
                            if news_pre.contains(blk as u32) {
                                let w = choose|w: int|
                                    0 <= w < news_pre.len() && news_pre[w] == blk as u32;
                                assert(news@[w] == blk as u32);
                                assert(false);
                            }
                            assert(fs.bs()[blk] == pre.bs()[blk]);
                        }
                        // The fresh block's bit was also clear at entry, and
                        // only the fresh bits have moved.
                        assert forall|j: int|
                            fs0.data_area_start_block <= j < fs0.data_area_start_block
                                + fs0.data_bitmap.max_bits && !news@.contains(j as u32) implies
                            fs.data_block_used(j) == fs0.data_block_used(j) by {
                            assert(j != b);
                            if news_pre.contains(j as u32) {
                                let w = choose|w: int|
                                    0 <= w < news_pre.len() && news_pre[w] == j as u32;
                                assert(news@[w] == j as u32);
                                assert(false);
                            }
                            assert(fs.data_block_used(j) == pre.data_block_used(j));
                        }
                        assert forall|i: int|
                            0 <= i < t + 1 implies !fs0.data_block_used(
                            #[trigger] news@[i] as int,
                        ) by {
                            if i < t {
                                assert(news_pre[i] == news@[i]);
                            } else {
                                assert(!pre.data_block_used(b as int));
                                if news_pre.contains(b) {
                                    let w = choose|w: int|
                                        0 <= w < news_pre.len() && news_pre[w] == b;
                                    assert(pre.data_block_used(news_pre[w] as int));
                                    assert(false);
                                }
                                assert(pre.data_block_used(b as int) == fs0.data_block_used(
                                    b as int,
                                ));
                            }
                        }
                    }
                },
                None => {
                    proof {
                        // Every bit is set, so the free count at entry was
                        // exactly the blocks taken so far: short of the need.
                        assert forall|j: int|
                            fs0.data_area_start_block <= j < fs0.data_area_start_block
                                + fs0.data_bitmap.max_bits implies fs.data_block_used(j) by {
                            assert(pre.data_block_used(j));
                        }
                        lemma_free_data_none(*fs, fs0.data_bitmap.max_bits as int);
                        lemma_free_data_same(pre, *fs, fs0.data_bitmap.max_bits as int);
                        assert(spec_free_data(fs0, fs0.data_bitmap.max_bits as int) == t);
                        assert(t < needed);
                    }
                    // Exhausted: hand every taken block back unchanged.
                    let mut u: usize = 0;
                    while u < news.len()
                        invariant
                            fs.wf(),
                            fs0 == *old(fs),
                            fs0.wf(),
                            *fs == (EasyFileSystem { cache: fs.cache, ..fs0 }),
                            fs.bs().len() == fs0.bs().len(),
                            u <= news@.len(),
                            self.pos_ok(fs0),
                            self.inode_ok(fs0),
                            v0 == self.iv(fs0),
                            all0 == spec_all_blocks(fs0.bs(), v0),
                            forall|i: int|
                                0 <= i < news@.len() ==> fs.data_area_start_block
                                    <= #[trigger] news@[i] < fs.data_area_start_block
                                    + fs.data_bitmap.max_bits,
                            forall|i: int, j: int|
                                0 <= i < j < news@.len() ==> #[trigger] news@[i]
                                    != #[trigger] news@[j],
                            forall|i: int|
                                u <= i < news@.len() ==> fs.data_block_used(
                                    #[trigger] news@[i] as int,
                                ),
                            forall|i: int|
                                0 <= i < u ==> !fs.data_block_used(#[trigger] news@[i] as int),
                            forall|i: int|
                                0 <= i < news@.len() ==> !fs0.data_block_used(
                                    #[trigger] news@[i] as int,
                                ),
                            forall|j: int|
                                fs0.data_area_start_block <= j < fs0.data_area_start_block
                                    + fs0.data_bitmap.max_bits && !news@.contains(j as u32)
                                    ==> fs.data_block_used(j) == fs0.data_block_used(j),
                            forall|i: int|
                                0 <= i < news@.len() ==> !all0.contains(#[trigger] news@[i]),
                            forall|i: int|
                                0 <= i < all0.len() ==> fs.data_block_used(
                                    #[trigger] all0[i] as int,
                                ),
                            forall|blk: int|
                                0 <= blk < fs0.bs().len() && !news@.contains(blk as u32) && !(
                                fs0.data_bitmap.start_block_id <= blk
                                    < fs0.data_bitmap.start_block_id
                                    + fs0.data_bitmap.blocks) ==> #[trigger] fs.bs()[blk]
                                    == fs0.bs()[blk],
                        decreases news@.len() - u,
                    {
                        let ghost preu = *fs;
                        let b = news[u];
                        let res = fs.dealloc_data(b);
                        proof {
                            if res is Err {
                                assert(preu.data_block_used(b as int));
                                assert(false);
                            }
                            assert forall|i: int|
                                0 <= i < all0.len() implies fs.data_block_used(
                                #[trigger] all0[i] as int,
                            ) by {
                                assert(preu.data_block_used(all0[i] as int));
                                assert(all0[i] != b) by {
                                    if all0.contains(news@[u as int]) {
                                        assert(false);
                                    }
                                    assert(all0[i] == spec_all_blocks(fs0.bs(), v0)[i]);
                                    if all0[i] == b {
                                        assert(all0.contains(news@[u as int]));
                                    }
                                }
                            }
                            assert forall|i: int|
                                u + 1 <= i < news@.len() implies fs.data_block_used(
                                #[trigger] news@[i] as int,
                            ) by {
                                assert(preu.data_block_used(news@[i] as int));
                                assert(news@[i] != b);
                            }
                            assert forall|i: int| 0 <= i < u + 1 implies !fs.data_block_used(
                                #[trigger] news@[i] as int,
                            ) by {
                                if i < u {
                                    assert(!preu.data_block_used(news@[i] as int));
                                    assert(news@[i] != b);
                                }
                            }
                            assert forall|j: int|
                                fs0.data_area_start_block <= j < fs0.data_area_start_block
                                    + fs0.data_bitmap.max_bits && !news@.contains(j as u32) implies
                                fs.data_block_used(j) == fs0.data_block_used(j) by {
                                assert(j != b);
                                assert(fs.data_block_used(j) == preu.data_block_used(j));
                            }
                            assert forall|blk: int|
                                0 <= blk < fs0.bs().len() && !news@.contains(blk as u32) && !(
                                fs0.data_bitmap.start_block_id <= blk
                                    < fs0.data_bitmap.start_block_id
                                    + fs0.data_bitmap.blocks) implies #[trigger] fs.bs()[blk]
                                == fs0.bs()[blk] by {
                                assert(fs.bs()[blk] == preu.bs()[blk]);
                            }
                        }
                        u += 1;
                    }
                    proof {
                        // Every bit is back where it started: the fresh ones
                        // were clear then and are clear again.
                        assert forall|j: int|
                            fs0.data_area_start_block <= j < fs0.data_area_start_block
                                + fs0.data_bitmap.max_bits implies fs.data_block_used(j)
                            == fs0.data_block_used(j) by {
                            if news@.contains(j as u32) {
                                let w = choose|w: int|
                                    0 <= w < news@.len() && news@[w] == j as u32;
                                assert(!fs.data_block_used(news@[w] as int));
                                assert(!fs0.data_block_used(news@[w] as int));
                            }
                        }
                        // The record and every old block kept their bytes.
                        self.lemma_untouched(fs0, *fs, news@);
                        assert forall|blk: int|
                            0 <= blk < fs0.bs().len() && blk != self.block_id && !(
                            fs0.data_area_start_block <= blk < fs0.bs().len()) && !(
                            fs0.data_bitmap.start_block_id <= blk
                                < fs0.data_bitmap.start_block_id + fs0.data_bitmap.blocks) implies
                            #[trigger] fs.bs()[blk] == fs0.bs()[blk] by {
                            if news@.contains(blk as u32) {
                                let w = choose|w: int|
                                    0 <= w < news@.len() && news@[w] == blk as u32;
                                assert(fs0.data_area_start_block <= news@[w]);
                                assert(false);
                            }
                        }
                        assert(fs.bs()[self.block_id as int] == fs0.bs()[self.block_id as int]);
                    }
                    return Err(FsError::NoSpace);
                },
            }
            t += 1;
        }
        proof {
            self.lemma_untouched(fs0, *fs, news@);
            assert(di@ == self.iv(*fs));
        }
        let ghost pre_grow = *fs;
        if new_size > di.size {
            proof {
                assert forall|i: int|
                    0 <= i < news@.len() implies !spec_all_blocks(pre_grow.bs(), di@).contains(
                    #[trigger] news@[i],
                ) by {
                    assert(spec_all_blocks(pre_grow.bs(), di@) == all0);
                }
            }
            di.increase_size(&mut fs.cache, new_size, &news);
        } else {
            proof {
                assert(news@.len() == 0);
                assert(spec_all_blocks(fs.bs(), di@) == all0);
            }
        }
        let ghost post_grow = *fs;
        let ghost v1 = di@;
        proof {
            // Every block of the grown inode lies in the data area.
            assert forall|i: int|
                0 <= i < spec_all_blocks(post_grow.bs(), v1).len() implies
                fs0.data_area_start_block <= #[trigger] spec_all_blocks(post_grow.bs(), v1)[i]
                    < fs0.data_area_start_block + fs0.data_bitmap.max_bits by {
                let bb = spec_all_blocks(post_grow.bs(), v1)[i];
                assert(spec_all_blocks(post_grow.bs(), v1).contains(bb));
                if new_size > v0.size {
                    assert(all0.contains(bb) || news@.contains(bb));
                } else {
                    assert(all0.contains(bb));
                }
                if all0.contains(bb) {
                    let w = choose|w: int| 0 <= w < all0.len() && all0[w] == bb;
                } else {
                    let w = choose|w: int| 0 <= w < news@.len() && news@[w] == bb;
                }
            }
        }
        di.write_at(&mut fs.cache, offset, buf);
        let ghost post_write = *fs;
        proof {
            assert(spec_all_blocks(post_write.bs(), v1) =~= spec_all_blocks(
                post_grow.bs(),
                v1,
            ));
        }
        self.modify_disk_inode(fs, &di);
        proof {
            // The record write touches no data-area block, so the grown
            // inode still resolves to the same contents.
            fs0.lemma_inode_pos_ok(self.inode_id as int);
            assert forall|i: int|
                0 <= i < spec_all_blocks(post_write.bs(), v1).len() implies fs.bs()[
            #[trigger] spec_all_blocks(post_write.bs(), v1)[i] as int] == post_write.bs()[spec_all_blocks(
                post_write.bs(),
                v1,
            )[i] as int] by {
                let bb = spec_all_blocks(post_write.bs(), v1)[i];
                assert(spec_all_blocks(post_grow.bs(), v1)[i] == bb);
                assert(fs0.data_area_start_block <= bb);
                assert(bb != self.block_id);
            }
            Self::lemma_view_stable(post_write.bs(), fs.bs(), v1);
        }
        fs.cache.sync_all();
        proof {
            // Frame: everything outside the data area, the data bitmap and
            // this record kept its bytes through all four stages.
            assert forall|blk: int|
                0 <= blk < fs0.bs().len() && blk != self.block_id && !(fs0.data_area_start_block
                    <= blk < fs0.bs().len()) && !(fs0.data_bitmap.start_block_id <= blk
                    < fs0.data_bitmap.start_block_id + fs0.data_bitmap.blocks) implies
                #[trigger] fs.bs()[blk] == fs0.bs()[blk] by {
                if news@.contains(blk as u32) {
                    let w = choose|w: int| 0 <= w < news@.len() && news@[w] == blk as u32;
                    assert(fs0.data_area_start_block <= news@[w]);
                    assert(false);
                }
                assert(pre_grow.bs()[blk] == fs0.bs()[blk]);
                assert(post_grow.bs()[blk] == pre_grow.bs()[blk]) by {
                    if new_size > v0.size {
                        if crate::layout::spec_meta_blocks(pre_grow.bs(), self.iv(
                            pre_grow,
                        )).contains(blk as u32) {
                            let w = choose|w: int|
                                0 <= w < crate::layout::spec_meta_blocks(
                                    pre_grow.bs(),
                                    self.iv(pre_grow),
                                ).len() && crate::layout::spec_meta_blocks(
                                    pre_grow.bs(),
                                    self.iv(pre_grow),
                                )[w] == blk as u32;
                            assert(spec_all_blocks(pre_grow.bs(), self.iv(pre_grow))[w] == blk);
                            assert(all0.contains(blk as u32));
                            let w2 = choose|w2: int| 0 <= w2 < all0.len() && all0[w2] == blk as u32;
                            assert(fs0.data_area_start_block <= all0[w2]);
                            assert(false);
                        }
                    }
                }
                assert(post_write.bs()[blk] == post_grow.bs()[blk]) by {
                    if crate::layout::spec_extent(post_grow.bs(), v1).contains(blk as u32) {
                        let w = choose|w: int|
                            0 <= w < crate::layout::spec_extent(post_grow.bs(), v1).len()
                                && crate::layout::spec_extent(post_grow.bs(), v1)[w] == blk as u32;
                        let ml = crate::layout::spec_meta_blocks(post_grow.bs(), v1).len();
                        assert(spec_all_blocks(post_grow.bs(), v1)[ml + w] == blk);
                        assert(false);
                    }
                }
                assert(fs.bs()[blk] == post_write.bs()[blk]);
            }
            assert forall|j: int|
                0 <= j < BLOCK_SZ && !(self.block_offset <= j < self.block_offset + INODE_SZ)
                    implies #[trigger] fs.bs()[self.block_id as int][j] == fs0.bs()[self.block_id as int][j] by {
                fs0.lemma_inode_pos_ok(self.inode_id as int);
                assert(pre_grow.bs()[self.block_id as int] == fs0.bs()[self.block_id as int]);
                assert(post_grow.bs()[self.block_id as int] == pre_grow.bs()[self.block_id as int])
                    by {
                    if new_size > v0.size {
                        if crate::layout::spec_meta_blocks(pre_grow.bs(), self.iv(
                            pre_grow,
                        )).contains(self.block_id as u32) {
                            let w = choose|w: int|
                                0 <= w < crate::layout::spec_meta_blocks(
                                    pre_grow.bs(),
                                    self.iv(pre_grow),
                                ).len() && crate::layout::spec_meta_blocks(
                                    pre_grow.bs(),
                                    self.iv(pre_grow),
                                )[w] == self.block_id as u32;
                            assert(spec_all_blocks(pre_grow.bs(), self.iv(pre_grow))[w]
                                == self.block_id);
                            assert(all0.contains(self.block_id as u32));
                            let w2 = choose|w2: int|
                                0 <= w2 < all0.len() && all0[w2] == self.block_id as u32;
                            assert(fs0.data_area_start_block <= all0[w2]);
                            assert(false);
                        }
                        if news@.contains(self.block_id as u32) {
                            let w = choose|w: int|
                                0 <= w < news@.len() && news@[w] == self.block_id as u32;
                            assert(fs0.data_area_start_block <= news@[w]);
                            assert(false);
                        }
                    }
                }
                assert(post_write.bs()[self.block_id as int] == post_grow.bs()[self.block_id as int])
                    by {
                    if crate::layout::spec_extent(post_grow.bs(), v1).contains(
                        self.block_id as u32,
                    ) {
                        let w = choose|w: int|
                            0 <= w < crate::layout::spec_extent(post_grow.bs(), v1).len()
                                && crate::layout::spec_extent(post_grow.bs(), v1)[w]
                                == self.block_id as u32;
                        let ml = crate::layout::spec_meta_blocks(post_grow.bs(), v1).len();
                        assert(spec_all_blocks(post_grow.bs(), v1)[ml + w] == self.block_id);
                        assert(false);
                    }
                }
                post_write.cache.lemma_block_len(self.block_id as int);
                assert(fs.bs()[self.block_id as int][j] == post_write.bs()[self.block_id as int][
                j]);
            }
            // Assemble the contents formula: old bytes, then zeros, with the
            // buffer spliced in.
            let padded = self.contents(fs0) + Seq::new((v1.size - v0.size) as nat, |q: int| 0u8);
            assert(spec_content(post_grow.bs(), v1) =~= padded);
            assert(self.contents(*fs) == spec_content(fs.bs(), v1));
            assert(spec_content(fs.bs(), v1) == spec_content(post_write.bs(), v1));
            assert(spec_content(post_write.bs(), v1) == splice(
                spec_content(post_grow.bs(), v1),
                offset as int,
                buf@,
            ));
            // Structural health is re-established: the grown block set is
            // distinct and in the data area (from the growth step), its
            // bytes survive the data and record writes, and every bit the
            // set needs is still marked.
            let allg = spec_all_blocks(post_grow.bs(), v1);
            assert(spec_all_blocks(post_write.bs(), v1) == allg);
            assert(spec_all_blocks(fs.bs(), v1) == spec_all_blocks(post_write.bs(), v1));
            assert(self.iv(*fs) == v1);
            assert forall|i: int|
                0 <= i < spec_all_blocks(fs.bs(), self.iv(*fs)).len() implies fs.data_block_used(
                #[trigger] spec_all_blocks(fs.bs(), self.iv(*fs))[i] as int,
            ) by {
                let bb = spec_all_blocks(fs.bs(), self.iv(*fs))[i];
                assert(allg[i] == bb);
                assert(allg.contains(bb));
                // The bit was set when the growth finished.
                assert(pre_grow.data_block_used(bb as int)) by {
                    if new_size > v0.size {
                        assert(all0.contains(bb) || news@.contains(bb));
                    } else {
                        assert(spec_all_blocks(pre_grow.bs(), v1) == all0);
                        assert(all0.contains(bb));
                    }
                    if all0.contains(bb) {
                        let w = choose|w: int| 0 <= w < all0.len() && all0[w] == bb;
                    } else {
                        let w = choose|w: int| 0 <= w < news@.len() && news@[w] == bb;
                    }
                }
                // And no later step reaches the data bitmap region.
                let lo = fs0.data_area_start_block;
                assert(lo <= bb < lo + fs0.data_bitmap.max_bits) by {
                    if new_size > v0.size {
                        assert(all0.contains(bb) || news@.contains(bb));
                    } else {
                        assert(spec_all_blocks(pre_grow.bs(), v1) == all0);
                        assert(all0.contains(bb));
                    }
                    if all0.contains(bb) {
                        let w = choose|w: int| 0 <= w < all0.len() && all0[w] == bb;
                    } else {
                        let w = choose|w: int| 0 <= w < news@.len() && news@[w] == bb;
                    }
                }
                let bit = bb - lo;
                let bblk = fs0.data_bitmap.start_block_id as int + bit / (
                crate::bitmap::BLOCK_BITS as int);
                assert(fs0.data_bitmap.start_block_id <= bblk && bit / (
                crate::bitmap::BLOCK_BITS as int) < fs0.data_bitmap.blocks) by (nonlinear_arith)
                    requires
                        0 <= bit < fs0.data_bitmap.max_bits,
                        fs0.data_bitmap.max_bits <= fs0.data_bitmap.blocks
                            * crate::bitmap::BLOCK_BITS,
                        bblk == fs0.data_bitmap.start_block_id as int + bit / (
                        crate::bitmap::BLOCK_BITS as int),
                        crate::bitmap::BLOCK_BITS == 4096,
                ;
                assert(bblk < fs0.data_area_start_block);
                assert(post_grow.bs()[bblk] == pre_grow.bs()[bblk]) by {
                    if new_size > v0.size {
                        if crate::layout::spec_meta_blocks(pre_grow.bs(), self.iv(
                            pre_grow,
                        )).contains(bblk as u32) {
                            let w = choose|w: int|
                                0 <= w < crate::layout::spec_meta_blocks(
                                    pre_grow.bs(),
                                    self.iv(pre_grow),
                                ).len() && crate::layout::spec_meta_blocks(
                                    pre_grow.bs(),
                                    self.iv(pre_grow),
                                )[w] == bblk as u32;
                            assert(spec_all_blocks(pre_grow.bs(), self.iv(pre_grow))[w]
                                == bblk);
                            assert(all0.contains(bblk as u32));
                            let w2 = choose|w2: int|
                                0 <= w2 < all0.len() && all0[w2] == bblk as u32;
                            assert(fs0.data_area_start_block <= all0[w2]);
                            assert(false);
                        }
                        if news@.contains(bblk as u32) {
                            let w = choose|w: int|
                                0 <= w < news@.len() && news@[w] == bblk as u32;
                            assert(fs0.data_area_start_block <= news@[w]);
                            assert(false);
                        }
                    }
                }
                assert(post_write.bs()[bblk] == post_grow.bs()[bblk]) by {
                    if crate::layout::spec_extent(post_grow.bs(), v1).contains(bblk as u32) {
                        let w = choose|w: int|
                            0 <= w < crate::layout::spec_extent(post_grow.bs(), v1).len()
                                && crate::layout::spec_extent(post_grow.bs(), v1)[w]
                                == bblk as u32;
                        let ml = crate::layout::spec_meta_blocks(post_grow.bs(), v1).len();
                        assert(spec_all_blocks(post_grow.bs(), v1)[ml + w] == bblk);
                        assert(fs0.data_area_start_block <= allg[ml + w]);
                        assert(false);
                    }
                }
                assert(fs.bs()[bblk] == post_write.bs()[bblk]) by {
                    fs0.lemma_inode_pos_ok(self.inode_id as int);
                    assert(bblk != self.block_id);
                }
            }
            // The whole data-bitmap region survives the growth's writes, so
            // its bits read as at the end of the allocation loop.
            assert forall|bblk: int|
                fs0.data_bitmap.start_block_id <= bblk < fs0.data_bitmap.start_block_id
                    + fs0.data_bitmap.blocks implies fs.bs()[bblk] == pre_grow.bs()[bblk] by {
                assert(bblk < fs0.data_area_start_block);
                assert(post_grow.bs()[bblk] == pre_grow.bs()[bblk]) by {
                    if new_size > v0.size {
                        if crate::layout::spec_meta_blocks(pre_grow.bs(), self.iv(
                            pre_grow,
                        )).contains(bblk as u32) {
                            let w = choose|w: int|
                                0 <= w < crate::layout::spec_meta_blocks(
                                    pre_grow.bs(),
                                    self.iv(pre_grow),
                                ).len() && crate::layout::spec_meta_blocks(
                                    pre_grow.bs(),
                                    self.iv(pre_grow),
                                )[w] == bblk as u32;
                            assert(spec_all_blocks(pre_grow.bs(), self.iv(pre_grow))[w]
                                == bblk);
                            assert(all0.contains(bblk as u32));
                            let w2 = choose|w2: int|
                                0 <= w2 < all0.len() && all0[w2] == bblk as u32;
                            assert(fs0.data_area_start_block <= all0[w2]);
                            assert(false);
                        }
                        if news@.contains(bblk as u32) {
                            let w = choose|w: int|
                                0 <= w < news@.len() && news@[w] == bblk as u32;
                            assert(fs0.data_area_start_block <= news@[w]);
                            assert(false);
                        }
                    }
                }
                assert(post_write.bs()[bblk] == post_grow.bs()[bblk]) by {
                    if crate::layout::spec_extent(post_grow.bs(), v1).contains(bblk as u32) {
                        let w = choose|w: int|
                            0 <= w < crate::layout::spec_extent(post_grow.bs(), v1).len()
                                && crate::layout::spec_extent(post_grow.bs(), v1)[w]
                                == bblk as u32;
                        let ml = crate::layout::spec_meta_blocks(post_grow.bs(), v1).len();
                        assert(spec_all_blocks(post_grow.bs(), v1)[ml + w] == bblk);
                        assert(fs0.data_area_start_block <= spec_all_blocks(post_grow.bs(), v1)[
                        ml + w]);
                        assert(false);
                    }
                }
                assert(fs.bs()[bblk] == post_write.bs()[bblk]) by {
                    fs0.lemma_inode_pos_ok(self.inode_id as int);
                    assert(bblk != self.block_id);
                }
            }
            // Bit frames: set bits survive; untouched bits keep their value.
            assert forall|j: int|
                fs0.data_area_start_block <= j < fs0.data_area_start_block
                    + fs0.data_bitmap.max_bits implies fs.data_block_used(j)
                    == pre_grow.data_block_used(j) by {
                let bblk = fs0.data_bitmap.start_block_id as int + (j
                    - fs0.data_area_start_block) / (crate::bitmap::BLOCK_BITS as int);
                assert(fs0.data_bitmap.start_block_id <= bblk && (j
                    - fs0.data_area_start_block) / (crate::bitmap::BLOCK_BITS as int)
                    < fs0.data_bitmap.blocks) by (nonlinear_arith)
                    requires
                        0 <= j - fs0.data_area_start_block < fs0.data_bitmap.max_bits,
                        fs0.data_bitmap.max_bits <= fs0.data_bitmap.blocks
                            * crate::bitmap::BLOCK_BITS,
                        bblk == fs0.data_bitmap.start_block_id as int + (j
                            - fs0.data_area_start_block) / (crate::bitmap::BLOCK_BITS as int),
                        crate::bitmap::BLOCK_BITS == 4096,
                ;
                assert(fs.bs()[bblk] == pre_grow.bs()[bblk]);
            }
            assert forall|j: int|
                fs0.data_area_start_block <= j < fs0.data_area_start_block
                    + fs0.data_bitmap.max_bits && fs0.data_block_used(j) implies
                fs.data_block_used(j) by {
                if news@.contains(j as u32) {
                } else {
                    assert(pre_grow.data_block_used(j) == fs0.data_block_used(j));
                }
            }
            assert forall|j: int|
                fs0.data_area_start_block <= j < fs0.data_area_start_block
                    + fs0.data_bitmap.max_bits && !spec_all_blocks(fs.bs(), self.iv(*fs)).contains(
                    j as u32,
                ) implies fs.data_block_used(j) == fs0.data_block_used(j) by {
                assert(!news@.contains(j as u32)) by {
                    if news@.contains(j as u32) {
                        let w = choose|w: int| 0 <= w < news@.len() && news@[w] == j as u32;
                        // Every fresh block ends up in the file's block set.
                        if new_size > v0.size {
                            assert(spec_all_blocks(post_grow.bs(), v1).contains(news@[w]));
                        } else {
                            assert(news@.len() == 0);
                        }
                        assert(false);
                    }
                }
                assert(pre_grow.data_block_used(j) == fs0.data_block_used(j));
            }
            // Byte frame: a used block outside this file's old set is
            // untouched by every stage.
            assert forall|blk: int|
                fs0.data_area_start_block <= blk < fs0.bs().len() && fs0.data_block_used(blk)
                    && !all0.contains(blk as u32) implies fs.bs()[blk] == fs0.bs()[blk] by {
                assert(!news@.contains(blk as u32)) by {
                    if news@.contains(blk as u32) {
                        let w = choose|w: int| 0 <= w < news@.len() && news@[w] == blk as u32;
                        assert(!fs0.data_block_used(news@[w] as int));
                        assert(false);
                    }
                }
                assert(pre_grow.bs()[blk] == fs0.bs()[blk]);
                assert(post_grow.bs()[blk] == pre_grow.bs()[blk]) by {
                    if new_size > v0.size {
                        if crate::layout::spec_meta_blocks(pre_grow.bs(), self.iv(
                            pre_grow,
                        )).contains(blk as u32) {
                            let w = choose|w: int|
                                0 <= w < crate::layout::spec_meta_blocks(
                                    pre_grow.bs(),
                                    self.iv(pre_grow),
                                ).len() && crate::layout::spec_meta_blocks(
                                    pre_grow.bs(),
                                    self.iv(pre_grow),
                                )[w] == blk as u32;
                            assert(spec_all_blocks(pre_grow.bs(), self.iv(pre_grow))[w] == blk);
                            assert(all0.contains(blk as u32));
                            assert(false);
                        }
                    }
                }
                assert(post_write.bs()[blk] == post_grow.bs()[blk]) by {
                    if crate::layout::spec_extent(post_grow.bs(), v1).contains(blk as u32) {
                        let w = choose|w: int|
                            0 <= w < crate::layout::spec_extent(post_grow.bs(), v1).len()
                                && crate::layout::spec_extent(post_grow.bs(), v1)[w]
                                == blk as u32;
                        let ml = crate::layout::spec_meta_blocks(post_grow.bs(), v1).len();
                        assert(spec_all_blocks(post_grow.bs(), v1)[ml + w] == blk);
                        assert(spec_all_blocks(post_grow.bs(), v1).contains(blk as u32));
                        assert(all0.contains(blk as u32) || news@.contains(blk as u32));
                        assert(false);
                    }
                }
                assert(fs.bs()[blk] == post_write.bs()[blk]) by {
                    fs0.lemma_inode_pos_ok(self.inode_id as int);
                    assert(blk != self.block_id);
                }
            }
        }
        Ok(buf.len())
    }

    /// When every block an inode view occupies kept its bytes, the view
    /// resolves identically: same extent, same meta blocks, same contents,
    /// same zero tail.
    proof fn lemma_view_stable(bs0: Seq<Seq<u8>>, bs1: Seq<Seq<u8>>, v: InodeView)
        requires
            bs1.len() == bs0.len(),
            inode_view_wf(v),
            spec_data_blocks(v.size) <= INODE_MAX_DATA_BLOCKS,
            inode_ptrs_in_range(bs0, v),
            forall|i: int|
                0 <= i < spec_all_blocks(bs0, v).len() ==> bs1[#[trigger] spec_all_blocks(
                    bs0,
                    v,
                )[i] as int] == bs0[spec_all_blocks(bs0, v)[i] as int],
        ensures
            spec_all_blocks(bs1, v) == spec_all_blocks(bs0, v),
            spec_content(bs1, v) == spec_content(bs0, v),
            inode_ptrs_in_range(bs1, v),
            spec_tail_zero(bs0, v) ==> spec_tail_zero(bs1, v),
            forall|k: int|
                0 <= k < spec_data_blocks(v.size) ==> #[trigger] crate::layout::spec_extent_slot(
                    bs1,
                    v,
                    k,
                ) == crate::layout::spec_extent_slot(bs0, v, k),
    {
        let all0 = spec_all_blocks(bs0, v);
        let n = spec_data_blocks(v.size);
        let meta0 = crate::layout::spec_meta_blocks(bs0, v);
        let ml = meta0.len();
        if n > crate::layout::DIRECT_BOUND {
            assert(all0[0] == v.indirect1);
        }
        if n > crate::layout::INDIRECT1_BOUND {
            assert(all0[1] == v.indirect2);
            assert forall|t: int|
                0 <= t < crate::layout::spec_ind2_children(n) implies bs1[#[trigger] crate::layout::spec_ind2_child(
                bs0,
                v,
                t,
            ) as int] == bs0[crate::layout::spec_ind2_child(bs0, v, t) as int]
                && crate::layout::spec_ind2_child(bs0, v, t) < bs0.len() by {
                assert(meta0[2 + t] == crate::layout::spec_ind2_child(bs0, v, t));
                assert(all0[2 + t] == crate::layout::spec_ind2_child(bs0, v, t));
            }
        }
        crate::layout::lemma_extent_slots_stable(bs0, bs1, v);
        assert(spec_all_blocks(bs1, v) =~= all0) by {
            assert(crate::layout::spec_extent(bs1, v) =~= crate::layout::spec_extent(bs0, v));
            assert(crate::layout::spec_meta_blocks(bs1, v) =~= meta0);
        }
        assert forall|p: int| 0 <= p < v.size implies #[trigger] spec_content(bs1, v)[p]
            == spec_content(bs0, v)[p] by {
            let kp = p / (BLOCK_SZ as int);
            assert(0 <= kp < n) by (nonlinear_arith)
                requires
                    kp == p / (BLOCK_SZ as int),
                    0 <= p < v.size,
                    n == (v.size + BLOCK_SZ - 1) / (BLOCK_SZ as int),
                    BLOCK_SZ == 512,
            ;
            assert(all0[ml + kp] == crate::layout::spec_extent(bs0, v)[kp]);
            assert(crate::layout::spec_extent_slot(bs1, v, kp) == crate::layout::spec_extent_slot(
                bs0,
                v,
                kp,
            ));
            assert(bs1[crate::layout::spec_extent_slot(bs0, v, kp) as int] == bs0[crate::layout::spec_extent_slot(
                bs0,
                v,
                kp,
            ) as int]);
        }
        assert(spec_content(bs1, v) =~= spec_content(bs0, v));
        if spec_tail_zero(bs0, v) {
            assert forall|p: int|
                v.size <= p < n * (BLOCK_SZ as int) implies bs1[crate::layout::spec_extent_slot(
                bs1,
                v,
                #[trigger] (p / (BLOCK_SZ as int)),
            ) as int][p % (BLOCK_SZ as int)] == 0u8 by {
                let kp = p / (BLOCK_SZ as int);
                assert(0 <= kp < n) by (nonlinear_arith)
                    requires
                        kp == p / (BLOCK_SZ as int),
                        0 <= v.size <= p,
                        p < n * (BLOCK_SZ as int),
                        n == (v.size + BLOCK_SZ - 1) / (BLOCK_SZ as int),
                        BLOCK_SZ == 512,
                ;
                assert(all0[ml + kp] == crate::layout::spec_extent(bs0, v)[kp]);
                assert(crate::layout::spec_extent_slot(bs1, v, kp)
                    == crate::layout::spec_extent_slot(bs0, v, kp));
                assert(bs1[crate::layout::spec_extent_slot(bs0, v, kp) as int] == bs0[crate::layout::spec_extent_slot(
                    bs0,
                    v,
                    kp,
                ) as int]);
            }
        }
    }

    /// A record differing only in its link count resolves identically:
    /// contents, occupied blocks and pointer health never read `nlink`.
    proof fn lemma_view_nlink_irrelevant(bs: Seq<Seq<u8>>, v1: InodeView, v2: InodeView)
        requires
            v2.size == v1.size,
            v2.is_dir == v1.is_dir,
            v2.direct == v1.direct,
            v2.indirect1 == v1.indirect1,
            v2.indirect2 == v1.indirect2,
        ensures
            spec_content(bs, v2) == spec_content(bs, v1),
            spec_all_blocks(bs, v2) == spec_all_blocks(bs, v1),
            inode_ptrs_in_range(bs, v2) == inode_ptrs_in_range(bs, v1),
            spec_tail_zero(bs, v2) == spec_tail_zero(bs, v1),
    {
        assert forall|k: int|
            0 <= k < spec_data_blocks(v1.size) implies #[trigger] crate::layout::spec_extent_slot(
            bs,
            v2,
            k,
        ) == crate::layout::spec_extent_slot(bs, v1, k) by {
            if k >= crate::layout::INDIRECT1_BOUND {
                assert(crate::layout::u32_at(bs, v2.indirect2 as int, 4 * ((k
                    - crate::layout::INDIRECT1_BOUND) / (
                crate::layout::INODE_INDIRECT1_COUNT as int))) == crate::layout::u32_at(
                    bs,
                    v1.indirect2 as int,
                    4 * ((k - crate::layout::INDIRECT1_BOUND) / (
                    crate::layout::INODE_INDIRECT1_COUNT as int)),
                ));
            }
        }
        assert forall|t: int|
            0 <= t < crate::layout::spec_ind2_children(spec_data_blocks(v1.size)) implies
            #[trigger] crate::layout::spec_ind2_child(bs, v2, t) == crate::layout::spec_ind2_child(
            bs,
            v1,
            t,
        ) by {}
        assert(spec_content(bs, v2) =~= spec_content(bs, v1));
        assert(crate::layout::spec_meta_blocks(bs, v2) =~= crate::layout::spec_meta_blocks(
            bs,
            v1,
        ));
        assert(crate::layout::spec_extent(bs, v2) =~= crate::layout::spec_extent(bs, v1));
        assert(spec_all_blocks(bs, v2) =~= spec_all_blocks(bs, v1));
        assert(inode_ptrs_in_range(bs, v2) == inode_ptrs_in_range(bs, v1)) by {
            if inode_ptrs_in_range(bs, v1) {
                assert forall|k: int|
                    0 <= k < spec_data_blocks(v2.size) implies (
                #[trigger] crate::layout::spec_extent_slot(bs, v2, k)) < bs.len() by {
                    assert(crate::layout::spec_extent_slot(bs, v1, k) < bs.len());
                }
                assert forall|t: int|
                    0 <= t < crate::layout::spec_ind2_children(spec_data_blocks(v2.size)) implies (
                #[trigger] crate::layout::spec_ind2_child(bs, v2, t)) < bs.len() by {
                    assert(crate::layout::spec_ind2_child(bs, v1, t) < bs.len());
                }
            }
            if inode_ptrs_in_range(bs, v2) {
                assert forall|k: int|
                    0 <= k < spec_data_blocks(v1.size) implies (
                #[trigger] crate::layout::spec_extent_slot(bs, v1, k)) < bs.len() by {
                    assert(crate::layout::spec_extent_slot(bs, v2, k) < bs.len());
                }
                assert forall|t: int|
                    0 <= t < crate::layout::spec_ind2_children(spec_data_blocks(v1.size)) implies (
                #[trigger] crate::layout::spec_ind2_child(bs, v1, t)) < bs.len() by {
                    assert(crate::layout::spec_ind2_child(bs, v2, t) < bs.len());
                }
            }
        }
        assert(spec_tail_zero(bs, v2) == spec_tail_zero(bs, v1)) by {
            if spec_tail_zero(bs, v1) {
                assert forall|p: int|
                    v2.size <= p < spec_data_blocks(v2.size) * (BLOCK_SZ as int) implies bs[crate::layout::spec_extent_slot(
                    bs,
                    v2,
                    #[trigger] (p / (BLOCK_SZ as int)),
                ) as int][p % (BLOCK_SZ as int)] == 0u8 by {
                    assert(0 <= p / (BLOCK_SZ as int) < spec_data_blocks(v1.size)) by (
                    nonlinear_arith)
                        requires
                            0 <= v2.size <= p,
                            p < spec_data_blocks(v2.size) * (BLOCK_SZ as int),
                            spec_data_blocks(v2.size) == spec_data_blocks(v1.size),
                            spec_data_blocks(v1.size) == (v1.size + BLOCK_SZ - 1) / (
                            BLOCK_SZ as int),
                            BLOCK_SZ == 512,
                    ;
                }
            }
            if spec_tail_zero(bs, v2) {
                assert forall|p: int|
                    v1.size <= p < spec_data_blocks(v1.size) * (BLOCK_SZ as int) implies bs[crate::layout::spec_extent_slot(
                    bs,
                    v1,
                    #[trigger] (p / (BLOCK_SZ as int)),
                ) as int][p % (BLOCK_SZ as int)] == 0u8 by {
                    assert(0 <= p / (BLOCK_SZ as int) < spec_data_blocks(v1.size)) by (
                    nonlinear_arith)
                        requires
                            0 <= v1.size <= p,
                            p < spec_data_blocks(v1.size) * (BLOCK_SZ as int),
                            spec_data_blocks(v1.size) == (v1.size + BLOCK_SZ - 1) / (
                            BLOCK_SZ as int),
                            BLOCK_SZ == 512,
                    ;
                }
            }
        }
    }

    /// After allocator traffic that never named this inode's blocks or its
    /// record, the inode reads the same: record, extent, meta blocks and
    /// contents.
    proof fn lemma_untouched(&self, fs0: EasyFileSystem, fs1: EasyFileSystem, news: Seq<u32>)
        requires
            fs0.wf(),
            fs1.wf(),
            self.pos_ok(fs0),
            self.inode_ok(fs0),
            fs1.bs().len() == fs0.bs().len(),
            fs1.data_bitmap == fs0.data_bitmap,
            fs1.data_area_start_block == fs0.data_area_start_block,
            fs1.inode_area_start_block == fs0.inode_area_start_block,
            fs1.inode_bitmap == fs0.inode_bitmap,
            forall|i: int|
                0 <= i < news.len() ==> !spec_all_blocks(fs0.bs(), self.iv(fs0)).contains(
                    #[trigger] news[i],
                ),
            forall|i: int|
                0 <= i < news.len() ==> fs0.data_area_start_block <= #[trigger] news[i],
            forall|i: int|
                0 <= i < spec_all_blocks(fs0.bs(), self.iv(fs0)).len() ==> fs1.data_block_used(
                    #[trigger] spec_all_blocks(fs0.bs(), self.iv(fs0))[i] as int,
                ),
            forall|blk: int|
                0 <= blk < fs0.bs().len() && !news.contains(blk as u32) && !(
                fs0.data_bitmap.start_block_id <= blk < fs0.data_bitmap.start_block_id
                    + fs0.data_bitmap.blocks) ==> #[trigger] fs1.bs()[blk] == fs0.bs()[blk],
        ensures
            self.iv(fs1) == self.iv(fs0),
            self.contents(fs1) == self.contents(fs0),
            self.inode_ok(fs1),
            spec_all_blocks(fs1.bs(), self.iv(fs1)) == spec_all_blocks(fs0.bs(), self.iv(fs0)),
    {
        let v0 = self.iv(fs0);
        let all0 = spec_all_blocks(fs0.bs(), v0);
        fs0.lemma_inode_pos_ok(self.inode_id as int);
        assert(self.block_id < fs0.data_bitmap.start_block_id);
        assert(!news.contains(self.block_id as u32)) by {
            if news.contains(self.block_id as u32) {
                let w = choose|w: int| 0 <= w < news.len() && news[w] == self.block_id;
                assert(fs0.data_area_start_block <= news[w]);
                assert(false);
            }
        }
        assert(fs1.bs()[self.block_id as int] == fs0.bs()[self.block_id as int]);
        assert(self.iv(fs1) == v0);
        assert forall|i: int|
            0 <= i < all0.len() implies fs1.bs()[#[trigger] all0[i] as int] == fs0.bs()[all0[
            i] as int] by {
            assert(fs0.data_area_start_block <= all0[i]);
            if news.contains(all0[i]) {
                let w = choose|w: int| 0 <= w < news.len() && news[w] == all0[i];
                assert(!all0.contains(news[w]));
                assert(false);
            }
        }
        Self::lemma_view_stable(fs0.bs(), fs1.bs(), v0);
    }
}

/// Two different inode slots never overlap: they live in different blocks,
/// or at different 128-byte ranges of the same block.
pub proof fn lemma_distinct_records(fs: EasyFileSystem, id1: int, id2: int)
    requires
        fs.wf(),
        0 <= id1 < fs.inode_bitmap.max_bits,
        0 <= id2 < fs.inode_bitmap.max_bits,
        id1 != id2,
    ensures
        fs.spec_inode_pos(id1).0 != fs.spec_inode_pos(id2).0 || fs.spec_inode_pos(id1).1
            + INODE_SZ <= fs.spec_inode_pos(id2).1 || fs.spec_inode_pos(id2).1 + INODE_SZ
            <= fs.spec_inode_pos(id1).1,
{
    fs.lemma_inode_pos_ok(id1);
    fs.lemma_inode_pos_ok(id2);
    let q1 = id1 / (INODES_PER_BLOCK as int);
    let r1 = id1 % (INODES_PER_BLOCK as int);
    let q2 = id2 / (INODES_PER_BLOCK as int);
    let r2 = id2 % (INODES_PER_BLOCK as int);
    assert((q1 != q2 || r1 != r2) && 0 <= r1 < 4 && 0 <= r2 < 4 && (r1 != r2 ==> r1 * INODE_SZ
        + INODE_SZ <= r2 * INODE_SZ || r2 * INODE_SZ + INODE_SZ <= r1 * INODE_SZ)) by (
    nonlinear_arith)
        requires
            id1 != id2,
            0 <= id1,
            0 <= id2,
            q1 == id1 / (INODES_PER_BLOCK as int),
            r1 == id1 % (INODES_PER_BLOCK as int),
            q2 == id2 / (INODES_PER_BLOCK as int),
            r2 == id2 % (INODES_PER_BLOCK as int),
            INODES_PER_BLOCK == 4,
            INODE_SZ == 128,
    ;
}

impl Inode {
    /// This handle's health and reading are untouched by changes that stay
    /// below the inode area: bitmap traffic never moves an inode.
    proof fn lemma_dir_stable_low(&self, fsA: EasyFileSystem, fsB: EasyFileSystem)
        requires
            fsA.wf(),
            fsB.wf(),
            self.pos_ok(fsA),
            self.inode_ok(fsA),
            fsB.bs().len() == fsA.bs().len(),
            fsB.inode_bitmap == fsA.inode_bitmap,
            fsB.data_bitmap == fsA.data_bitmap,
            fsB.inode_area_start_block == fsA.inode_area_start_block,
            fsB.data_area_start_block == fsA.data_area_start_block,
            forall|blk: int|
                fsA.inode_area_start_block <= blk < fsA.bs().len() ==> #[trigger] fsB.bs()[blk]
                    == fsA.bs()[blk],
        ensures
            self.iv(fsB) == self.iv(fsA),
            self.contents(fsB) == self.contents(fsA),
            self.entries(fsB) == self.entries(fsA),
            spec_all_blocks(fsB.bs(), self.iv(fsB)) == spec_all_blocks(fsA.bs(), self.iv(fsA)),
            self.inode_ok(fsB),
    {
        let v = self.iv(fsA);
        fsA.lemma_inode_pos_ok(self.inode_id as int);
        assert(fsB.bs()[self.block_id as int] == fsA.bs()[self.block_id as int]);
        assert(self.iv(fsB) == v);
        let all = spec_all_blocks(fsA.bs(), v);
        assert forall|i: int| 0 <= i < all.len() implies fsB.bs()[#[trigger] all[i] as int]
            == fsA.bs()[all[i] as int] by {
            assert(fsA.data_area_start_block <= all[i]);
        }
        Self::lemma_view_stable(fsA.bs(), fsB.bs(), v);
        assert forall|i: int|
            0 <= i < spec_all_blocks(fsB.bs(), v).len() implies fsB.data_block_used(
            #[trigger] spec_all_blocks(fsB.bs(), v)[i] as int,
        ) by {
            assert(spec_all_blocks(fsB.bs(), v)[i] == all[i]);
            assert(fsA.data_block_used(all[i] as int));
            let bit = all[i] - fsA.data_area_start_block;
            let bblk = fsA.data_bitmap.start_block_id + bit / (crate::bitmap::BLOCK_BITS as int);
            assert(fsA.data_bitmap.start_block_id <= bblk && bit / (
            crate::bitmap::BLOCK_BITS as int) < fsA.data_bitmap.blocks) by (nonlinear_arith)
                requires
                    0 <= bit < fsA.data_bitmap.max_bits,
                    fsA.data_bitmap.max_bits <= fsA.data_bitmap.blocks * crate::bitmap::BLOCK_BITS,
                    bblk == fsA.data_bitmap.start_block_id + bit / (
                    crate::bitmap::BLOCK_BITS as int),
                    crate::bitmap::BLOCK_BITS == 4096,
            ;
            assert(fsB.bs()[bblk] == fsA.bs()[bblk]);
        }
    }

    /// Truncate to length zero, returning every occupied data and index
    /// block to the allocator.
    pub fn clear(&self, fs: &mut EasyFileSystem)
        requires
            old(fs).wf(),
            self.pos_ok(*old(fs)),
            self.inode_ok(*old(fs)),
        ensures
            final(fs).wf(),
            *final(fs) == (EasyFileSystem { cache: final(fs).cache, ..*old(fs) }),
            final(fs).bs().len() == old(fs).bs().len(),
            self.iv(*final(fs)).size == 0,
            self.iv(*final(fs)).nlink == self.iv(*old(fs)).nlink,
            self.iv(*final(fs)).is_dir == self.iv(*old(fs)).is_dir,
            self.contents(*final(fs)).len() == 0,
            self.inode_ok(*final(fs)),
            // Exactly the previously occupied blocks return to the
            // allocator: their count is the total the size arithmetic gives.
            forall|i: int|
                0 <= i < spec_all_blocks(old(fs).bs(), self.iv(*old(fs))).len()
                    ==> !final(fs).data_block_used(
                    #[trigger] spec_all_blocks(old(fs).bs(), self.iv(*old(fs)))[i] as int,
                ),
            forall|j: int|
                old(fs).data_area_start_block <= j < old(fs).data_area_start_block + old(fs).data_bitmap.max_bits && !spec_all_blocks(old(fs).bs(), self.iv(*old(fs))).contains(
                    j as u32,
                ) ==> final(fs).data_block_used(j) == old(fs).data_block_used(j),
            forall|blk: int|
                0 <= blk < old(fs).bs().len() && blk != self.block_id && !(old(fs).data_bitmap.start_block_id <= blk < old(fs).data_bitmap.start_block_id + old(fs).data_bitmap.blocks) ==> #[trigger] final(fs).bs()[blk] == old(fs).bs()[blk],
            forall|j: int|
                0 <= j < BLOCK_SZ && !(self.block_offset <= j < self.block_offset + INODE_SZ)
                    ==> #[trigger] final(fs).bs()[self.block_id as int][j] == old(fs).bs()[
                self.block_id as int][j],
    {
        let ghost fs0 = *fs;
        let ghost v0 = self.iv(*old(fs));
        let ghost all0 = spec_all_blocks(old(fs).bs(), v0);
        let mut di = self.read_disk_inode(fs);
        let freed = di.clear_size(&mut fs.cache);
        let mut u: usize = 0;
        while u < freed.len()
            invariant
                fs.wf(),
                fs0 == *old(fs),
                fs0.wf(),
                *fs == (EasyFileSystem { cache: fs.cache, ..fs0 }),
                fs.bs().len() == fs0.bs().len(),
                u <= freed@.len(),
                self.pos_ok(fs0),
                self.inode_ok(fs0),
                v0 == self.iv(fs0),
                all0 == spec_all_blocks(fs0.bs(), v0),
                freed@ == all0,
                forall|i: int| u <= i < all0.len() ==> fs.data_block_used(#[trigger] all0[i] as int),
                forall|i: int| 0 <= i < u ==> !fs.data_block_used(#[trigger] all0[i] as int),
                forall|j: int|
                    fs0.data_area_start_block <= j < fs0.data_area_start_block
                        + fs0.data_bitmap.max_bits && !all0.contains(j as u32)
                        ==> fs.data_block_used(j) == fs0.data_block_used(j),
                forall|blk: int|
                    0 <= blk < fs0.bs().len() && !(fs0.data_bitmap.start_block_id <= blk
                        < fs0.data_bitmap.start_block_id + fs0.data_bitmap.blocks)
                        ==> #[trigger] fs.bs()[blk] == fs0.bs()[blk],
            decreases freed@.len() - u,
        {
            let ghost preu = *fs;
            let b = freed[u];
            let res = fs.dealloc_data(b);
            proof {
                if res is Err {
                    assert(preu.data_block_used(b as int));
                    assert(false);
                }
                assert forall|i: int|
                    u + 1 <= i < all0.len() implies fs.data_block_used(
                    #[trigger] all0[i] as int,
                ) by {
                    assert(preu.data_block_used(all0[i] as int));
                    assert(all0[i] != all0[u as int]);
                }
                assert forall|i: int| 0 <= i < u + 1 implies !fs.data_block_used(
                    #[trigger] all0[i] as int,
                ) by {
                    if i < u {
                        assert(!preu.data_block_used(all0[i] as int));
                        assert(all0[i] != all0[u as int]);
                    }
                }
                assert forall|j: int|
                    fs0.data_area_start_block <= j < fs0.data_area_start_block
                        + fs0.data_bitmap.max_bits && !all0.contains(j as u32) implies
                    fs.data_block_used(j) == fs0.data_block_used(j) by {
                    assert(all0[u as int] != j as u32);
                    assert(fs.data_block_used(j) == preu.data_block_used(j));
                }
            }
            u += 1;
        }
        let ghost pre_rec = *fs;
        self.modify_disk_inode(fs, &di);
        fs.cache.sync_all();
        proof {
            assert(spec_all_blocks(fs.bs(), self.iv(*fs)).len() == 0);
            assert(self.contents(*fs).len() == 0);
            fs0.lemma_inode_pos_ok(self.inode_id as int);
            assert forall|blk: int|
                0 <= blk < fs0.bs().len() && blk != self.block_id && !(
                fs0.data_bitmap.start_block_id <= blk < fs0.data_bitmap.start_block_id
                    + fs0.data_bitmap.blocks) implies #[trigger] fs.bs()[blk] == fs0.bs()[blk] by {
                assert(pre_rec.bs()[blk] == fs0.bs()[blk]);
            }
            pre_rec.cache.lemma_block_len(self.block_id as int);
            assert forall|j: int|
                0 <= j < BLOCK_SZ && !(self.block_offset <= j < self.block_offset + INODE_SZ)
                    implies #[trigger] fs.bs()[self.block_id as int][j] == fs0.bs()[
            self.block_id as int][j] by {
                assert(fs.bs()[self.block_id as int][j] == pre_rec.bs()[self.block_id as int][j]);
                assert(pre_rec.bs()[self.block_id as int][j] == fs0.bs()[self.block_id as int][j]);
            }
        }
    }
}

impl Inode {
    /// Create `name` as a fresh, empty regular file in this directory.
    /// Under the manager's exclusive access the existence check and the
    /// update are one step, so of two racing creators one sees the other's
    /// entry: a duplicate name refuses without consuming an inode slot, and
    /// success consumes exactly one previously free slot.
    #[verifier::rlimit(100)]
    pub fn create(&self, fs: &mut EasyFileSystem, name: &str) -> (r: Result<Inode, FsError>)
        requires
            old(fs).wf(),
            self.pos_ok(*old(fs)),
            self.readable(*old(fs)),
            self.dir_ok(*old(fs)),
            self.inode_ok(*old(fs)),
            old(fs).inode_allocated(self.inode_id as int),
            valid_name_bytes(name.spec_bytes()),
            self.iv(*old(fs)).size + DIRENT_SZ <= MAX_FILE_SIZE,
        ensures
            final(fs).wf(),
            *final(fs) == (EasyFileSystem { cache: final(fs).cache, ..*old(fs) }),
            final(fs).bs().len() == old(fs).bs().len(),
            match r {
                Ok(h) => {
                    &&& spec_find_entry(self.entries(*old(fs)), name.spec_bytes()) is None
                    &&& h.pos_ok(*final(fs))
                    &&& h.inode_id != self.inode_id
                    &&& !old(fs).inode_allocated(h.inode_id as int)
                    &&& final(fs).inode_allocated(h.inode_id as int)
                    &&& !h.iv(*final(fs)).is_dir
                    &&& h.iv(*final(fs)).size == 0
                    &&& h.iv(*final(fs)).nlink == 1
                    &&& h.inode_ok(*final(fs))
                    &&& h.readable(*final(fs))
                    &&& self.entries(*final(fs)) == self.entries(*old(fs)).push(
                        DirEntryView { name: name.spec_bytes(), inode_number: h.inode_id },
                    )
                    &&& spec_find_entry(self.entries(*final(fs)), name.spec_bytes()) == Some(
                        h.inode_id,
                    )
                    &&& self.inode_ok(*final(fs))
                    &&& self.readable(*final(fs))
                    &&& self.dir_ok(*final(fs))
                    &&& self.iv(*final(fs)).is_dir == self.iv(*old(fs)).is_dir
                    &&& self.iv(*final(fs)).nlink == self.iv(*old(fs)).nlink
                    &&& final(fs).inode_allocated(self.inode_id as int)
                    // Exactly one inode slot is consumed, and no other
                    // record moves.
                    &&& forall|id: int|
                        0 <= id < old(fs).inode_bitmap.max_bits && id != h.inode_id
                            ==> final(fs).inode_allocated(id) == old(fs).inode_allocated(id)
                    &&& forall|id: int|
                        0 <= id < old(fs).inode_bitmap.max_bits && id != h.inode_id && id
                            != self.inode_id ==> final(fs).inode_view(id) == old(fs).inode_view(
                            id,
                        )
                    // Data-bitmap bits move only into the directory's own
                    // block set, and every other used block keeps its bytes.
                    &&& forall|j: int|
                        old(fs).data_area_start_block <= j < old(fs).data_area_start_block + old(fs).data_bitmap.max_bits && old(fs).data_block_used(j) ==> final(fs).data_block_used(j)
                    &&& forall|j: int|
                        old(fs).data_area_start_block <= j < old(fs).data_area_start_block + old(fs).data_bitmap.max_bits && !spec_all_blocks(
                            final(fs).bs(),
                            self.iv(*final(fs)),
                        ).contains(j as u32) ==> final(fs).data_block_used(j) == old(fs).data_block_used(j)
                    &&& forall|blk: int|
                        old(fs).data_area_start_block <= blk < old(fs).bs().len() && old(fs).data_block_used(blk) && !spec_all_blocks(old(fs).bs(), self.iv(*old(fs))).contains(
                            blk as u32,
                        ) ==> final(fs).bs()[blk] == old(fs).bs()[blk]
                },
                Err(e) => {
                    // A duplicate is refused as such; exhaustion is the only
                    // other failure. Either way nothing is left behind: the
                    // directory's entries, every inode slot mark and every
                    // data-block mark read as before.
                    &&& (e == FsError::AlreadyExists || e == FsError::NoSpace)
                    &&& e == FsError::AlreadyExists <==> spec_find_entry(
                        self.entries(*old(fs)),
                        name.spec_bytes(),
                    ) is Some
                    // Exhaustion failures are owed only to exhaustion: no
                    // free inode slot, or too few free data blocks for the
                    // directory to grow by one entry.
                    &&& e == FsError::NoSpace ==> ((forall|j: int|
                        0 <= j < old(fs).inode_bitmap.max_bits ==> old(fs).inode_allocated(j))
                        || spec_free_data(*old(fs), old(fs).data_bitmap.max_bits as int)
                        < spec_total_blocks((self.iv(*old(fs)).size + DIRENT_SZ) as u32)
                        - spec_total_blocks(self.iv(*old(fs)).size))
                    &&& self.iv(*final(fs)) == self.iv(*old(fs))
                    &&& self.contents(*final(fs)) == self.contents(*old(fs))
                    &&& forall|id: int|
                        0 <= id < final(fs).inode_bitmap.max_bits ==> final(fs).inode_allocated(
                            id,
                        ) == old(fs).inode_allocated(id)
                    &&& forall|j: int|
                        old(fs).data_area_start_block <= j < old(fs).data_area_start_block + old(fs).data_bitmap.max_bits ==> final(fs).data_block_used(j) == old(fs).data_block_used(j)
                    &&& self.inode_ok(*final(fs))
                    &&& self.readable(*final(fs))
                    &&& self.dir_ok(*final(fs))
                },
            },
    {
        let ghost fs0 = *fs;
        if self.find(fs, name).is_some() {
            proof {
                assert(fs.bs() == fs0.bs());
            }
            return Err(FsError::AlreadyExists);
        }
        let ghost fs1 = *fs;
        let id_opt = fs.alloc_inode();
        let new_inode_id: u32 = match id_opt {
            Some(id) => id,
            None => {
                proof {
                    assert(fs.bs() == fs0.bs());
                    assert forall|j: int|
                        0 <= j < fs0.inode_bitmap.max_bits implies fs0.inode_allocated(j) by {
                        assert(fs1.inode_allocated(j));
                    }
                }
                return Err(FsError::NoSpace)
            },
        };
        let ghost fs2 = *fs;
        proof {
            // Allocator traffic below the inode area moves no inode.
            assert forall|blk: int|
                fs1.inode_area_start_block <= blk < fs1.bs().len() implies #[trigger] fs2.bs()[blk]
                    == fs1.bs()[blk] by {}
            self.lemma_dir_stable_low(fs1, fs2);
            assert(self.inode_ok(fs2));
        }
        // Append the entry while the directory is still the last observed
        // state: exclusive access makes check-then-append one step.
        let di = self.read_disk_inode(fs);
        let dirent = DirEntry::new(name.as_bytes_vec(), new_inode_id);
        let bytes = dirent.encode();
        let ghost pre_append = *fs;
        let append = self.write_at(fs, di.size as usize, bytes.as_slice());
        if append.is_err() {
            // Undo the slot so the refused creation leaves nothing behind.
            let ghost pre_undo = *fs;
            let undo = fs.dealloc_inode(new_inode_id);
            proof {
                if undo is Err {
                    assert(pre_undo.inode_allocated(new_inode_id as int)) by {
                        // The slot bit survived the directory growth: the
                        // inode bitmap lies below everything write_at frames
                        // away.
                        fs1.lemma_inode_pos_ok(self.inode_id as int);
                        let ibit = fs1.inode_bitmap.start_block_id as int + (
                        new_inode_id as int) / (crate::bitmap::BLOCK_BITS as int);
                        assert(fs1.inode_bitmap.start_block_id <= ibit
                            < fs1.inode_area_start_block) by (nonlinear_arith)
                            requires
                                0 <= (new_inode_id as int) < fs1.inode_bitmap.max_bits,
                                fs1.inode_bitmap.max_bits <= fs1.inode_bitmap.blocks
                                    * crate::bitmap::BLOCK_BITS,
                                fs1.inode_bitmap.start_block_id == 1,
                                fs1.inode_area_start_block == 1 + fs1.inode_bitmap.blocks,
                                ibit == fs1.inode_bitmap.start_block_id as int + (
                                new_inode_id as int) / (crate::bitmap::BLOCK_BITS as int),
                                crate::bitmap::BLOCK_BITS == 4096,
                        ;
                        assert(pre_undo.bs()[ibit] == pre_append.bs()[ibit]) by {
                            assert(ibit < fs1.data_bitmap.start_block_id);
                            assert(ibit != self.block_id);
                        }
                        assert(pre_append.bs() == fs2.bs());
                    }
                    assert(false);
                }
                // The free-block shortfall write_at reports is a shortfall
                // at entry too: the slot allocation left the data bitmap
                // alone.
                assert(pre_append.bs() == fs2.bs());
                assert forall|j: int|
                    fs0.data_area_start_block <= j < fs0.data_area_start_block
                        + fs0.data_bitmap.max_bits implies pre_append.data_block_used(j)
                        == fs0.data_block_used(j) by {
                    let bblk = fs0.data_bitmap.start_block_id as int + (j
                        - fs0.data_area_start_block) / (crate::bitmap::BLOCK_BITS as int);
                    assert(fs0.data_bitmap.start_block_id <= bblk) by (nonlinear_arith)
                        requires
                            0 <= j - fs0.data_area_start_block,
                            bblk == fs0.data_bitmap.start_block_id as int + (j
                                - fs0.data_area_start_block) / (crate::bitmap::BLOCK_BITS as int),
                            crate::bitmap::BLOCK_BITS == 4096,
                    ;
                    assert(fs2.bs()[bblk] == fs1.bs()[bblk]) by {
                        assert(bblk >= fs0.inode_area_start_block);
                    }
                }
                lemma_free_data_same(fs0, pre_append, fs0.data_bitmap.max_bits as int);
                // The directory came through intact: the allocation steps
                // moved only bitmap bits, and the failed growth restored
                // what it had taken.
                assert(pre_append.bs() == fs2.bs());
                assert forall|blk: int|
                    fs1.inode_area_start_block <= blk < fs1.bs().len() implies #[trigger] fs2.bs()[
                blk] == fs1.bs()[blk] by {}
                self.lemma_dir_stable_low(fs1, fs2);
                assert(self.iv(pre_append) == self.iv(fs0) && self.contents(pre_append)
                    == self.contents(fs0) && self.inode_ok(pre_append));
                assert forall|blk: int|
                    pre_undo.inode_area_start_block <= blk < pre_undo.bs().len() implies
                    #[trigger] fs.bs()[blk] == pre_undo.bs()[blk] by {}
                self.lemma_dir_stable_low(pre_undo, *fs);
                assert(self.iv(*fs) == self.iv(fs0));
                assert(self.contents(*fs) == self.contents(fs0));
                assert(self.entries(*fs) == self.entries(fs0));
                assert(self.dir_ok(*fs)) by {
                    assert forall|i: int|
                        0 <= i < self.entries(*fs).len() implies (#[trigger] self.entries(
                        *fs,
                    )[i]).inode_number < fs.inode_bitmap.max_bits && valid_name_bytes(
                        self.entries(*fs)[i].name,
                    ) && valid_utf8(self.entries(*fs)[i].name) by {
                        assert(self.entries(*fs)[i] == self.entries(fs0)[i]);
                        assert((#[trigger] self.entries(fs0)[i]).inode_number
                            < fs0.inode_bitmap.max_bits);
                        assert(valid_name_bytes(self.entries(fs0)[i].name) && valid_utf8(
                            self.entries(fs0)[i].name,
                        ));
                    }
                }
                // Inode bits: the one taken slot is clear again, the rest
                // kept their bytes end to end.
                assert forall|id: int|
                    0 <= id < fs.inode_bitmap.max_bits implies fs.inode_allocated(id)
                        == fs0.inode_allocated(id) by {
                    let ibit = fs0.inode_bitmap.start_block_id as int + id / (
                    crate::bitmap::BLOCK_BITS as int);
                    assert(fs0.inode_bitmap.start_block_id <= ibit
                        < fs0.inode_area_start_block) by (nonlinear_arith)
                        requires
                            0 <= id < fs0.inode_bitmap.max_bits,
                            fs0.inode_bitmap.max_bits <= fs0.inode_bitmap.blocks
                                * crate::bitmap::BLOCK_BITS,
                            fs0.inode_bitmap.start_block_id == 1,
                            fs0.inode_area_start_block == 1 + fs0.inode_bitmap.blocks,
                            ibit == fs0.inode_bitmap.start_block_id as int + id / (
                            crate::bitmap::BLOCK_BITS as int),
                            crate::bitmap::BLOCK_BITS == 4096,
                    ;
                    fs0.lemma_inode_pos_ok(self.inode_id as int);
                    if id == new_inode_id {
                        assert(!fs.inode_allocated(id) && !fs1.inode_allocated(id));
                    } else {
                        assert(fs.inode_allocated(id) == pre_undo.inode_allocated(id));
                        assert(pre_undo.bs()[ibit] == pre_append.bs()[ibit]) by {
                            assert(ibit < fs0.data_bitmap.start_block_id);
                            assert(ibit != self.block_id);
                        }
                        assert(fs2.inode_allocated(id) == fs1.inode_allocated(id));
                    }
                }
                // Data bits: the failed growth restored them; the slot undo
                // never reached the data bitmap.
                assert forall|j: int|
                    fs0.data_area_start_block <= j < fs0.data_area_start_block
                        + fs0.data_bitmap.max_bits implies fs.data_block_used(j)
                        == fs0.data_block_used(j) by {
                    let bblk = fs0.data_bitmap.start_block_id as int + (j
                        - fs0.data_area_start_block) / (crate::bitmap::BLOCK_BITS as int);
                    assert(fs0.data_bitmap.start_block_id <= bblk && (j
                        - fs0.data_area_start_block) / (crate::bitmap::BLOCK_BITS as int)
                        < fs0.data_bitmap.blocks) by (nonlinear_arith)
                        requires
                            0 <= j - fs0.data_area_start_block < fs0.data_bitmap.max_bits,
                            fs0.data_bitmap.max_bits <= fs0.data_bitmap.blocks
                                * crate::bitmap::BLOCK_BITS,
                            bblk == fs0.data_bitmap.start_block_id as int + (j
                                - fs0.data_area_start_block) / (crate::bitmap::BLOCK_BITS as int),
                            crate::bitmap::BLOCK_BITS == 4096,
                    ;
                    assert(fs.bs()[bblk] == pre_undo.bs()[bblk]) by {
                        assert(bblk >= fs0.inode_area_start_block);
                    }
                    assert(pre_undo.data_block_used(j) == pre_append.data_block_used(j));
                    assert(fs2.bs()[bblk] == fs1.bs()[bblk]) by {
                        assert(bblk >= fs0.inode_area_start_block);
                    }
                }
            }
            return Err(FsError::NoSpace);
        }
        let ghost fs3 = *fs;
        let ghost entry = DirEntryView { name: name.spec_bytes(), inode_number: new_inode_id };
        proof {
            // The append wrote exactly one encoded entry past the old
            // contents, so the entry sequence grew by its decoding.
            assert(pre_append.bs() == fs2.bs());
            assert(self.contents(pre_append) == self.contents(fs0));
            assert(self.iv(pre_append) == self.iv(fs0));
            assert(dirent@ == entry);
            assert(bytes@ == crate::layout::encode_dirent(entry));
            let c0 = self.contents(fs0);
            assert(self.contents(fs3) =~= c0 + crate::layout::encode_dirent(entry)) by {
                assert(self.contents(fs3) == splice(
                    c0 + Seq::new(DIRENT_SZ as nat, |q: int| 0u8),
                    c0.len() as int,
                    bytes@,
                ));
            }
            assert((c0.len() as int) % (DIRENT_SZ as int) == 0);
            lemma_entries_append(c0, crate::layout::encode_dirent(entry));
            crate::layout::lemma_dirent_round_trip(entry);
            assert(self.entries(fs3) == self.entries(fs0).push(entry));
            // The new entry keeps the directory healthy.
            vstd::utf8::encode_utf8_valid_utf8(name@);
            assert(self.dir_ok(fs3)) by {
                assert forall|i: int|
                    0 <= i < self.entries(fs3).len() implies (#[trigger] self.entries(
                    fs3,
                )[i]).inode_number < fs3.inode_bitmap.max_bits && valid_name_bytes(
                    self.entries(fs3)[i].name,
                ) && valid_utf8(self.entries(fs3)[i].name) by {
                    if i < self.entries(fs0).len() {
                        assert(self.entries(fs3)[i] == self.entries(fs0)[i]);
                        assert((#[trigger] self.entries(fs0)[i]).inode_number
                            < fs0.inode_bitmap.max_bits);
                        assert(valid_name_bytes(self.entries(fs0)[i].name) && valid_utf8(
                            self.entries(fs0)[i].name,
                        ));
                    } else {
                        assert(self.entries(fs3)[i] == entry);
                    }
                }
            }
        }
        let (new_block_id, new_block_offset) = fs.get_disk_inode_pos(new_inode_id);
        let h = Inode::new(new_inode_id, new_block_id, new_block_offset);
        let new_di = DiskInode::initialize(DiskInodeType::File);
        let ghost fs4 = *fs;
        h.modify_disk_inode(fs, &new_di);
        proof {
            assert(fs4.bs() == fs3.bs());
            self.lemma_dir_stable_record(fs4, *fs, h, encode_inode(new_di@));
            assert(self.entries(*fs) == self.entries(fs0).push(entry));
            lemma_append_find(self.entries(fs0), entry, name.spec_bytes());
        }
        fs.cache.sync_all();
        proof {
            assert(h.iv(*fs).nlink == 1 && h.iv(*fs).size == 0 && !h.iv(*fs).is_dir);
            // The fresh file occupies no blocks yet, so its health is
            // immediate.
            assert(h.inode_ok(*fs)) by {
                assert(spec_all_blocks(fs.bs(), h.iv(*fs)).len() == 0);
            }
            assert(!fs1.inode_allocated(new_inode_id as int));
            assert(fs0.bs() == fs1.bs());
            // The slot stays marked: nothing after the allocation touches
            // the inode bitmap region, which lies below the inode area.
            fs0.lemma_inode_pos_ok(self.inode_id as int);
            fs0.lemma_inode_pos_ok(new_inode_id as int);
            let ibit = fs0.inode_bitmap.start_block_id as int + (new_inode_id as int) / (
            crate::bitmap::BLOCK_BITS as int);
            assert(fs0.inode_bitmap.start_block_id <= ibit < fs0.inode_area_start_block) by (
            nonlinear_arith)
                requires
                    0 <= (new_inode_id as int) < fs0.inode_bitmap.max_bits,
                    fs0.inode_bitmap.max_bits <= fs0.inode_bitmap.blocks
                        * crate::bitmap::BLOCK_BITS,
                    fs0.inode_bitmap.start_block_id == 1,
                    fs0.inode_area_start_block == 1 + fs0.inode_bitmap.blocks,
                    ibit == fs0.inode_bitmap.start_block_id as int + (new_inode_id as int) / (
                    crate::bitmap::BLOCK_BITS as int),
                    crate::bitmap::BLOCK_BITS == 4096,
            ;
            assert(fs3.bs()[ibit] == fs2.bs()[ibit]) by {
                assert(ibit < fs0.data_bitmap.start_block_id);
                assert(ibit != self.block_id);
            }
            assert(fs.bs()[ibit] == fs3.bs()[ibit]) by {
                assert(ibit != h.block_id);
            }
            assert(fs.inode_allocated(new_inode_id as int) == fs2.inode_allocated(
                new_inode_id as int,
            ));
            // The directory's own slot mark is likewise untouched.
            let dbit = fs0.inode_bitmap.start_block_id as int + (self.inode_id as int) / (
            crate::bitmap::BLOCK_BITS as int);
            assert(fs0.inode_bitmap.start_block_id <= dbit < fs0.inode_area_start_block) by (
            nonlinear_arith)
                requires
                    0 <= (self.inode_id as int) < fs0.inode_bitmap.max_bits,
                    fs0.inode_bitmap.max_bits <= fs0.inode_bitmap.blocks
                        * crate::bitmap::BLOCK_BITS,
                    fs0.inode_bitmap.start_block_id == 1,
                    fs0.inode_area_start_block == 1 + fs0.inode_bitmap.blocks,
                    dbit == fs0.inode_bitmap.start_block_id as int + (self.inode_id as int) / (
                    crate::bitmap::BLOCK_BITS as int),
                    crate::bitmap::BLOCK_BITS == 4096,
            ;
            assert(fs3.bs()[dbit] == fs2.bs()[dbit]) by {
                assert(dbit < fs0.data_bitmap.start_block_id);
                assert(dbit != self.block_id);
            }
            assert(fs.bs()[dbit] == fs3.bs()[dbit]) by {
                assert(dbit != h.block_id);
            }
            assert(fs.inode_allocated(self.inode_id as int) == fs2.inode_allocated(
                self.inode_id as int,
            ));
            // Generalize: every slot bit but the consumed one is untouched
            // end to end, and so is every other record.
            assert forall|id: int|
                0 <= id < fs0.inode_bitmap.max_bits && id != new_inode_id implies
                fs.inode_allocated(id) == fs0.inode_allocated(id) by {
                let jbit = fs0.inode_bitmap.start_block_id as int + id / (
                crate::bitmap::BLOCK_BITS as int);
                assert(fs0.inode_bitmap.start_block_id <= jbit < fs0.inode_area_start_block) by (
                nonlinear_arith)
                    requires
                        0 <= id < fs0.inode_bitmap.max_bits,
                        fs0.inode_bitmap.max_bits <= fs0.inode_bitmap.blocks
                            * crate::bitmap::BLOCK_BITS,
                        fs0.inode_bitmap.start_block_id == 1,
                        fs0.inode_area_start_block == 1 + fs0.inode_bitmap.blocks,
                        jbit == fs0.inode_bitmap.start_block_id as int + id / (
                        crate::bitmap::BLOCK_BITS as int),
                        crate::bitmap::BLOCK_BITS == 4096,
                ;
                assert(fs2.inode_allocated(id) == fs1.inode_allocated(id));
                assert(fs3.bs()[jbit] == fs2.bs()[jbit]) by {
                    assert(jbit < fs0.data_bitmap.start_block_id);
                    assert(jbit != self.block_id);
                }
                assert(fs.bs()[jbit] == fs3.bs()[jbit]) by {
                    assert(jbit != h.block_id);
                }
            }
            assert(h.frame_except(fs4, *fs)) by {
                assert forall|blk: int|
                    0 <= blk < fs4.bs().len() && blk != h.block_id && !(
                    fs4.data_area_start_block <= blk < fs4.bs().len()) && !(
                    fs4.data_bitmap.start_block_id <= blk < fs4.data_bitmap.start_block_id
                        + fs4.data_bitmap.blocks) implies #[trigger] fs.bs()[blk] == fs4.bs()[
                blk] by {}
                fs4.cache.lemma_block_len(h.block_id as int);
                assert forall|j: int|
                    0 <= j < BLOCK_SZ && !(h.block_offset <= j < h.block_offset + INODE_SZ)
                        implies #[trigger] fs.bs()[h.block_id as int][j] == fs4.bs()[
                h.block_id as int][j] by {}
            }
            assert forall|id: int|
                0 <= id < fs0.inode_bitmap.max_bits && id != new_inode_id && id
                    != self.inode_id implies fs.inode_view(id) == fs0.inode_view(id) by {
                fs0.lemma_inode_pos_ok(id);
                let t = Inode {
                    inode_id: id as u32,
                    block_id: fs0.spec_inode_pos(id).0 as u32,
                    block_offset: fs0.spec_inode_pos(id).1 as usize,
                };
                assert(t.pos_ok(fs0));
                // The slot allocation writes only the inode bitmap.
                assert(fs2.inode_view(id) == fs1.inode_view(id)) by {
                    assert(fs2.bs()[t.block_id as int] == fs1.bs()[t.block_id as int]) by {
                        assert(t.block_id >= fs0.inode_area_start_block);
                    }
                }
                self.lemma_peer_record_preserved(fs2, fs3, t);
                h.lemma_peer_record_preserved(fs4, *fs, t);
                assert(fs4.inode_view(id) == fs3.inode_view(id));
            }
            // Data-bitmap bits and other files' bytes, end to end: the slot
            // allocation and the record writes never reach the data bitmap
            // or the data area.
            assert forall|j: int|
                fs0.data_area_start_block <= j < fs0.data_area_start_block
                    + fs0.data_bitmap.max_bits implies fs.data_block_used(j)
                    == fs3.data_block_used(j) && fs2.data_block_used(j) == fs0.data_block_used(
                    j,
                ) by {
                let bblk = fs0.data_bitmap.start_block_id as int + (j
                    - fs0.data_area_start_block) / (crate::bitmap::BLOCK_BITS as int);
                assert(fs0.data_bitmap.start_block_id <= bblk) by (nonlinear_arith)
                    requires
                        0 <= j - fs0.data_area_start_block,
                        bblk == fs0.data_bitmap.start_block_id as int + (j
                            - fs0.data_area_start_block) / (crate::bitmap::BLOCK_BITS as int),
                        crate::bitmap::BLOCK_BITS == 4096,
                ;
                assert(fs2.bs()[bblk] == fs1.bs()[bblk]) by {
                    assert(bblk >= fs0.inode_area_start_block);
                }
                assert(fs.bs()[bblk] == fs4.bs()[bblk]) by {
                    assert(bblk != h.block_id);
                }
            }
            assert(self.iv(fs3) == self.iv(*fs));
            assert(spec_all_blocks(fs.bs(), self.iv(*fs)) == spec_all_blocks(
                fs3.bs(),
                self.iv(fs3),
            ));
            assert forall|blk: int|
                fs0.data_area_start_block <= blk < fs0.bs().len() && fs0.data_block_used(blk)
                    && !spec_all_blocks(fs0.bs(), self.iv(fs0)).contains(blk as u32) implies
                fs.bs()[blk] == fs0.bs()[blk] by {
                assert(fs2.bs()[blk] == fs1.bs()[blk]) by {
                    assert(blk >= fs0.inode_area_start_block);
                }
                assert(fs2.data_block_used(blk));
                assert(!spec_all_blocks(fs2.bs(), self.iv(fs2)).contains(blk as u32)) by {
                    assert(spec_all_blocks(fs2.bs(), self.iv(fs2)) == spec_all_blocks(
                        fs0.bs(),
                        self.iv(fs0),
                    ));
                }
                assert(pre_append.bs() == fs2.bs());
                assert(pre_append.data_block_used(blk) == fs2.data_block_used(blk));
                assert(spec_all_blocks(pre_append.bs(), self.iv(pre_append)) == spec_all_blocks(
                    fs2.bs(),
                    self.iv(fs2),
                ));
                assert(fs3.bs()[blk] == fs2.bs()[blk]);
                assert(fs.bs()[blk] == fs4.bs()[blk]) by {
                    fs0.lemma_inode_pos_ok(new_inode_id as int);
                    assert(blk != h.block_id);
                }
            }
        }
        Ok(h)
    }

    /// Bind `new_name` to the inode `old_name` resolves to, as a hard link:
    /// both names then share one record, contents and size. Fails when the
    /// names are equal or `old_name` is absent.
    pub fn link(&self, fs: &mut EasyFileSystem, old_name: &str, new_name: &str) -> (r: Result<
        (),
        FsError,
    >)
        requires
            old(fs).wf(),
            self.pos_ok(*old(fs)),
            self.readable(*old(fs)),
            self.dir_ok(*old(fs)),
            self.inode_ok(*old(fs)),
            valid_name_bytes(new_name.spec_bytes()),
            self.iv(*old(fs)).size + DIRENT_SZ <= MAX_FILE_SIZE,
        ensures
            final(fs).wf(),
            *final(fs) == (EasyFileSystem { cache: final(fs).cache, ..*old(fs) }),
            final(fs).bs().len() == old(fs).bs().len(),
            match r {
                Ok(()) => {
                    &&& old_name.spec_bytes() != new_name.spec_bytes()
                    &&& spec_find_entry(self.entries(*old(fs)), old_name.spec_bytes()) is Some
                    &&& (match spec_find_entry(
                        self.entries(*old(fs)),
                        old_name.spec_bytes(),
                    ) {
                        Some(id) => {
                            &&& (id != self.inode_id ==> final(fs).inode_view(
                                id as int,
                            ).nlink == (if old(fs).inode_view(id as int).nlink < u32::MAX {
                                old(fs).inode_view(id as int).nlink + 1
                            } else {
                                old(fs).inode_view(id as int).nlink as int
                            }))
                            // Both names now share the one record: the new
                            // name's entry is appended, the rest stand.
                            &&& (id != self.inode_id ==> self.entries(*final(fs))
                                == self.entries(*old(fs)).push(
                                DirEntryView { name: new_name.spec_bytes(), inode_number: id },
                            ) && self.inode_ok(*final(fs)) && self.readable(*final(fs))
                                && self.dir_ok(*final(fs)) && self.iv(*final(fs)).is_dir
                                == self.iv(*old(fs)).is_dir)
                            // The shared record's size and type survive, and
                            // for a healthy target disjoint from the
                            // directory so do its contents.
                            &&& (id != self.inode_id ==> final(fs).inode_view(id as int).size
                                == old(fs).inode_view(id as int).size && final(fs).inode_view(
                                id as int,
                            ).is_dir == old(fs).inode_view(id as int).is_dir)
                            &&& (id != self.inode_id && fs_inode_ok(*old(fs), id as int) && (
                            forall|b: u32|
                                spec_all_blocks(old(fs).bs(), old(fs).inode_view(id as int)).contains(
                                    b,
                                ) ==> !spec_all_blocks(old(fs).bs(), self.iv(*old(fs))).contains(
                                    b,
                                )) ==> spec_content(final(fs).bs(), final(fs).inode_view(
                                id as int,
                            )) == spec_content(old(fs).bs(), old(fs).inode_view(id as int)))
                        },
                        None => true,
                    })
                },
                Err(e) => {
                    // Each failure code is pinned to its one cause.
                    &&& (e == FsError::AlreadyExists || e == FsError::NotFound || e
                        == FsError::NoSpace)
                    &&& (e == FsError::AlreadyExists <==> old_name.spec_bytes()
                        == new_name.spec_bytes())
                    &&& e == FsError::AlreadyExists ==> final(fs).bs() == old(fs).bs()
                    &&& (e == FsError::NotFound <==> (old_name.spec_bytes()
                        != new_name.spec_bytes() && spec_find_entry(
                        self.entries(*old(fs)),
                        old_name.spec_bytes(),
                    ) is None))
                    &&& e == FsError::NotFound ==> final(fs).bs() == old(fs).bs()
                    &&& e == FsError::NoSpace ==> spec_find_entry(
                        self.entries(*old(fs)),
                        old_name.spec_bytes(),
                    ) is Some && spec_free_data(*old(fs), old(fs).data_bitmap.max_bits as int)
                        < spec_total_blocks((self.iv(*old(fs)).size + DIRENT_SZ) as u32)
                        - spec_total_blocks(self.iv(*old(fs)).size)
                    &&& e == FsError::NoSpace ==> {
                        &&& self.iv(*final(fs)) == self.iv(*old(fs))
                        &&& self.contents(*final(fs)) == self.contents(*old(fs))
                        &&& self.entries(*final(fs)) == self.entries(*old(fs))
                        &&& self.inode_ok(*final(fs))
                        &&& (forall|j: int|
                            old(fs).data_area_start_block <= j < old(fs).data_area_start_block
                                + old(fs).data_bitmap.max_bits ==> final(fs).data_block_used(j)
                                == old(fs).data_block_used(j))
                    }
                },
            },
    {
        if bytes_eq(old_name.as_bytes(), new_name.as_bytes()) {
            proof {
                vstd::utf8::encode_utf8_decode_utf8(old_name@);
                vstd::utf8::encode_utf8_decode_utf8(new_name@);
            }
            return Err(FsError::AlreadyExists);
        }
        let ghost fs0 = *fs;
        let target = match self.find(fs, old_name) {
            Some(t) => t,
            None => { return Err(FsError::NotFound) },
        };
        let di = self.read_disk_inode(fs);
        let dirent = DirEntry::new(new_name.as_bytes_vec(), target.inode_id);
        let bytes = dirent.encode();
        let ghost fs2 = *fs;
        let ghost entry = DirEntryView {
            name: new_name.spec_bytes(),
            inode_number: target.inode_id,
        };
        let append = self.write_at(fs, di.size as usize, bytes.as_slice());
        if append.is_err() {
            proof {
                assert(fs2.bs() == fs0.bs());
                assert(self.iv(*fs) == self.iv(fs0));
                assert(self.contents(*fs) == self.contents(fs0));
                // The shortfall write_at reports is a shortfall at entry:
                // nothing before it touched a bit.
                assert forall|j: int|
                    fs0.data_area_start_block <= j < fs0.data_area_start_block
                        + fs0.data_bitmap.max_bits implies fs2.data_block_used(j)
                        == fs0.data_block_used(j) by {}
                lemma_free_data_same(fs0, fs2, fs0.data_bitmap.max_bits as int);
            }
            return Err(FsError::NoSpace);
        }
        let ghost fs3 = *fs;
        proof {
            // The appended bytes are one encoded entry, so the sequence
            // grew by its decoding.
            assert(fs2.bs() == fs0.bs());
            assert(dirent@ == entry);
            assert(bytes@ == crate::layout::encode_dirent(entry));
            let c0 = self.contents(fs0);
            assert(self.contents(fs3) =~= c0 + crate::layout::encode_dirent(entry)) by {
                assert(self.contents(fs3) == splice(
                    c0 + Seq::new(DIRENT_SZ as nat, |q: int| 0u8),
                    c0.len() as int,
                    bytes@,
                ));
            }
            lemma_entries_append(c0, crate::layout::encode_dirent(entry));
            crate::layout::lemma_dirent_round_trip(entry);
            assert(self.entries(fs3) == self.entries(fs0).push(entry));
            vstd::utf8::encode_utf8_valid_utf8(new_name@);
            assert(self.dir_ok(fs3)) by {
                assert forall|i: int|
                    0 <= i < self.entries(fs3).len() implies (#[trigger] self.entries(
                    fs3,
                )[i]).inode_number < fs3.inode_bitmap.max_bits && valid_name_bytes(
                    self.entries(fs3)[i].name,
                ) && valid_utf8(self.entries(fs3)[i].name) by {
                    if i < self.entries(fs0).len() {
                        assert(self.entries(fs3)[i] == self.entries(fs0)[i]);
                        assert((#[trigger] self.entries(fs0)[i]).inode_number
                            < fs0.inode_bitmap.max_bits);
                        assert(valid_name_bytes(self.entries(fs0)[i].name) && valid_utf8(
                            self.entries(fs0)[i].name,
                        ));
                    } else {
                        assert(self.entries(fs3)[i] == entry);
                    }
                }
            }
            if target.inode_id != self.inode_id {
                self.lemma_peer_record_preserved(fs2, *fs, target);
                assert(target.iv(*fs) == target.iv(fs0));
            }
        }
        let mut tdi = target.read_disk_inode(fs);
        if tdi.nlink < u32::MAX {
            tdi.nlink = tdi.nlink + 1;
        }
        let ghost fs4 = *fs;
        target.modify_disk_inode(fs, &tdi);
        proof {
            if target.inode_id != self.inode_id {
                assert(fs4.bs() == fs3.bs());
                self.lemma_dir_stable_record(fs4, *fs, target, encode_inode(tdi@));
                assert(self.entries(*fs) == self.entries(fs0).push(entry));
                let tid = target.inode_id as int;
                let tv = fs0.inode_view(tid);
                if fs_inode_ok(fs0, tid) && (forall|b: u32|
                    spec_all_blocks(fs0.bs(), tv).contains(b) ==> !spec_all_blocks(
                        fs0.bs(),
                        self.iv(fs0),
                    ).contains(b)) {
                    // The target's own blocks survive the append (they are
                    // used and not the directory's) and the record writes
                    // stay below the data area.
                    let ta = spec_all_blocks(fs0.bs(), tv);
                    assert forall|i: int| 0 <= i < ta.len() implies fs3.bs()[#[trigger] ta[
                    i] as int] == fs0.bs()[ta[i] as int] by {
                        assert(ta.contains(ta[i]));
                        assert(fs0.data_area_start_block <= ta[i]);
                        assert(fs0.data_block_used(ta[i] as int));
                        assert(fs2.data_block_used(ta[i] as int));
                        assert(!spec_all_blocks(fs0.bs(), self.iv(fs0)).contains(ta[i]));
                        assert(spec_all_blocks(fs2.bs(), self.iv(fs2)) == spec_all_blocks(
                            fs0.bs(),
                            self.iv(fs0),
                        ));
                    }
                    Self::lemma_view_stable(fs0.bs(), fs3.bs(), tv);
                    fs0.lemma_inode_pos_ok(tid);
                    assert forall|i: int| 0 <= i < ta.len() implies fs.bs()[#[trigger] ta[
                    i] as int] == fs3.bs()[ta[i] as int] by {
                        assert(fs0.data_area_start_block <= ta[i]);
                        assert(ta[i] != target.block_id);
                    }
                    assert(spec_all_blocks(fs3.bs(), tv) == ta);
                    Self::lemma_view_stable(fs3.bs(), fs.bs(), tv);
                    Self::lemma_view_nlink_irrelevant(fs.bs(), tv, tdi@);
                    assert(spec_content(fs.bs(), fs.inode_view(tid)) == spec_content(
                        fs0.bs(),
                        tv,
                    ));
                }
            }
        }
        fs.cache.sync_all();
        Ok(())
    }

    /// Remove the entry carrying `name`: the directory's entry sequence is
    /// rebuilt without it (survivors keep their order) and the target
    /// inode's link count drops; at zero its data and index blocks return
    /// to the allocator. Fails when the name is absent.
    ///
    /// The contract assumes of the resolved target what a filesystem-wide
    /// allocation invariant would provide: that it is a healthy inode,
    /// distinct from this directory and sharing no block with it. Every
    /// creation and growth in this crate establishes those facts for the
    /// inodes it touches; carrying them as one invariant over all allocated
    /// slots at once (which would also license unlinking a directory's
    /// entry for itself) is left open here.
    #[verifier::rlimit(100)]
    pub fn unlink(&self, fs: &mut EasyFileSystem, name: &str) -> (r: Result<(), FsError>)
        requires
            old(fs).wf(),
            self.pos_ok(*old(fs)),
            self.readable(*old(fs)),
            self.dir_ok(*old(fs)),
            self.inode_ok(*old(fs)),
            self.entries(*old(fs)).len() * DIRENT_SZ <= MAX_FILE_SIZE,
            // The target of the unlink, when there is one, is itself a
            // healthy inode distinct from this directory, with no block in
            // common with it.
            (match spec_find_entry(self.entries(*old(fs)), name.spec_bytes()) {
                Some(id) => id != self.inode_id && fs_inode_ok(*old(fs), id as int) && (forall|
                    b: u32,
                |
                    spec_all_blocks(old(fs).bs(), old(fs).inode_view(id as int)).contains(b)
                        ==> !spec_all_blocks(old(fs).bs(), self.iv(*old(fs))).contains(b)),
                None => true,
            }),
        ensures
            final(fs).wf(),
            *final(fs) == (EasyFileSystem { cache: final(fs).cache, ..*old(fs) }),
            final(fs).bs().len() == old(fs).bs().len(),
            // Success is owed exactly when the name resolves: the rebuild
            // can always be paid for out of the blocks the clear releases.
            r is Ok <==> spec_find_entry(self.entries(*old(fs)), name.spec_bytes()) is Some,
            match r {
                Ok(()) => {
                    &&& (match spec_find_entry(self.entries(*old(fs)), name.spec_bytes()) {
                        Some(id) => {
                            &&& final(fs).inode_view(id as int).nlink == (if old(fs).inode_view(id as int).nlink > 0 {
                                old(fs).inode_view(id as int).nlink - 1
                            } else {
                                0int
                            })
                            // At link count zero every block the target
                            // occupied is given back: at the end it is free
                            // unless the directory's rebuild took it.
                            &&& (old(fs).inode_view(id as int).nlink <= 1 ==> forall|i: int|
                                0 <= i < spec_all_blocks(old(fs).bs(), old(fs).inode_view(
                                    id as int,
                                )).len() ==> (!final(fs).data_block_used(
                                    #[trigger] spec_all_blocks(old(fs).bs(), old(fs).inode_view(
                                        id as int,
                                    ))[i] as int,
                                ) || spec_all_blocks(final(fs).bs(), self.iv(*final(fs))).contains(
                                    spec_all_blocks(old(fs).bs(), old(fs).inode_view(id as int))[
                                    i],
                                )))
                            // While other names still reference it, the
                            // target keeps its contents.
                            &&& (old(fs).inode_view(id as int).nlink > 1 ==> spec_content(
                                final(fs).bs(),
                                final(fs).inode_view(id as int),
                            ) == spec_content(old(fs).bs(), old(fs).inode_view(id as int))
                                && final(fs).inode_view(id as int).size == old(fs).inode_view(
                                id as int,
                            ).size)
                        },
                        None => true,
                    })
                    // The survivors are the old entries with exactly the
                    // first match compacted out, in their old order.
                    &&& self.entries(*final(fs)) == spec_remove_entry(
                        self.entries(*old(fs)),
                        name.spec_bytes(),
                    )
                    &&& self.inode_ok(*final(fs))
                    &&& self.readable(*final(fs))
                    &&& self.dir_ok(*final(fs))
                    &&& self.iv(*final(fs)).is_dir == self.iv(*old(fs)).is_dir
                },
                Err(e) => {
                    &&& e == FsError::NotFound
                    &&& final(fs).bs() == old(fs).bs()
                },
            },
    {
        let ghost fs0 = *fs;
        let target = match self.find(fs, name) {
            Some(t) => t,
            None => { return Err(FsError::NotFound) },
        };
        let ghost fs1 = *fs;
        proof {
            assert(fs1.bs() == fs0.bs());
            assert(spec_find_entry(self.entries(fs0), name.spec_bytes()) == Some(
                target.inode_id,
            ));
            assert(target.inode_id != self.inode_id);
            assert(fs_inode_ok(fs0, target.inode_id as int));
            assert(target.inode_ok(fs1));
        }
        // Drop the target's link first; at zero its blocks go back to the
        // allocator while the directory still points the same way.
        let mut tdi = target.read_disk_inode(fs);
        let newlink: u32 = if tdi.nlink > 0 {
            tdi.nlink - 1
        } else {
            0
        };
        let ghost self_all = spec_all_blocks(fs1.bs(), self.iv(fs1));
        let ghost peer_all = spec_all_blocks(fs1.bs(), fs1.inode_view(target.inode_id as int));
        let ghost tid = target.inode_id as int;
        let ghost tv = fs1.inode_view(tid);
        if newlink == 0 {
            let ghost fsb = *fs;
            target.clear(fs);
            let ghost fsc = *fs;
            let mut td2 = target.read_disk_inode(fs);
            td2.nlink = 0;
            target.modify_disk_inode(fs, &td2);
            proof {
                fs1.lemma_inode_pos_ok(target.inode_id as int);
                assert forall|blk: int|
                    0 <= blk < fs1.bs().len() && blk != target.block_id && !(
                    fs1.data_bitmap.start_block_id <= blk < fs1.data_bitmap.start_block_id
                        + fs1.data_bitmap.blocks) && !peer_all.contains(blk as u32) implies
                    #[trigger] fs.bs()[blk] == fs1.bs()[blk] by {
                    assert(fsc.bs()[blk] == fs1.bs()[blk]);
                    assert(fs.bs()[blk] == fsc.bs()[blk]);
                }
                fsc.cache.lemma_block_len(target.block_id as int);
                assert forall|j: int|
                    0 <= j < BLOCK_SZ && !(target.block_offset <= j < target.block_offset
                        + INODE_SZ) implies #[trigger] fs.bs()[target.block_id as int][j]
                    == fs1.bs()[target.block_id as int][j] by {
                    assert(fsc.bs()[target.block_id as int][j] == fs1.bs()[
                    target.block_id as int][j]);
                    assert(fs.bs()[target.block_id as int][j] == fsc.bs()[
                    target.block_id as int][j]);
                }
                assert forall|i: int| 0 <= i < self_all.len() implies fs.data_block_used(
                    #[trigger] self_all[i] as int,
                ) by {
                    assert(!peer_all.contains(self_all[i])) by {
                        if peer_all.contains(self_all[i]) {
                            assert(!self_all.contains(self_all[i]));
                        }
                        assert(self_all.contains(self_all[i]));
                    }
                    assert(fsc.data_block_used(self_all[i] as int) == fs1.data_block_used(
                        self_all[i] as int,
                    ));
                    let bblk = fs1.data_bitmap.start_block_id as int + (self_all[i]
                        - fs1.data_area_start_block) / (crate::bitmap::BLOCK_BITS as int);
                    assert(bblk != target.block_id) by {
                        assert(target.block_id < fs1.data_bitmap.start_block_id);
                        assert(bblk >= fs1.data_bitmap.start_block_id);
                    }
                    assert(fs.bs()[bblk] == fsc.bs()[bblk]);
                }
                self.lemma_dir_stable_peer(fs1, *fs, target);
                // Every block the target held is free now: the clear freed
                // them and the record write touched no bitmap byte.
                assert(spec_all_blocks(fsb.bs(), fsb.inode_view(tid)) == peer_all);
                assert forall|i: int| 0 <= i < peer_all.len() implies !fs.data_block_used(
                    #[trigger] peer_all[i] as int,
                ) by {
                    assert(!fsc.data_block_used(peer_all[i] as int));
                    assert(fs1.data_area_start_block <= peer_all[i] < fs1.data_area_start_block
                        + fs1.data_bitmap.max_bits);
                    let bblk = fs1.data_bitmap.start_block_id as int + (peer_all[i]
                        - fs1.data_area_start_block) / (crate::bitmap::BLOCK_BITS as int);
                    assert(bblk >= fs1.data_bitmap.start_block_id);
                    assert(bblk != target.block_id) by {
                        assert(target.block_id < fs1.data_bitmap.start_block_id);
                    }
                    assert(fs.bs()[bblk] == fsc.bs()[bblk]);
                }
            }
        } else {
            tdi.nlink = newlink;
            target.modify_disk_inode(fs, &tdi);
            proof {
                fs1.lemma_inode_pos_ok(target.inode_id as int);
                assert forall|blk: int|
                    0 <= blk < fs1.bs().len() && blk != target.block_id && !(
                    fs1.data_bitmap.start_block_id <= blk < fs1.data_bitmap.start_block_id
                        + fs1.data_bitmap.blocks) && !peer_all.contains(blk as u32) implies
                    #[trigger] fs.bs()[blk] == fs1.bs()[blk] by {}
                fs1.cache.lemma_block_len(target.block_id as int);
                assert forall|j: int|
                    0 <= j < BLOCK_SZ && !(target.block_offset <= j < target.block_offset
                        + INODE_SZ) implies #[trigger] fs.bs()[target.block_id as int][j]
                    == fs1.bs()[target.block_id as int][j] by {}
                assert forall|i: int| 0 <= i < self_all.len() implies fs.data_block_used(
                    #[trigger] self_all[i] as int,
                ) by {
                    let bblk = fs1.data_bitmap.start_block_id as int + (self_all[i]
                        - fs1.data_area_start_block) / (crate::bitmap::BLOCK_BITS as int);
                    assert(bblk != target.block_id) by {
                        assert(target.block_id < fs1.data_bitmap.start_block_id);
                        assert(bblk >= fs1.data_bitmap.start_block_id);
                    }
                    assert(fs.bs()[bblk] == fs1.bs()[bblk]);
                }
                self.lemma_dir_stable_peer(fs1, *fs, target);
                // A positive count remains: the target keeps its blocks,
                // bits and contents; only its record's count moved.
                assert(fs.inode_view(tid) == tdi@);
                assert forall|i: int| 0 <= i < peer_all.len() implies fs.bs()[#[trigger] peer_all[
                i] as int] == fs1.bs()[peer_all[i] as int] by {
                    assert(fs1.data_area_start_block <= peer_all[i]);
                    assert(peer_all[i] != target.block_id) by {
                        assert(target.block_id < fs1.data_bitmap.start_block_id);
                    }
                }
                assert(inode_ptrs_in_range(fs1.bs(), tv) && inode_view_wf(tv)
                    && spec_data_blocks(tv.size) <= INODE_MAX_DATA_BLOCKS);
                Self::lemma_view_stable(fs1.bs(), fs.bs(), tv);
                Self::lemma_view_nlink_irrelevant(fs.bs(), tv, tdi@);
                assert(spec_content(fs.bs(), fs.inode_view(tid)) == spec_content(
                    fs0.bs(),
                    fs0.inode_view(tid),
                ));
                assert(spec_all_blocks(fs.bs(), tdi@) == peer_all);
                assert forall|i: int| 0 <= i < peer_all.len() implies fs.data_block_used(
                    #[trigger] peer_all[i] as int,
                ) by {
                    let bblk = fs1.data_bitmap.start_block_id as int + (peer_all[i]
                        - fs1.data_area_start_block) / (crate::bitmap::BLOCK_BITS as int);
                    assert(bblk != target.block_id) by {
                        assert(target.block_id < fs1.data_bitmap.start_block_id);
                        assert(bblk >= fs1.data_bitmap.start_block_id);
                    }
                    assert(fs.bs()[bblk] == fs1.bs()[bblk]);
                }
            }
        }
        let ghost fs2 = *fs;
        // Rebuild the directory's entries without the removed name,
        // compacting the survivors in their original order.
        let content = self.read_dir(fs);
        proof {
            assert(content@.len() <= MAX_FILE_SIZE) by (nonlinear_arith)
                requires
                    content@.len() == self.iv(fs2).size,
                    (self.iv(fs2).size + BLOCK_SZ - 1) / (BLOCK_SZ as int)
                        <= INODE_MAX_DATA_BLOCKS,
                    BLOCK_SZ == 512,
                    INODE_MAX_DATA_BLOCKS == 16539,
                    MAX_FILE_SIZE == 8467968,
            ;
        }
        let count = content.len() / DIRENT_SZ;
        let target_bytes = name.as_bytes();
        let ghost entries2 = self.entries(fs2);
        let ghost nm = name.spec_bytes();
        proof {
            assert(entries2 == self.entries(fs0));
            assert(count == entries2.len());
        }
        let mut kept: Vec<u8> = Vec::new();
        let mut removed = false;
        let mut e: usize = 0;
        while e < count
            invariant
                fs.wf(),
                *fs == (EasyFileSystem { cache: fs.cache, ..fs2 }),
                fs.bs().len() == fs2.bs().len(),
                fs2.wf(),
                self.pos_ok(fs2),
                self.inode_ok(fs2),
                self.dir_ok(fs2),
                e <= count,
                count * DIRENT_SZ <= content@.len(),
                content@.len() <= MAX_FILE_SIZE,
                content@ == self.contents(fs2),
                entries2 == self.entries(fs2),
                count == entries2.len(),
                nm == name.spec_bytes(),
                target_bytes@ == nm,
                removed == (spec_find_entry(entries2.subrange(0, e as int), nm) is Some),
                kept@ == spec_encode_entries(
                    spec_remove_entry(entries2.subrange(0, e as int), nm),
                ),
                kept@.len() <= e * DIRENT_SZ,
                (kept@.len() as int) % (DIRENT_SZ as int) == 0,
            decreases count - e,
        {
            proof {
                assert(DIRENT_SZ * e + DIRENT_SZ <= count * DIRENT_SZ) by (nonlinear_arith)
                    requires
                        e < count,
                        DIRENT_SZ == 32,
                ;
            }
            let slice = vstd::slice::slice_subrange(
                content.as_slice(),
                DIRENT_SZ * e,
                DIRENT_SZ * e + DIRENT_SZ,
            );
            let ent = DirEntry::parse(slice);
            proof {
                assert(slice@ =~= content@.subrange(
                    DIRENT_SZ * e as int,
                    DIRENT_SZ * e + DIRENT_SZ,
                ));
                assert(ent@ == entries2[e as int]);
                assert(entries2.subrange(0, e + 1) =~= entries2.subrange(0, e as int).push(
                    entries2[e as int],
                ));
            }
            let ghost p = entries2.subrange(0, e as int);
            // Exactly the first matching entry is dropped.
            if !removed && bytes_eq(ent.name.as_slice(), target_bytes) {
                removed = true;
                proof {
                    lemma_append_find(p, entries2[e as int], nm);
                    lemma_remove_push(p, entries2[e as int], nm);
                    lemma_remove_absent(p, nm);
                }
            } else {
                let mut enc = ent.encode();
                kept.append(&mut enc);
                proof {
                    assert((kept@.len() as int) % (DIRENT_SZ as int) == 0);
                    lemma_append_find(p, entries2[e as int], nm);
                    lemma_remove_push(p, entries2[e as int], nm);
                    assert(spec_remove_entry(p.push(entries2[e as int]), nm)
                        == spec_remove_entry(p, nm).push(entries2[e as int]));
                    assert(kept@ == spec_encode_entries(
                        spec_remove_entry(p, nm).push(entries2[e as int]),
                    )) by {
                        let grown = spec_remove_entry(p, nm).push(entries2[e as int]);
                        assert(grown.drop_last() =~= spec_remove_entry(p, nm));
                        assert(grown.last() == entries2[e as int]);
                    }
                }
            }
            e += 1;
        }
        let ghost removed_seq = spec_remove_entry(entries2, nm);
        proof {
            assert(entries2.subrange(0, count as int) =~= entries2);
            assert(kept@ == spec_encode_entries(removed_seq));
            lemma_remove_keeps_entries(entries2, nm);
            assert forall|i: int| 0 <= i < removed_seq.len() implies valid_name_bytes(
                (#[trigger] removed_seq[i]).name,
            ) && valid_utf8(removed_seq[i].name) && removed_seq[i].inode_number
                < fs2.inode_bitmap.max_bits by {
                assert(entries2.contains(removed_seq[i]));
                let w = choose|w: int| 0 <= w < entries2.len() && entries2[w] == removed_seq[i];
                assert((#[trigger] entries2[w]).inode_number < fs2.inode_bitmap.max_bits);
                assert(valid_name_bytes(entries2[w].name) && valid_utf8(entries2[w].name));
            }
            lemma_encode_entries_decodes(removed_seq);
        }
        let ghost fs3 = *fs;
        self.clear(fs);
        proof {
            assert(self.inode_ok(*fs));
            assert(kept@.len() <= count * DIRENT_SZ <= MAX_FILE_SIZE) by (nonlinear_arith)
                requires
                    kept@.len() <= count * DIRENT_SZ,
                    count * DIRENT_SZ <= content@.len(),
                    content@.len() <= MAX_FILE_SIZE,
            ;
            // The target's record survives the directory rebuild.
            assert forall|blk: int|
                0 <= blk < fs3.bs().len() && blk != self.block_id && !(fs3.data_area_start_block
                    <= blk < fs3.bs().len()) && !(fs3.data_bitmap.start_block_id <= blk
                    < fs3.data_bitmap.start_block_id + fs3.data_bitmap.blocks) implies
                #[trigger] fs.bs()[blk] == fs3.bs()[blk] by {}
            self.lemma_peer_record_preserved(fs3, *fs, target);
        }
        let ghost fs4 = *fs;
        let ghost pre_rewrite = *fs;
        let ghost dir3 = spec_all_blocks(fs3.bs(), self.iv(fs3));
        proof {
            // The clear released every directory block, and the rebuild
            // needs no more than that: the write back cannot run short.
            assert(self.iv(fs3) == self.iv(fs2));
            assert(dir3 == spec_all_blocks(fs2.bs(), self.iv(fs2)));
            crate::layout::lemma_all_blocks_len(fs3.bs(), self.iv(fs3));
        }
        let rewrite = self.write_at(fs, 0, kept.as_slice());
        if rewrite.is_err() {
            proof {
                lemma_free_data_lower(fs4, dir3, fs4.data_bitmap.max_bits as int);
                crate::layout::lemma_total_blocks_monotone(
                    kept@.len() as u32,
                    self.iv(fs2).size,
                );
                assert(spec_total_blocks(0u32) == 0);
                assert(kept@.len() <= self.iv(fs2).size);
                assert(false);
            }
            return Err(FsError::NotFound);
        }
        proof {
            self.lemma_peer_record_preserved(fs4, *fs, target);
            // The rebuilt contents are exactly the packed survivors.
            assert(self.contents(*fs) =~= kept@) by {
                assert(self.contents(pre_rewrite).len() == 0);
                assert(self.contents(*fs) == splice(
                    self.contents(pre_rewrite) + Seq::new(kept@.len() as nat, |q: int| 0u8),
                    0,
                    kept@,
                ));
            }
            assert(self.entries(*fs) == removed_seq);
            assert(self.dir_ok(*fs)) by {
                assert forall|i: int|
                    0 <= i < self.entries(*fs).len() implies (#[trigger] self.entries(
                    *fs,
                )[i]).inode_number < fs.inode_bitmap.max_bits && valid_name_bytes(
                    self.entries(*fs)[i].name,
                ) && valid_utf8(self.entries(*fs)[i].name) by {
                    assert(self.entries(*fs)[i] == removed_seq[i]);
                }
            }
            // Carry the target's fate through the rebuild. Its blocks are
            // not the directory's, so the clear left their bits and bytes
            // alone; the write back touched only what it owns at the end.
            assert(spec_all_blocks(fs0.bs(), fs0.inode_view(tid)) == peer_all);
            assert forall|i: int| 0 <= i < peer_all.len() implies !dir3.contains(
                #[trigger] peer_all[i],
            ) by {
                if dir3.contains(peer_all[i]) {
                    assert(spec_all_blocks(fs0.bs(), self.iv(fs0)).contains(peer_all[i])) by {
                        assert(spec_all_blocks(fs2.bs(), self.iv(fs2)) == spec_all_blocks(
                            fs1.bs(),
                            self.iv(fs1),
                        ));
                    }
                    assert(false);
                }
            }
            if tv.nlink <= 1 {
                // All freed at the branch; the rebuild could only hand a
                // block to the directory itself.
                assert forall|i: int|
                    0 <= i < peer_all.len() implies (!fs.data_block_used(
                    #[trigger] peer_all[i] as int,
                ) || spec_all_blocks(fs.bs(), self.iv(*fs)).contains(peer_all[i])) by {
                    assert(!fs2.data_block_used(peer_all[i] as int));
                    assert(fs4.data_block_used(peer_all[i] as int) == fs3.data_block_used(
                        peer_all[i] as int,
                    ));
                    if !spec_all_blocks(fs.bs(), self.iv(*fs)).contains(peer_all[i]) {
                        assert(fs.data_block_used(peer_all[i] as int) == fs4.data_block_used(
                            peer_all[i] as int,
                        ));
                    }
                }
            } else {
                // Still referenced: record, bits and bytes all survive.
                assert(fs.inode_view(tid) == fs2.inode_view(tid));
                assert forall|i: int| 0 <= i < peer_all.len() implies fs.bs()[#[trigger] peer_all[
                i] as int] == fs2.bs()[peer_all[i] as int] by {
                    assert(fs2.data_block_used(peer_all[i] as int));
                    assert(fs2.data_area_start_block <= peer_all[i]);
                    assert(fs4.bs()[peer_all[i] as int] == fs3.bs()[peer_all[i] as int]) by {
                        assert(peer_all[i] != self.block_id) by {
                            fs0.lemma_inode_pos_ok(self.inode_id as int);
                        }
                    }
                    // The rebuild's byte frame: used and not the (empty)
                    // cleared directory's.
                    assert(fs4.data_block_used(peer_all[i] as int) == fs3.data_block_used(
                        peer_all[i] as int,
                    ));
                    assert(spec_all_blocks(fs4.bs(), self.iv(fs4)).len() == 0);
                    assert(!spec_all_blocks(fs4.bs(), self.iv(fs4)).contains(peer_all[i]));
                    assert(fs.bs()[peer_all[i] as int] == fs4.bs()[peer_all[i] as int]);
                }
                assert(spec_all_blocks(fs2.bs(), fs2.inode_view(tid)) == peer_all);
                assert(inode_ptrs_in_range(fs2.bs(), fs2.inode_view(tid)) && inode_view_wf(
                    fs2.inode_view(tid),
                ) && spec_data_blocks(fs2.inode_view(tid).size) <= INODE_MAX_DATA_BLOCKS);
                Self::lemma_view_stable(fs2.bs(), fs.bs(), fs2.inode_view(tid));
                assert(spec_content(fs.bs(), fs.inode_view(tid)) == spec_content(
                    fs0.bs(),
                    fs0.inode_view(tid),
                ));
            }
        }
        fs.cache.sync_all();
        Ok(())
    }
}

/// Structural health of inode slot `id` in `fs`, handle-free: see
/// [`Inode::inode_ok`].
pub open spec fn fs_inode_ok(fs: EasyFileSystem, id: int) -> bool {
    let v = fs.inode_view(id);
    let all = spec_all_blocks(fs.bs(), v);
    &&& inode_view_wf(v)
    &&& spec_data_blocks(v.size) <= INODE_MAX_DATA_BLOCKS
    &&& inode_ptrs_in_range(fs.bs(), v)
    &&& forall|i: int, j: int| 0 <= i < j < all.len() ==> all[i] != all[j]
    &&& forall|i: int|
        0 <= i < all.len() ==> fs.data_area_start_block <= #[trigger] all[i]
            < fs.data_area_start_block + fs.data_bitmap.max_bits
    &&& forall|i: int| 0 <= i < all.len() ==> fs.data_block_used(#[trigger] all[i] as int)
    &&& spec_tail_zero(fs.bs(), v)
}

impl Inode {
    /// This directory is untouched by work on a different inode: changes
    /// confined to the data bitmap region, to data-area blocks outside this
    /// directory's own, and to the peer's record range leave the
    /// directory's record, contents and health alone.
    proof fn lemma_dir_stable_peer(&self, fsA: EasyFileSystem, fsB: EasyFileSystem, peer: Inode)
        requires
            fsA.wf(),
            fsB.wf(),
            self.pos_ok(fsA),
            self.inode_ok(fsA),
            peer.pos_ok(fsA),
            peer.inode_id != self.inode_id,
            fsB.bs().len() == fsA.bs().len(),
            fsB.inode_bitmap == fsA.inode_bitmap,
            fsB.data_bitmap == fsA.data_bitmap,
            fsB.inode_area_start_block == fsA.inode_area_start_block,
            fsB.data_area_start_block == fsA.data_area_start_block,
            forall|blk: int|
                0 <= blk < fsA.bs().len() && blk != peer.block_id && !(
                fsA.data_bitmap.start_block_id <= blk < fsA.data_bitmap.start_block_id
                    + fsA.data_bitmap.blocks) && !spec_all_blocks(fsA.bs(), fsA.inode_view(
                    peer.inode_id as int,
                )).contains(blk as u32) ==> #[trigger] fsB.bs()[blk] == fsA.bs()[blk],
            forall|j: int|
                0 <= j < BLOCK_SZ && !(peer.block_offset <= j < peer.block_offset + INODE_SZ)
                    ==> #[trigger] fsB.bs()[peer.block_id as int][j] == fsA.bs()[
                peer.block_id as int][j],
            forall|b: u32|
                spec_all_blocks(fsA.bs(), fsA.inode_view(peer.inode_id as int)).contains(b)
                    ==> !spec_all_blocks(fsA.bs(), self.iv(fsA)).contains(b),
            forall|i: int|
                0 <= i < spec_all_blocks(fsA.bs(), fsA.inode_view(peer.inode_id as int)).len()
                    ==> fsA.data_area_start_block <= #[trigger] spec_all_blocks(
                    fsA.bs(),
                    fsA.inode_view(peer.inode_id as int),
                )[i],
            forall|i: int|
                0 <= i < spec_all_blocks(fsA.bs(), self.iv(fsA)).len() ==> fsB.data_block_used(
                    #[trigger] spec_all_blocks(fsA.bs(), self.iv(fsA))[i] as int,
                ),
        ensures
            self.iv(fsB) == self.iv(fsA),
            self.contents(fsB) == self.contents(fsA),
            self.entries(fsB) == self.entries(fsA),
            spec_all_blocks(fsB.bs(), self.iv(fsB)) == spec_all_blocks(fsA.bs(), self.iv(fsA)),
            self.inode_ok(fsB),
            self.readable(fsB),
            self.dir_ok(fsA) ==> self.dir_ok(fsB),
    {
        let v = self.iv(fsA);
        let peer_all = spec_all_blocks(fsA.bs(), fsA.inode_view(peer.inode_id as int));
        fsA.lemma_inode_pos_ok(self.inode_id as int);
        fsA.lemma_inode_pos_ok(peer.inode_id as int);
        // The directory's record is outside the peer's record range.
        assert(self.iv(fsB) == v) by {
            assert(!peer_all.contains(self.block_id as u32)) by {
                if peer_all.contains(self.block_id as u32) {
                    let w = choose|w: int|
                        0 <= w < peer_all.len() && peer_all[w] == self.block_id;
                    assert(fsA.data_area_start_block <= peer_all[w]);
                    assert(self.block_id < fsA.data_bitmap.start_block_id);
                    assert(false);
                }
            }
            if self.block_id == peer.block_id {
                lemma_distinct_records(fsA, self.inode_id as int, peer.inode_id as int);
                fsA.cache.lemma_block_len(self.block_id as int);
                fsB.cache.lemma_block_len(self.block_id as int);
                assert forall|j: int|
                    self.block_offset <= j < self.block_offset + INODE_SZ implies fsB.bs()[
                self.block_id as int][j] == fsA.bs()[self.block_id as int][j] by {
                    assert(!(peer.block_offset <= j < peer.block_offset + INODE_SZ));
                }
                assert(fsB.bs()[self.block_id as int].subrange(
                    self.block_offset as int,
                    self.block_offset + INODE_SZ,
                ) =~= fsA.bs()[self.block_id as int].subrange(
                    self.block_offset as int,
                    self.block_offset + INODE_SZ,
                ));
            } else {
                assert(fsB.bs()[self.block_id as int] == fsA.bs()[self.block_id as int]);
            }
        }
        let all = spec_all_blocks(fsA.bs(), v);
        assert forall|i: int| 0 <= i < all.len() implies fsB.bs()[#[trigger] all[i] as int]
            == fsA.bs()[all[i] as int] by {
            assert(fsA.data_area_start_block <= all[i]);
            assert(all[i] != peer.block_id) by {
                assert(peer.block_id < fsA.data_bitmap.start_block_id
                    < fsA.data_area_start_block);
            }
            assert(all.contains(all[i]));
            assert(!peer_all.contains(all[i])) by {
                if peer_all.contains(all[i]) {
                    assert(!spec_all_blocks(fsA.bs(), self.iv(fsA)).contains(all[i]));
                }
            }
        }
        Self::lemma_view_stable(fsA.bs(), fsB.bs(), v);
        assert forall|i: int|
            0 <= i < spec_all_blocks(fsB.bs(), v).len() implies fsB.data_block_used(
            #[trigger] spec_all_blocks(fsB.bs(), v)[i] as int,
        ) by {
            assert(spec_all_blocks(fsB.bs(), v)[i] == all[i]);
        }
        if self.dir_ok(fsA) {
            assert(self.entries(fsB) == self.entries(fsA));
            assert forall|i: int|
                0 <= i < self.entries(fsB).len() implies (#[trigger] self.entries(
                fsB,
            )[i]).inode_number < fsB.inode_bitmap.max_bits && valid_name_bytes(
                self.entries(fsB)[i].name,
            ) && valid_utf8(self.entries(fsB)[i].name) by {
                assert(self.entries(fsB)[i] == self.entries(fsA)[i]);
                assert((#[trigger] self.entries(fsA)[i]).inode_number
                    < fsA.inode_bitmap.max_bits);
                assert(valid_name_bytes(self.entries(fsA)[i].name) && valid_utf8(
                    self.entries(fsA)[i].name,
                ));
            }
        }
    }
}

impl Inode {
    /// Writing a different inode's record leaves this directory whole: the
    /// two records never overlap, and the write reaches neither the data
    /// area nor the bitmaps.
    proof fn lemma_dir_stable_record(
        &self,
        fsA: EasyFileSystem,
        fsB: EasyFileSystem,
        peer: Inode,
        enc: Seq<u8>,
    )
        requires
            fsA.wf(),
            fsB.wf(),
            self.pos_ok(fsA),
            self.inode_ok(fsA),
            peer.pos_ok(fsA),
            peer.inode_id != self.inode_id,
            enc.len() == INODE_SZ,
            fsB.bs() == fsA.bs().update(
                peer.block_id as int,
                splice(fsA.bs()[peer.block_id as int], peer.block_offset as int, enc),
            ),
            fsB.inode_bitmap == fsA.inode_bitmap,
            fsB.data_bitmap == fsA.data_bitmap,
            fsB.inode_area_start_block == fsA.inode_area_start_block,
            fsB.data_area_start_block == fsA.data_area_start_block,
        ensures
            self.iv(fsB) == self.iv(fsA),
            self.contents(fsB) == self.contents(fsA),
            self.entries(fsB) == self.entries(fsA),
            spec_all_blocks(fsB.bs(), self.iv(fsB)) == spec_all_blocks(fsA.bs(), self.iv(fsA)),
            self.inode_ok(fsB),
            self.readable(fsB),
            self.dir_ok(fsA) ==> self.dir_ok(fsB),
    {
        let v = self.iv(fsA);
        fsA.lemma_inode_pos_ok(self.inode_id as int);
        fsA.lemma_inode_pos_ok(peer.inode_id as int);
        fsA.cache.lemma_block_len(peer.block_id as int);
        assert(self.iv(fsB) == v) by {
            if self.block_id == peer.block_id {
                lemma_distinct_records(fsA, self.inode_id as int, peer.inode_id as int);
                assert forall|j: int|
                    self.block_offset <= j < self.block_offset + INODE_SZ implies fsB.bs()[
                self.block_id as int][j] == fsA.bs()[self.block_id as int][j] by {
                    assert(!(peer.block_offset <= j < peer.block_offset + INODE_SZ));
                }
                assert(fsB.bs()[self.block_id as int].subrange(
                    self.block_offset as int,
                    self.block_offset + INODE_SZ,
                ) =~= fsA.bs()[self.block_id as int].subrange(
                    self.block_offset as int,
                    self.block_offset + INODE_SZ,
                ));
            } else {
                assert(fsB.bs()[self.block_id as int] == fsA.bs()[self.block_id as int]);
            }
        }
        let all = spec_all_blocks(fsA.bs(), v);
        assert forall|i: int| 0 <= i < all.len() implies fsB.bs()[#[trigger] all[i] as int]
            == fsA.bs()[all[i] as int] by {
            assert(fsA.data_area_start_block <= all[i]);
            assert(peer.block_id < fsA.data_bitmap.start_block_id < fsA.data_area_start_block);
        }
        Self::lemma_view_stable(fsA.bs(), fsB.bs(), v);
        assert forall|i: int|
            0 <= i < spec_all_blocks(fsB.bs(), v).len() implies fsB.data_block_used(
            #[trigger] spec_all_blocks(fsB.bs(), v)[i] as int,
        ) by {
            assert(spec_all_blocks(fsB.bs(), v)[i] == all[i]);
            assert(fsA.data_block_used(all[i] as int));
            let bit = all[i] - fsA.data_area_start_block;
            let bblk = fsA.data_bitmap.start_block_id + bit / (crate::bitmap::BLOCK_BITS as int);
            assert(fsA.data_bitmap.start_block_id <= bblk && bit / (
            crate::bitmap::BLOCK_BITS as int) < fsA.data_bitmap.blocks) by (nonlinear_arith)
                requires
                    0 <= bit < fsA.data_bitmap.max_bits,
                    fsA.data_bitmap.max_bits <= fsA.data_bitmap.blocks * crate::bitmap::BLOCK_BITS,
                    bblk == fsA.data_bitmap.start_block_id + bit / (
                    crate::bitmap::BLOCK_BITS as int),
                    crate::bitmap::BLOCK_BITS == 4096,
            ;
            assert(fsB.bs()[bblk] == fsA.bs()[bblk]) by {
                assert(peer.block_id < fsA.data_bitmap.start_block_id);
            }
        }
        if self.dir_ok(fsA) {
            assert(self.entries(fsB) == self.entries(fsA));
            assert forall|i: int|
                0 <= i < self.entries(fsB).len() implies (#[trigger] self.entries(
                fsB,
            )[i]).inode_number < fsB.inode_bitmap.max_bits && valid_name_bytes(
                self.entries(fsB)[i].name,
            ) && valid_utf8(self.entries(fsB)[i].name) by {
                assert(self.entries(fsB)[i] == self.entries(fsA)[i]);
                assert((#[trigger] self.entries(fsA)[i]).inode_number
                    < fsA.inode_bitmap.max_bits);
                assert(valid_name_bytes(self.entries(fsA)[i].name) && valid_utf8(
                    self.entries(fsA)[i].name,
                ));
            }
        }
    }

    /// A different inode's record is untouched by this handle's own
    /// operations: their records live in different blocks or in disjoint
    /// ranges of one block, and the frame of every operation covers both.
    proof fn lemma_peer_record_preserved(
        &self,
        fsA: EasyFileSystem,
        fsB: EasyFileSystem,
        t: Inode,
    )
        requires
            fsA.wf(),
            fsB.wf(),
            self.pos_ok(fsA),
            t.pos_ok(fsA),
            t.inode_id != self.inode_id,
            fsB.bs().len() == fsA.bs().len(),
            fsB.inode_bitmap == fsA.inode_bitmap,
            fsB.data_bitmap == fsA.data_bitmap,
            fsB.inode_area_start_block == fsA.inode_area_start_block,
            fsB.data_area_start_block == fsA.data_area_start_block,
            self.frame_except(fsA, fsB),
        ensures
            t.iv(fsB) == t.iv(fsA),
    {
        fsA.lemma_inode_pos_ok(self.inode_id as int);
        fsA.lemma_inode_pos_ok(t.inode_id as int);
        if t.block_id == self.block_id {
            lemma_distinct_records(fsA, self.inode_id as int, t.inode_id as int);
            fsA.cache.lemma_block_len(t.block_id as int);
            fsB.cache.lemma_block_len(t.block_id as int);
            assert forall|j: int|
                t.block_offset <= j < t.block_offset + INODE_SZ implies fsB.bs()[
            t.block_id as int][j] == fsA.bs()[t.block_id as int][j] by {
                assert(!(self.block_offset <= j < self.block_offset + INODE_SZ));
            }
            assert(fsB.bs()[t.block_id as int].subrange(
                t.block_offset as int,
                t.block_offset + INODE_SZ,
            ) =~= fsA.bs()[t.block_id as int].subrange(
                t.block_offset as int,
                t.block_offset + INODE_SZ,
            ));
        } else {
            assert(t.block_id < fsA.data_bitmap.start_block_id);
            assert(fsB.bs()[t.block_id as int] == fsA.bs()[t.block_id as int]);
        }
    }
}

} // verus!
