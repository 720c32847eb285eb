use easy_fs::efs::EasyFileSystem;
use easy_fs::layout::DiskInode;
use easy_fs::vfs::Inode;
use easy_fs::FsError;

fn fresh_fs() -> EasyFileSystem {
    EasyFileSystem::create(2048, 1)
}

#[test]
fn round_trip_write_read() {
    let mut fs = fresh_fs();
    let root = Inode::root(&fs);
    let f = root.create(&mut fs, "f").expect("create f");
    let data = b"hello, block world".to_vec();
    let n = f.write_at(&mut fs, 0, data.as_slice()).expect("write");
    assert_eq!(n, data.len());
    let back = f.read_at(&mut fs, 0, data.len());
    assert_eq!(back, data);
}

#[test]
fn round_trip_at_offset_with_zero_gap() {
    let mut fs = fresh_fs();
    let root = Inode::root(&fs);
    let f = root.create(&mut fs, "gap").expect("create");
    let data = vec![7u8, 8, 9];
    f.write_at(&mut fs, 1000, data.as_slice()).expect("write");
    let back = f.read_at(&mut fs, 1000, 3);
    assert_eq!(back, data);
    // The bytes never written, before the offset, read as zero.
    let gap = f.read_at(&mut fs, 0, 1000);
    assert_eq!(gap.len(), 1000);
    assert!(gap.iter().all(|b| *b == 0));
}

#[test]
fn create_then_find_same_inode() {
    let mut fs = fresh_fs();
    let root = Inode::root(&fs);
    let a = root.create(&mut fs, "a").expect("create a");
    let found = root.find(&mut fs, "a").expect("find a");
    assert_eq!(found.inode_id(), a.inode_id());
}

#[test]
fn duplicate_create_fails_without_consuming_a_slot() {
    let mut fs = fresh_fs();
    let root = Inode::root(&fs);
    let first = root.create(&mut fs, "dup").expect("first create");
    assert_eq!(root.create(&mut fs, "dup").unwrap_err(), FsError::AlreadyExists);
    // The refused creation consumed nothing: the next slot handed out is
    // adjacent to the first.
    let other = root.create(&mut fs, "other").expect("create other");
    assert_eq!(other.inode_id(), first.inode_id() + 1);
}

#[test]
fn link_and_unlink_counting() {
    let mut fs = fresh_fs();
    let root = Inode::root(&fs);
    let a = root.create(&mut fs, "a").expect("create a");
    let payload = b"shared bytes".to_vec();
    a.write_at(&mut fs, 0, payload.as_slice()).expect("write");
    assert_eq!(a.nlink(&mut fs), 1);

    assert_eq!(root.link(&mut fs, "a", "b"), Ok(()));
    assert_eq!(a.nlink(&mut fs), 2);
    let b = root.find(&mut fs, "b").expect("find b");
    assert_eq!(b.inode_id(), a.inode_id());
    let names = root.ls(&mut fs);
    assert!(names.iter().any(|n| n == "a"));
    assert!(names.iter().any(|n| n == "b"));

    assert_eq!(root.unlink(&mut fs, "a"), Ok(()));
    assert_eq!(b.nlink(&mut fs), 1);
    let names = root.ls(&mut fs);
    assert!(!names.iter().any(|n| n == "a"));
    // The contents survive under the other name.
    let back = b.read_at(&mut fs, 0, payload.len());
    assert_eq!(back, payload);

    assert_eq!(root.unlink(&mut fs, "b"), Ok(()));
    assert_eq!(b.nlink(&mut fs), 0);
    assert_eq!(b.read_at(&mut fs, 0, 4).len(), 0);
}

#[test]
fn unlink_frees_blocks_for_reuse() {
    let mut fs = fresh_fs();
    let root = Inode::root(&fs);
    let f = root.create(&mut fs, "big").expect("create");
    let chunk = vec![0xabu8; 4096];
    f.write_at(&mut fs, 0, chunk.as_slice()).expect("write");
    let before = fs.alloc_data().expect("probe");
    fs.dealloc_data(before).expect("give back probe");
    assert_eq!(root.unlink(&mut fs, "big"), Ok(()));
    // Freed blocks are handed out again: the first-fit allocator now finds
    // a block at or before the old high-water mark.
    let after = fs.alloc_data().expect("realloc");
    assert!(after < before);
    fs.dealloc_data(after).expect("give back");
}

#[test]
fn growth_accounting_formula() {
    assert_eq!(DiskInode::total_blocks(0), 0);
    assert_eq!(DiskInode::total_blocks(1), 1);
    assert_eq!(DiskInode::total_blocks(512), 1);
    assert_eq!(DiskInode::total_blocks(513), 2);
    // All direct pointers in use.
    assert_eq!(DiskInode::total_blocks(27 * 512), 27);
    // One past the direct capacity brings in the level-1 index block.
    assert_eq!(DiskInode::total_blocks(27 * 512 + 1), 29);
    // The full level-1 tier.
    assert_eq!(DiskInode::total_blocks(155 * 512), 156);
    // One past it brings in the level-2 block and its first child.
    assert_eq!(DiskInode::total_blocks(155 * 512 + 1), 159);
}

#[test]
fn growth_through_both_indirect_tiers() {
    let mut fs = fresh_fs();
    let root = Inode::root(&fs);
    let f = root.create(&mut fs, "deep").expect("create");
    // 200 * 1024 bytes = 400 data blocks: past the level-1 capacity of 155.
    let size: usize = 200 * 1024;
    let pattern: Vec<u8> = (0..size).map(|i| (i % 251) as u8).collect();
    let n = f.write_at(&mut fs, 0, pattern.as_slice()).expect("write");
    assert_eq!(n, size);
    let back = f.read_at(&mut fs, 0, size);
    assert_eq!(back, pattern);
    // Reads across the tier boundaries see the same bytes.
    let mid = f.read_at(&mut fs, 155 * 512 - 7, 14);
    assert_eq!(mid, pattern[155 * 512 - 7..155 * 512 + 7].to_vec());
}

#[test]
fn ls_keeps_survivor_order_after_unlink() {
    let mut fs = fresh_fs();
    let root = Inode::root(&fs);
    root.create(&mut fs, "x").expect("x");
    root.create(&mut fs, "y").expect("y");
    root.create(&mut fs, "z").expect("z");
    assert_eq!(root.ls(&mut fs), vec!["x", "y", "z"]);
    assert_eq!(root.unlink(&mut fs, "y"), Ok(()));
    assert_eq!(root.ls(&mut fs), vec!["x", "z"]);
}

#[test]
fn find_missing_and_unlink_missing() {
    let mut fs = fresh_fs();
    let root = Inode::root(&fs);
    assert!(root.find(&mut fs, "nope").is_none());
    assert_eq!(root.unlink(&mut fs, "nope"), Err(FsError::NotFound));
}

#[test]
fn link_rejects_same_name_and_missing_source() {
    let mut fs = fresh_fs();
    let root = Inode::root(&fs);
    root.create(&mut fs, "a").expect("a");
    assert_eq!(root.link(&mut fs, "a", "a"), Err(FsError::AlreadyExists));
    assert_eq!(root.link(&mut fs, "ghost", "g2"), Err(FsError::NotFound));
}

#[test]
fn clear_truncates_to_empty() {
    let mut fs = fresh_fs();
    let root = Inode::root(&fs);
    let f = root.create(&mut fs, "t").expect("create");
    f.write_at(&mut fs, 0, b"soon gone".as_slice()).expect("write");
    f.clear(&mut fs);
    assert_eq!(f.read_at(&mut fs, 0, 16).len(), 0);
    assert_eq!(f.nlink(&mut fs), 1);
}

#[test]
fn root_is_a_directory_and_files_are_not() {
    let mut fs = fresh_fs();
    let root = Inode::root(&fs);
    assert!(root.is_dir(&mut fs));
    let f = root.create(&mut fs, "plain").expect("create");
    assert!(!f.is_dir(&mut fs));
    assert_eq!(f.nlink(&mut fs), 1);
}

#[test]
fn data_block_allocation_is_first_fit_and_rejects_double_free() {
    let mut fs = fresh_fs();
    let a = fs.alloc_data().expect("alloc a");
    let b = fs.alloc_data().expect("alloc b");
    assert_ne!(a, b);
    fs.dealloc_data(a).expect("free a");
    // First fit: the freed block is handed out again before a new one.
    let c = fs.alloc_data().expect("realloc");
    assert_eq!(c, a);
    fs.dealloc_data(b).expect("free b");
    assert_eq!(fs.dealloc_data(b), Err(FsError::Corrupt));
}
