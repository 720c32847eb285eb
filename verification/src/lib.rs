//! A block-device-backed filesystem: a flat array of fixed-size blocks is
//! turned into a hierarchical namespace of files with hard-link semantics.
//!
//! The stack, from the bottom up:
//! - [`block_dev`]: the fixed-size-block storage the filesystem persists to;
//! - [`block_cache`]: a bounded, write-back cache of block buffers;
//! - [`bitmap`]: free-space tracking for inode slots and data blocks;
//! - [`layout`]: the on-disk records (super block, inode, directory entry)
//!   and their byte encodings;
//! - [`efs`]: the filesystem manager that owns the geometry and the two
//!   allocators and coordinates every structural mutation;
//! - [`vfs`]: the handle layer exposing create / find / read / write /
//!   link / unlink / list operations.
//!
//! All shared state is owned and passed explicitly: the manager and the cache
//! are plain values handed by `&mut` to every operation, so exclusive access
//! (which a multi-threaded caller would obtain with a lock around the whole
//! filesystem value) is enforced by ownership.

use vstd::prelude::*;

pub mod bitmap;
pub mod block_cache;
pub mod block_dev;
pub mod efs;
pub mod layout;
pub mod vfs;

verus! {

/// Size in bytes of one storage block, the unit of caching and of device I/O.
pub const BLOCK_SZ: usize = 512;

/// An error surfaced by a filesystem operation.
///
/// `NotFound`, `AlreadyExists` and `NoSpace` are recoverable conditions that
/// callers are expected to handle; `Corrupt` reports an on-disk consistency
/// violation (such as freeing a block that is already free), after which the
/// stored state can no longer be trusted.
#[derive(Clone, Copy, PartialEq, Eq, Structural, Debug)]
pub enum FsError {
    /// Name resolution failed: no directory entry carries the name.
    NotFound,
    /// An entry with the given name is already present.
    AlreadyExists,
    /// An allocator ran out of inode slots or data blocks.
    NoSpace,
    /// An internal consistency check failed; the on-disk state is suspect.
    Corrupt,
}

} // verus!
