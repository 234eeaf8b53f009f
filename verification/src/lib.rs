//! A miniature FAT-style filesystem held in a single in-memory disk image.
//!
//! The image is a fixed-size byte array laid out as
//! `[boot sector | FAT | root directory | data clusters]`.  Files live in a
//! flat namespace; each file's stored bytes may be compressed with a
//! byte-run-length codec or with raw deflate before being placed in a chain
//! of 2048-byte clusters linked through the FAT.

pub mod codec;
pub mod entry;
pub mod fs;
pub mod layout;

use vstd::prelude::*;

verus! {

/// Error kinds surfaced by the filesystem core.
#[derive(Clone, Copy, Debug, PartialEq, Eq, Structural)]
pub enum FsError {
    /// Boot signature or identifier mismatch while mounting.
    NotAVolume,
    /// The named file is absent.
    NotFound,
    /// The FAT has no free cluster left.
    NoSpace,
    /// No reusable directory slot is available.
    DirFull,
    /// Unknown compression method or an unusable name.
    InvalidArgument,
    /// A cluster chain ends early, or stored bytes fail to decompress
    /// to the declared original size.
    Corruption,
    /// The compression backend failed.
    Io,
}

} // verus!
