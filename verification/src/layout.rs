//! Volume geometry: fixed sizes, byte offsets of the four on-disk regions,
//! and the spec-level views of the FAT, the directory slots and the data
//! clusters as functions of the raw image bytes.

use vstd::prelude::*;

verus! {

/// A 32-bit little-endian integer read from four bytes.
pub open spec fn le32_of(s: Seq<u8>) -> u32
    recommends
        s.len() == 4,
{
    (s[0] as u32) | ((s[1] as u32) << 8) | ((s[2] as u32) << 16) | ((s[3] as u32) << 24)
}

pub const SECTOR_SIZE: usize = 512;

pub const CLUSTER_SIZE: usize = 2048;

pub const MAX_CLUSTERS: usize = 1024;

pub const FAT_SIZE_SECTORS: usize = 8;

pub const BOOT_SECTOR_COUNT: usize = 1;

pub const ROOT_DIR_SECTORS: usize = 4;

pub const DIR_ENTRY_SIZE: usize = 64;

pub const ROOT_ENTRIES: usize = 32;

pub const MAX_FILENAME_LENGTH: usize = 32;

/// Byte offset of the FAT region: right after the boot sector.
pub const FAT_START_BYTE: usize = 512;

/// Byte offset of the root directory region.
pub const ROOT_DIR_START_BYTE: usize = 4608;

/// Byte offset of the data region.
pub const DATA_START_BYTE: usize = 6656;

/// Total sectors: boot + FAT + root directory + data.
pub const TOTAL_SECTORS: usize = 4109;

/// Total byte length of a volume image.
pub const TOTAL_BYTES: usize = 2103808;

/// FAT sentinel: end of a cluster chain.
pub const FAT_EOC: u32 = 0xFFFFFFFF;

/// FAT sentinel: free cluster.
pub const FAT_FREE: u32 = 0x00000000;

/// The boot-sector region of an image.
pub open spec fn boot_region(d: Seq<u8>) -> Seq<u8> {
    d.subrange(0, FAT_START_BYTE as int)
}

/// The FAT region of an image.
pub open spec fn fat_region(d: Seq<u8>) -> Seq<u8> {
    d.subrange(FAT_START_BYTE as int, ROOT_DIR_START_BYTE as int)
}

/// The root-directory region of an image.
pub open spec fn dir_region(d: Seq<u8>) -> Seq<u8> {
    d.subrange(ROOT_DIR_START_BYTE as int, DATA_START_BYTE as int)
}

/// The data region of an image.
pub open spec fn data_region(d: Seq<u8>) -> Seq<u8> {
    d.subrange(DATA_START_BYTE as int, TOTAL_BYTES as int)
}

/// The FAT entry of cluster `n`: a 32-bit little-endian next-pointer.
pub open spec fn fat_entry(d: Seq<u8>, n: int) -> u32 {
    le32_of(d.subrange(FAT_START_BYTE + 4 * n, FAT_START_BYTE + 4 * n + 4))
}

/// The whole FAT as a sequence of `MAX_CLUSTERS` next-pointers.
pub open spec fn fat_of(d: Seq<u8>) -> Seq<u32> {
    Seq::new(MAX_CLUSTERS as nat, |i: int| fat_entry(d, i))
}

/// The raw 64 bytes of directory slot `i`.
pub open spec fn slot_bytes(d: Seq<u8>, i: int) -> Seq<u8> {
    d.subrange(ROOT_DIR_START_BYTE + DIR_ENTRY_SIZE * i, ROOT_DIR_START_BYTE + DIR_ENTRY_SIZE * i
        + DIR_ENTRY_SIZE)
}

/// The 2048 content bytes of data cluster `n` (`n >= 2`).
pub open spec fn cluster_bytes(d: Seq<u8>, n: int) -> Seq<u8> {
    d.subrange(DATA_START_BYTE + CLUSTER_SIZE * (n - 2), DATA_START_BYTE + CLUSTER_SIZE * (n - 2)
        + CLUSTER_SIZE)
}

/// A next-pointer that names an ordinary data cluster.
pub open spec fn is_data_cluster(c: u32) -> bool {
    2 <= c < MAX_CLUSTERS
}

/// Number of clusters a stored payload of `len` bytes occupies: at least one,
/// else one per started cluster.
pub open spec fn clusters_for(len: nat) -> nat {
    if len == 0 {
        1
    } else {
        ((len + CLUSTER_SIZE - 1) / CLUSTER_SIZE as int) as nat
    }
}

} // verus!
