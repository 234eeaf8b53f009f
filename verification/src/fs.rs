//! The filesystem proper: an in-memory volume image together with the FAT
//! allocator, the directory table, the read/write pipeline and the volume
//! lifecycle.
//!
//! The state of a filesystem is exactly the bytes of its image, so every
//! operation is specified as a function of those bytes.  Persisting the
//! image to a host file, and loading it back, is the caller's business.

use crate::codec::deflate_compress;
use crate::codec::deflate_decompress;
use crate::codec::inflate_of;
use crate::codec::rle_compress_data;
use crate::codec::rle_decompress_data;
use crate::codec::deflate_of;
use crate::codec::rle_decode;
use crate::codec::lemma_rle_round_trip;
use crate::codec::rle_encode;
use crate::entry::decode_slot;
use crate::entry::encode_entry;
use crate::entry::slot_live;
use crate::entry::slot_used;
use crate::entry::stored_name;
use crate::entry::EntryModel;
use crate::entry::FileEntry;
use crate::layout::boot_region;
use crate::layout::cluster_bytes;
use crate::layout::clusters_for;
use crate::layout::data_region;
use crate::layout::dir_region;
use crate::layout::fat_entry;
use crate::layout::fat_of;
use crate::layout::fat_region;
use crate::layout::is_data_cluster;
use crate::layout::le32_of;
use crate::layout::slot_bytes;
use crate::layout::CLUSTER_SIZE;
use crate::layout::DATA_START_BYTE;
use crate::layout::DIR_ENTRY_SIZE;
use crate::layout::FAT_EOC;
use crate::layout::FAT_FREE;
use crate::layout::FAT_START_BYTE;
use crate::layout::MAX_CLUSTERS;
use crate::layout::MAX_FILENAME_LENGTH;
use crate::layout::ROOT_DIR_START_BYTE;
use crate::layout::ROOT_ENTRIES;
use crate::layout::TOTAL_BYTES;
use crate::FsError;
use vstd::pervasive::VecAdditionalExecFns;
use vstd::prelude::*;
use vstd::slice::slice_subrange;

verus! {

/// A mounted volume: the bytes of its disk image.
pub struct FileSystem {
    disk: Vec<u8>,
}

/// `d1` is `d0` with the byte range starting at `off` replaced by `v`.
pub open spec fn spliced(d0: Seq<u8>, d1: Seq<u8>, off: int, v: Seq<u8>) -> bool {
    &&& 0 <= off
    &&& off + v.len() <= d0.len()
    &&& d1 == d0.take(off) + v + d0.skip(off + v.len())
}

/// Bytes outside a replaced range are untouched.
pub proof fn lemma_splice_outside(d0: Seq<u8>, d1: Seq<u8>, off: int, v: Seq<u8>, a: int, b: int)
    requires
        spliced(d0, d1, off, v),
        0 <= a <= b <= d0.len(),
        b <= off || off + v.len() <= a,
    ensures
        d1.subrange(a, b) == d0.subrange(a, b),
{
    assert(d1.subrange(a, b) =~= d0.subrange(a, b));
}

/// Bytes inside a replaced range come from the replacement.
pub proof fn lemma_splice_inside(d0: Seq<u8>, d1: Seq<u8>, off: int, v: Seq<u8>, a: int, b: int)
    requires
        spliced(d0, d1, off, v),
        off <= a <= b <= off + v.len(),
    ensures
        d1.subrange(a, b) == v.subrange(a - off, b - off),
{
    assert(d1.subrange(a, b) =~= v.subrange(a - off, b - off));
}

/// Splitting a 32-bit value into its four little-endian bytes and reading
/// them back yields the value.
pub proof fn lemma_le32_round(x: u32)
    ensures
        le32_of(
            seq![
                (x & 0xFF) as u8,
                ((x >> 8) & 0xFF) as u8,
                ((x >> 16) & 0xFF) as u8,
                ((x >> 24) & 0xFF) as u8,
            ],
        ) == x,
{
    assert((((x & 0xFF) as u8) as u32) | ((((x >> 8) & 0xFF) as u8) as u32) << 8 | ((((x >> 16)
        & 0xFF) as u8) as u32) << 16 | ((((x >> 24) & 0xFF) as u8) as u32) << 24 == x)
        by (bit_vector);
}

impl FileSystem {
    /// The bytes of the disk image.
    pub closed spec fn bytes(&self) -> Seq<u8> {
        self.disk@
    }

    /// Well-formedness: the image has exactly the volume length.
    pub closed spec fn inv(&self) -> bool {
        self.disk@.len() == TOTAL_BYTES
    }

    /// Reads `len` bytes at absolute offset `off`.
    fn read_bytes(&self, off: usize, len: usize) -> (r: Vec<u8>)
        requires
            self.inv(),
            off + len <= TOTAL_BYTES,
        ensures
            r@ == self.bytes().subrange(off as int, off + len),
    {
        let mut r: Vec<u8> = Vec::new();
        let mut i: usize = 0;
        while i < len
            invariant
                self.inv(),
                i <= len,
                off + len <= TOTAL_BYTES,
                r@ =~= self.bytes().subrange(off as int, off + i),
            decreases len - i,
        {
            r.push(self.disk[off + i]);
            assert(r@ =~= self.bytes().subrange(off as int, off + i + 1));
            i = i + 1;
        }
        r
    }

    /// Overwrites the bytes at absolute offset `off` with `v`.
    fn write_bytes(&mut self, off: usize, v: &[u8])
        requires
            old(self).inv(),
            off + v@.len() <= TOTAL_BYTES,
        ensures
            final(self).inv(),
            spliced(old(self).bytes(), final(self).bytes(), off as int, v@),
    {
        let ghost d0 = self.disk@;
        let mut i: usize = 0;
        while i < v.len()
            invariant
                i <= v@.len(),
                off + v@.len() <= TOTAL_BYTES,
                self.disk@.len() == TOTAL_BYTES,
                d0.len() == TOTAL_BYTES,
                self.disk@ =~= d0.take(off as int) + v@.take(i as int) + d0.skip(off + i),
            decreases v@.len() - i,
        {
            self.disk.set(off + i, v[i]);
            assert(self.disk@ =~= d0.take(off as int) + v@.take(i + 1) + d0.skip(off + i + 1));
            i = i + 1;
        }
        assert(v@.take(v@.len() as int) =~= v@);
    }

    /// The FAT next-pointer of `cluster`.
    fn get_next_cluster(&self, cluster: u32) -> (r: u32)
        requires
            self.inv(),
            cluster < MAX_CLUSTERS,
        ensures
            r == fat_of(self.bytes())[cluster as int],
    {
        let b = self.read_bytes(FAT_START_BYTE + 4 * (cluster as usize), 4);
        let r = (b[0] as u32) | ((b[1] as u32) << 8) | ((b[2] as u32) << 16) | ((b[3] as u32)
            << 24);
        assert(fat_of(self.bytes())[cluster as int] == fat_entry(self.bytes(), cluster as int));
        assert(r == le32_of(b@));
        r
    }

    /// Sets the FAT next-pointer of `cluster` to `next_cluster`; nothing
    /// else on the volume changes.
    fn set_next_cluster(&mut self, cluster: u32, next_cluster: u32)
        requires
            old(self).inv(),
            cluster < MAX_CLUSTERS,
        ensures
            final(self).inv(),
            fat_of(final(self).bytes()) == fat_of(old(self).bytes()).update(
                cluster as int,
                next_cluster,
            ),
            boot_region(final(self).bytes()) == boot_region(old(self).bytes()),
            dir_region(final(self).bytes()) == dir_region(old(self).bytes()),
            data_region(final(self).bytes()) == data_region(old(self).bytes()),
    {
        let mut v: Vec<u8> = Vec::new();
        v.push((next_cluster & 0xFF) as u8);
        v.push(((next_cluster >> 8) & 0xFF) as u8);
        v.push(((next_cluster >> 16) & 0xFF) as u8);
        v.push(((next_cluster >> 24) & 0xFF) as u8);
        proof {
            lemma_le32_round(next_cluster);
            assert(v@ =~= seq![
                (next_cluster & 0xFF) as u8,
                ((next_cluster >> 8) & 0xFF) as u8,
                ((next_cluster >> 16) & 0xFF) as u8,
                ((next_cluster >> 24) & 0xFF) as u8,
            ]);
            assert(le32_of(v@) == next_cluster);
        }
        let off = FAT_START_BYTE + 4 * (cluster as usize);
        self.write_bytes(off, v.as_slice());
        proof {
            let d0 = old(self).bytes();
            let d1 = self.bytes();
            lemma_splice_outside(d0, d1, off as int, v@, 0, FAT_START_BYTE as int);
            lemma_splice_outside(
                d0,
                d1,
                off as int,
                v@,
                ROOT_DIR_START_BYTE as int,
                DATA_START_BYTE as int,
            );
            lemma_splice_outside(d0, d1, off as int, v@, DATA_START_BYTE as int, TOTAL_BYTES as int);
            assert forall|n: int| 0 <= n < MAX_CLUSTERS implies #[trigger] fat_of(d1)[n] == fat_of(
                d0,
            ).update(cluster as int, next_cluster)[n] by {
                if n == cluster as int {
                    lemma_splice_inside(d0, d1, off as int, v@, off as int, off + 4);
                    assert(v@.subrange(0, 4) =~= v@);
                    assert(fat_entry(d1, n) == next_cluster);
                } else {
                    lemma_splice_outside(
                        d0,
                        d1,
                        off as int,
                        v@,
                        FAT_START_BYTE + 4 * n,
                        FAT_START_BYTE + 4 * n + 4,
                    );
                    assert(fat_entry(d1, n) == fat_entry(d0, n));
                }
            }
            assert(fat_of(d1) =~= fat_of(d0).update(cluster as int, next_cluster));
        }
    }

    /// The 2048 bytes of data cluster `cluster`.
    fn read_cluster(&self, cluster: u32) -> (r: Vec<u8>)
        requires
            self.inv(),
            2 <= cluster < MAX_CLUSTERS,
        ensures
            r@ == cluster_bytes(self.bytes(), cluster as int),
            r@.len() == CLUSTER_SIZE,
    {
        self.read_bytes(DATA_START_BYTE + CLUSTER_SIZE * (cluster as usize - 2), CLUSTER_SIZE)
    }

    /// Writes `data` at the start of data cluster `cluster` and zero-fills
    /// the rest of the cluster; nothing else on the volume changes.
    fn write_cluster(&mut self, cluster: u32, data: &[u8])
        requires
            old(self).inv(),
            2 <= cluster < MAX_CLUSTERS,
            data@.len() <= CLUSTER_SIZE,
        ensures
            final(self).inv(),
            cluster_bytes(final(self).bytes(), cluster as int) == pad_cluster(data@),
            forall|j: int|
                2 <= j < MAX_CLUSTERS && j != cluster ==> #[trigger] cluster_bytes(
                    final(self).bytes(),
                    j,
                ) == cluster_bytes(old(self).bytes(), j),
            boot_region(final(self).bytes()) == boot_region(old(self).bytes()),
            fat_region(final(self).bytes()) == fat_region(old(self).bytes()),
            dir_region(final(self).bytes()) == dir_region(old(self).bytes()),
    {
        let mut buf: Vec<u8> = Vec::new();
        let mut i: usize = 0;
        while i < data.len()
            invariant
                i <= data@.len(),
                data@.len() <= CLUSTER_SIZE,
                buf@ =~= data@.take(i as int),
            decreases data@.len() - i,
        {
            buf.push(data[i]);
            assert(buf@ =~= data@.take(i + 1));
            i = i + 1;
        }
        assert(buf@ =~= data@);
        while buf.len() < CLUSTER_SIZE
            invariant
                data@.len() <= buf@.len() <= CLUSTER_SIZE,
                buf@ =~= data@ + Seq::new((buf@.len() - data@.len()) as nat, |k: int| 0u8),
            decreases CLUSTER_SIZE - buf@.len(),
        {
            buf.push(0u8);
            assert(buf@ =~= data@ + Seq::new((buf@.len() - data@.len()) as nat, |k: int| 0u8));
        }
        assert(buf@ =~= pad_cluster(data@));
        let off = DATA_START_BYTE + CLUSTER_SIZE * (cluster as usize - 2);
        self.write_bytes(off, buf.as_slice());
        proof {
            let d0 = old(self).bytes();
            let d1 = self.bytes();
            lemma_splice_outside(d0, d1, off as int, buf@, 0, FAT_START_BYTE as int);
            lemma_splice_outside(
                d0,
                d1,
                off as int,
                buf@,
                FAT_START_BYTE as int,
                ROOT_DIR_START_BYTE as int,
            );
            lemma_splice_outside(
                d0,
                d1,
                off as int,
                buf@,
                ROOT_DIR_START_BYTE as int,
                DATA_START_BYTE as int,
            );
            lemma_splice_inside(d0, d1, off as int, buf@, off as int, off + CLUSTER_SIZE);
            assert(buf@.subrange(0, CLUSTER_SIZE as int) =~= buf@);
            assert(cluster_bytes(d1, cluster as int) == pad_cluster(data@));
            assert forall|j: int| 2 <= j < MAX_CLUSTERS && j != cluster implies #[trigger] cluster_bytes(
                d1,
                j,
            ) == cluster_bytes(d0, j) by {
                lemma_splice_outside(
                    d0,
                    d1,
                    off as int,
                    buf@,
                    DATA_START_BYTE + CLUSTER_SIZE * (j - 2),
                    DATA_START_BYTE + CLUSTER_SIZE * (j - 2) + CLUSTER_SIZE,
                );
            }
        }
    }
}

/// A stored chunk padded with zero bytes to a full cluster.
pub open spec fn pad_cluster(p: Seq<u8>) -> Seq<u8> {
    p + Seq::new((CLUSTER_SIZE - p.len()) as nat, |k: int| 0u8)
}

/// A valid chain of exactly `k` clusters starting at `c`: every link names
/// a data cluster and the last link is the end-of-chain sentinel.
pub open spec fn chain_ok(fat: Seq<u32>, c: u32, k: nat) -> bool
    decreases k,
{
    if !is_data_cluster(c) || k == 0 {
        false
    } else if k == 1 {
        fat[c as int] == FAT_EOC
    } else {
        is_data_cluster(fat[c as int]) && chain_ok(fat, fat[c as int], (k - 1) as nat)
    }
}

/// The clusters of a chain, in walk order.
pub open spec fn chain_seq(fat: Seq<u32>, c: u32, k: nat) -> Seq<u32>
    decreases k,
{
    if k == 0 {
        Seq::empty()
    } else {
        seq![c] + chain_seq(fat, fat[c as int], (k - 1) as nat)
    }
}

/// How many clusters at or after index `i` are free.
pub open spec fn count_free_from(fat: Seq<u32>, i: int) -> nat
    decreases MAX_CLUSTERS - i,
{
    if 2 <= i < MAX_CLUSTERS {
        (if fat[i] == FAT_FREE {
            1nat
        } else {
            0nat
        }) + count_free_from(fat, i + 1)
    } else {
        0
    }
}

/// How many free clusters the volume has.
pub open spec fn free_clusters(fat: Seq<u32>) -> nat {
    count_free_from(fat, 2)
}

/// How many clusters at or after index `i` are not free.
pub open spec fn count_used_from(fat: Seq<u32>, i: int) -> nat
    decreases MAX_CLUSTERS - i,
{
    if 2 <= i < MAX_CLUSTERS {
        (if fat[i] != FAT_FREE {
            1nat
        } else {
            0nat
        }) + count_used_from(fat, i + 1)
    } else {
        0
    }
}

/// The first free cluster at or after index `i`.
pub open spec fn first_free_from(fat: Seq<u32>, i: int) -> Option<int>
    decreases MAX_CLUSTERS - i,
{
    if 2 <= i < MAX_CLUSTERS {
        if fat[i] == FAT_FREE {
            Some(i)
        } else {
            first_free_from(fat, i + 1)
        }
    } else {
        None
    }
}

/// Overwriting one free slot with a nonzero value lowers the free count at
/// or before it by one.
proof fn lemma_count_free_update(fat: Seq<u32>, c: int, v: u32, i: int)
    requires
        fat.len() == MAX_CLUSTERS,
        2 <= c < MAX_CLUSTERS,
        fat[c] == FAT_FREE,
        v != FAT_FREE,
        2 <= i <= MAX_CLUSTERS,
    ensures
        count_free_from(fat.update(c, v), i) == count_free_from(fat, i) - (if i <= c {
            1int
        } else {
            0
        }),
    decreases MAX_CLUSTERS - i,
{
    if i < MAX_CLUSTERS {
        lemma_count_free_update(fat, c, v, i + 1);
    }
}

/// Zeroing one used slot lowers the used count at or before it by one.
proof fn lemma_count_used_update(fat: Seq<u32>, c: int, i: int)
    requires
        fat.len() == MAX_CLUSTERS,
        2 <= c < MAX_CLUSTERS,
        fat[c] != FAT_FREE,
        2 <= i <= MAX_CLUSTERS,
    ensures
        count_used_from(fat.update(c, FAT_FREE), i) == count_used_from(fat, i) - (if i <= c {
            1int
        } else {
            0
        }),
    decreases MAX_CLUSTERS - i,
{
    if i < MAX_CLUSTERS {
        lemma_count_used_update(fat, c, i + 1);
    }
}

/// A volume with a free cluster has a first free cluster, and conversely.
pub proof fn lemma_first_free_count(fat: Seq<u32>, i: int)
    requires
        2 <= i <= MAX_CLUSTERS,
    ensures
        first_free_from(fat, i) is Some <==> count_free_from(fat, i) > 0,
        first_free_from(fat, i) matches Some(c) ==> i <= c < MAX_CLUSTERS && fat[c] == FAT_FREE
            && (forall|j: int| i <= j < c ==> fat[j] != FAT_FREE),
    decreases MAX_CLUSTERS - i,
{
    if i < MAX_CLUSTERS && fat[i] != FAT_FREE {
        lemma_first_free_count(fat, i + 1);
    } else if i < MAX_CLUSTERS {
        lemma_first_free_count(fat, i + 1);
    }
}

impl FileSystem {
    /// Counts the free clusters.
    fn count_free_clusters(&self) -> (r: usize)
        requires
            self.inv(),
        ensures
            r == free_clusters(fat_of(self.bytes())),
    {
        let ghost fat = fat_of(self.bytes());
        let mut count: usize = 0;
        let mut c: usize = 2;
        while c < MAX_CLUSTERS
            invariant
                self.inv(),
                2 <= c <= MAX_CLUSTERS,
                count <= c - 2,
                fat == fat_of(self.bytes()),
                count + count_free_from(fat, c as int) == free_clusters(fat),
            decreases MAX_CLUSTERS - c,
        {
            let next = self.get_next_cluster(c as u32);
            if next == FAT_FREE {
                count = count + 1;
            }
            c = c + 1;
        }
        count
    }

    /// Allocates the lowest-numbered free cluster, marking it end-of-chain,
    /// scanning from cluster 2 upward.  Fails with no-space when every
    /// cluster is taken.
    fn allocate_cluster(&mut self) -> (r: Result<u32, FsError>)
        requires
            old(self).inv(),
        ensures
            final(self).inv(),
            r is Ok <==> free_clusters(fat_of(old(self).bytes())) > 0,
            r matches Ok(c) ==> {
                &&& first_free_from(fat_of(old(self).bytes()), 2) == Some(c as int)
                &&& is_data_cluster(c)
                &&& fat_of(old(self).bytes())[c as int] == FAT_FREE
                &&& fat_of(final(self).bytes()) == fat_of(old(self).bytes()).update(
                    c as int,
                    FAT_EOC,
                )
                &&& free_clusters(fat_of(final(self).bytes())) == free_clusters(
                    fat_of(old(self).bytes()),
                ) - 1
                &&& boot_region(final(self).bytes()) == boot_region(old(self).bytes())
                &&& dir_region(final(self).bytes()) == dir_region(old(self).bytes())
                &&& data_region(final(self).bytes()) == data_region(old(self).bytes())
            },
            r is Err ==> final(self).bytes() == old(self).bytes() && r == Err::<u32, FsError>(
                FsError::NoSpace,
            ),
    {
        let ghost d0 = self.bytes();
        let ghost fat = fat_of(d0);
        proof {
            lemma_first_free_count(fat, 2);
        }
        let mut c: usize = 2;
        while c < MAX_CLUSTERS
            invariant
                self.inv(),
                self.bytes() == d0,
                d0 == old(self).bytes(),
                2 <= c <= MAX_CLUSTERS,
                fat == fat_of(d0),
                first_free_from(fat, 2) == first_free_from(fat, c as int),
                forall|j: int| 2 <= j < c ==> fat[j] != FAT_FREE,
            decreases MAX_CLUSTERS - c,
        {
            let next = self.get_next_cluster(c as u32);
            if next == FAT_FREE {
                self.set_next_cluster(c as u32, FAT_EOC);
                proof {
                    lemma_count_free_update(fat, c as int, FAT_EOC, 2);
                    lemma_first_free_count(fat, 2);
                }
                return Ok(c as u32);
            }
            c = c + 1;
        }
        proof {
            lemma_first_free_count(fat, 2);
        }
        Err(FsError::NoSpace)
    }

    /// Frees a cluster chain, walking next-pointers from `start_cluster`
    /// and zeroing each visited slot, reading each next-pointer before
    /// overwriting it.  The walk stops at the end-of-chain sentinel, at any
    /// pointer outside the data clusters, and at already-free slots, so it
    /// terminates on corrupt volumes too.
    fn free_cluster_chain(&mut self, start_cluster: u32)
        requires
            old(self).inv(),
        ensures
            final(self).inv(),
            boot_region(final(self).bytes()) == boot_region(old(self).bytes()),
            dir_region(final(self).bytes()) == dir_region(old(self).bytes()),
            data_region(final(self).bytes()) == data_region(old(self).bytes()),
            forall|n: int|
                0 <= n < MAX_CLUSTERS ==> #[trigger] fat_of(final(self).bytes())[n] == fat_of(
                    old(self).bytes(),
                )[n] || fat_of(final(self).bytes())[n] == FAT_FREE,
            !is_data_cluster(start_cluster) ==> final(self).bytes() == old(self).bytes(),
            forall|k: nat|
                #[trigger] chain_ok(fat_of(old(self).bytes()), start_cluster, k) && chain_seq(
                    fat_of(old(self).bytes()),
                    start_cluster,
                    k,
                ).no_duplicates() ==> (forall|n: int|
                    0 <= n < MAX_CLUSTERS ==> #[trigger] fat_of(final(self).bytes())[n] == (
                    if chain_seq(fat_of(old(self).bytes()), start_cluster, k).contains(n as u32) {
                        FAT_FREE
                    } else {
                        fat_of(old(self).bytes())[n]
                    })),
    {
        if start_cluster < 2 || start_cluster >= MAX_CLUSTERS as u32 {
            return ;
        }
        let ghost d0 = self.bytes();
        let ghost fat0 = fat_of(d0);
        let ghost valid: bool = exists|k: nat|
            #[trigger] chain_ok(fat0, start_cluster, k) && chain_seq(
                fat0,
                start_cluster,
                k,
            ).no_duplicates();
        let ghost k: nat = if valid {
            choose|k: nat|
                #[trigger] chain_ok(fat0, start_cluster, k) && chain_seq(
                    fat0,
                    start_cluster,
                    k,
                ).no_duplicates()
        } else {
            0
        };
        let ghost ch = chain_seq(fat0, start_cluster, k);
        let mut current = start_cluster;
        let ghost mut j: int = 0;
        proof {
            if valid {
                lemma_chain_seq_props(fat0, start_cluster, k);
            }
        }
        while 2 <= current && current < MAX_CLUSTERS as u32
            invariant_except_break
                self.inv(),
                boot_region(self.bytes()) == boot_region(d0),
                dir_region(self.bytes()) == dir_region(d0),
                data_region(self.bytes()) == data_region(d0),
                fat0 == fat_of(d0),
                d0.len() == TOTAL_BYTES,
                ch == chain_seq(fat0, start_cluster, k),
                forall|n: int|
                    0 <= n < MAX_CLUSTERS ==> #[trigger] fat_of(self.bytes())[n] == fat0[n]
                        || fat_of(self.bytes())[n] == FAT_FREE,
                valid ==> {
                    &&& 0 <= j <= k
                    &&& chain_ok(fat0, start_cluster, k)
                    &&& ch.no_duplicates()
                    &&& ch.len() == k
                    &&& (j < k ==> current == ch[j])
                    &&& (j == k ==> !(2 <= current && current < MAX_CLUSTERS as u32))
                    &&& (forall|n: int|
                        0 <= n < MAX_CLUSTERS ==> #[trigger] fat_of(self.bytes())[n] == (
                        if ch.take(j).contains(n as u32) {
                            FAT_FREE
                        } else {
                            fat0[n]
                        }))
                },
            ensures
                self.inv(),
                boot_region(self.bytes()) == boot_region(d0),
                dir_region(self.bytes()) == dir_region(d0),
                data_region(self.bytes()) == data_region(d0),
                forall|n: int|
                    0 <= n < MAX_CLUSTERS ==> #[trigger] fat_of(self.bytes())[n] == fat0[n]
                        || fat_of(self.bytes())[n] == FAT_FREE,
                valid ==> {
                    &&& 0 <= j <= k
                    &&& ch.len() == k
                    &&& (j < k ==> current == ch[j])
                    &&& !(2 <= current && current < MAX_CLUSTERS as u32)
                    &&& (forall|n: int|
                        0 <= n < MAX_CLUSTERS ==> #[trigger] fat_of(self.bytes())[n] == (
                        if ch.take(j).contains(n as u32) {
                            FAT_FREE
                        } else {
                            fat0[n]
                        }))
                },
            decreases count_used_from(fat_of(self.bytes()), 2),
        {
            let next = self.get_next_cluster(current);
            let ghost fat_prev = fat_of(self.bytes());
            if next == FAT_FREE {
                self.set_next_cluster(current, FAT_FREE);
                proof {
                    if valid {
                        assert(j < k);
                        lemma_chain_seq_props(fat0, start_cluster, k);
                        lemma_chain_links(fat0, start_cluster, k, j);
                        assert(!ch.take(j).contains(ch[j])) by {
                            assert(ch.no_duplicates());
                            if ch.take(j).contains(ch[j]) {
                                let idx = choose|idx: int|
                                    0 <= idx < j && ch.take(j)[idx] == ch[j];
                                assert(ch[idx] == ch[j]);
                            }
                        }
                        assert(fat_prev[current as int] == fat0[current as int]);
                        assert(fat0[current as int] != FAT_FREE);
                        assert(false);
                    }
                    assert forall|n: int| 0 <= n < MAX_CLUSTERS implies #[trigger] fat_of(
                        self.bytes(),
                    )[n] == fat0[n] || fat_of(self.bytes())[n] == FAT_FREE by {
                        assert(fat_of(self.bytes()) == fat_prev.update(current as int, FAT_FREE));
                    }
                }
                break ;
            }
            self.set_next_cluster(current, FAT_FREE);
            proof {
                assert(fat_prev[current as int] == next);
                lemma_count_used_update(fat_prev, current as int, 2);
                if valid {
                    assert(j < k);
                    lemma_chain_seq_props(fat0, start_cluster, k);
                    lemma_chain_links(fat0, start_cluster, k, j);
                    assert(!ch.take(j).contains(ch[j])) by {
                        assert(ch.no_duplicates());
                        if ch.take(j).contains(ch[j]) {
                            let idx = choose|idx: int| 0 <= idx < j && ch.take(j)[idx] == ch[j];
                            assert(ch[idx] == ch[j]);
                        }
                    }
                    assert(fat_prev[current as int] == fat0[current as int]);
                    assert(next == fat0[current as int]);
                    assert forall|n: int| 0 <= n < MAX_CLUSTERS implies #[trigger] fat_of(
                        self.bytes(),
                    )[n] == (if ch.take(j + 1).contains(n as u32) {
                        FAT_FREE
                    } else {
                        fat0[n]
                    }) by {
                        assert(fat_of(self.bytes()) == fat_prev.update(current as int, FAT_FREE));
                        assert(ch.take(j + 1) =~= ch.take(j).push(ch[j]));
                        if ch.take(j + 1).contains(n as u32) {
                            if n as u32 == ch[j] {
                            } else {
                                assert(ch.take(j).contains(n as u32));
                            }
                        } else {
                            assert(!ch.take(j).contains(n as u32)) by {
                                if ch.take(j).contains(n as u32) {
                                    let idx = choose|idx: int|
                                        0 <= idx < j && ch.take(j)[idx] == n as u32;
                                    assert(ch.take(j + 1)[idx] == n as u32);
                                }
                            }
                            assert(n as u32 != ch[j]) by {
                                if n as u32 == ch[j] {
                                    assert(ch.take(j + 1)[j] == n as u32);
                                }
                            }
                        }
                    }
                    j = j + 1;
                    if j < k {
                        assert(current == ch[j - 1]);
                        assert(next == ch[j]);
                    } else {
                        assert(next == FAT_EOC);
                    }
                }
            }
            current = next;
        }
        proof {
            if valid {
                assert(j == k);
                assert(ch.take(j) =~= ch);
                assert forall|k2: nat|
                    #[trigger] chain_ok(fat0, start_cluster, k2) && chain_seq(
                        fat0,
                        start_cluster,
                        k2,
                    ).no_duplicates() implies (forall|n: int|
                    0 <= n < MAX_CLUSTERS ==> #[trigger] fat_of(self.bytes())[n] == (
                    if chain_seq(fat0, start_cluster, k2).contains(n as u32) {
                        FAT_FREE
                    } else {
                        fat0[n]
                    })) by {
                    lemma_chain_ok_unique(fat0, start_cluster, k2, k);
                }
            } else {
                assert forall|k2: nat|
                    #[trigger] chain_ok(fat0, start_cluster, k2) && chain_seq(
                        fat0,
                        start_cluster,
                        k2,
                    ).no_duplicates() implies (forall|n: int|
                    0 <= n < MAX_CLUSTERS ==> #[trigger] fat_of(self.bytes())[n] == (
                    if chain_seq(fat0, start_cluster, k2).contains(n as u32) {
                        FAT_FREE
                    } else {
                        fat0[n]
                    })) by {
                    assert(valid);
                }
            }
        }
    }
}

/// Whether slot `i` holds a live entry.
pub open spec fn live_at(d: Seq<u8>, i: int) -> bool {
    slot_live(slot_bytes(d, i))
}

/// The entry slot `i` decodes to.
pub open spec fn entry_at(d: Seq<u8>, i: int) -> EntryModel {
    decode_slot(slot_bytes(d, i))
}

/// Whether slot `i` holds a live entry named `name`.
pub open spec fn name_match(d: Seq<u8>, i: int, name: Seq<u8>) -> bool {
    live_at(d, i) && entry_at(d, i).name == name
}

/// The first slot at or after `i` holding a live entry named `name`.
pub open spec fn find_from(d: Seq<u8>, name: Seq<u8>, i: int) -> Option<int>
    decreases ROOT_ENTRIES - i,
{
    if 0 <= i < ROOT_ENTRIES {
        if name_match(d, i, name) {
            Some(i)
        } else {
            find_from(d, name, i + 1)
        }
    } else {
        None
    }
}

/// The live entry named `name`, taken from the first slot that holds one.
pub open spec fn find_live(d: Seq<u8>, name: Seq<u8>) -> Option<EntryModel> {
    match find_from(d, name, 0) {
        Some(t) => Some(entry_at(d, t)),
        None => None,
    }
}

/// The live entries in slot order, from slot `i` on.
pub open spec fn live_list_from(d: Seq<u8>, i: int) -> Seq<EntryModel>
    decreases ROOT_ENTRIES - i,
{
    if 0 <= i < ROOT_ENTRIES {
        (if live_at(d, i) {
            seq![entry_at(d, i)]
        } else {
            Seq::empty()
        }) + live_list_from(d, i + 1)
    } else {
        Seq::empty()
    }
}

/// A slot an upsert may take: never used, tombstoned, or live under the
/// same stored name.
pub open spec fn slot_reusable(d: Seq<u8>, i: int, sn: Seq<u8>) -> bool {
    ||| !slot_used(slot_bytes(d, i))
    ||| entry_at(d, i).is_deleted
    ||| entry_at(d, i).name == sn
}

/// The first reusable slot at or after `i` for the stored name `sn`.
pub open spec fn upsert_from(d: Seq<u8>, sn: Seq<u8>, i: int) -> Option<int>
    decreases ROOT_ENTRIES - i,
{
    if 0 <= i < ROOT_ENTRIES {
        if slot_reusable(d, i, sn) {
            Some(i)
        } else {
            upsert_from(d, sn, i + 1)
        }
    } else {
        None
    }
}

/// What a directory search returns: the first match, with no match before
/// it; or nothing, with no match anywhere.
pub proof fn lemma_find_from_char(d: Seq<u8>, name: Seq<u8>, i: int)
    requires
        0 <= i <= ROOT_ENTRIES,
    ensures
        find_from(d, name, i) matches Some(t) ==> i <= t < ROOT_ENTRIES && name_match(d, t, name)
            && (forall|j: int| i <= j < t ==> !name_match(d, j, name)),
        find_from(d, name, i) is None ==> (forall|j: int|
            i <= j < ROOT_ENTRIES ==> !name_match(d, j, name)),
    decreases ROOT_ENTRIES - i,
{
    if i < ROOT_ENTRIES && !name_match(d, i, name) {
        lemma_find_from_char(d, name, i + 1);
    }
}

/// The same, for the upsert scan.
pub proof fn lemma_upsert_from_char(d: Seq<u8>, sn: Seq<u8>, i: int)
    requires
        0 <= i <= ROOT_ENTRIES,
    ensures
        upsert_from(d, sn, i) matches Some(t) ==> i <= t < ROOT_ENTRIES && slot_reusable(d, t, sn)
            && (forall|j: int| i <= j < t ==> !slot_reusable(d, j, sn)),
        upsert_from(d, sn, i) is None ==> (forall|j: int|
            i <= j < ROOT_ENTRIES ==> !slot_reusable(d, j, sn)),
    decreases ROOT_ENTRIES - i,
{
    if i < ROOT_ENTRIES && !slot_reusable(d, i, sn) {
        lemma_upsert_from_char(d, sn, i + 1);
    }
}

/// Images with equal directory regions have equal slots.
pub proof fn lemma_slots_from_dir_region(d0: Seq<u8>, d1: Seq<u8>)
    requires
        d0.len() == TOTAL_BYTES,
        d1.len() == TOTAL_BYTES,
        dir_region(d1) == dir_region(d0),
    ensures
        forall|i: int| 0 <= i < ROOT_ENTRIES ==> #[trigger] slot_bytes(d1, i) == slot_bytes(d0, i),
{
    assert forall|i: int| 0 <= i < ROOT_ENTRIES implies #[trigger] slot_bytes(d1, i) == slot_bytes(
        d0,
        i,
    ) by {
        assert forall|b: int| 0 <= b < DIR_ENTRY_SIZE implies slot_bytes(d1, i)[b] == slot_bytes(
            d0,
            i,
        )[b] by {
            assert(slot_bytes(d1, i)[b] == dir_region(d1)[DIR_ENTRY_SIZE * i + b]);
            assert(slot_bytes(d0, i)[b] == dir_region(d0)[DIR_ENTRY_SIZE * i + b]);
        }
        assert(slot_bytes(d1, i) =~= slot_bytes(d0, i));
    }
}

/// Directory searches agree on images with slot-for-slot equal
/// directories.
pub proof fn lemma_dir_specs_eq(d0: Seq<u8>, d1: Seq<u8>, name: Seq<u8>, i: int)
    requires
        0 <= i <= ROOT_ENTRIES,
        forall|j: int| 0 <= j < ROOT_ENTRIES ==> #[trigger] slot_bytes(d1, j) == slot_bytes(d0, j),
    ensures
        find_from(d1, name, i) == find_from(d0, name, i),
        upsert_from(d1, name, i) == upsert_from(d0, name, i),
        live_list_from(d1, i) == live_list_from(d0, i),
    decreases ROOT_ENTRIES - i,
{
    if i < ROOT_ENTRIES {
        lemma_dir_specs_eq(d0, d1, name, i + 1);
    }
}

/// Two valid chain lengths from the same start agree.
pub proof fn lemma_chain_ok_unique(fat: Seq<u32>, c: u32, k1: nat, k2: nat)
    requires
        chain_ok(fat, c, k1),
        chain_ok(fat, c, k2),
    ensures
        k1 == k2,
    decreases k1,
{
    if k1 > 1 && k2 > 1 {
        lemma_chain_ok_unique(fat, fat[c as int], (k1 - 1) as nat, (k2 - 1) as nat);
    }
}

/// Structural facts about a valid chain: its clusters are data clusters,
/// its links follow the FAT, and the last link is end-of-chain.
pub proof fn lemma_chain_seq_props(fat: Seq<u32>, c: u32, k: nat)
    requires
        chain_ok(fat, c, k),
    ensures
        chain_seq(fat, c, k).len() == k,
        k >= 1,
        chain_seq(fat, c, k)[0] == c,
        forall|j: int|
            0 <= j < k ==> is_data_cluster(#[trigger] chain_seq(fat, c, k)[j]),
    decreases k,
{
    if k > 1 {
        lemma_chain_seq_props(fat, fat[c as int], (k - 1) as nat);
        assert(chain_seq(fat, c, k) == seq![c] + chain_seq(fat, fat[c as int], (k - 1) as nat));
        assert(chain_seq(fat, c, k).len() == k);
        assert forall|j: int| 0 <= j < k implies is_data_cluster(
            #[trigger] chain_seq(fat, c, k)[j],
        ) by {
            if j >= 1 {
                assert(chain_seq(fat, c, k)[j] == chain_seq(fat, fat[c as int], (k - 1) as nat)[j
                    - 1]);
            }
        }
    } else {
        assert(chain_seq(fat, c, k) == seq![c] + chain_seq(fat, fat[c as int], 0));
        assert(chain_seq(fat, fat[c as int], 0) =~= Seq::<u32>::empty());
        assert(chain_seq(fat, c, k).len() == 1);
        assert(chain_seq(fat, c, k)[0] == c);
    }
}

/// The FAT entry of the chain element at position `j`: the next element
/// for inner positions, end-of-chain for the last.
pub proof fn lemma_chain_links(fat: Seq<u32>, c: u32, k: nat, j: int)
    requires
        chain_ok(fat, c, k),
        0 <= j < k,
    ensures
        is_data_cluster(chain_seq(fat, c, k)[j]),
        j < k - 1 ==> fat[chain_seq(fat, c, k)[j] as int] == chain_seq(fat, c, k)[j + 1],
        j == k - 1 ==> fat[chain_seq(fat, c, k)[j] as int] == FAT_EOC,
    decreases k,
{
    lemma_chain_seq_props(fat, c, k);
    if k > 1 {
        lemma_chain_seq_props(fat, fat[c as int], (k - 1) as nat);
        assert(chain_seq(fat, c, k) == seq![c] + chain_seq(fat, fat[c as int], (k - 1) as nat));
    }
    if j > 0 {
        lemma_chain_links(fat, fat[c as int], (k - 1) as nat, j - 1);
        assert(chain_seq(fat, c, k)[j] == chain_seq(fat, fat[c as int], (k - 1) as nat)[j - 1]);
        if j < k - 1 {
            assert(chain_seq(fat, c, k)[j + 1] == chain_seq(fat, fat[c as int], (k - 1) as nat)[j]);
        }
    } else {
        if j < k - 1 {
            assert(chain_seq(fat, c, k)[1] == chain_seq(fat, fat[c as int], (k - 1) as nat)[0]);
        }
    }
}

/// Helper: a full take of a chain is the chain itself.
proof fn lemma_chain_take_full(fat: Seq<u32>, c: u32, k: nat, j: int)
    requires
        chain_ok(fat, c, k),
        0 <= j <= k,
    ensures
        chain_seq(fat, c, k).take(j).len() == j,
{
    lemma_chain_seq_props(fat, c, k);
}

/// Byte-for-byte comparison of two slices.
fn bytes_eq(a: &[u8], b: &[u8]) -> (r: bool)
    ensures
        r <==> a@ == b@,
{
    if a.len() != b.len() {
        assert(a@ !~= b@);
        return false;
    }
    let mut i: usize = 0;
    while i < a.len()
        invariant
            i <= a@.len(),
            a@.len() == b@.len(),
            forall|j: int| 0 <= j < i ==> a@[j] == #[trigger] b@[j],
        decreases a@.len() - i,
    {
        if a[i] != b[i] {
            return false;
        }
        i = i + 1;
    }
    assert(a@ =~= b@);
    true
}

/// The stored form of a raw name: truncated to 32 bytes and cut at the
/// first zero byte.
fn stored_name_exec(name: &[u8]) -> (r: Vec<u8>)
    ensures
        r@ == stored_name(name@),
{
    let mut end: usize = 0;
    while end < MAX_FILENAME_LENGTH && end < name.len() && name[end] != 0
        invariant
            0 <= end <= MAX_FILENAME_LENGTH,
            end <= name@.len(),
            crate::entry::name_scan(name@, 0) == crate::entry::name_scan(name@, end as int),
        decreases MAX_FILENAME_LENGTH - end,
    {
        end = end + 1;
    }
    assert(crate::entry::name_scan(name@, end as int) == end);
    let mut r: Vec<u8> = Vec::new();
    let mut i: usize = 0;
    while i < end
        invariant
            i <= end,
            end <= name@.len(),
            r@ =~= name@.take(i as int),
        decreases end - i,
    {
        r.push(name[i]);
        assert(r@ =~= name@.take(i + 1));
        i = i + 1;
    }
    r
}

impl FileSystem {
    /// The 64 bytes of directory slot `i`.
    fn read_slot(&self, i: usize) -> (r: Vec<u8>)
        requires
            self.inv(),
            i < ROOT_ENTRIES,
        ensures
            r@ == slot_bytes(self.bytes(), i as int),
            r@.len() == DIR_ENTRY_SIZE,
    {
        self.read_bytes(ROOT_DIR_START_BYTE + DIR_ENTRY_SIZE * i, DIR_ENTRY_SIZE)
    }

    /// The first live entry whose stored name equals `filename`, scanning
    /// slots in index order.
    fn find_file(&self, filename: &[u8]) -> (r: Option<FileEntry>)
        requires
            self.inv(),
        ensures
            r is Some <==> find_from(self.bytes(), filename@, 0) is Some,
            r matches Some(e) ==> find_live(self.bytes(), filename@) == Some(e@),
    {
        let ghost d = self.bytes();
        let mut i: usize = 0;
        while i < ROOT_ENTRIES
            invariant
                self.inv(),
                d == self.bytes(),
                i <= ROOT_ENTRIES,
                find_from(d, filename@, 0) == find_from(d, filename@, i as int),
            decreases ROOT_ENTRIES - i,
        {
            let slot = self.read_slot(i);
            if slot[0] != 0 {
                match FileEntry::from_bytes(slot.as_slice()) {
                    Some(e) => {
                        if !e.is_deleted && bytes_eq(e.name.as_slice(), filename) {
                            assert(name_match(d, i as int, filename@));
                            return Some(e);
                        }
                    },
                    None => {},
                }
            }
            assert(!name_match(d, i as int, filename@));
            i = i + 1;
        }
        None
    }

    /// Decodes every used, live slot, in slot order.
    fn read_directory_entries(&self) -> (r: Vec<FileEntry>)
        requires
            self.inv(),
        ensures
            r@.map_values(|e: FileEntry| e@) == live_list_from(self.bytes(), 0),
    {
        let ghost d = self.bytes();
        let mut r: Vec<FileEntry> = Vec::new();
        let mut i: usize = 0;
        while i < ROOT_ENTRIES
            invariant
                self.inv(),
                d == self.bytes(),
                i <= ROOT_ENTRIES,
                live_list_from(d, 0) == r@.map_values(|e: FileEntry| e@) + live_list_from(
                    d,
                    i as int,
                ),
            decreases ROOT_ENTRIES - i,
        {
            let ghost prev = r@;
            let slot = self.read_slot(i);
            if slot[0] != 0 {
                match FileEntry::from_bytes(slot.as_slice()) {
                    Some(e) => {
                        if !e.is_deleted {
                            assert(live_at(d, i as int));
                            r.push(e);
                            assert(r@.map_values(|e: FileEntry| e@) =~= prev.map_values(
                                |e: FileEntry| e@,
                            ).push(entry_at(d, i as int)));
                        }
                    },
                    None => {},
                }
            }
            assert(live_list_from(d, 0) == r@.map_values(|e: FileEntry| e@) + live_list_from(
                d,
                i + 1,
            ));
            i = i + 1;
        }
        assert(live_list_from(d, ROOT_ENTRIES as int) =~= Seq::<EntryModel>::empty());
        assert(r@.map_values(|e: FileEntry| e@) =~= live_list_from(d, 0));
        r
    }

    /// Writes `entry` into the first reusable slot: one never used, one
    /// tombstoned, or the live slot already carrying the same stored name.
    /// Fails with dir-full when no such slot exists.
    fn write_directory_entry(&mut self, entry: &FileEntry) -> (r: Result<(), FsError>)
        requires
            old(self).inv(),
        ensures
            final(self).inv(),
            r is Err <==> upsert_from(old(self).bytes(), stored_name(entry@.name), 0) is None,
            r is Err ==> r == Err::<(), FsError>(FsError::DirFull) && final(self).bytes() == old(
                self,
            ).bytes(),
            r is Ok ==> (upsert_from(old(self).bytes(), stored_name(entry@.name), 0) matches Some(
                t,
            ) && {
                &&& slot_bytes(final(self).bytes(), t) == encode_entry(entry@)
                &&& (forall|j: int|
                    0 <= j < ROOT_ENTRIES && j != t ==> #[trigger] slot_bytes(
                        final(self).bytes(),
                        j,
                    ) == slot_bytes(old(self).bytes(), j))
                &&& boot_region(final(self).bytes()) == boot_region(old(self).bytes())
                &&& fat_region(final(self).bytes()) == fat_region(old(self).bytes())
                &&& data_region(final(self).bytes()) == data_region(old(self).bytes())
            }),
    {
        let ghost d0 = self.bytes();
        let ghost sn = stored_name(entry@.name);
        let sn_vec = stored_name_exec(entry.name.as_slice());
        let enc = entry.to_bytes();
        let mut i: usize = 0;
        while i < ROOT_ENTRIES
            invariant
                self.inv(),
                d0 == self.bytes(),
                d0 == old(self).bytes(),
                i <= ROOT_ENTRIES,
                sn == stored_name(entry@.name),
                sn_vec@ == sn,
                enc@ == encode_entry(entry@),
                enc@.len() == DIR_ENTRY_SIZE,
                upsert_from(d0, sn, 0) == upsert_from(d0, sn, i as int),
            decreases ROOT_ENTRIES - i,
        {
            let slot = self.read_slot(i);
            let reusable: bool = if slot[0] == 0 {
                assert(!slot_used(slot_bytes(d0, i as int)));
                true
            } else {
                match FileEntry::from_bytes(slot.as_slice()) {
                    Some(e) => e.is_deleted || bytes_eq(e.name.as_slice(), sn_vec.as_slice()),
                    None => false,
                }
            };
            if reusable {
                assert(slot_reusable(d0, i as int, sn));
                let off = ROOT_DIR_START_BYTE + DIR_ENTRY_SIZE * i;
                self.write_bytes(off, enc.as_slice());
                proof {
                    let d1 = self.bytes();
                    lemma_splice_outside(d0, d1, off as int, enc@, 0, FAT_START_BYTE as int);
                    lemma_splice_outside(
                        d0,
                        d1,
                        off as int,
                        enc@,
                        FAT_START_BYTE as int,
                        ROOT_DIR_START_BYTE as int,
                    );
                    lemma_splice_outside(
                        d0,
                        d1,
                        off as int,
                        enc@,
                        DATA_START_BYTE as int,
                        TOTAL_BYTES as int,
                    );
                    lemma_splice_inside(d0, d1, off as int, enc@, off as int, off
                        + DIR_ENTRY_SIZE);
                    assert(enc@.subrange(0, DIR_ENTRY_SIZE as int) =~= enc@);
                    assert(slot_bytes(d1, i as int) == enc@);
                    assert forall|j: int| 0 <= j < ROOT_ENTRIES && j != i implies #[trigger] slot_bytes(
                        d1,
                        j,
                    ) == slot_bytes(d0, j) by {
                        lemma_splice_outside(
                            d0,
                            d1,
                            off as int,
                            enc@,
                            ROOT_DIR_START_BYTE + DIR_ENTRY_SIZE * j,
                            ROOT_DIR_START_BYTE + DIR_ENTRY_SIZE * j + DIR_ENTRY_SIZE,
                        );
                    }
                }
                return Ok(());
            }
            assert(!slot_reusable(d0, i as int, sn));
            i = i + 1;
        }
        Err(FsError::DirFull)
    }

    /// Sets the tombstone byte of slot `t`, leaving the rest of the slot,
    /// and the volume, unchanged.
    fn mark_deleted(&mut self, t: usize)
        requires
            old(self).inv(),
            t < ROOT_ENTRIES,
        ensures
            final(self).inv(),
            slot_bytes(final(self).bytes(), t as int) == slot_bytes(old(self).bytes(), t as int)
                .update(44, 1u8),
            forall|j: int|
                0 <= j < ROOT_ENTRIES && j != t ==> #[trigger] slot_bytes(final(self).bytes(), j)
                    == slot_bytes(old(self).bytes(), j),
            boot_region(final(self).bytes()) == boot_region(old(self).bytes()),
            fat_region(final(self).bytes()) == fat_region(old(self).bytes()),
            data_region(final(self).bytes()) == data_region(old(self).bytes()),
    {
        let mut one: Vec<u8> = Vec::new();
        one.push(1u8);
        let off = ROOT_DIR_START_BYTE + DIR_ENTRY_SIZE * t + 44;
        self.write_bytes(off, one.as_slice());
        proof {
            let d0 = old(self).bytes();
            let d1 = self.bytes();
            lemma_splice_outside(d0, d1, off as int, one@, 0, FAT_START_BYTE as int);
            lemma_splice_outside(
                d0,
                d1,
                off as int,
                one@,
                FAT_START_BYTE as int,
                ROOT_DIR_START_BYTE as int,
            );
            lemma_splice_outside(
                d0,
                d1,
                off as int,
                one@,
                DATA_START_BYTE as int,
                TOTAL_BYTES as int,
            );
            assert(slot_bytes(d1, t as int) =~= slot_bytes(d0, t as int).update(44, 1u8));
            assert forall|j: int| 0 <= j < ROOT_ENTRIES && j != t implies #[trigger] slot_bytes(
                d1,
                j,
            ) == slot_bytes(d0, j) by {
                lemma_splice_outside(
                    d0,
                    d1,
                    off as int,
                    one@,
                    ROOT_DIR_START_BYTE + DIR_ENTRY_SIZE * j,
                    ROOT_DIR_START_BYTE + DIR_ENTRY_SIZE * j + DIR_ENTRY_SIZE,
                );
            }
        }
    }
}

/// The boot sector a fresh volume carries: a jump stub, the `"MINIFAT "`
/// identifier, the geometry fields, and the `55 AA` signature.
pub open spec fn boot_byte(i: int) -> u8 {
    if i == 0 {
        0xEB
    } else if i == 1 {
        0x3C
    } else if i == 2 {
        0x90
    } else if i == 3 {
        0x4D
    } else if i == 4 {
        0x49
    } else if i == 5 {
        0x4E
    } else if i == 6 {
        0x49
    } else if i == 7 {
        0x46
    } else if i == 8 {
        0x41
    } else if i == 9 {
        0x54
    } else if i == 10 {
        0x20
    } else if i == 11 {
        4
    } else if i == 12 {
        1
    } else if i == 14 {
        1
    } else if i == 15 {
        32
    } else if i == 17 {
        0x0D
    } else if i == 18 {
        0x10
    } else if i == 21 {
        8
    } else if i == 510 {
        0x55
    } else if i == 511 {
        0xAA
    } else {
        0
    }
}

/// The image a format produces: the boot sector, a FAT whose clusters 0
/// and 1 carry the end-of-chain sentinel, and everything else zero.
pub open spec fn format_image() -> Seq<u8> {
    Seq::new(
        TOTAL_BYTES as nat,
        |i: int|
            if i < 512 {
                boot_byte(i)
            } else if i < 520 {
                0xFFu8
            } else {
                0u8
            },
    )
}

/// What a mount accepts: a full-length image carrying the `"MINIFAT "`
/// identifier and the boot-sector signature.
pub open spec fn mountable(d: Seq<u8>) -> bool {
    &&& d.len() == TOTAL_BYTES
    &&& d.subrange(3, 11) == seq![0x4Du8, 0x49u8, 0x4Eu8, 0x49u8, 0x46u8, 0x41u8, 0x54u8, 0x20u8]
    &&& d[510] == 0x55
    &&& d[511] == 0xAA
}

/// A freshly formatted image is mountable, its directory is empty, and its
/// FAT reserves exactly clusters 0 and 1.
pub proof fn lemma_format_props()
    ensures
        mountable(format_image()),
        forall|i: int| 0 <= i < ROOT_ENTRIES ==> !live_at(format_image(), i),
        live_list_from(format_image(), 0) == Seq::<EntryModel>::empty(),
        forall|name: Seq<u8>| #[trigger] find_from(format_image(), name, 0) is None,
        forall|n: int|
            0 <= n < MAX_CLUSTERS ==> #[trigger] fat_of(format_image())[n] == (if n < 2 {
                FAT_EOC
            } else {
                FAT_FREE
            }),
        free_clusters(fat_of(format_image())) == MAX_CLUSTERS - 2,
{
    let d = format_image();
    assert(d.subrange(3, 11) =~= seq![
        0x4Du8,
        0x49u8,
        0x4Eu8,
        0x49u8,
        0x46u8,
        0x41u8,
        0x54u8,
        0x20u8,
    ]);
    assert forall|i: int| 0 <= i < ROOT_ENTRIES implies !live_at(d, i) by {
        assert(slot_bytes(d, i)[0] == d[ROOT_DIR_START_BYTE + DIR_ENTRY_SIZE * i]);
        assert(!slot_used(slot_bytes(d, i)));
    }
    lemma_live_list_empty(d, 0);
    assert forall|name: Seq<u8>| #[trigger] find_from(d, name, 0) is None by {
        lemma_find_from_char(d, name, 0);
        if find_from(d, name, 0) is Some {
            let t = find_from(d, name, 0).unwrap();
            assert(live_at(d, t));
        }
    }
    assert forall|n: int| 0 <= n < MAX_CLUSTERS implies #[trigger] fat_of(d)[n] == (if n < 2 {
        FAT_EOC
    } else {
        FAT_FREE
    }) by {
        let s = d.subrange(FAT_START_BYTE + 4 * n, FAT_START_BYTE + 4 * n + 4);
        if n < 2 {
            assert(s =~= seq![0xFFu8, 0xFFu8, 0xFFu8, 0xFFu8]);
            assert(((0xFFu8 as u32)) | ((0xFFu8 as u32) << 8) | ((0xFFu8 as u32) << 16) | ((
            0xFFu8 as u32) << 24) == 0xFFFFFFFFu32) by (bit_vector);
            assert(le32_of(s) == 0xFFFFFFFFu32);
        } else {
            assert(s =~= seq![0u8, 0u8, 0u8, 0u8]);
            assert(((0u8 as u32)) | ((0u8 as u32) << 8) | ((0u8 as u32) << 16) | ((0u8 as u32)
                << 24) == 0u32) by (bit_vector);
            assert(le32_of(s) == 0u32);
        }
    }
    lemma_count_all_free(fat_of(d), 2);
}

/// A FAT free from `i` on counts all remaining data clusters.
proof fn lemma_count_all_free(fat: Seq<u32>, i: int)
    requires
        2 <= i <= MAX_CLUSTERS,
        forall|n: int| i <= n < MAX_CLUSTERS ==> #[trigger] fat[n] == FAT_FREE,
    ensures
        count_free_from(fat, i) == MAX_CLUSTERS - i,
    decreases MAX_CLUSTERS - i,
{
    if i < MAX_CLUSTERS {
        lemma_count_all_free(fat, i + 1);
    }
}

/// A directory without live slots lists nothing.
pub proof fn lemma_live_list_empty(d: Seq<u8>, i: int)
    requires
        0 <= i <= ROOT_ENTRIES,
        forall|j: int| 0 <= j < ROOT_ENTRIES ==> !live_at(d, j),
    ensures
        live_list_from(d, i) == Seq::<EntryModel>::empty(),
    decreases ROOT_ENTRIES - i,
{
    if i < ROOT_ENTRIES {
        lemma_live_list_empty(d, i + 1);
        assert(live_list_from(d, i) =~= Seq::<EntryModel>::empty());
    }
}

impl FileSystem {
    /// A borrowed view of the raw image, for persisting it.
    pub fn image(&self) -> (r: &Vec<u8>)
        ensures
            r@ == self.bytes(),
    {
        &self.disk
    }

    /// Builds a fresh, empty volume: boot sector written, FAT zeroed but
    /// for the two reserved clusters, directory zeroed.
    pub fn format() -> (r: FileSystem)
        ensures
            r.inv(),
            r.bytes() == format_image(),
    {
        let mut disk: Vec<u8> = vec![0u8; TOTAL_BYTES];
        disk.set(0, 0xEB);
        disk.set(1, 0x3C);
        disk.set(2, 0x90);
        disk.set(3, 0x4D);
        disk.set(4, 0x49);
        disk.set(5, 0x4E);
        disk.set(6, 0x49);
        disk.set(7, 0x46);
        disk.set(8, 0x41);
        disk.set(9, 0x54);
        disk.set(10, 0x20);
        disk.set(11, 4);
        disk.set(12, 1);
        disk.set(14, 1);
        disk.set(15, 32);
        disk.set(17, 0x0D);
        disk.set(18, 0x10);
        disk.set(21, 8);
        disk.set(510, 0x55);
        disk.set(511, 0xAA);
        let mut t: usize = 512;
        while t < 520
            invariant
                512 <= t <= 520,
                disk@.len() == TOTAL_BYTES,
                forall|i: int|
                    0 <= i < TOTAL_BYTES ==> #[trigger] disk@[i] == (if i < 512 {
                        boot_byte(i)
                    } else if i < t {
                        0xFFu8
                    } else {
                        0u8
                    }),
            decreases 520 - t,
        {
            disk.set(t, 0xFF);
            t = t + 1;
        }
        assert(disk@ =~= format_image());
        FileSystem { disk }
    }

    /// Mounts an existing image after validating its identifier and boot
    /// signature; rejects anything else as not-a-volume.
    pub fn mount(image: Vec<u8>) -> (r: Result<FileSystem, FsError>)
        ensures
            r is Ok <==> mountable(image@),
            r matches Ok(fs) ==> fs.inv() && fs.bytes() == image@,
            r is Err ==> r == Err::<FileSystem, FsError>(FsError::NotAVolume),
    {
        if image.len() != TOTAL_BYTES {
            return Err(FsError::NotAVolume);
        }
        if !(image[3] == 0x4D && image[4] == 0x49 && image[5] == 0x4E && image[6] == 0x49
            && image[7] == 0x46 && image[8] == 0x41 && image[9] == 0x54 && image[10] == 0x20) {
            proof {
                let sig = seq![0x4Du8, 0x49u8, 0x4Eu8, 0x49u8, 0x46u8, 0x41u8, 0x54u8, 0x20u8];
                if image@.subrange(3, 11) == sig {
                    assert(image@[3] == image@.subrange(3, 11)[0]);
                    assert(image@[4] == image@.subrange(3, 11)[1]);
                    assert(image@[5] == image@.subrange(3, 11)[2]);
                    assert(image@[6] == image@.subrange(3, 11)[3]);
                    assert(image@[7] == image@.subrange(3, 11)[4]);
                    assert(image@[8] == image@.subrange(3, 11)[5]);
                    assert(image@[9] == image@.subrange(3, 11)[6]);
                    assert(image@[10] == image@.subrange(3, 11)[7]);
                }
            }
            return Err(FsError::NotAVolume);
        }
        if image[510] != 0x55 || image[511] != 0xAA {
            return Err(FsError::NotAVolume);
        }
        assert(image@.subrange(3, 11) =~= seq![
            0x4Du8,
            0x49u8,
            0x4Eu8,
            0x49u8,
            0x46u8,
            0x41u8,
            0x54u8,
            0x20u8,
        ]);
        Ok(FileSystem { disk: image })
    }

    /// Mounts the given image when it carries a volume; otherwise, or when
    /// no image could be read at all, formats a fresh one.
    pub fn get_or_create(image: Option<Vec<u8>>) -> (r: FileSystem)
        ensures
            r.inv(),
            match image {
                Some(d) => r.bytes() == (if mountable(d@) {
                    d@
                } else {
                    format_image()
                }),
                None => r.bytes() == format_image(),
            },
    {
        match image {
            Some(d) => match Self::mount(d) {
                Ok(fs) => fs,
                Err(_) => Self::format(),
            },
            None => Self::format(),
        }
    }
}

/// Images with equal FAT regions have equal FATs.
pub proof fn lemma_fat_from_region(d0: Seq<u8>, d1: Seq<u8>)
    requires
        d0.len() == TOTAL_BYTES,
        d1.len() == TOTAL_BYTES,
        fat_region(d1) == fat_region(d0),
    ensures
        fat_of(d1) == fat_of(d0),
{
    assert forall|n: int| 0 <= n < MAX_CLUSTERS implies #[trigger] fat_of(d1)[n] == fat_of(d0)[n] by {
        assert(d1.subrange(FAT_START_BYTE + 4 * n, FAT_START_BYTE + 4 * n + 4) =~= fat_region(
            d1,
        ).subrange(4 * n, 4 * n + 4));
        assert(d0.subrange(FAT_START_BYTE + 4 * n, FAT_START_BYTE + 4 * n + 4) =~= fat_region(
            d0,
        ).subrange(4 * n, 4 * n + 4));
    }
    assert(fat_of(d1) =~= fat_of(d0));
}

/// Images with equal data regions have equal clusters.
pub proof fn lemma_clusters_from_region(d0: Seq<u8>, d1: Seq<u8>)
    requires
        d0.len() == TOTAL_BYTES,
        d1.len() == TOTAL_BYTES,
        data_region(d1) == data_region(d0),
    ensures
        forall|n: int|
            2 <= n < MAX_CLUSTERS ==> #[trigger] cluster_bytes(d1, n) == cluster_bytes(d0, n),
{
    assert forall|n: int| 2 <= n < MAX_CLUSTERS implies #[trigger] cluster_bytes(d1, n)
        == cluster_bytes(d0, n) by {
        assert(cluster_bytes(d1, n) =~= data_region(d1).subrange(
            CLUSTER_SIZE * (n - 2),
            CLUSTER_SIZE * (n - 2) + CLUSTER_SIZE,
        ));
        assert(cluster_bytes(d0, n) =~= data_region(d0).subrange(
            CLUSTER_SIZE * (n - 2),
            CLUSTER_SIZE * (n - 2) + CLUSTER_SIZE,
        ));
    }
}

/// The stored bytes a chain walk yields: cluster contents in chain order,
/// cut to `remaining` bytes, ending early at any pointer that leaves the
/// data clusters.
pub open spec fn gather(d: Seq<u8>, c: u32, remaining: nat) -> Seq<u8>
    decreases remaining,
{
    if !is_data_cluster(c) || remaining == 0 {
        Seq::empty()
    } else if remaining <= CLUSTER_SIZE {
        cluster_bytes(d, c as int).take(remaining as int)
    } else {
        cluster_bytes(d, c as int) + gather(d, fat_of(d)[c as int], (remaining
            - CLUSTER_SIZE) as nat)
    }
}

/// What decompressing a stored payload yields for each method, checked
/// against the recorded original size.
pub open spec fn decode_payload(method: u8, size: u32, p: Seq<u8>) -> Result<Seq<u8>, FsError> {
    if method == 0 {
        Ok(p)
    } else if method == 1 {
        if rle_decode(p).len() == size {
            Ok(rle_decode(p))
        } else {
            Err(FsError::Corruption)
        }
    } else if method == 2 {
        match inflate_of(p) {
            Some(dec) => if dec.len() == size {
                Ok(dec)
            } else {
                Err(FsError::Corruption)
            },
            None => Err(FsError::Corruption),
        }
    } else {
        Err(FsError::InvalidArgument)
    }
}

/// What a read returns, as a function of the image bytes: not-found
/// without a live entry; corruption when the chain ends before the stored
/// size, or when decompression fails or disagrees with the recorded
/// original size; the original bytes otherwise.
pub open spec fn read_model(d: Seq<u8>, name: Seq<u8>) -> Result<Seq<u8>, FsError> {
    match find_live(d, name) {
        None => Err(FsError::NotFound),
        Some(e) => {
            let p = gather(d, e.first_cluster, e.compressed_size as nat);
            if p.len() < e.compressed_size {
                Err(FsError::Corruption)
            } else {
                decode_payload(e.compression_method, e.size, p)
            }
        },
    }
}

impl FileSystem {
    /// Lists the live entries, in slot order.
    pub fn list_files(&self) -> (r: Vec<FileEntry>)
        requires
            self.inv(),
        ensures
            r@.map_values(|e: FileEntry| e@) == live_list_from(self.bytes(), 0),
    {
        self.read_directory_entries()
    }

    /// The original size, stored size and method label of a file.
    pub fn get_compression_stats(&self, filename: &[u8]) -> (r: Result<
        (u32, u32, &'static str),
        FsError,
    >)
        requires
            self.inv(),
        ensures
            match find_live(self.bytes(), filename@) {
                None => r == Err::<(u32, u32, &'static str), FsError>(FsError::NotFound),
                Some(e) => r matches Ok(t) && t.0 == e.size && t.1 == e.compressed_size && t.2@
                    == label_of(e.compression_method),
            },
    {
        let entry = match self.find_file(filename) {
            Some(e) => e,
            None => {
                return Err(FsError::NotFound);
            },
        };
        let label: &'static str = if entry.compression_method == 0 {
            "none"
        } else if entry.compression_method == 1 {
            "rle"
        } else if entry.compression_method == 2 {
            "deflate"
        } else {
            "unknown"
        };
        Ok((entry.size, entry.compressed_size, label))
    }

    /// Reads a file back: walks its chain for the stored bytes, then
    /// undoes its compression method.
    pub fn read_file(&self, filename: &[u8]) -> (r: Result<Vec<u8>, FsError>)
        requires
            self.inv(),
        ensures
            match r {
                Ok(v) => read_model(self.bytes(), filename@) == Ok::<Seq<u8>, FsError>(v@),
                Err(e) => read_model(self.bytes(), filename@) == Err::<Seq<u8>, FsError>(e),
            },
    {
        let ghost d = self.bytes();
        let entry = match self.find_file(filename) {
            Some(e) => e,
            None => {
                return Err(FsError::NotFound);
            },
        };
        let ghost em = find_live(d, filename@).unwrap();
        let stored = entry.compressed_size as usize;
        let mut data: Vec<u8> = Vec::new();
        let mut cur = entry.first_cluster;
        assert(data@ + gather(d, cur, stored as nat) =~= gather(
            d,
            entry@.first_cluster,
            stored as nat,
        ));
        while 2 <= cur && cur < MAX_CLUSTERS as u32
            invariant_except_break
                self.inv(),
                d == self.bytes(),
                data@.len() <= stored,
                data@.len() == stored ==> data@.len() == 0,
                gather(d, entry@.first_cluster, stored as nat) == data@ + gather(
                    d,
                    cur,
                    (stored - data@.len()) as nat,
                ),
            ensures
                data@ == gather(d, entry@.first_cluster, stored as nat),
                data@.len() <= stored,
            decreases stored - data@.len(),
        {
            let cl = self.read_cluster(cur);
            let remaining = stored - data.len();
            let to_read = if remaining < CLUSTER_SIZE {
                remaining
            } else {
                CLUSTER_SIZE
            };
            let ghost pre = data@;
            let chunk = slice_subrange(cl.as_slice(), 0, to_read);
            data.extend_from_slice(chunk);
            assert(data@ == pre + cluster_bytes(d, cur as int).subrange(0, to_read as int));
            if data.len() >= stored {
                proof {
                    if remaining == 0 {
                        assert(gather(d, cur, 0) =~= Seq::<u8>::empty());
                        assert(data@ =~= pre);
                    } else {
                        assert(to_read == remaining);
                        assert(cluster_bytes(d, cur as int).subrange(0, to_read as int)
                            =~= cluster_bytes(d, cur as int).take(remaining as int));
                        assert(gather(d, cur, remaining as nat) == cluster_bytes(
                            d,
                            cur as int,
                        ).take(remaining as int));
                    }
                    assert(data@ =~= gather(d, entry@.first_cluster, stored as nat));
                }
                break ;
            }
            proof {
                assert(remaining > CLUSTER_SIZE);
                assert(cluster_bytes(d, cur as int).subrange(0, CLUSTER_SIZE as int)
                    =~= cluster_bytes(d, cur as int));
                assert(gather(d, cur, remaining as nat) == cluster_bytes(d, cur as int) + gather(
                    d,
                    fat_of(d)[cur as int],
                    (remaining - CLUSTER_SIZE) as nat,
                ));
            }
            cur = self.get_next_cluster(cur);
            proof {
                assert(gather(d, entry@.first_cluster, stored as nat) == data@ + gather(
                    d,
                    cur,
                    (stored - data@.len()) as nat,
                ));
            }
        }
        if data.len() < stored {
            return Err(FsError::Corruption);
        }
        if entry.compression_method == 0 {
            Ok(data)
        } else if entry.compression_method == 1 {
            let dec = rle_decompress_data(data.as_slice());
            if dec.len() == entry.size as usize {
                Ok(dec)
            } else {
                Err(FsError::Corruption)
            }
        } else if entry.compression_method == 2 {
            match deflate_decompress(data.as_slice()) {
                Ok(dec) => {
                    if dec.len() == entry.size as usize {
                        Ok(dec)
                    } else {
                        Err(FsError::Corruption)
                    }
                },
                Err(_) => Err(FsError::Corruption),
            }
        } else {
            Err(FsError::InvalidArgument)
        }
    }

    /// Deletes a file: frees its cluster chain, then tombstones its
    /// directory slot, in that order.
    pub fn delete_file(&mut self, filename: &[u8]) -> (r: Result<(), FsError>)
        requires
            old(self).inv(),
        ensures
            final(self).inv(),
            r is Ok <==> find_from(old(self).bytes(), filename@, 0) is Some,
            r is Err ==> r == Err::<(), FsError>(FsError::NotFound) && final(self).bytes() == old(
                self,
            ).bytes(),
            r is Ok ==> (find_from(old(self).bytes(), filename@, 0) matches Some(t) && {
                let e = entry_at(old(self).bytes(), t);
                let fat0 = fat_of(old(self).bytes());
                let fat1 = fat_of(final(self).bytes());
                &&& slot_bytes(final(self).bytes(), t) == slot_bytes(old(self).bytes(), t).update(
                    44,
                    1u8,
                )
                &&& (forall|j: int|
                    0 <= j < ROOT_ENTRIES && j != t ==> #[trigger] slot_bytes(
                        final(self).bytes(),
                        j,
                    ) == slot_bytes(old(self).bytes(), j))
                &&& boot_region(final(self).bytes()) == boot_region(old(self).bytes())
                &&& data_region(final(self).bytes()) == data_region(old(self).bytes())
                &&& (forall|n: int|
                    0 <= n < MAX_CLUSTERS ==> #[trigger] fat1[n] == fat0[n] || fat1[n] == FAT_FREE)
                &&& (!is_data_cluster(e.first_cluster) ==> fat1 == fat0)
                &&& (forall|k: nat|
                    #[trigger] chain_ok(fat0, e.first_cluster, k) && chain_seq(
                        fat0,
                        e.first_cluster,
                        k,
                    ).no_duplicates() ==> (forall|n: int|
                        0 <= n < MAX_CLUSTERS ==> #[trigger] fat1[n] == (if chain_seq(
                            fat0,
                            e.first_cluster,
                            k,
                        ).contains(n as u32) {
                            FAT_FREE
                        } else {
                            fat0[n]
                        })))
                &&& ((forall|j: int| 0 <= j < ROOT_ENTRIES && j != t ==> !name_match(
                    old(self).bytes(),
                    j,
                    filename@,
                )) ==> find_from(final(self).bytes(), filename@, 0) is None)
            }),
            wf(old(self).bytes()) ==> wf(final(self).bytes()),
            r is Ok && wf(old(self).bytes()) ==> find_from(final(self).bytes(), filename@, 0)
                is None,
    {
        let ghost d0 = self.bytes();
        let t = match self.find_file_slot(filename) {
            Some(t) => t,
            None => {
                return Err(FsError::NotFound);
            },
        };
        proof {
            lemma_find_from_char(d0, filename@, 0);
        }
        let slot = self.read_slot(t);
        let entry = match FileEntry::from_bytes(slot.as_slice()) {
            Some(e) => e,
            None => {
                assert(false);
                return Err(FsError::NotFound);
            },
        };
        self.free_cluster_chain(entry.first_cluster);
        let ghost d_mid = self.bytes();
        proof {
            lemma_slots_from_dir_region(d0, d_mid);
        }
        self.mark_deleted(t);
        proof {
            let d1 = self.bytes();
            lemma_fat_from_region(d_mid, d1);
            assert(slot_bytes(d1, t as int) == slot_bytes(d0, t as int).update(44, 1u8));
            assert(decode_slot(slot_bytes(d1, t as int)).is_deleted) by {
                assert(slot_bytes(d1, t as int)[44] == 1u8);
            }
            if forall|j: int|
                0 <= j < ROOT_ENTRIES && j != t ==> !name_match(d0, j, filename@) {
                assert forall|j: int| 0 <= j < ROOT_ENTRIES implies !name_match(
                    d1,
                    j,
                    filename@,
                ) by {
                    if j != t {
                        assert(!name_match(d0, j, filename@));
                        assert(slot_bytes(d1, j) == slot_bytes(d_mid, j));
                        assert(slot_bytes(d_mid, j) == slot_bytes(d0, j));
                        assert(name_match(d1, j, filename@) == name_match(d0, j, filename@));
                    } else {
                        assert(!slot_live(slot_bytes(d1, j)));
                    }
                }
                lemma_find_from_char(d1, filename@, 0);
                if find_from(d1, filename@, 0) is Some {
                    let w = find_from(d1, filename@, 0).unwrap();
                    assert(name_match(d1, w, filename@));
                }
            }
            if wf(d0) {
                let fat0 = fat_of(d0);
                let fat1 = fat_of(d1);
                let e = entry_at(d0, t as int);
                assert(name_match(d0, t as int, filename@));
                assert(live_at(d0, t as int));
                let ke = entry_clusters(e);
                assert(chain_ok(fat0, e.first_cluster, ke));
                let ch = chain_seq(fat0, e.first_cluster, ke);
                assert(ch == slot_chain(d0, t as int));
                assert(ch.no_duplicates());
                lemma_chain_seq_props(fat0, e.first_cluster, ke);
                assert(entry@ == e);
                assert forall|n: int| 0 <= n < MAX_CLUSTERS implies #[trigger] fat1[n] == (
                if ch.contains(n as u32) {
                    FAT_FREE
                } else {
                    fat0[n]
                }) by {
                    assert(fat_of(d_mid)[n] == (if ch.contains(n as u32) {
                        FAT_FREE
                    } else {
                        fat0[n]
                    }));
                }
                assert forall|i: int|
                    0 <= i < ROOT_ENTRIES && i != t && #[trigger] live_at(d0, i) implies {
                    &&& chain_ok(fat1, entry_at(d0, i).first_cluster, entry_clusters(
                        entry_at(d0, i),
                    ))
                    &&& chain_seq(fat1, entry_at(d0, i).first_cluster, entry_clusters(
                        entry_at(d0, i),
                    )) == slot_chain(d0, i)
                } by {
                    let ei = entry_at(d0, i);
                    let ki = entry_clusters(ei);
                    assert(chain_ok(fat0, ei.first_cluster, ki));
                    let chi = chain_seq(fat0, ei.first_cluster, ki);
                    assert(chi == slot_chain(d0, i));
                    lemma_chain_seq_props(fat0, ei.first_cluster, ki);
                    assert forall|j: int| 0 <= j < ki implies fat1[#[trigger] chi[j] as int]
                        == fat0[chi[j] as int] by {
                        assert(slot_chain(d0, i).contains(chi[j]));
                        assert(!(slot_chain(d0, i).contains(chi[j]) && slot_chain(
                            d0,
                            t as int,
                        ).contains(chi[j])));
                        assert(!ch.contains(chi[j]));
                        assert(is_data_cluster(chi[j]));
                    }
                    lemma_chain_frame(fat0, fat1, ei.first_cluster, ki);
                }
                assert forall|i: int|
                    0 <= i < ROOT_ENTRIES && #[trigger] live_at(d1, i) implies i != t && live_at(
                    d0,
                    i,
                ) && entry_at(d1, i) == entry_at(d0, i) && slot_chain(d1, i) == slot_chain(
                    d0,
                    i,
                ) by {
                    if i == t {
                        assert(!slot_live(slot_bytes(d1, i)));
                    }
                    assert(slot_bytes(d1, i) == slot_bytes(d0, i));
                    assert(live_at(d0, i));
                    assert(chain_seq(fat1, entry_at(d0, i).first_cluster, entry_clusters(
                        entry_at(d0, i),
                    )) == slot_chain(d0, i));
                }
                assert forall|n: int| 2 <= n < MAX_CLUSTERS implies ((#[trigger] fat1[n]
                    != FAT_FREE) <==> (exists|i: int|
                    0 <= i < ROOT_ENTRIES && #[trigger] live_at(d1, i) && slot_chain(
                        d1,
                        i,
                    ).contains(n as u32))) by {
                    if fat1[n] != FAT_FREE {
                        assert(!ch.contains(n as u32));
                        assert(fat0[n] != FAT_FREE);
                        let i = choose|i: int|
                            0 <= i < ROOT_ENTRIES && #[trigger] live_at(d0, i) && slot_chain(
                                d0,
                                i,
                            ).contains(n as u32);
                        assert(i != t);
                        assert(live_at(d1, i) && slot_chain(d1, i).contains(n as u32));
                    }
                    if exists|i: int|
                        0 <= i < ROOT_ENTRIES && #[trigger] live_at(d1, i) && slot_chain(
                            d1,
                            i,
                        ).contains(n as u32) {
                        let i = choose|i: int|
                            0 <= i < ROOT_ENTRIES && #[trigger] live_at(d1, i) && slot_chain(
                                d1,
                                i,
                            ).contains(n as u32);
                        assert(live_at(d0, i) && slot_chain(d0, i).contains(n as u32));
                        assert(fat0[n] != FAT_FREE);
                        assert(!(slot_chain(d0, i).contains(n as u32) && slot_chain(
                            d0,
                            t as int,
                        ).contains(n as u32)));
                        assert(!ch.contains(n as u32));
                        assert(fat1[n] == fat0[n]);
                    }
                }
                assert(wf(d1));
                assert forall|j: int|
                    0 <= j < ROOT_ENTRIES && j != t implies !name_match(d0, j, filename@) by {
                    if name_match(d0, j, filename@) {
                        assert(live_at(d0, j) && live_at(d0, t as int));
                        assert(entry_at(d0, j).name == entry_at(d0, t as int).name);
                    }
                }
                assert(find_from(d1, filename@, 0) is None);
            }
        }
        Ok(())
    }

    /// The slot index of the first live entry named `filename`.
    fn find_file_slot(&self, filename: &[u8]) -> (r: Option<usize>)
        requires
            self.inv(),
        ensures
            match r {
                Some(t) => find_from(self.bytes(), filename@, 0) == Some(t as int),
                None => find_from(self.bytes(), filename@, 0) is None,
            },
    {
        let ghost d = self.bytes();
        let mut i: usize = 0;
        while i < ROOT_ENTRIES
            invariant
                self.inv(),
                d == self.bytes(),
                i <= ROOT_ENTRIES,
                find_from(d, filename@, 0) == find_from(d, filename@, i as int),
            decreases ROOT_ENTRIES - i,
        {
            let slot = self.read_slot(i);
            if slot[0] != 0 {
                match FileEntry::from_bytes(slot.as_slice()) {
                    Some(e) => {
                        if !e.is_deleted && bytes_eq(e.name.as_slice(), filename) {
                            assert(name_match(d, i as int, filename@));
                            return Some(i);
                        }
                    },
                    None => {},
                }
            }
            assert(!name_match(d, i as int, filename@));
            i = i + 1;
        }
        None
    }
}

/// The stored payload a compression method makes of the input bytes.
pub open spec fn payload_of(m: u8, data: Seq<u8>) -> Seq<u8>
    recommends
        m <= 2,
{
    if m == 0 {
        data
    } else if m == 1 {
        rle_encode(data)
    } else {
        deflate_of(data)
    }
}

/// The compression method an optional argument selects: deflate when
/// unspecified.
pub open spec fn method_or_default(o: Option<u8>) -> u8 {
    match o {
        Some(v) => v,
        None => 2,
    }
}

/// What a successful write leaves on the volume: a live entry under the
/// stored name whose metadata records the input and payload sizes and the
/// method, and whose chain holds exactly the payload.
pub open spec fn write_committed(d: Seq<u8>, name: Seq<u8>, data: Seq<u8>, m: u8) -> bool {
    let p = payload_of(m, data);
    &&& m <= 2
    &&& data.len() <= u32::MAX
    &&& p.len() <= u32::MAX
    &&& (find_live(d, stored_name(name)) matches Some(e) && {
        &&& e.size == data.len()
        &&& e.compressed_size == p.len()
        &&& e.compression_method == m
        &&& e.is_compressed == (m > 0)
        &&& !e.is_deleted
        &&& is_data_cluster(e.first_cluster)
        &&& gather(d, e.first_cluster, p.len() as nat) == p
        &&& (m == 2 ==> inflate_of(p) == Some(data))
    })
}

/// The number of clusters the entry of slot metadata `e` claims.
pub open spec fn entry_clusters(e: EntryModel) -> nat {
    clusters_for(e.compressed_size as nat)
}

/// The cluster chain the entry in slot `i` claims.
pub open spec fn slot_chain(d: Seq<u8>, i: int) -> Seq<u32> {
    chain_seq(fat_of(d), entry_at(d, i).first_cluster, entry_clusters(entry_at(d, i)))
}

/// A healthy volume: every live entry heads a duplicate-free chain of
/// exactly the clusters its stored size needs; live names are distinct;
/// chains of distinct entries are disjoint; and a cluster is taken exactly
/// when some live chain holds it.
pub open spec fn wf(d: Seq<u8>) -> bool {
    &&& d.len() == TOTAL_BYTES
    &&& (forall|i: int|
        0 <= i < ROOT_ENTRIES && #[trigger] live_at(d, i) ==> chain_ok(
            fat_of(d),
            entry_at(d, i).first_cluster,
            entry_clusters(entry_at(d, i)),
        ) && slot_chain(d, i).no_duplicates())
    &&& (forall|i: int, j: int|
        0 <= i < ROOT_ENTRIES && 0 <= j < ROOT_ENTRIES && i != j && #[trigger] live_at(d, i)
            && #[trigger] live_at(d, j) ==> entry_at(d, i).name != entry_at(d, j).name)
    &&& (forall|i: int, j: int, c: u32|
        0 <= i < ROOT_ENTRIES && 0 <= j < ROOT_ENTRIES && i != j && live_at(d, i) && live_at(d, j)
            ==> !(#[trigger] slot_chain(d, i).contains(c) && #[trigger] slot_chain(d, j).contains(
            c,
        )))
    &&& (forall|n: int|
        2 <= n < MAX_CLUSTERS ==> ((#[trigger] fat_of(d)[n] != FAT_FREE) <==> (exists|i: int|
            0 <= i < ROOT_ENTRIES && #[trigger] live_at(d, i) && slot_chain(d, i).contains(
                n as u32,
            ))))
}

/// The error a write is owed on a healthy volume, or nothing when success
/// is owed: invalid-argument for an unknown method or an empty stored
/// name; no-space when the payload needs more clusters than are free
/// counting those the replaced file returns; dir-full when a fresh name
/// finds no reusable slot.
pub open spec fn write_outcome(d: Seq<u8>, name: Seq<u8>, data: Seq<u8>, m: u8) -> Option<FsError> {
    let p = payload_of(m, data);
    let sn = stored_name(name);
    if m > 2 || sn.len() == 0 {
        Some(FsError::InvalidArgument)
    } else {
        let avail = free_clusters(fat_of(d)) + (match find_live(d, sn) {
            Some(e) => entry_clusters(e),
            None => 0,
        });
        if clusters_for(p.len()) > avail {
            Some(FsError::NoSpace)
        } else if find_live(d, sn) is None && upsert_from(d, sn, 0) is None {
            Some(FsError::DirFull)
        } else {
            None
        }
    }
}

/// Reading back what a write committed yields the written bytes: the
/// round-trip law, for every payload and every method.
pub proof fn lemma_read_after_write(d: Seq<u8>, name: Seq<u8>, data: Seq<u8>, m: u8)
    requires
        write_committed(d, name, data, m),
    ensures
        read_model(d, stored_name(name)) == Ok::<Seq<u8>, FsError>(data),
{
    if m == 1 {
        lemma_rle_round_trip(data);
    }
}

/// After a write without compression, the on-disk chain content up to the
/// original size is the input itself.
pub proof fn lemma_raw_write_on_disk(d: Seq<u8>, name: Seq<u8>, data: Seq<u8>)
    requires
        write_committed(d, name, data, 0),
    ensures
        find_live(d, stored_name(name)) matches Some(e) && gather(d, e.first_cluster, data.len())
            == data,
{
}

/// Deleting a committed file makes a read return not-found: on a healthy
/// volume the tombstoned slot was the only live slot under the name.
pub proof fn lemma_read_after_delete(d: Seq<u8>, name: Seq<u8>)
    requires
        find_from(d, name, 0) is None,
    ensures
        read_model(d, name) == Err::<Seq<u8>, FsError>(FsError::NotFound),
{
}

/// Zeroing one taken slot raises the free count at or before it by one.
proof fn lemma_count_free_zero(fat: Seq<u32>, c: int, i: int)
    requires
        fat.len() == MAX_CLUSTERS,
        2 <= c < MAX_CLUSTERS,
        fat[c] != FAT_FREE,
        2 <= i <= MAX_CLUSTERS,
    ensures
        count_free_from(fat.update(c, FAT_FREE), i) == count_free_from(fat, i) + (if i <= c {
            1int
        } else {
            0
        }),
    decreases MAX_CLUSTERS - i,
{
    if i < MAX_CLUSTERS {
        lemma_count_free_zero(fat, c, i + 1);
    }
}

/// The FAT with every cluster of `s` freed.
pub open spec fn zero_on(fat: Seq<u32>, s: Seq<u32>) -> Seq<u32> {
    Seq::new(
        fat.len(),
        |n: int|
            if s.contains(n as u32) {
                FAT_FREE
            } else {
                fat[n]
            },
    )
}

/// Freeing a duplicate-free set of taken data clusters raises the free
/// count by its size.
proof fn lemma_zero_on_count(fat: Seq<u32>, s: Seq<u32>)
    requires
        fat.len() == MAX_CLUSTERS,
        s.no_duplicates(),
        forall|j: int| 0 <= j < s.len() ==> is_data_cluster(#[trigger] s[j]),
        forall|j: int| 0 <= j < s.len() ==> fat[#[trigger] s[j] as int] != FAT_FREE,
    ensures
        free_clusters(zero_on(fat, s)) == free_clusters(fat) + s.len(),
    decreases s.len(),
{
    if s.len() == 0 {
        assert(zero_on(fat, s) =~= fat);
    } else {
        let c = s[0];
        let fat1 = fat.update(c as int, FAT_FREE);
        lemma_count_free_zero(fat, c as int, 2);
        assert forall|j: int| 0 <= j < s.skip(1).len() implies is_data_cluster(
            #[trigger] s.skip(1)[j],
        ) && fat1[s.skip(1)[j] as int] != FAT_FREE by {
            assert(s.skip(1)[j] == s[j + 1]);
            assert(s[j + 1] != s[0]);
        }
        lemma_zero_on_count(fat1, s.skip(1));
        assert(zero_on(fat, s) =~= zero_on(fat1, s.skip(1))) by {
            assert forall|n: int| 0 <= n < MAX_CLUSTERS implies zero_on(fat, s)[n] == zero_on(
                fat1,
                s.skip(1),
            )[n] by {
                if s.contains(n as u32) {
                    let w = choose|w: int| 0 <= w < s.len() && s[w] == n as u32;
                    if w == 0 {
                        assert(fat1[n] == FAT_FREE);
                    } else {
                        assert(s.skip(1)[w - 1] == n as u32);
                        assert(s.skip(1).contains(n as u32));
                    }
                } else {
                    assert(!s.skip(1).contains(n as u32)) by {
                        if s.skip(1).contains(n as u32) {
                            let w = choose|w: int|
                                0 <= w < s.skip(1).len() && s.skip(1)[w] == n as u32;
                            assert(s[w + 1] == n as u32);
                        }
                    }
                    assert(n as u32 != s[0]);
                }
            }
        }
    }
}

/// A list of data clusters whose FAT entries link each to the next, the
/// last to end-of-chain, forms a valid chain.
proof fn lemma_chain_from_links(fat: Seq<u32>, cl: Seq<u32>, i: int)
    requires
        cl.len() >= 1,
        0 <= i < cl.len(),
        forall|j: int| 0 <= j < cl.len() ==> is_data_cluster(#[trigger] cl[j]),
        forall|j: int|
            0 <= j < cl.len() ==> #[trigger] fat[cl[j] as int] == (if j < cl.len() - 1 {
                cl[j + 1]
            } else {
                FAT_EOC
            }),
    ensures
        chain_ok(fat, cl[i], (cl.len() - i) as nat),
        chain_seq(fat, cl[i], (cl.len() - i) as nat) == cl.skip(i),
    decreases cl.len() - i,
{
    if i == cl.len() - 1 {
        assert(chain_seq(fat, cl[i], 1) == seq![cl[i]] + chain_seq(fat, fat[cl[i] as int], 0));
        assert(chain_seq(fat, fat[cl[i] as int], 0) =~= Seq::<u32>::empty());
        assert(chain_seq(fat, cl[i], 1) =~= cl.skip(i));
    } else {
        lemma_chain_from_links(fat, cl, i + 1);
        assert(fat[cl[i] as int] == cl[i + 1]);
        assert(chain_seq(fat, cl[i], (cl.len() - i) as nat) =~= cl.skip(i)) by {
            assert(chain_seq(fat, cl[i], (cl.len() - i) as nat) == seq![cl[i]] + chain_seq(
                fat,
                cl[i + 1],
                (cl.len() - i - 1) as nat,
            ));
            assert(chain_seq(fat, cl[i + 1], (cl.len() - i - 1) as nat) == cl.skip(i + 1));
        }
    }
}

/// A walk gathers the payload back from a chain whose clusters hold its
/// consecutive chunks.
proof fn lemma_gather_chain(d: Seq<u8>, cl: Seq<u32>, p: Seq<u8>, i: int)
    requires
        d.len() == TOTAL_BYTES,
        cl.len() >= 1,
        0 <= i < cl.len(),
        p.len() <= cl.len() * CLUSTER_SIZE,
        p.len() == 0 ==> cl.len() == 1,
        p.len() > 0 ==> p.len() > (cl.len() - 1) * CLUSTER_SIZE,
        forall|j: int| 0 <= j < cl.len() ==> is_data_cluster(#[trigger] cl[j]),
        forall|j: int|
            0 <= j < cl.len() ==> #[trigger] fat_of(d)[cl[j] as int] == (if j < cl.len() - 1 {
                cl[j + 1]
            } else {
                FAT_EOC
            }),
        forall|j: int|
            0 <= j < cl.len() ==> #[trigger] cluster_bytes(d, cl[j] as int) == pad_cluster(
                p.subrange(
                    CLUSTER_SIZE * j,
                    if CLUSTER_SIZE * (j + 1) <= p.len() {
                        CLUSTER_SIZE * (j + 1)
                    } else {
                        p.len() as int
                    },
                ),
            ),
    ensures
        gather(d, cl[i], (p.len() - CLUSTER_SIZE * i) as nat) == p.skip(CLUSTER_SIZE * i),
    decreases cl.len() - i,
{
    let rem = p.len() - CLUSTER_SIZE * i;
    if p.len() == 0 {
        assert(gather(d, cl[0], 0) =~= p.skip(0));
    } else if i == cl.len() - 1 {
        assert(0 < rem <= CLUSTER_SIZE);
        let chunk = p.subrange(CLUSTER_SIZE * i, p.len() as int);
        assert(cluster_bytes(d, cl[i] as int) == pad_cluster(chunk));
        assert(gather(d, cl[i], rem as nat) == pad_cluster(chunk).take(rem));
        assert(pad_cluster(chunk).take(rem) =~= p.skip(CLUSTER_SIZE * i));
    } else {
        assert(rem > CLUSTER_SIZE);
        lemma_gather_chain(d, cl, p, i + 1);
        let chunk = p.subrange(CLUSTER_SIZE * i, CLUSTER_SIZE * (i + 1));
        assert(cluster_bytes(d, cl[i] as int) == pad_cluster(chunk));
        assert(pad_cluster(chunk) =~= chunk);
        assert(gather(d, cl[i], rem as nat) == chunk + gather(d, cl[i + 1], (rem
            - CLUSTER_SIZE) as nat));
        assert(chunk + p.skip(CLUSTER_SIZE * (i + 1)) =~= p.skip(CLUSTER_SIZE * i));
    }
}

/// Walks gather the same bytes on images with equal FATs and equal data
/// clusters.
proof fn lemma_gather_frame(d0: Seq<u8>, d1: Seq<u8>, c: u32, rem: nat)
    requires
        fat_of(d1) == fat_of(d0),
        forall|n: int|
            2 <= n < MAX_CLUSTERS ==> #[trigger] cluster_bytes(d1, n) == cluster_bytes(d0, n),
    ensures
        gather(d1, c, rem) == gather(d0, c, rem),
    decreases rem,
{
    if is_data_cluster(c) && rem > CLUSTER_SIZE {
        lemma_gather_frame(d0, d1, fat_of(d0)[c as int], (rem - CLUSTER_SIZE) as nat);
    }
}

/// Overwriting a taken slot with another nonzero value keeps the free
/// count.
proof fn lemma_count_free_keep(fat: Seq<u32>, c: int, v: u32, i: int)
    requires
        fat.len() == MAX_CLUSTERS,
        2 <= c < MAX_CLUSTERS,
        fat[c] != FAT_FREE,
        v != FAT_FREE,
        2 <= i <= MAX_CLUSTERS,
    ensures
        count_free_from(fat.update(c, v), i) == count_free_from(fat, i),
    decreases MAX_CLUSTERS - i,
{
    if i < MAX_CLUSTERS {
        lemma_count_free_keep(fat, c, v, i + 1);
    }
}

/// At most all data clusters can be free.
proof fn lemma_count_free_bound(fat: Seq<u32>, i: int)
    requires
        2 <= i <= MAX_CLUSTERS,
    ensures
        count_free_from(fat, i) <= MAX_CLUSTERS - i,
    decreases MAX_CLUSTERS - i,
{
    if i < MAX_CLUSTERS {
        lemma_count_free_bound(fat, i + 1);
    }
}

impl FileSystem {
    /// Whether some slot could take an entry stored under `sn`.
    fn has_reusable_slot(&self, sn: &[u8]) -> (r: bool)
        requires
            self.inv(),
        ensures
            r <==> upsert_from(self.bytes(), sn@, 0) is Some,
    {
        let ghost d = self.bytes();
        let mut i: usize = 0;
        while i < ROOT_ENTRIES
            invariant
                self.inv(),
                d == self.bytes(),
                i <= ROOT_ENTRIES,
                upsert_from(d, sn@, 0) == upsert_from(d, sn@, i as int),
            decreases ROOT_ENTRIES - i,
        {
            let slot = self.read_slot(i);
            let reusable: bool = if slot[0] == 0 {
                assert(!slot_used(slot_bytes(d, i as int)));
                true
            } else {
                match FileEntry::from_bytes(slot.as_slice()) {
                    Some(e) => e.is_deleted || bytes_eq(e.name.as_slice(), sn),
                    None => false,
                }
            };
            if reusable {
                assert(slot_reusable(d, i as int, sn@));
                return true;
            }
            assert(!slot_reusable(d, i as int, sn@));
            i = i + 1;
        }
        false
    }

    /// Writes a file: compresses the payload with the chosen method
    /// (deflate when none is given), replaces any live file of the same
    /// stored name, allocates a low-index-first chain of clusters for the
    /// payload, writes it out, and records the entry in the first reusable
    /// directory slot.
    #[verifier::rlimit(80)]
    pub fn write_file(&mut self, filename: &[u8], data: &[u8], compression_method: Option<u8>) -> (r:
        Result<(), FsError>)
        requires
            old(self).inv(),
            data@.len() <= u32::MAX,
        ensures
            final(self).inv(),
            r is Ok ==> write_committed(
                final(self).bytes(),
                filename@,
                data@,
                method_or_default(compression_method),
            ),
            r == Err::<(), FsError>(FsError::Io) ==> method_or_default(compression_method) == 2
                && final(self).bytes() == old(self).bytes(),
            (method_or_default(compression_method) > 2 || stored_name(filename@).len() == 0) ==> r
                == Err::<(), FsError>(FsError::InvalidArgument) && final(self).bytes() == old(
                self,
            ).bytes(),
            r == Err::<(), FsError>(FsError::InvalidArgument) ==> (method_or_default(
                compression_method,
            ) > 2 || stored_name(filename@).len() == 0),
            wf(old(self).bytes()) && r != Err::<(), FsError>(FsError::Io) ==> (match write_outcome(
                old(self).bytes(),
                filename@,
                data@,
                method_or_default(compression_method),
            ) {
                None => r is Ok,
                Some(e) => r == Err::<(), FsError>(e),
            }),
            wf(old(self).bytes()) ==> wf(final(self).bytes()),
    {
        let ghost d0 = self.bytes();
        let m = match compression_method {
            Some(v) => v,
            None => 2,
        };
        if m > 2 {
            return Err(FsError::InvalidArgument);
        }
        let sn = stored_name_exec(filename);
        if sn.len() == 0 {
            return Err(FsError::InvalidArgument);
        }
        let payload: Vec<u8> = if m == 0 {
            vstd::slice::slice_to_vec(data)
        } else if m == 1 {
            rle_compress_data(data)
        } else {
            match deflate_compress(data) {
                Ok(v) => v,
                Err(_) => {
                    return Err(FsError::Io);
                },
            }
        };
        assert(payload@ == payload_of(m, data@));
        let ghost infl_ok = m != 2 || inflate_of(payload@) == Some(data@);
        assert(infl_ok);
        // Replace any live file of the same stored name.
        let prior = self.find_file_slot(sn.as_slice());
        let ghost prior_entry: Option<EntryModel> = find_live(d0, sn@);
        match prior {
            Some(_) => {
                match self.delete_file(sn.as_slice()) {
                    Ok(_) => {},
                    Err(_) => {
                        assert(false);
                        return Err(FsError::NotFound);
                    },
                }
            },
            None => {},
        }
        let ghost dm = self.bytes();
        let ghost fatm = fat_of(dm);
        proof {
            if prior is None {
                assert(dm == d0);
            }
            if wf(d0) && prior is Some {
                let t = find_from(d0, sn@, 0).unwrap();
                lemma_find_from_char(d0, sn@, 0);
                let e = entry_at(d0, t);
                assert(live_at(d0, t));
                assert(chain_ok(fat_of(d0), e.first_cluster, entry_clusters(e)));
                let ch = chain_seq(fat_of(d0), e.first_cluster, entry_clusters(e));
                lemma_chain_seq_props(fat_of(d0), e.first_cluster, entry_clusters(e));
                assert forall|j: int| 0 <= j < ch.len() implies fat_of(d0)[#[trigger] ch[j] as int]
                    != FAT_FREE by {
                    lemma_chain_links(fat_of(d0), e.first_cluster, entry_clusters(e), j);
                }
                assert(fatm =~= zero_on(fat_of(d0), ch));
                lemma_zero_on_count(fat_of(d0), ch);
                assert(free_clusters(fatm) == free_clusters(fat_of(d0)) + entry_clusters(e));
                // The tombstoned slot stays reusable.
                assert(slot_bytes(dm, t)[44] == 1u8);
                assert(entry_at(dm, t).is_deleted);
                assert(slot_reusable(dm, t, sn@));
                lemma_upsert_from_char(dm, sn@, 0);
                if upsert_from(dm, sn@, 0) is None {
                    assert(!slot_reusable(dm, t, sn@));
                }
                assert(upsert_from(dm, sn@, 0) is Some);
            }
        }
        // Space check: the payload can never need more clusters than exist.
        if payload.len() > (MAX_CLUSTERS - 2) * CLUSTER_SIZE {
            proof {
                if wf(d0) {
                    lemma_count_free_bound(fat_of(d0), 2);
                    lemma_count_free_bound(fatm, 2);
                }
            }
            return Err(FsError::NoSpace);
        }
        let k: usize = if payload.len() == 0 {
            1
        } else {
            (payload.len() + (CLUSTER_SIZE - 1)) / CLUSTER_SIZE
        };
        assert(k == clusters_for(payload@.len() as nat));
        assert(1 <= k && k <= MAX_CLUSTERS - 2);
        let free = self.count_free_clusters();
        if free < k {
            proof {
                if wf(d0) {
                    assert(write_outcome(d0, filename@, data@, m) == Some(FsError::NoSpace));
                }
            }
            return Err(FsError::NoSpace);
        }
        if !self.has_reusable_slot(sn.as_slice()) {
            proof {
                if wf(d0) {
                    assert(prior is None);
                    assert(write_outcome(d0, filename@, data@, m) == Some(FsError::DirFull));
                }
            }
            return Err(FsError::DirFull);
        }
        let ghost free_m = free_clusters(fatm);
        // Allocate and link the chain, low-index-first.
        let mut clusters: Vec<u32> = Vec::new();
        let mut idx: usize = 0;
        while idx < k
            invariant
                self.inv(),
                clusters@.len() == idx,
                idx <= k,
                1 <= k <= MAX_CLUSTERS - 2,
                free_m == free_clusters(fatm),
                free_m >= k,
                dm.len() == TOTAL_BYTES,
                fatm == fat_of(dm),
                free_clusters(fat_of(self.bytes())) == free_m - idx,
                forall|a: int, b: int|
                    0 <= a < b < idx ==> #[trigger] clusters@[a] != #[trigger] clusters@[b],
                forall|a: int| 0 <= a < idx ==> is_data_cluster(#[trigger] clusters@[a]),
                forall|a: int|
                    0 <= a < idx ==> fatm[#[trigger] clusters@[a] as int] == FAT_FREE,
                forall|a: int|
                    0 <= a < idx ==> #[trigger] fat_of(self.bytes())[clusters@[a] as int] == (
                    if a < idx - 1 {
                        clusters@[a + 1]
                    } else {
                        FAT_EOC
                    }),
                forall|n: int|
                    0 <= n < MAX_CLUSTERS && !clusters@.contains(n as u32)
                        ==> #[trigger] fat_of(self.bytes())[n] == fatm[n],
                boot_region(self.bytes()) == boot_region(dm),
                dir_region(self.bytes()) == dir_region(dm),
                data_region(self.bytes()) == data_region(dm),
            decreases k - idx,
        {
            let ghost fat_prev = fat_of(self.bytes());
            let ghost cl_prev = clusters@;
            let c = match self.allocate_cluster() {
                Ok(c) => c,
                Err(_) => {
                    proof {
                        assert(free_clusters(fat_prev) > 0);
                    }
                    assert(false);
                    return Err(FsError::NoSpace);
                },
            };
            proof {
                assert forall|a: int| 0 <= a < idx implies c != #[trigger] cl_prev[a] by {
                    assert(fat_prev[cl_prev[a] as int] != FAT_FREE);
                }
                assert(!cl_prev.contains(c)) by {
                    if cl_prev.contains(c) {
                        let w = choose|w: int| 0 <= w < idx && cl_prev[w] == c;
                        assert(c != cl_prev[w]);
                    }
                }
                assert(fatm[c as int] == FAT_FREE);
            }
            if idx > 0 {
                let prev = clusters[idx - 1];
                let ghost fat_mid2 = fat_of(self.bytes());
                self.set_next_cluster(prev, c);
                proof {
                    assert(prev != c);
                    assert(fat_mid2[prev as int] == FAT_EOC);
                    lemma_count_free_keep(fat_mid2, prev as int, c, 2);
                }
            }
            clusters.push(c);
            proof {
                let cl = clusters@;
                let fat_now = fat_of(self.bytes());
                assert(cl =~= cl_prev.push(c));
                assert forall|n: int|
                    0 <= n < MAX_CLUSTERS && !cl.contains(n as u32) implies #[trigger] fat_now[n]
                    == fatm[n] by {
                    assert(!cl_prev.contains(n as u32)) by {
                        if cl_prev.contains(n as u32) {
                            let w = choose|w: int| 0 <= w < cl_prev.len() && cl_prev[w] == n as u32;
                            assert(cl[w] == n as u32);
                        }
                    }
                    assert(n as u32 != c) by {
                        assert(cl[idx as int] == c);
                    }
                }
                assert forall|a: int| 0 <= a < idx + 1 implies #[trigger] fat_now[cl[a] as int]
                    == (if a < idx {
                    cl[a + 1]
                } else {
                    FAT_EOC
                }) by {
                    if a < idx - 1 {
                        assert(cl[a] == cl_prev[a]);
                        assert(cl[a] != c && cl[a] != cl_prev[idx - 1]);
                    } else if idx > 0 && a == idx - 1 {
                        assert(cl[a] == cl_prev[idx - 1]);
                        assert(cl[a] != c);
                    } else {
                        assert(cl[a] == c);
                    }
                }
            }
            idx = idx + 1;
        }
        let ghost da = self.bytes();
        let ghost fata = fat_of(da);
        let ghost cl = clusters@;
        // Write the payload, cluster by cluster; the device zero-pads.
        let mut j: usize = 0;
        while j < k
            invariant
                self.inv(),
                j <= k,
                1 <= k <= MAX_CLUSTERS - 2,
                clusters@ == cl,
                cl.len() == k,
                k == clusters_for(payload@.len() as nat),
                payload@.len() <= (MAX_CLUSTERS - 2) * CLUSTER_SIZE,
                da.len() == TOTAL_BYTES,
                forall|a: int, b: int| 0 <= a < b < k ==> #[trigger] cl[a] != #[trigger] cl[b],
                forall|a: int| 0 <= a < k ==> is_data_cluster(#[trigger] cl[a]),
                fat_of(self.bytes()) == fata,
                boot_region(self.bytes()) == boot_region(da),
                dir_region(self.bytes()) == dir_region(da),
                forall|a: int|
                    0 <= a < j ==> #[trigger] cluster_bytes(self.bytes(), cl[a] as int)
                        == pad_cluster(
                        payload@.subrange(
                            CLUSTER_SIZE * a,
                            if CLUSTER_SIZE * (a + 1) <= payload@.len() {
                                CLUSTER_SIZE * (a + 1)
                            } else {
                                payload@.len() as int
                            },
                        ),
                    ),
                forall|n: int|
                    2 <= n < MAX_CLUSTERS && !cl.contains(n as u32) ==> #[trigger] cluster_bytes(
                        self.bytes(),
                        n,
                    ) == cluster_bytes(da, n),
            decreases k - j,
        {
            let start = if j * CLUSTER_SIZE < payload.len() {
                j * CLUSTER_SIZE
            } else {
                payload.len()
            };
            let end = if start + CLUSTER_SIZE < payload.len() {
                start + CLUSTER_SIZE
            } else {
                payload.len()
            };
            proof {
                if payload@.len() > 0 {
                    assert((k - 1) * CLUSTER_SIZE < payload@.len());
                    assert(j * CLUSTER_SIZE < payload@.len() || j == k);
                }
                assert(start == (if CLUSTER_SIZE * (j as int) <= payload@.len() {
                    CLUSTER_SIZE * (j as int)
                } else {
                    payload@.len() as int
                }));
            }
            let chunk = slice_subrange(payload.as_slice(), start, end);
            let ghost d_pre = self.bytes();
            self.write_cluster(clusters[j], chunk);
            proof {
                lemma_fat_from_region(d_pre, self.bytes());
                assert forall|a: int|
                    0 <= a < j + 1 implies #[trigger] cluster_bytes(self.bytes(), cl[a] as int)
                    == pad_cluster(
                    payload@.subrange(
                        CLUSTER_SIZE * a,
                        if CLUSTER_SIZE * (a + 1) <= payload@.len() {
                            CLUSTER_SIZE * (a + 1)
                        } else {
                            payload@.len() as int
                        },
                    ),
                ) by {
                    if a < j {
                        assert(cl[a] != cl[j as int]);
                        assert(cluster_bytes(self.bytes(), cl[a] as int) == cluster_bytes(
                            d_pre,
                            cl[a] as int,
                        ));
                    } else {
                        assert(chunk@ == payload@.subrange(start as int, end as int));
                    }
                }
                assert forall|n: int|
                    2 <= n < MAX_CLUSTERS && !cl.contains(n as u32) implies #[trigger] cluster_bytes(
                    self.bytes(),
                    n,
                ) == cluster_bytes(da, n) by {
                    assert(n as u32 != cl[j as int]) by {
                        if n as u32 == cl[j as int] {
                            assert(cl.contains(n as u32));
                        }
                    }
                }
            }
            j = j + 1;
        }
        let ghost dw = self.bytes();
        // Record the entry in the directory.
        let first_cluster = clusters[0];
        let entry = FileEntry::new(
            sn.as_slice(),
            data.len() as u32,
            payload.len() as u32,
            first_cluster,
            m,
        );
        proof {
            crate::entry::lemma_stored_name_idem(filename@);
            assert(stored_name(entry@.name) == sn@);
            lemma_slots_from_dir_region(dm, dw);
            lemma_dir_specs_eq(dm, dw, sn@, 0);
            assert(upsert_from(dw, sn@, 0) is Some);
        }
        match self.write_directory_entry(&entry) {
            Ok(_) => {},
            Err(_) => {
                assert(false);
                return Err(FsError::DirFull);
            },
        }
        proof {
            let d1 = self.bytes();
            let t = upsert_from(dw, sn@, 0).unwrap();
            lemma_upsert_from_char(dw, sn@, 0);
            crate::entry::lemma_entry_round_trip(entry@);
            assert(slot_bytes(d1, t) == encode_entry(entry@));
            assert(entry_at(d1, t).name == sn@);
            assert(!entry_at(d1, t).is_deleted);
            assert(slot_used(slot_bytes(d1, t)));
            assert(live_at(d1, t));
            assert(name_match(d1, t, sn@));
            // No earlier slot matches: they were not reusable, so they are
            // live under other names, and the upsert left them alone.
            assert forall|w: int| 0 <= w < t implies !name_match(d1, w, sn@) by {
                assert(!slot_reusable(dw, w, sn@));
                assert(slot_bytes(d1, w) == slot_bytes(dw, w));
            }
            lemma_find_from_char(d1, sn@, 0);
            assert(find_from(d1, sn@, 0) == Some(t)) by {
                if find_from(d1, sn@, 0) is None {
                    assert(!name_match(d1, t, sn@));
                } else {
                    let w = find_from(d1, sn@, 0).unwrap();
                    if w < t {
                        assert(!name_match(d1, w, sn@));
                    } else if w > t {
                        assert(!name_match(d1, t, sn@));
                    }
                }
            }
            assert(find_live(d1, sn@) == Some(entry_at(d1, t)));
            // The chain gathers the payload back.
            lemma_chain_from_links(fata, cl, 0);
            assert(chain_ok(fata, first_cluster, k as nat));
            lemma_fat_from_region(dw, d1);
            lemma_clusters_from_region(dw, d1);
            assert(fat_of(dw) == fata);
            lemma_gather_chain(dw, cl, payload@, 0);
            assert(gather(dw, cl[0], payload@.len() as nat) == payload@.skip(0));
            lemma_gather_frame(dw, d1, first_cluster, payload@.len() as nat);
            assert(payload@.skip(0) =~= payload@);
            assert(gather(d1, first_cluster, payload@.len() as nat) == payload@);
            assert(write_committed(d1, filename@, data@, m));
            if wf(d0) {
                assert(write_outcome(d0, filename@, data@, m) is None);
                assert(wf(dm));
                if prior is Some {
                    let tp = find_from(d0, sn@, 0).unwrap();
                    lemma_find_from_char(d0, sn@, 0);
                    assert(name_match(d0, tp, sn@));
                    assert forall|w: int|
                        0 <= w < ROOT_ENTRIES && w != tp implies !name_match(d0, w, sn@) by {
                        if name_match(d0, w, sn@) {
                            assert(live_at(d0, w) && live_at(d0, tp));
                            assert(entry_at(d0, w).name == entry_at(d0, tp).name);
                        }
                    }
                    assert(find_from(dm, sn@, 0) is None);
                } else {
                    assert(dm == d0);
                    assert(find_from(dm, sn@, 0) is None);
                }
                assert(slot_bytes(dw, t) == slot_bytes(dm, t));
                assert(slot_reusable(dm, t, sn@));
                let enew = entry_at(d1, t);
                assert(enew.name == sn@);
                assert(enew.compressed_size == payload@.len());
                assert(entry_clusters(enew) == cl.len());
                assert(enew.first_cluster == cl[0]);
                assert(cl.no_duplicates()) by {
                    assert forall|a: int, b: int|
                        0 <= a < cl.len() && 0 <= b < cl.len() && a != b implies cl[a] != cl[b] by {
                        if a < b {
                            assert(cl[a] != cl[b]);
                        } else {
                            assert(cl[b] != cl[a]);
                        }
                    }
                }
                lemma_write_preserves_wf(dm, d1, sn@, cl, t, enew);
            }
        }
        Ok(())
    }
}

impl FileSystem {
    /// Writes a file under an explicitly chosen compression method.
    pub fn write_file_with_compression(
        &mut self,
        filename: &[u8],
        data: &[u8],
        compression_method: u8,
    ) -> (r: Result<(), FsError>)
        requires
            old(self).inv(),
            data@.len() <= u32::MAX,
        ensures
            final(self).inv(),
            r is Ok ==> write_committed(final(self).bytes(), filename@, data@, compression_method),
            r == Err::<(), FsError>(FsError::Io) ==> compression_method == 2 && final(self).bytes()
                == old(self).bytes(),
            (compression_method > 2 || stored_name(filename@).len() == 0) ==> r == Err::<
                (),
                FsError,
            >(FsError::InvalidArgument) && final(self).bytes() == old(self).bytes(),
            wf(old(self).bytes()) && r != Err::<(), FsError>(FsError::Io) ==> (match write_outcome(
                old(self).bytes(),
                filename@,
                data@,
                compression_method,
            ) {
                None => r is Ok,
                Some(e) => r == Err::<(), FsError>(e),
            }),
            wf(old(self).bytes()) ==> wf(final(self).bytes()),
    {
        self.write_file(filename, data, Some(compression_method))
    }
}

/// A chain survives any FAT change that leaves its own entries alone.
pub proof fn lemma_chain_frame(fat0: Seq<u32>, fat1: Seq<u32>, c: u32, k: nat)
    requires
        chain_ok(fat0, c, k),
        forall|j: int|
            0 <= j < k ==> fat1[#[trigger] chain_seq(fat0, c, k)[j] as int] == fat0[chain_seq(
                fat0,
                c,
                k,
            )[j] as int],
    ensures
        chain_ok(fat1, c, k),
        chain_seq(fat1, c, k) == chain_seq(fat0, c, k),
    decreases k,
{
    lemma_chain_seq_props(fat0, c, k);
    assert(chain_seq(fat0, c, k)[0] == c);
    assert(fat1[c as int] == fat0[c as int]);
    if k > 1 {
        let next = fat0[c as int];
        lemma_chain_seq_props(fat0, next, (k - 1) as nat);
        assert(chain_seq(fat0, c, k) == seq![c] + chain_seq(fat0, next, (k - 1) as nat));
        assert forall|j: int| 0 <= j < k - 1 implies fat1[#[trigger] chain_seq(
            fat0,
            next,
            (k - 1) as nat,
        )[j] as int] == fat0[chain_seq(fat0, next, (k - 1) as nat)[j] as int] by {
            assert(chain_seq(fat0, c, k)[j + 1] == chain_seq(fat0, next, (k - 1) as nat)[j]);
        }
        lemma_chain_frame(fat0, fat1, next, (k - 1) as nat);
        assert(chain_seq(fat1, c, k) =~= chain_seq(fat0, c, k)) by {
            assert(chain_seq(fat1, c, k) == seq![c] + chain_seq(fat1, next, (k - 1) as nat));
        }
    } else {
        assert(chain_seq(fat1, c, 1) == seq![c] + chain_seq(fat1, fat1[c as int], 0));
        assert(chain_seq(fat0, c, 1) == seq![c] + chain_seq(fat0, fat0[c as int], 0));
        assert(chain_seq(fat1, fat1[c as int], 0) =~= chain_seq(fat0, fat0[c as int], 0));
        assert(chain_seq(fat1, c, k) == chain_seq(fat0, c, k));
    }
}

/// A freshly formatted volume is healthy: it has no live entries and no
/// taken data cluster.
pub proof fn lemma_format_wf()
    ensures
        wf(format_image()),
{
    let d = format_image();
    lemma_format_props();
    assert forall|n: int| 2 <= n < MAX_CLUSTERS implies ((#[trigger] fat_of(d)[n] != FAT_FREE)
        <==> (exists|i: int|
        0 <= i < ROOT_ENTRIES && #[trigger] live_at(d, i) && slot_chain(d, i).contains(
            n as u32,
        ))) by {
        assert(fat_of(d)[n] == FAT_FREE);
        if exists|i: int|
            0 <= i < ROOT_ENTRIES && #[trigger] live_at(d, i) && slot_chain(d, i).contains(
                n as u32,
            ) {
            let i = choose|i: int|
                0 <= i < ROOT_ENTRIES && #[trigger] live_at(d, i) && slot_chain(d, i).contains(
                    n as u32,
                );
            assert(!live_at(d, i));
        }
    }
}

/// Committing a fresh entry whose chain was carved out of the free
/// clusters keeps a volume healthy.
proof fn lemma_write_preserves_wf(
    dm: Seq<u8>,
    d1: Seq<u8>,
    sn: Seq<u8>,
    cl: Seq<u32>,
    t: int,
    enew: EntryModel,
)
    requires
        wf(dm),
        d1.len() == TOTAL_BYTES,
        find_from(dm, sn, 0) is None,
        0 <= t < ROOT_ENTRIES,
        slot_reusable(dm, t, sn),
        forall|j: int|
            0 <= j < ROOT_ENTRIES && j != t ==> #[trigger] slot_bytes(d1, j) == slot_bytes(dm, j),
        live_at(d1, t),
        entry_at(d1, t) == enew,
        enew.name == sn,
        entry_clusters(enew) == cl.len(),
        enew.first_cluster == cl[0],
        cl.len() >= 1,
        cl.no_duplicates(),
        forall|a: int| 0 <= a < cl.len() ==> is_data_cluster(#[trigger] cl[a]),
        forall|a: int| 0 <= a < cl.len() ==> fat_of(dm)[#[trigger] cl[a] as int] == FAT_FREE,
        forall|a: int|
            0 <= a < cl.len() ==> #[trigger] fat_of(d1)[cl[a] as int] == (if a < cl.len() - 1 {
                cl[a + 1]
            } else {
                FAT_EOC
            }),
        forall|n: int|
            0 <= n < MAX_CLUSTERS && !cl.contains(n as u32) ==> #[trigger] fat_of(d1)[n] == fat_of(
                dm,
            )[n],
    ensures
        wf(d1),
{
    let fatm = fat_of(dm);
    let fat1 = fat_of(d1);
    lemma_find_from_char(dm, sn, 0);
    lemma_chain_from_links(fat1, cl, 0);
    assert(cl.skip(0) =~= cl);
    assert(chain_ok(fat1, cl[0], cl.len() as nat));
    assert(slot_chain(d1, t) == cl);
    // A cluster of the new chain is never free afterwards.
    assert forall|a: int| 0 <= a < cl.len() implies fat1[#[trigger] cl[a] as int]
        != FAT_FREE by {
        if a < cl.len() - 1 {
            assert(is_data_cluster(cl[a + 1]));
        }
    }
    // Entries other than the new one keep their chains, over FAT values
    // that the allocation did not touch.
    assert forall|i: int|
        0 <= i < ROOT_ENTRIES && i != t && #[trigger] live_at(dm, i) implies {
        &&& chain_ok(fat1, entry_at(dm, i).first_cluster, entry_clusters(entry_at(dm, i)))
        &&& chain_seq(fat1, entry_at(dm, i).first_cluster, entry_clusters(entry_at(dm, i)))
            == slot_chain(dm, i)
        &&& (forall|c: u32| slot_chain(dm, i).contains(c) ==> !cl.contains(c))
    } by {
        let ei = entry_at(dm, i);
        let ki = entry_clusters(ei);
        assert(chain_ok(fatm, ei.first_cluster, ki));
        let chi = chain_seq(fatm, ei.first_cluster, ki);
        assert(chi == slot_chain(dm, i));
        lemma_chain_seq_props(fatm, ei.first_cluster, ki);
        assert forall|c: u32| slot_chain(dm, i).contains(c) implies !cl.contains(c) by {
            assert(fatm[c as int] != FAT_FREE) by {
                let w = choose|w: int| 0 <= w < chi.len() && chi[w] == c;
                assert(is_data_cluster(c));
                assert(exists|ii: int|
                    0 <= ii < ROOT_ENTRIES && #[trigger] live_at(dm, ii) && slot_chain(
                        dm,
                        ii,
                    ).contains(c));
            }
            if cl.contains(c) {
                let a = choose|a: int| 0 <= a < cl.len() && cl[a] == c;
                assert(fatm[cl[a] as int] == FAT_FREE);
            }
        }
        assert forall|j: int| 0 <= j < ki implies fat1[#[trigger] chi[j] as int] == fatm[chi[j]
            as int] by {
            assert(chi.contains(chi[j]));
            assert(!cl.contains(chi[j]));
            assert(is_data_cluster(chi[j]));
        }
        lemma_chain_frame(fatm, fat1, ei.first_cluster, ki);
    }
    // The live slots of the new image.
    assert forall|i: int|
        0 <= i < ROOT_ENTRIES && #[trigger] live_at(d1, i) && i != t implies live_at(dm, i)
        && entry_at(d1, i) == entry_at(dm, i) && slot_chain(d1, i) == slot_chain(dm, i)
        && entry_at(dm, i).name != sn by {
        assert(slot_bytes(d1, i) == slot_bytes(dm, i));
        assert(live_at(dm, i));
        assert(chain_seq(fat1, entry_at(dm, i).first_cluster, entry_clusters(entry_at(dm, i)))
            == slot_chain(dm, i));
        if entry_at(dm, i).name == sn {
            assert(name_match(dm, i, sn));
        }
    }
    // Taken clusters are exactly those of some live chain.
    assert forall|n: int| 2 <= n < MAX_CLUSTERS implies ((#[trigger] fat1[n] != FAT_FREE) <==> (
    exists|i: int|
        0 <= i < ROOT_ENTRIES && #[trigger] live_at(d1, i) && slot_chain(d1, i).contains(
            n as u32,
        ))) by {
        if fat1[n] != FAT_FREE {
            if cl.contains(n as u32) {
                assert(live_at(d1, t) && slot_chain(d1, t).contains(n as u32));
            } else {
                assert(fatm[n] != FAT_FREE);
                let i = choose|i: int|
                    0 <= i < ROOT_ENTRIES && #[trigger] live_at(dm, i) && slot_chain(
                        dm,
                        i,
                    ).contains(n as u32);
                assert(i != t) by {
                    if i == t {
                        assert(live_at(dm, t));
                        assert(slot_used(slot_bytes(dm, t)) && !entry_at(dm, t).is_deleted);
                        assert(entry_at(dm, t).name == sn);
                        assert(name_match(dm, t, sn));
                    }
                }
                assert(live_at(d1, i) && slot_chain(d1, i).contains(n as u32));
            }
        }
        if exists|i: int|
            0 <= i < ROOT_ENTRIES && #[trigger] live_at(d1, i) && slot_chain(d1, i).contains(
                n as u32,
            ) {
            let i = choose|i: int|
                0 <= i < ROOT_ENTRIES && #[trigger] live_at(d1, i) && slot_chain(d1, i).contains(
                    n as u32,
                );
            if i == t {
                let a = choose|a: int| 0 <= a < cl.len() && cl[a] == n as u32;
                assert(fat1[cl[a] as int] != FAT_FREE);
            } else {
                assert(slot_chain(dm, i).contains(n as u32));
                assert(fatm[n] != FAT_FREE) by {
                    assert(exists|ii: int|
                        0 <= ii < ROOT_ENTRIES && #[trigger] live_at(dm, ii) && slot_chain(
                            dm,
                            ii,
                        ).contains(n as u32));
                }
                assert(!cl.contains(n as u32)) by {
                    if cl.contains(n as u32) {
                        let a = choose|a: int| 0 <= a < cl.len() && cl[a] == n as u32;
                        assert(fatm[cl[a] as int] == FAT_FREE);
                    }
                }
                assert(fat1[n] == fatm[n]);
            }
        }
    }
    // Names stay distinct: the one new name matches no survivor.
    assert forall|i: int, j: int|
        0 <= i < ROOT_ENTRIES && 0 <= j < ROOT_ENTRIES && i != j && #[trigger] live_at(d1, i)
            && #[trigger] live_at(d1, j) implies entry_at(d1, i).name != entry_at(d1, j).name by {
        if i != t && j != t {
            assert(live_at(dm, i) && live_at(dm, j));
        }
    }
    // Chains stay pairwise disjoint.
    assert forall|i: int, j: int, c: u32|
        0 <= i < ROOT_ENTRIES && 0 <= j < ROOT_ENTRIES && i != j && live_at(d1, i) && live_at(
            d1,
            j,
        ) implies !(#[trigger] slot_chain(d1, i).contains(c) && #[trigger] slot_chain(
        d1,
        j,
    ).contains(c)) by {
        if slot_chain(d1, i).contains(c) && slot_chain(d1, j).contains(c) {
            if i == t {
                assert(slot_chain(dm, j).contains(c) && cl.contains(c));
            } else if j == t {
                assert(slot_chain(dm, i).contains(c) && cl.contains(c));
            } else {
                assert(slot_chain(dm, i).contains(c) && slot_chain(dm, j).contains(c));
            }
        }
    }
    assert(wf(d1));
}

/// The printable label of a compression method.
pub open spec fn label_of(m: u8) -> Seq<char> {
    if m == 0 {
        "none"@
    } else if m == 1 {
        "rle"@
    } else if m == 2 {
        "deflate"@
    } else {
        "unknown"@
    }
}

} // verus!
