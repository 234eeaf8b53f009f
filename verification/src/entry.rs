//! Directory entries: the 64-byte on-disk slot encoding and its spec-level
//! decoding.
//!
//! Slot layout, little-endian: 32 name bytes (zero-padded, truncated at
//! write time), original size, stored size, first cluster, a tombstone
//! byte, an is-compressed byte, the compression method byte, and 17
//! reserved zero bytes.

use crate::layout::DIR_ENTRY_SIZE;
use crate::layout::MAX_FILENAME_LENGTH;
use vstd::bytes::lemma_auto_spec_u32_to_from_le_bytes;
use vstd::bytes::spec_u32_from_le_bytes;
use vstd::bytes::spec_u32_to_le_bytes;
use vstd::bytes::u32_from_le_bytes;
use vstd::bytes::u32_to_le_bytes;
use vstd::prelude::*;
use vstd::slice::slice_subrange;

verus! {

/// The mathematical content of one directory entry.
pub ghost struct EntryModel {
    pub name: Seq<u8>,
    pub size: u32,
    pub compressed_size: u32,
    pub first_cluster: u32,
    pub is_deleted: bool,
    pub is_compressed: bool,
    pub compression_method: u8,
}

/// Index at which a name field ends: the first zero byte, the end of the
/// sequence, or the 32-byte cap, whichever comes first at or after `i`.
pub open spec fn name_scan(s: Seq<u8>, i: int) -> int
    decreases MAX_FILENAME_LENGTH - i,
{
    if i >= MAX_FILENAME_LENGTH || i >= s.len() {
        i
    } else if s[i] == 0 {
        i
    } else {
        name_scan(s, i + 1)
    }
}

/// The name that a raw name actually denotes once stored: truncated to 32
/// bytes and cut at the first zero byte.
pub open spec fn stored_name(name: Seq<u8>) -> Seq<u8> {
    name.take(name_scan(name, 0))
}

/// The name field truncated to at most 32 bytes.
pub open spec fn trunc_name(name: Seq<u8>) -> Seq<u8> {
    if name.len() <= MAX_FILENAME_LENGTH {
        name
    } else {
        name.take(MAX_FILENAME_LENGTH as int)
    }
}

/// The 64-byte encoding of an entry.
pub open spec fn encode_entry(e: EntryModel) -> Seq<u8> {
    let nm = trunc_name(e.name);
    nm + Seq::new((MAX_FILENAME_LENGTH - nm.len()) as nat, |i: int| 0u8)
        + spec_u32_to_le_bytes(e.size) + spec_u32_to_le_bytes(e.compressed_size)
        + spec_u32_to_le_bytes(e.first_cluster) + seq![
        (if e.is_deleted {
            1u8
        } else {
            0u8
        }),
        (if e.is_compressed {
            1u8
        } else {
            0u8
        }),
        e.compression_method,
    ] + Seq::new(17, |i: int| 0u8)
}

/// What a 64-byte slot decodes to.
pub open spec fn decode_slot(s: Seq<u8>) -> EntryModel
    recommends
        s.len() >= DIR_ENTRY_SIZE,
{
    EntryModel {
        name: s.take(name_scan(s, 0)),
        size: spec_u32_from_le_bytes(s.subrange(32, 36)),
        compressed_size: spec_u32_from_le_bytes(s.subrange(36, 40)),
        first_cluster: spec_u32_from_le_bytes(s.subrange(40, 44)),
        is_deleted: s[44] != 0,
        is_compressed: s[45] != 0,
        compression_method: s[46],
    }
}

/// A used slot: its first byte is not zero.  A never-used slot keeps a zero
/// there.
pub open spec fn slot_used(s: Seq<u8>) -> bool {
    s[0] != 0
}

/// A slot holding a live (used, not tombstoned) entry.
pub open spec fn slot_live(s: Seq<u8>) -> bool {
    slot_used(s) && !decode_slot(s).is_deleted
}

/// The name scan of an encoded slot agrees with the scan of the raw name.
proof fn lemma_name_scan_encode(name: Seq<u8>, s: Seq<u8>, i: int)
    requires
        s.len() >= MAX_FILENAME_LENGTH,
        forall|j: int|
            0 <= j < MAX_FILENAME_LENGTH ==> #[trigger] s[j] == (if j < trunc_name(name).len() {
                trunc_name(name)[j]
            } else {
                0u8
            }),
        0 <= i <= MAX_FILENAME_LENGTH,
    ensures
        name_scan(s, i) == name_scan(name, i),
    decreases MAX_FILENAME_LENGTH - i,
{
    if i < MAX_FILENAME_LENGTH {
        if i >= name.len() {
            assert(s[i] == 0);
        } else if s[i] != 0 {
            lemma_name_scan_encode(name, s, i + 1);
        }
    }
}

/// Decoding inverts encoding: every field comes back, the name as its
/// stored form.
pub proof fn lemma_entry_round_trip(e: EntryModel)
    ensures
        encode_entry(e).len() == DIR_ENTRY_SIZE,
        decode_slot(encode_entry(e)).name == stored_name(e.name),
        decode_slot(encode_entry(e)).size == e.size,
        decode_slot(encode_entry(e)).compressed_size == e.compressed_size,
        decode_slot(encode_entry(e)).first_cluster == e.first_cluster,
        decode_slot(encode_entry(e)).is_deleted == e.is_deleted,
        decode_slot(encode_entry(e)).is_compressed == e.is_compressed,
        decode_slot(encode_entry(e)).compression_method == e.compression_method,
        slot_used(encode_entry(e)) <==> stored_name(e.name).len() > 0,
{
    lemma_auto_spec_u32_to_from_le_bytes();
    let s = encode_entry(e);
    let nm = trunc_name(e.name);
    assert(s.len() == DIR_ENTRY_SIZE);
    assert forall|j: int| 0 <= j < MAX_FILENAME_LENGTH implies #[trigger] s[j] == (if j
        < nm.len() {
        nm[j]
    } else {
        0u8
    }) by {}
    lemma_name_scan_encode(e.name, s, 0);
    lemma_name_scan_le(e.name, 0);
    let k = name_scan(e.name, 0);
    assert(0 <= k <= nm.len());
    assert forall|j: int| 0 <= j < k implies s.take(name_scan(s, 0))[j] == e.name.take(k)[j] by {
        assert(s[j] == nm[j]);
        assert(nm[j] == e.name[j]);
    }
    assert(s.take(name_scan(s, 0)) =~= e.name.take(name_scan(e.name, 0)));
    assert(s.subrange(32, 36) =~= spec_u32_to_le_bytes(e.size));
    assert(s.subrange(36, 40) =~= spec_u32_to_le_bytes(e.compressed_size));
    assert(s.subrange(40, 44) =~= spec_u32_to_le_bytes(e.first_cluster));
    assert(s[44] == (if e.is_deleted { 1u8 } else { 0u8 }));
    assert(s[45] == (if e.is_compressed { 1u8 } else { 0u8 }));
    assert(s[46] == e.compression_method);
    lemma_name_scan_stops(e.name, 0);
    if name_scan(e.name, 0) > 0 {
        assert(e.name[0] != 0);
        assert(s[0] == nm[0]);
    } else {
        if e.name.len() > 0 && e.name[0] != 0 {
            assert(name_scan(e.name, 0) == name_scan(e.name, 1));
            lemma_name_scan_le(e.name, 1);
            assert(false);
        }
        assert(s[0] == 0);
    }
}

/// The scan never passes the 32-byte cap nor the end of the sequence.
pub proof fn lemma_name_scan_le(s: Seq<u8>, i: int)
    requires
        0 <= i <= MAX_FILENAME_LENGTH,
    ensures
        i <= name_scan(s, i) <= MAX_FILENAME_LENGTH,
        name_scan(s, i) <= s.len() || name_scan(s, i) == i,
    decreases MAX_FILENAME_LENGTH - i,
{
    if i < MAX_FILENAME_LENGTH && i < s.len() && s[i] != 0 {
        lemma_name_scan_le(s, i + 1);
    }
}

/// Every byte the scan passes over is nonzero.
pub proof fn lemma_name_scan_stops(s: Seq<u8>, i: int)
    requires
        0 <= i <= MAX_FILENAME_LENGTH,
    ensures
        forall|j: int| i <= j < name_scan(s, i) ==> #[trigger] s[j] != 0,
        name_scan(s, i) < MAX_FILENAME_LENGTH && name_scan(s, i) < s.len() ==> s[name_scan(s, i)]
            == 0,
    decreases MAX_FILENAME_LENGTH - i,
{
    if i < MAX_FILENAME_LENGTH && i < s.len() && s[i] != 0 {
        lemma_name_scan_stops(s, i + 1);
    }
}

/// Scanning a short all-nonzero name runs to its end.
proof fn lemma_name_scan_full(s: Seq<u8>, i: int)
    requires
        s.len() <= MAX_FILENAME_LENGTH,
        forall|j: int| 0 <= j < s.len() ==> #[trigger] s[j] != 0,
        0 <= i <= s.len(),
    ensures
        name_scan(s, i) == s.len(),
    decreases MAX_FILENAME_LENGTH - i,
{
    if i < s.len() {
        lemma_name_scan_full(s, i + 1);
    }
}

/// Taking the stored form of a name twice changes nothing more: a stored
/// name is its own stored form.
pub proof fn lemma_stored_name_idem(name: Seq<u8>)
    ensures
        stored_name(stored_name(name)) == stored_name(name),
{
    lemma_name_scan_le(name, 0);
    lemma_name_scan_stops(name, 0);
    let sn = stored_name(name);
    assert forall|j: int| 0 <= j < sn.len() implies #[trigger] sn[j] != 0 by {
        assert(sn[j] == name[j]);
    }
    lemma_name_scan_full(sn, 0);
    assert(sn.take(sn.len() as int) =~= sn);
}

/// One file's directory metadata, as handed to and from the filesystem.
#[derive(Debug, Clone)]
pub struct FileEntry {
    pub name: Vec<u8>,
    pub size: u32,
    pub compressed_size: u32,
    pub first_cluster: u32,
    pub is_deleted: bool,
    pub is_compressed: bool,
    pub compression_method: u8,
}

impl View for FileEntry {
    type V = EntryModel;

    open spec fn view(&self) -> EntryModel {
        EntryModel {
            name: self.name@,
            size: self.size,
            compressed_size: self.compressed_size,
            first_cluster: self.first_cluster,
            is_deleted: self.is_deleted,
            is_compressed: self.is_compressed,
            compression_method: self.compression_method,
        }
    }
}

impl FileEntry {
    /// A fresh, live entry; `is_compressed` mirrors `compression_method > 0`.
    pub fn new(
        name: &[u8],
        size: u32,
        compressed_size: u32,
        first_cluster: u32,
        compression_method: u8,
    ) -> (e: FileEntry)
        ensures
            e@.name == name@,
            e@.size == size,
            e@.compressed_size == compressed_size,
            e@.first_cluster == first_cluster,
            e@.is_deleted == false,
            e@.is_compressed == (compression_method > 0),
            e@.compression_method == compression_method,
    {
        FileEntry {
            name: slice_to_vec_bytes(name),
            size,
            compressed_size,
            first_cluster,
            is_deleted: false,
            is_compressed: compression_method > 0,
            compression_method,
        }
    }

    /// The 64-byte slot encoding of this entry.
    pub fn to_bytes(&self) -> (r: Vec<u8>)
        ensures
            r@ == encode_entry(self@),
            r@.len() == DIR_ENTRY_SIZE,
    {
        proof {
            lemma_entry_round_trip(self@);
        }
        let ghost nm = trunc_name(self@.name);
        let mut r: Vec<u8> = Vec::new();
        let name_len = if self.name.len() < MAX_FILENAME_LENGTH {
            self.name.len()
        } else {
            MAX_FILENAME_LENGTH
        };
        let mut i: usize = 0;
        while i < name_len
            invariant
                i <= name_len,
                name_len == nm.len(),
                nm == trunc_name(self@.name),
                name_len <= self.name@.len(),
                r@ =~= nm.take(i as int),
            decreases name_len - i,
        {
            r.push(self.name[i]);
            assert(r@ =~= nm.take(i + 1));
            i = i + 1;
        }
        assert(r@ =~= nm);
        while i < MAX_FILENAME_LENGTH
            invariant
                nm.len() <= i <= MAX_FILENAME_LENGTH,
                r@ =~= nm + Seq::new((i - nm.len()) as nat, |k: int| 0u8),
            decreases MAX_FILENAME_LENGTH - i,
        {
            r.push(0u8);
            assert(r@ =~= nm + Seq::new((i + 1 - nm.len()) as nat, |k: int| 0u8));
            i = i + 1;
        }
        let ghost head = nm + Seq::new((MAX_FILENAME_LENGTH - nm.len()) as nat, |k: int| 0u8);
        let mut sz = u32_to_le_bytes(self.size);
        r.append(&mut sz);
        let mut csz = u32_to_le_bytes(self.compressed_size);
        r.append(&mut csz);
        let mut fc = u32_to_le_bytes(self.first_cluster);
        r.append(&mut fc);
        r.push(if self.is_deleted {
            1u8
        } else {
            0u8
        });
        r.push(if self.is_compressed {
            1u8
        } else {
            0u8
        });
        r.push(self.compression_method);
        let mut j: usize = 0;
        let ghost tail_base = r@;
        while j < 17
            invariant
                j <= 17,
                r@ =~= tail_base + Seq::new(j as nat, |k: int| 0u8),
            decreases 17 - j,
        {
            r.push(0u8);
            assert(r@ =~= tail_base + Seq::new((j + 1) as nat, |k: int| 0u8));
            j = j + 1;
        }
        assert(r@ =~= encode_entry(self@));
        r
    }

    /// Decodes the first 64 bytes of `bytes`; `None` when fewer are given.
    pub fn from_bytes(bytes: &[u8]) -> (r: Option<FileEntry>)
        ensures
            r is Some <==> bytes@.len() >= DIR_ENTRY_SIZE,
            r matches Some(e) ==> e@ == decode_slot(bytes@),
    {
        if bytes.len() < DIR_ENTRY_SIZE {
            return None;
        }
        let mut name_end: usize = 0;
        while name_end < MAX_FILENAME_LENGTH && bytes[name_end] != 0
            invariant
                0 <= name_end <= MAX_FILENAME_LENGTH,
                bytes@.len() >= DIR_ENTRY_SIZE,
                name_scan(bytes@, 0) == name_scan(bytes@, name_end as int),
                forall|j: int| 0 <= j < name_end ==> #[trigger] bytes@[j] != 0,
            decreases MAX_FILENAME_LENGTH - name_end,
        {
            name_end = name_end + 1;
        }
        assert(name_scan(bytes@, name_end as int) == name_end);
        let mut name: Vec<u8> = Vec::new();
        let mut i: usize = 0;
        while i < name_end
            invariant
                i <= name_end,
                name_end <= MAX_FILENAME_LENGTH,
                bytes@.len() >= DIR_ENTRY_SIZE,
                name@ =~= bytes@.take(i as int),
            decreases name_end - i,
        {
            name.push(bytes[i]);
            assert(name@ =~= bytes@.take(i + 1));
            i = i + 1;
        }
        let size = u32_from_le_bytes(slice_subrange(bytes, 32, 36));
        let compressed_size = u32_from_le_bytes(slice_subrange(bytes, 36, 40));
        let first_cluster = u32_from_le_bytes(slice_subrange(bytes, 40, 44));
        let e = FileEntry {
            name,
            size,
            compressed_size,
            first_cluster,
            is_deleted: bytes[44] != 0,
            is_compressed: bytes[45] != 0,
            compression_method: bytes[46],
        };
        proof {
            assert(e@.name == decode_slot(bytes@).name);
        }
        Some(e)
    }
}

/// Copies a byte slice into a vector.
fn slice_to_vec_bytes(s: &[u8]) -> (r: Vec<u8>)
    ensures
        r@ == s@,
{
    let mut r: Vec<u8> = Vec::new();
    let mut i: usize = 0;
    while i < s.len()
        invariant
            i <= s@.len(),
            r@ =~= s@.take(i as int),
        decreases s@.len() - i,
    {
        r.push(s[i]);
        assert(r@ =~= s@.take(i + 1));
        i = i + 1;
    }
    assert(r@ =~= s@);
    r
}

} // verus!
