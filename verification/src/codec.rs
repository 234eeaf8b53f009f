//! Per-file compression codecs.
//!
//! Method 0 is the identity.  Method 1 is a byte run-length codec: the
//! encoder emits `(count, byte)` pairs for maximal runs capped at 255; the
//! decoder expands pairs and ignores a trailing lone byte.  Method 2 is raw
//! deflate, reached through the `flate2` crate.

use crate::FsError;
use std::io::Read;
use std::io::Write;
use vstd::prelude::*;

verus! {

/// The raw deflate stream that `flate2`'s encoder at best compression
/// emits for a given input.  A function of the input bytes alone.
pub uninterp spec fn deflate_of(s: Seq<u8>) -> Seq<u8>;

/// What `flate2`'s deflate decoder makes of a byte stream: the decompressed
/// bytes, or `None` when it rejects the stream.  A function of the input
/// bytes alone.
pub uninterp spec fn inflate_of(s: Seq<u8>) -> Option<Seq<u8>>;

/// Relies on flate2's `write::DeflateEncoder` at `Compression::best`: the
/// emitted stream is a function of the input alone, and the paired decoder
/// recovers the input from it.
#[verifier::external_body]
pub fn deflate_compress(data: &[u8]) -> (r: Result<Vec<u8>, FsError>)
    ensures
        r matches Ok(v) ==> v@ == deflate_of(data@) && inflate_of(v@) == Some(data@),
{
    let mut encoder = flate2::write::DeflateEncoder::new(Vec::new(), flate2::Compression::best());
    if encoder.write_all(data).is_err() {
        return Err(FsError::Io);
    }
    match encoder.finish() {
        Ok(v) => Ok(v),
        Err(_) => Err(FsError::Io),
    }
}

/// Relies on flate2's `read::DeflateDecoder`: reading it to the end yields
/// the decompressed bytes, and fails exactly on the streams it rejects;
/// both are functions of the input bytes alone.
#[verifier::external_body]
pub fn deflate_decompress(data: &[u8]) -> (r: Result<Vec<u8>, FsError>)
    ensures
        r is Ok <==> inflate_of(data@) is Some,
        r matches Ok(v) ==> Some(v@) == inflate_of(data@),
        r matches Err(e) ==> e == FsError::Corruption,
{
    let mut decoder = flate2::read::DeflateDecoder::new(data);
    let mut decompressed = Vec::new();
    match decoder.read_to_end(&mut decompressed) {
        Ok(_) => Ok(decompressed),
        Err(_) => Err(FsError::Corruption),
    }
}

/// Length of the maximal leading run of equal bytes.
pub open spec fn run_len(s: Seq<u8>) -> nat
    decreases s.len(),
{
    if s.len() == 0 {
        0
    } else if s.len() >= 2 && s[1] == s[0] {
        (1 + run_len(s.skip(1))) as nat
    } else {
        1
    }
}

/// Leading run length capped at 255, the largest count one pair can carry.
pub open spec fn capped_run(s: Seq<u8>) -> nat {
    if run_len(s) > 255 {
        255
    } else {
        run_len(s)
    }
}

/// The run-length encoding of `s`: one `(count, byte)` pair per capped
/// maximal run.
pub open spec fn rle_encode(s: Seq<u8>) -> Seq<u8>
    decreases s.len(),
{
    if s.len() == 0 {
        Seq::empty()
    } else {
        let n = capped_run(s);
        if 1 <= n <= s.len() {
            seq![n as u8, s[0]] + rle_encode(s.skip(n as int))
        } else {
            Seq::empty()
        }
    }
}

/// The run-length decoding of `s`: each `(count, byte)` pair expands to
/// `count` copies of `byte`; a trailing lone byte is ignored.
pub open spec fn rle_decode(s: Seq<u8>) -> Seq<u8>
    decreases s.len(),
{
    if s.len() < 2 {
        Seq::empty()
    } else {
        Seq::new(s[0] as nat, |i: int| s[1]) + rle_decode(s.skip(2))
    }
}

/// The leading run is non-empty on non-empty input, consists of copies of
/// the first byte, and is maximal.
pub proof fn lemma_run_len(s: Seq<u8>)
    requires
        s.len() > 0,
    ensures
        1 <= run_len(s) <= s.len(),
        forall|i: int| 0 <= i < run_len(s) ==> #[trigger] s[i] == s[0],
        run_len(s) < s.len() ==> s[run_len(s) as int] != s[0],
    decreases s.len(),
{
    if s.len() >= 2 && s[1] == s[0] {
        lemma_run_len(s.skip(1));
        assert forall|i: int| 0 <= i < run_len(s) implies #[trigger] s[i] == s[0] by {
            if i >= 1 {
                assert(s.skip(1)[i - 1] == s[i]);
            }
        }
        if run_len(s) < s.len() {
            assert(s.skip(1)[run_len(s) as int - 1] == s[run_len(s) as int]);
        }
    }
}

/// A block of `n` equal bytes that is ended by the cap, by the end of the
/// input, or by a differing byte is exactly the capped leading run.
pub proof fn lemma_capped_run_is(s: Seq<u8>, n: int)
    requires
        1 <= n <= 255,
        n <= s.len(),
        forall|i: int| 0 <= i < n ==> #[trigger] s[i] == s[0],
        n == 255 || n == s.len() || s[n] != s[0],
    ensures
        capped_run(s) == n,
{
    lemma_run_len(s);
    let r = run_len(s) as int;
    if r < n {
        assert(s[r] == s[0]);
        assert(false);
    }
    if n < 255 && n < r {
        assert(s[n] == s[0]);
        assert(false);
    }
}

/// Unfolds one emitted pair of the encoder.
pub proof fn lemma_encode_step(s: Seq<u8>, n: int)
    requires
        1 <= n <= 255,
        n <= s.len(),
        forall|i: int| 0 <= i < n ==> #[trigger] s[i] == s[0],
        n == 255 || n == s.len() || s[n] != s[0],
    ensures
        rle_encode(s) == seq![n as u8, s[0]] + rle_encode(s.skip(n)),
{
    lemma_capped_run_is(s, n);
}

/// Decoding inverts encoding.
pub proof fn lemma_rle_round_trip(s: Seq<u8>)
    ensures
        rle_decode(rle_encode(s)) == s,
    decreases s.len(),
{
    if s.len() == 0 {
        assert(rle_decode(rle_encode(s)) =~= s);
    } else {
        lemma_run_len(s);
        let n = capped_run(s) as int;
        let e = rle_encode(s);
        let tail = rle_encode(s.skip(n));
        assert(e == seq![n as u8, s[0]] + tail);
        assert(e.len() >= 2);
        assert(e[0] == n as u8 && e[1] == s[0]);
        assert(e.skip(2) =~= tail);
        assert(rle_decode(e) == Seq::new(n as nat, |i: int| s[0]) + rle_decode(tail));
        lemma_rle_round_trip(s.skip(n));
        assert(Seq::new(n as nat, |i: int| s[0]) =~= s.take(n));
        assert(s.take(n) + s.skip(n) =~= s);
    }
}

/// The encoding has even length and at most doubles the input.
pub proof fn lemma_rle_encode_len(s: Seq<u8>)
    ensures
        rle_encode(s).len() % 2 == 0,
        rle_encode(s).len() <= 2 * s.len(),
    decreases s.len(),
{
    if s.len() > 0 {
        lemma_run_len(s);
        lemma_rle_encode_len(s.skip(capped_run(s) as int));
    }
}

/// Run-length encodes `data`, scanning runs of equal bytes and emitting one
/// `(count, byte)` pair per run, splitting runs longer than 255.
pub fn rle_compress_data(data: &[u8]) -> (r: Vec<u8>)
    ensures
        r@ == rle_encode(data@),
{
    let mut result: Vec<u8> = Vec::new();
    if data.len() == 0 {
        assert(result@ =~= rle_encode(data@));
        return result;
    }
    let mut current_byte: u8 = data[0];
    let mut count: u8 = 1;
    let mut i: usize = 1;
    assert(result@ + rle_encode(data@.skip(0)) =~= rle_encode(data@)) by {
        assert(data@.skip(0) =~= data@);
    }
    while i < data.len()
        invariant
            1 <= i <= data@.len(),
            1 <= count <= 255,
            count as int <= i as int,
            forall|j: int| i - count <= j < i ==> #[trigger] data@[j] == current_byte,
            rle_encode(data@) == result@ + rle_encode(data@.skip(i - count)),
        decreases data@.len() - i,
    {
        let byte = data[i];
        if byte == current_byte && count < 255 {
            count = count + 1;
        } else {
            result.push(count);
            result.push(current_byte);
            proof {
                let run = data@.skip(i - count);
                assert forall|j: int| 0 <= j < count implies #[trigger] run[j] == run[0] by {
                    assert(run[j] == data@[i - count + j]);
                    assert(run[0] == data@[i - count]);
                }
                assert(run[0] == current_byte);
                if count < 255 {
                    assert(run[count as int] == data@[i as int]);
                }
                lemma_encode_step(run, count as int);
                assert(run.skip(count as int) =~= data@.skip(i as int));
                assert(seq![count, current_byte] =~= result@.skip(result@.len() - 2));
            }
            current_byte = byte;
            count = 1;
        }
        i = i + 1;
    }
    result.push(count);
    result.push(current_byte);
    proof {
        let run = data@.skip(i - count);
        assert forall|j: int| 0 <= j < count implies #[trigger] run[j] == run[0] by {
            assert(run[j] == data@[i - count + j]);
            assert(run[0] == data@[i - count]);
        }
        assert(run[0] == current_byte);
        assert(run.len() == count);
        lemma_encode_step(run, count as int);
        assert(run.skip(count as int) =~= Seq::<u8>::empty());
        assert(rle_encode(run) =~= seq![count, current_byte]);
    }
    result
}

/// Expands `(count, byte)` pairs; a trailing lone byte is ignored.
pub fn rle_decompress_data(compressed_data: &[u8]) -> (r: Vec<u8>)
    ensures
        r@ == rle_decode(compressed_data@),
{
    let mut result: Vec<u8> = Vec::new();
    let mut i: usize = 0;
    assert(result@ + rle_decode(compressed_data@.skip(0)) =~= rle_decode(compressed_data@)) by {
        assert(compressed_data@.skip(0) =~= compressed_data@);
    }
    while i < compressed_data.len()
        invariant
            i <= compressed_data@.len(),
            rle_decode(compressed_data@) == result@ + rle_decode(compressed_data@.skip(i as int)),
        ensures
            result@ == rle_decode(compressed_data@),
        decreases compressed_data@.len() - i,
    {
        if i + 1 >= compressed_data.len() {
            assert(rle_decode(compressed_data@.skip(i as int)) =~= Seq::<u8>::empty());
            break;
        }
        let count = compressed_data[i];
        let byte = compressed_data[i + 1];
        let ghost prev = result@;
        let mut j: usize = 0;
        while j < count as usize
            invariant
                j <= count as int,
                result@ == prev + Seq::new(j as nat, |k: int| byte),
            decreases count as int - j,
        {
            result.push(byte);
            assert(result@ =~= prev + Seq::new((j + 1) as nat, |k: int| byte));
            j = j + 1;
        }
        proof {
            let rest = compressed_data@.skip(i as int);
            assert(rest[0] == count && rest[1] == byte);
            assert(rest.skip(2) =~= compressed_data@.skip(i + 2));
            assert(rle_decode(rest) == Seq::new(count as nat, |k: int| byte) + rle_decode(
                compressed_data@.skip(i + 2)));
        }
        i = i + 2;
    }
    result
}

} // verus!
