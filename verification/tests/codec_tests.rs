use minifat::codec::rle_compress_data;
use minifat::codec::rle_decompress_data;

#[test]
fn rle_empty_round_trip() {
    let enc = rle_compress_data(&[]);
    assert_eq!(enc, Vec::<u8>::new());
    assert_eq!(rle_decompress_data(&enc), Vec::<u8>::new());
}

#[test]
fn rle_ten_a_is_one_pair() {
    let data = vec![b'a'; 10];
    let enc = rle_compress_data(&data);
    assert_eq!(enc, vec![10u8, b'a']);
    assert_eq!(rle_decompress_data(&enc), data);
}

#[test]
fn rle_run_splitting_at_255() {
    let data = vec![b'x'; 3000];
    let enc = rle_compress_data(&data);
    // 3000 = 11 * 255 + 195: eleven full pairs and one final pair.
    assert_eq!(enc.len(), 24);
    for p in 0..11 {
        assert_eq!(enc[2 * p], 255);
        assert_eq!(enc[2 * p + 1], b'x');
    }
    assert_eq!(enc[22], 195);
    assert_eq!(enc[23], b'x');
    assert_eq!(rle_decompress_data(&enc), data);
}

#[test]
fn rle_mixed_runs() {
    let data = b"aaabccccd";
    let enc = rle_compress_data(data);
    assert_eq!(enc, vec![3, b'a', 1, b'b', 4, b'c', 1, b'd']);
    assert_eq!(rle_decompress_data(&enc), data.to_vec());
}

#[test]
fn rle_decoder_ignores_trailing_lone_byte() {
    let enc = vec![2u8, b'z', 7u8];
    assert_eq!(rle_decompress_data(&enc), vec![b'z', b'z']);
}
