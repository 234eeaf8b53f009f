use minifat::entry::FileEntry;

#[test]
fn entry_encode_layout() {
    let e = FileEntry::new(b"hello", 300, 77, 9, 1);
    let b = e.to_bytes();
    assert_eq!(b.len(), 64);
    assert_eq!(&b[0..5], b"hello");
    assert_eq!(&b[5..32], &[0u8; 27]);
    assert_eq!(&b[32..36], &300u32.to_le_bytes());
    assert_eq!(&b[36..40], &77u32.to_le_bytes());
    assert_eq!(&b[40..44], &9u32.to_le_bytes());
    assert_eq!(b[44], 0);
    assert_eq!(b[45], 1);
    assert_eq!(b[46], 1);
    assert_eq!(&b[47..64], &[0u8; 17]);
}

#[test]
fn entry_round_trip() {
    let e = FileEntry::new(b"some-name", 1000, 900, 5, 2);
    let b = e.to_bytes();
    let d = FileEntry::from_bytes(&b).unwrap();
    assert_eq!(d.name, b"some-name".to_vec());
    assert_eq!(d.size, 1000);
    assert_eq!(d.compressed_size, 900);
    assert_eq!(d.first_cluster, 5);
    assert!(!d.is_deleted);
    assert!(d.is_compressed);
    assert_eq!(d.compression_method, 2);
}

#[test]
fn entry_name_truncated_to_32() {
    let long = [b'q'; 40];
    let e = FileEntry::new(&long, 1, 1, 2, 0);
    let b = e.to_bytes();
    assert_eq!(&b[0..32], &[b'q'; 32]);
    let d = FileEntry::from_bytes(&b).unwrap();
    assert_eq!(d.name.len(), 32);
    assert!(!d.is_compressed);
    assert_eq!(d.compression_method, 0);
}

#[test]
fn entry_from_short_slice_is_none() {
    assert!(FileEntry::from_bytes(&[0u8; 63]).is_none());
    assert!(FileEntry::from_bytes(&[]).is_none());
}
