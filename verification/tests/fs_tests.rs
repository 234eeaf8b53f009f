use minifat::fs::FileSystem;
use minifat::layout::CLUSTER_SIZE;
use minifat::layout::MAX_CLUSTERS;
use minifat::layout::ROOT_DIR_START_BYTE;
use minifat::layout::ROOT_ENTRIES;
use minifat::layout::TOTAL_BYTES;
use minifat::FsError;

fn lcg_bytes(n: usize) -> Vec<u8> {
    let mut state: u64 = 0x2545F4914F6CDD1D;
    let mut out = Vec::with_capacity(n);
    for _ in 0..n {
        state = state.wrapping_mul(6364136223846793005).wrapping_add(1442695040888963407);
        out.push((state >> 33) as u8);
    }
    out
}

#[test]
fn stats_of_raw_write() {
    let mut fs = FileSystem::format();
    fs.write_file(b"a", b"hello", Some(0)).unwrap();
    let (orig, stored, label) = fs.get_compression_stats(b"a").unwrap();
    assert_eq!(orig, 5);
    assert_eq!(stored, 5);
    assert_eq!(label, "none");
    let ratio = stored as f32 / orig as f32 * 100.0;
    assert_eq!(ratio, 100.0);
}

#[test]
fn rle_write_read_and_stored_size() {
    let mut fs = FileSystem::format();
    fs.write_file(b"b", b"aaaaaaaaaa", Some(1)).unwrap();
    assert_eq!(fs.read_file(b"b").unwrap(), b"aaaaaaaaaa".to_vec());
    let (orig, stored, label) = fs.get_compression_stats(b"b").unwrap();
    assert_eq!(orig, 10);
    assert_eq!(stored, 2);
    assert_eq!(label, "rle");
}

#[test]
fn rle_write_read_3000() {
    let mut fs = FileSystem::format();
    let data = vec![b'x'; 3000];
    fs.write_file(b"c", &data, Some(1)).unwrap();
    let (orig, stored, _) = fs.get_compression_stats(b"c").unwrap();
    assert_eq!(orig, 3000);
    // 3000 = 11 * 255 + 195: twelve (count, byte) pairs.
    assert_eq!(stored, 24);
    assert_eq!(fs.read_file(b"c").unwrap(), data);
}

#[test]
fn deflate_write_read_random() {
    let mut fs = FileSystem::format();
    let data = lcg_bytes(10000);
    fs.write_file(b"d", &data, Some(2)).unwrap();
    assert_eq!(fs.read_file(b"d").unwrap(), data);
    let (_, _, label) = fs.get_compression_stats(b"d").unwrap();
    assert_eq!(label, "deflate");
}

#[test]
fn deflate_actually_compresses() {
    let mut fs = FileSystem::format();
    let data = vec![b'a'; 5000];
    fs.write_file(b"e", &data, Some(2)).unwrap();
    let (orig, stored, _) = fs.get_compression_stats(b"e").unwrap();
    assert_eq!(orig, 5000);
    assert!(stored < 5000);
    assert_eq!(fs.read_file(b"e").unwrap(), data);
}

#[test]
fn default_method_is_deflate() {
    let mut fs = FileSystem::format();
    fs.write_file(b"x", b"some text", None).unwrap();
    let (_, _, label) = fs.get_compression_stats(b"x").unwrap();
    assert_eq!(label, "deflate");
    assert_eq!(fs.read_file(b"x").unwrap(), b"some text".to_vec());
}

#[test]
fn round_trip_every_method() {
    for m in 0u8..3 {
        let mut fs = FileSystem::format();
        let data = b"the quick brown fox jumps over the lazy dog";
        fs.write_file(b"f", data, Some(m)).unwrap();
        assert_eq!(fs.read_file(b"f").unwrap(), data.to_vec());
    }
}

#[test]
fn overwrite_is_observable() {
    let mut fs = FileSystem::format();
    fs.write_file(b"a", b"first", Some(0)).unwrap();
    fs.write_file(b"a", b"second version", Some(2)).unwrap();
    assert_eq!(fs.read_file(b"a").unwrap(), b"second version".to_vec());
    assert_eq!(fs.list_files().len(), 1);
}

#[test]
fn delete_then_read_is_not_found() {
    let mut fs = FileSystem::format();
    fs.write_file(b"gone", b"bytes", Some(1)).unwrap();
    fs.delete_file(b"gone").unwrap();
    assert_eq!(fs.read_file(b"gone"), Err(FsError::NotFound));
    assert_eq!(fs.delete_file(b"gone"), Err(FsError::NotFound));
    assert_eq!(fs.get_compression_stats(b"missing"), Err(FsError::NotFound));
}

#[test]
fn slot_and_cluster_reuse_after_delete() {
    let mut fs = FileSystem::format();
    fs.write_file(b"e", b"x", Some(0)).unwrap();
    fs.delete_file(b"e").unwrap();
    fs.write_file(b"f", b"y", Some(0)).unwrap();
    let files = fs.list_files();
    assert_eq!(files.len(), 1);
    assert_eq!(files[0].name, b"f".to_vec());
    assert_eq!(files[0].first_cluster, 2);
}

#[test]
fn empty_payload_round_trips() {
    for m in 0u8..3 {
        let mut fs = FileSystem::format();
        fs.write_file(b"empty", &[], Some(m)).unwrap();
        assert_eq!(fs.read_file(b"empty").unwrap(), Vec::<u8>::new());
        let (orig, _, _) = fs.get_compression_stats(b"empty").unwrap();
        assert_eq!(orig, 0);
    }
}

#[test]
fn cluster_boundary_payloads_round_trip() {
    for n in [CLUSTER_SIZE, 2 * CLUSTER_SIZE, CLUSTER_SIZE + 1] {
        let mut fs = FileSystem::format();
        let data = lcg_bytes(n);
        fs.write_file(b"bound", &data, Some(0)).unwrap();
        assert_eq!(fs.read_file(b"bound").unwrap(), data);
        let (orig, stored, _) = fs.get_compression_stats(b"bound").unwrap();
        assert_eq!(orig as usize, n);
        assert_eq!(stored as usize, n);
    }
}

#[test]
fn name_of_32_bytes_works() {
    let mut fs = FileSystem::format();
    let name = [b'n'; 32];
    fs.write_file(&name, b"payload", Some(0)).unwrap();
    assert_eq!(fs.read_file(&name).unwrap(), b"payload".to_vec());
    assert_eq!(fs.list_files()[0].name, name.to_vec());
}

#[test]
fn name_of_33_bytes_is_truncated() {
    let mut fs = FileSystem::format();
    let long = [b'n'; 33];
    let trunc = [b'n'; 32];
    fs.write_file(&long, b"payload", Some(0)).unwrap();
    // Lookups match the truncated form; the raw 33-byte name matches nothing.
    assert_eq!(fs.read_file(&long), Err(FsError::NotFound));
    assert_eq!(fs.read_file(&trunc).unwrap(), b"payload".to_vec());
    assert_eq!(fs.list_files()[0].name, trunc.to_vec());
    // A second write of the long name replaces, not duplicates.
    fs.write_file(&long, b"other", Some(0)).unwrap();
    assert_eq!(fs.list_files().len(), 1);
    assert_eq!(fs.read_file(&trunc).unwrap(), b"other".to_vec());
}

#[test]
fn full_volume_gives_no_space() {
    let mut fs = FileSystem::format();
    // One file taking every allocatable cluster.
    let data = vec![7u8; (MAX_CLUSTERS - 2) * CLUSTER_SIZE];
    fs.write_file(b"big", &data, Some(0)).unwrap();
    assert_eq!(fs.write_file(b"one-more", b"x", Some(0)), Err(FsError::NoSpace));
    // The big file is still intact.
    assert_eq!(fs.read_file(b"big").unwrap().len(), data.len());
}

#[test]
fn overwrite_at_capacity_reuses_the_freed_chain() {
    let mut fs = FileSystem::format();
    let data = vec![7u8; (MAX_CLUSTERS - 2) * CLUSTER_SIZE];
    fs.write_file(b"big", &data, Some(0)).unwrap();
    // Overwriting the same name frees the old chain first, so the full-size
    // payload fits again.
    let data2 = vec![8u8; (MAX_CLUSTERS - 2) * CLUSTER_SIZE];
    fs.write_file(b"big", &data2, Some(0)).unwrap();
    assert_eq!(fs.read_file(b"big").unwrap(), data2);
}

#[test]
fn oversized_payload_gives_no_space() {
    let mut fs = FileSystem::format();
    let data = vec![7u8; (MAX_CLUSTERS - 2) * CLUSTER_SIZE + 1];
    assert_eq!(fs.write_file(b"big", &data, Some(0)), Err(FsError::NoSpace));
}

#[test]
fn full_directory_gives_dir_full() {
    let mut fs = FileSystem::format();
    for i in 0..ROOT_ENTRIES {
        let name = format!("file{}", i);
        fs.write_file(name.as_bytes(), b"x", Some(0)).unwrap();
    }
    assert_eq!(fs.write_file(b"straw", b"x", Some(0)), Err(FsError::DirFull));
    fs.delete_file(b"file7").unwrap();
    fs.write_file(b"straw", b"x", Some(0)).unwrap();
    assert_eq!(fs.read_file(b"straw").unwrap(), b"x".to_vec());
    assert_eq!(fs.list_files().len(), ROOT_ENTRIES);
}

#[test]
fn unknown_method_is_invalid_argument() {
    let mut fs = FileSystem::format();
    assert_eq!(fs.write_file(b"a", b"data", Some(3)), Err(FsError::InvalidArgument));
    assert_eq!(fs.write_file(b"a", b"data", Some(255)), Err(FsError::InvalidArgument));
    assert!(fs.list_files().is_empty());
}

#[test]
fn empty_name_is_invalid_argument() {
    let mut fs = FileSystem::format();
    assert_eq!(fs.write_file(b"", b"data", Some(0)), Err(FsError::InvalidArgument));
    assert_eq!(fs.write_file(b"\0oops", b"data", Some(0)), Err(FsError::InvalidArgument));
}

#[test]
fn mount_rejects_non_volumes() {
    assert!(matches!(FileSystem::mount(vec![]), Err(FsError::NotAVolume)));
    assert!(matches!(FileSystem::mount(vec![0u8; TOTAL_BYTES]), Err(FsError::NotAVolume)));
    let mut almost = FileSystem::format().image().clone();
    almost[510] = 0;
    assert!(matches!(FileSystem::mount(almost), Err(FsError::NotAVolume)));
}

#[test]
fn get_or_create_falls_back_to_format() {
    let fs = FileSystem::get_or_create(None);
    assert!(fs.list_files().is_empty());
    let fs2 = FileSystem::get_or_create(Some(vec![1u8, 2, 3]));
    assert!(fs2.list_files().is_empty());
    assert_eq!(fs2.image(), fs.image());
}

#[test]
fn format_then_get_or_create_lists_nothing() {
    let fs = FileSystem::format();
    let image = fs.image().clone();
    let again = FileSystem::get_or_create(Some(image));
    assert!(again.list_files().is_empty());
    assert_eq!(again.image(), fs.image());
}

#[test]
fn remount_sees_the_same_volume() {
    let mut fs = FileSystem::format();
    fs.write_file(b"a", b"alpha", Some(0)).unwrap();
    fs.write_file(b"b", b"bbbbbbbb", Some(1)).unwrap();
    fs.delete_file(b"a").unwrap();
    let reopened = FileSystem::mount(fs.image().clone()).unwrap();
    let l1: Vec<Vec<u8>> = fs.list_files().iter().map(|e| e.name.clone()).collect();
    let l2: Vec<Vec<u8>> = reopened.list_files().iter().map(|e| e.name.clone()).collect();
    assert_eq!(l1, l2);
    assert_eq!(fs.read_file(b"b").unwrap(), reopened.read_file(b"b").unwrap());
    assert_eq!(reopened.read_file(b"a"), Err(FsError::NotFound));
}

#[test]
fn equal_operation_sequences_give_identical_images() {
    let run = || {
        let mut fs = FileSystem::format();
        fs.write_file(b"one", b"payload one", Some(1)).unwrap();
        fs.write_file(b"two", &lcg_bytes(5000), Some(0)).unwrap();
        fs.delete_file(b"one").unwrap();
        fs.write_file(b"three", b"zz", Some(0)).unwrap();
        fs.image().clone()
    };
    assert_eq!(run(), run());
}

#[test]
fn boot_sector_layout() {
    let fs = FileSystem::format();
    let img = fs.image();
    assert_eq!(img.len(), TOTAL_BYTES);
    assert_eq!(&img[0..3], &[0xEB, 0x3C, 0x90]);
    assert_eq!(&img[3..11], b"MINIFAT ");
    assert_eq!(img[11], 4);
    assert_eq!(img[14], 1);
    assert_eq!(img[15], 32);
    assert_eq!(img[510], 0x55);
    assert_eq!(img[511], 0xAA);
    // FAT entries 0 and 1 carry the end-of-chain sentinel.
    assert_eq!(&img[512..520], &[0xFF; 8]);
    assert_eq!(&img[520..524], &[0, 0, 0, 0]);
}

#[test]
fn corrupt_size_field_gives_corruption() {
    let mut fs = FileSystem::format();
    fs.write_file(b"aa", b"aa", Some(1)).unwrap();
    let mut img = fs.image().clone();
    // Slot 0: declared original size at offset 32 of the slot.
    img[ROOT_DIR_START_BYTE + 32] = 5;
    let broken = FileSystem::mount(img).unwrap();
    assert_eq!(broken.read_file(b"aa"), Err(FsError::Corruption));
}

#[test]
fn chain_shorter_than_stored_size_gives_corruption() {
    let mut fs = FileSystem::format();
    fs.write_file(b"aa", b"aa", Some(0)).unwrap();
    let mut img = fs.image().clone();
    // Claim a stored size far beyond the one-cluster chain.
    let stored: u32 = 3 * CLUSTER_SIZE as u32;
    img[ROOT_DIR_START_BYTE + 36..ROOT_DIR_START_BYTE + 40]
        .copy_from_slice(&stored.to_le_bytes());
    let broken = FileSystem::mount(img).unwrap();
    assert_eq!(broken.read_file(b"aa"), Err(FsError::Corruption));
}

#[test]
fn list_is_in_slot_order() {
    let mut fs = FileSystem::format();
    fs.write_file(b"first", b"1", Some(0)).unwrap();
    fs.write_file(b"second", b"2", Some(0)).unwrap();
    fs.write_file(b"third", b"3", Some(0)).unwrap();
    let names: Vec<Vec<u8>> = fs.list_files().iter().map(|e| e.name.clone()).collect();
    assert_eq!(names, vec![b"first".to_vec(), b"second".to_vec(), b"third".to_vec()]);
    // Deleting the middle file and writing a new one reuses its slot.
    fs.delete_file(b"second").unwrap();
    fs.write_file(b"fourth", b"4", Some(0)).unwrap();
    let names: Vec<Vec<u8>> = fs.list_files().iter().map(|e| e.name.clone()).collect();
    assert_eq!(names, vec![b"first".to_vec(), b"fourth".to_vec(), b"third".to_vec()]);
}

#[test]
fn unknown_method_on_disk_is_invalid_argument() {
    let mut fs = FileSystem::format();
    fs.write_file(b"aa", b"aa", Some(0)).unwrap();
    let mut img = fs.image().clone();
    // Slot 0: the method byte at offset 46 of the slot.
    img[ROOT_DIR_START_BYTE + 46] = 9;
    let broken = FileSystem::mount(img).unwrap();
    assert_eq!(broken.read_file(b"aa"), Err(FsError::InvalidArgument));
}

#[test]
fn write_with_compression_wrapper() {
    let mut fs = FileSystem::format();
    fs.write_file_with_compression(b"w", b"wwwwwwww", 1).unwrap();
    let (_, stored, label) = fs.get_compression_stats(b"w").unwrap();
    assert_eq!(label, "rle");
    assert_eq!(stored, 2);
    assert_eq!(fs.read_file(b"w").unwrap(), b"wwwwwwww".to_vec());
}
