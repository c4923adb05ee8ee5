use bloda::{
    build_archive, compress_data, decompress_archive, open_archive, ArchiveBlockInfo,
    ArchiveError, ArchiveFileEntry, ArchiveFolderLeafEntry, Codec, InputFile,
};

fn mk(name: &str, data: &[u8]) -> InputFile {
    InputFile { name: name.to_string(), data: data.to_vec() }
}

fn build(files: Vec<InputFile>, leaves: Vec<String>, codec: Codec, budget: u64) -> Vec<u8> {
    build_archive(&files, &leaves, codec, budget).expect("archive build should succeed")
}

#[test]
fn two_small_files_zstd() {
    let archive = build(
        vec![mk("a.txt", b"hello"), mk("b.txt", b"world")],
        vec![],
        Codec::Zstd,
        4 * 1024 * 1024,
    );
    let rd = open_archive(archive).expect("archive should open");
    let mut names = rd.list_all_entries();
    names.sort();
    assert_eq!(names, vec!["a.txt".to_string(), "b.txt".to_string()]);
    assert_eq!(rd.extract_file("a.txt").unwrap(), b"hello".to_vec());
    assert_eq!(rd.extract_file("b.txt").unwrap(), b"world".to_vec());
}

#[test]
fn empty_input_round_trips() {
    let archive = build(vec![], vec![], Codec::Zstd, 4 * 1024 * 1024);
    let rd = open_archive(archive.clone()).expect("empty archive should open");
    assert_eq!(rd.file_count(), 0);
    assert_eq!(rd.block_count(), 0);
    assert!(rd.list_all_entries().is_empty());
    let contents = decompress_archive(archive).unwrap();
    assert!(contents.files.is_empty());
    assert!(contents.leaves.is_empty());
}

#[test]
fn single_zero_byte_file() {
    let archive = build(vec![mk("empty.bin", b"")], vec![], Codec::Zstd, 1024);
    let rd = open_archive(archive).unwrap();
    assert_eq!(rd.block_count(), 1);
    let row = rd.file_entry("empty.bin").expect("row should exist");
    assert_eq!(row.offset, 0);
    assert_eq!(row.size, 0);
    assert_eq!(rd.extract_file("empty.bin").unwrap(), Vec::<u8>::new());
}

#[test]
fn oversized_file_is_sole_occupant() {
    let big = vec![7u8; 10];
    let archive = build(
        vec![mk("small_a", &[1, 2]), mk("big", &big), mk("small_b", &[3, 4, 5])],
        vec![],
        Codec::Lz4,
        4,
    );
    let rd = open_archive(archive).unwrap();
    let big_row = rd.file_entry("big").unwrap();
    let a_row = rd.file_entry("small_a").unwrap();
    let b_row = rd.file_entry("small_b").unwrap();
    assert_ne!(big_row.block, a_row.block);
    assert_ne!(big_row.block, b_row.block);
    assert_eq!(big_row.offset, 0);
    assert_eq!(rd.extract_file("big").unwrap(), big);
}

#[test]
fn tiny_identical_files_share_a_block_zstd() {
    let files: Vec<InputFile> =
        (0..50).map(|i| mk(&format!("f{:02}", i), &[42u8; 100])).collect();
    let archive = build(files, vec![], Codec::Zstd, 64 * 1024 * 1024);
    let rd = open_archive(archive).unwrap();
    assert_eq!(rd.block_count(), 1);
    let block = rd.block_entry(0);
    assert!(block.size < 2500, "50 identical files should compress well: {}", block.size);
}

#[test]
fn tiny_identical_files_share_a_block_lzma() {
    let files: Vec<InputFile> =
        (0..50).map(|i| mk(&format!("f{:02}", i), &[42u8; 100])).collect();
    let archive = build(files, vec![], Codec::Lzma, 64 * 1024 * 1024);
    let rd = open_archive(archive).unwrap();
    assert_eq!(rd.block_count(), 1);
    let block = rd.block_entry(0);
    assert!(block.size < 2500, "50 identical files should compress well: {}", block.size);
    assert_eq!(rd.extract_file("f07").unwrap(), vec![42u8; 100]);
}

#[test]
fn pattern_without_matches_succeeds() {
    let archive = build(vec![mk("a.txt", b"hello")], vec![], Codec::Zstd, 1024);
    let rd = open_archive(archive).unwrap();
    let contents = rd.extract_files("^zzz", false).unwrap();
    assert!(contents.files.is_empty());
    assert!(contents.leaves.is_empty());
}

#[test]
fn seven_byte_file_is_rejected() {
    let r = open_archive(vec![1, 2, 3, 4, 5, 6, 7]);
    match r {
        Err(ArchiveError::BadArchive { reason }) => assert_eq!(reason, "header too short"),
        other => panic!("expected BadArchive, got {:?}", other.map(|_| ())),
    }
}

#[test]
fn header_length_beyond_file_is_rejected() {
    // Prefix says the compressed index is 256 bytes, but nothing follows.
    let r = open_archive(vec![0, 0, 0, 0, 0, 0, 1, 0]);
    assert!(matches!(r, Err(ArchiveError::BadArchive { .. })));
}

#[test]
fn truncated_blob_is_rejected() {
    let mut archive = build(vec![mk("a.txt", b"some contents here")], vec![], Codec::Lz4, 1024);
    archive.pop();
    let r = open_archive(archive);
    assert!(matches!(r, Err(ArchiveError::BadArchive { .. })));
}

#[test]
fn leaf_directory_round_trips() {
    let archive = build(vec![], vec!["dir/empty".to_string()], Codec::Zstd, 1024);
    let rd = open_archive(archive.clone()).unwrap();
    assert_eq!(rd.block_count(), 0);
    assert_eq!(rd.file_count(), 0);
    assert_eq!(rd.list_all_entries(), vec!["dir/empty".to_string()]);
    let contents = decompress_archive(archive).unwrap();
    assert!(contents.files.is_empty());
    assert_eq!(contents.leaves, vec!["dir/empty".to_string()]);
}

#[test]
fn large_random_file_round_trips() {
    // 100 MiB of pseudo-random bytes from a linear congruential generator.
    let n = 100 * 1024 * 1024;
    let mut data = Vec::with_capacity(n);
    let mut state: u64 = 0x2545F4914F6CDD1D;
    while data.len() < n {
        state = state.wrapping_mul(6364136223846793005).wrapping_add(1442695040888963407);
        data.extend_from_slice(&state.to_le_bytes());
    }
    data.truncate(n);
    let archive = build(vec![mk("blob.bin", &data)], vec![], Codec::Zstd, 64 * 1024 * 1024);
    let rd = open_archive(archive).unwrap();
    assert_eq!(rd.block_count(), 1);
    assert_eq!(rd.extract_file("blob.bin").unwrap(), data);
}

#[test]
fn thousand_zero_files_compress_far_below_raw() {
    let files: Vec<InputFile> =
        (0..1000).map(|i| mk(&format!("z/{:04}", i), &[0u8; 1024])).collect();
    let archive = build(files, vec![], Codec::Zstd, 64 * 1024 * 1024);
    assert!(archive.len() < 100_000, "archive should be far below 1 MiB raw: {}", archive.len());
    let rd = open_archive(archive).unwrap();
    assert_eq!(rd.block_count(), 1);
    assert_eq!(rd.extract_file("z/0500").unwrap(), vec![0u8; 1024]);
}

#[test]
fn bulk_extraction_touches_each_block_once() {
    // 100 files of 1000 bytes under a 34 kB budget: exactly three blocks.
    let files: Vec<InputFile> =
        (0..100).map(|i| mk(&format!("a/f{:03}", i), &[i as u8; 1000])).collect();
    let archive = build(files, vec![], Codec::Lz4, 34_000);
    let rd = open_archive(archive).unwrap();
    assert_eq!(rd.block_count(), 3);
    let blocks = rd.matching_blocks("^a/.*").unwrap();
    assert_eq!(blocks.len(), 3);
    for i in 0..blocks.len() {
        for j in i + 1..blocks.len() {
            assert_ne!(blocks[i], blocks[j]);
        }
    }
    let contents = rd.extract_files("^a/.*", false).unwrap();
    assert_eq!(contents.files.len(), 100);
    for f in &contents.files {
        let i: usize = f.name[3..].parse().unwrap();
        assert_eq!(f.data, vec![i as u8; 1000]);
    }
}

#[test]
fn selective_extraction_matches_full_extraction() {
    let files =
        vec![mk("a/one", b"first"), mk("a/two", b"second"), mk("b/three", b"third")];
    let archive = build(files, vec![], Codec::Zstd, 8);
    let rd = open_archive(archive.clone()).unwrap();
    let partial = rd.extract_files("^a/.*", false).unwrap();
    assert_eq!(partial.files.len(), 2);
    let full = decompress_archive(archive).unwrap();
    for f in &partial.files {
        let same = full.files.iter().find(|g| g.name == f.name).unwrap();
        assert_eq!(f.data, same.data);
    }
}

#[test]
fn file_not_found_is_reported() {
    let archive = build(vec![mk("a.txt", b"hello")], vec![], Codec::Zstd, 1024);
    let rd = open_archive(archive).unwrap();
    match rd.extract_file("missing.txt") {
        Err(ArchiveError::FileNotFound { name }) => assert_eq!(name, "missing.txt"),
        other => panic!("expected FileNotFound, got {:?}", other.map(|_| ())),
    }
}

#[test]
fn bad_pattern_is_reported() {
    let archive = build(vec![mk("a.txt", b"hello")], vec![], Codec::Zstd, 1024);
    let rd = open_archive(archive).unwrap();
    assert!(matches!(rd.list_entries("["), Err(ArchiveError::BadPattern { .. })));
    assert!(matches!(rd.extract_files("[", false), Err(ArchiveError::BadPattern { .. })));
}

#[test]
fn entry_type_distinguishes_files_and_dirs() {
    let archive = build(
        vec![mk("a.txt", b"hello")],
        vec!["only/dir".to_string()],
        Codec::Zstd,
        1024,
    );
    let rd = open_archive(archive).unwrap();
    assert_eq!(rd.entry_type("a.txt"), Some("file".to_string()));
    assert_eq!(rd.entry_type("only/dir"), Some("dir".to_string()));
    assert_eq!(rd.entry_type("nothing"), None);
}

#[test]
fn list_entries_filters_by_pattern() {
    let archive = build(
        vec![mk("a/one", b"1"), mk("b/two", b"2")],
        vec!["a/empty".to_string()],
        Codec::Zstd,
        1024,
    );
    let rd = open_archive(archive).unwrap();
    let mut names = rd.list_entries("^a/").unwrap();
    names.sort();
    assert_eq!(names, vec!["a/empty".to_string(), "a/one".to_string()]);
    let all = rd.list_entries_re(".*").unwrap();
    assert_eq!(all.len(), 3);
}

#[test]
fn block_layout_is_contiguous() {
    let files: Vec<InputFile> =
        (0..10).map(|i| mk(&format!("f{}", i), &[i as u8; 500])).collect();
    let archive = build(files, vec![], Codec::Lz4, 1000);
    let rd = open_archive(archive.clone()).unwrap();
    assert!(rd.block_count() >= 2);
    let mut expected_offset: i64 = 0;
    let mut total: i64 = 0;
    for b in 0..rd.block_count() {
        let row = rd.block_entry(b);
        assert_eq!(row.id, b as i64);
        assert_eq!(row.offset, expected_offset);
        assert_eq!(row.compression_type, "LZ4");
        expected_offset += row.size;
        total += row.size;
    }
    // The 8-byte prefix holds the exact compressed-index length: prefix,
    // index, and blob account for the whole archive.
    let mut hl_bytes = [0u8; 8];
    hl_bytes.copy_from_slice(&archive[0..8]);
    let hl = u64::from_be_bytes(hl_bytes);
    assert_eq!(8 + hl as usize + total as usize, archive.len());
}

#[test]
fn two_files_in_one_block_are_packed_back_to_back() {
    let archive = build(
        vec![mk("x", b"aaaa"), mk("y", b"bb")],
        vec![],
        Codec::Plain,
        1024,
    );
    let rd = open_archive(archive).unwrap();
    assert_eq!(rd.block_count(), 1);
    // Sorted ascending by size: y (2 bytes) first, then x at offset 2.
    let y = rd.file_entry("y").unwrap();
    let x = rd.file_entry("x").unwrap();
    assert_eq!(y.offset, 0);
    assert_eq!(y.size, 2);
    assert_eq!(x.offset, 2);
    assert_eq!(x.size, 4);
}

#[test]
fn bad_codec_label_in_index_is_rejected() {
    let files = vec![ArchiveFileEntry {
        name: "a".to_string(),
        block: 0,
        offset: 0,
        size: 1,
    }];
    let leaves: Vec<ArchiveFolderLeafEntry> = vec![];
    let blocks = vec![ArchiveBlockInfo {
        id: 0,
        size: 1,
        offset: 0,
        compression_type: "BOGUS".to_string(),
    }];
    let db = bloda::index::encode_index(&files, &leaves, &blocks);
    let ci = compress_data(&db, "LZ4").unwrap();
    let mut archive = (ci.len() as u64).to_be_bytes().to_vec();
    archive.extend_from_slice(&ci);
    archive.push(0);
    assert!(matches!(open_archive(archive), Err(ArchiveError::BadArchive { .. })));
}
