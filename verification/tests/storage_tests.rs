use casc_rs::error::CascError;
use casc_rs::file::SeekFrom;
use casc_rs::storage::CascStorage;
use casc_rs::tvfs::TVFSRootHandler;

/// One frame for a block table: its tag byte, its encoded payload after
/// the tag, and the decoded content size.
struct Frame {
    tag: u8,
    payload: Vec<u8>,
    content_size: u32,
}

/// A span region of an archive: a zeroed span header, a `BLTE` block
/// table, then the frames' encoded bytes.
fn build_region(frames: &[Frame]) -> Vec<u8> {
    let mut v = vec![0u8; 30]; // span header, not validated
    v.extend_from_slice(&[0x42, 0x4C, 0x54, 0x45]); // B L T E
    v.extend_from_slice(&0u32.to_le_bytes()); // header size
    v.push(0x0F); // table format
    let count = frames.len() as u32;
    let cb = count.to_be_bytes();
    v.extend_from_slice(&cb[1..4]); // 24-bit frame count
    for f in frames {
        let encoded = (f.payload.len() + 1) as u32;
        v.extend_from_slice(&encoded.to_be_bytes());
        v.extend_from_slice(&f.content_size.to_be_bytes());
        v.extend_from_slice(&[0u8; 16]); // frame hash
    }
    for f in frames {
        v.push(f.tag);
        v.extend_from_slice(&f.payload);
    }
    v
}

fn build_idx(entries: &[([u8; 9], u32, u64, u32)], bits: u8) -> Vec<u8> {
    let mut v = Vec::new();
    v.extend_from_slice(&16u32.to_le_bytes());
    v.extend_from_slice(&0u32.to_le_bytes());
    v.extend_from_slice(&7u16.to_le_bytes());
    v.push(3);
    v.push(0);
    v.push(4);
    v.push(5);
    v.push(9);
    v.push(bits);
    v.extend_from_slice(&0u64.to_le_bytes());
    while v.len() < 32 {
        v.push(0);
    }
    let table_size = (entries.len() * 18) as u32;
    v.extend_from_slice(&table_size.to_le_bytes());
    v.extend_from_slice(&0u32.to_le_bytes());
    for (key, archive, offset, size) in entries {
        v.extend_from_slice(key);
        let packed: u64 = ((*archive as u64) << bits) | offset;
        let pb = packed.to_be_bytes();
        v.extend_from_slice(&pb[3..8]);
        v.extend_from_slice(&size.to_le_bytes());
    }
    v
}

/// A TVFS root file with nine-byte encoding keys: a path table, a file
/// table, and a content file table.
fn build_tvfs(path_table: &[u8], vfs_table: &[u8], cft_table: &[u8]) -> Vec<u8> {
    let mut v = Vec::new();
    v.extend_from_slice(&[0x54, 0x56, 0x46, 0x53]); // T V F S
    v.push(1); // format version
    v.push(38); // header size
    v.push(9); // encoding key size
    v.push(0); // patch key size
    v.extend_from_slice(&0u32.to_be_bytes()); // flags
    let path_off = 38u32;
    let vfs_off = path_off + path_table.len() as u32;
    let cft_off = vfs_off + vfs_table.len() as u32;
    v.extend_from_slice(&path_off.to_be_bytes());
    v.extend_from_slice(&(path_table.len() as u32).to_be_bytes());
    v.extend_from_slice(&vfs_off.to_be_bytes());
    v.extend_from_slice(&(vfs_table.len() as u32).to_be_bytes());
    v.extend_from_slice(&cft_off.to_be_bytes());
    v.extend_from_slice(&(cft_table.len() as u32).to_be_bytes());
    v.extend_from_slice(&2u16.to_be_bytes()); // max depth
    v.extend_from_slice(path_table);
    v.extend_from_slice(vfs_table);
    v.extend_from_slice(cft_table);
    v
}

/// A file-table region for single-span entries: for each content key, a
/// span count of one, two ignored words, and a one-byte reference into
/// the content file table.
fn build_vfs_single_span(cft_offsets: &[u8]) -> Vec<u8> {
    let mut v = Vec::new();
    for off in cft_offsets {
        v.push(1); // span count
        v.extend_from_slice(&0u32.to_be_bytes()); // ref file offset
        v.extend_from_slice(&0u32.to_be_bytes()); // span size
        v.push(*off);
    }
    v
}

/// A path-table node for one file with a leading separator.
fn file_node(name: &str, vfs_offset: u32) -> Vec<u8> {
    let mut v = vec![0u8]; // leading separator
    v.push(name.len() as u8);
    v.extend_from_slice(name.as_bytes());
    v.push(0xFF);
    v.extend_from_slice(&vfs_offset.to_be_bytes());
    v
}

const KEY_ROOT: [u8; 9] = [9, 9, 9, 9, 9, 9, 9, 9, 9];
const KEY_A: [u8; 9] = [1, 2, 3, 4, 5, 6, 7, 8, 9];
const KEY_B: [u8; 9] = [11, 12, 13, 14, 15, 16, 17, 18, 19];

/// A storage with one archive holding the TVFS root and the given file
/// regions, and a configuration whose `vfs-root` names the root by hex.
fn build_storage_input(
    root: Vec<u8>,
    regions: &[(Vec<u8>, [u8; 9])],
    extra_idx: &[([u8; 9], u32, u64, u32)],
) -> (Vec<u8>, Vec<u8>, Vec<Vec<u8>>, Vec<Vec<u8>>) {
    let root_len = root.len() as u32;
    let root_region = build_region(&[Frame { tag: 0x4E, payload: root, content_size: root_len }]);
    let mut data = Vec::new();
    let mut idx_entries: Vec<([u8; 9], u32, u64, u32)> = Vec::new();
    let mut offset = 0u64;
    // First region: the root file.
    idx_entries.push((KEY_ROOT, 0, offset, root_region.len() as u32));
    data.extend_from_slice(&root_region);
    offset = data.len() as u64;
    for (region, key) in regions {
        idx_entries.push((*key, 0, offset, region.len() as u32));
        data.extend_from_slice(region);
        offset = data.len() as u64;
    }
    for e in extra_idx {
        idx_entries.push(*e);
    }
    let idx = build_idx(&idx_entries, 30);
    let build_info = b"Build Key!STRING:0|Version!STRING:0\ncfg123|1.0\n".to_vec();
    let mut root_hex_bytes = KEY_ROOT.to_vec();
    root_hex_bytes.extend_from_slice(&[0xAA; 7]); // a full sixteen-byte hash
    let hex = hex::encode(&root_hex_bytes);
    let config = format!("# build config\nvfs-root = deadbeef {}\n", hex).into_bytes();
    (build_info, config, vec![idx], vec![data])
}

fn region_with_content(tag: u8, payload: Vec<u8>, content_size: u32) -> Vec<u8> {
    build_region(&[Frame { tag, payload, content_size }])
}

/// A root with one file named `\f` whose single span has the given key.
fn root_single_file(key: [u8; 9]) -> Vec<u8> {
    let path = file_node("f", 0);
    let vfs = build_vfs_single_span(&[0]);
    let cft = key.to_vec();
    build_tvfs(&path, &vfs, &cft)
}

#[test]
fn storage_reads_single_raw_frame() {
    let root = root_single_file(KEY_A);
    let region = region_with_content(0x4E, b"HELLO\n".to_vec(), 6);
    let (bi, cfg, idx, data) = build_storage_input(root, &[(region, KEY_A)], &[]);
    let storage = CascStorage::open(bi, cfg, idx, data).unwrap();
    let mut file = storage.open_file("\\f").unwrap();
    assert_eq!(file.size(), 6);
    let bytes = file.read(16).unwrap();
    assert_eq!(bytes, b"HELLO\n".to_vec());
    // Reading at the end yields nothing more.
    assert_eq!(file.read(16).unwrap(), Vec::<u8>::new());
}

#[test]
fn storage_seeks_across_two_frames() {
    let root = root_single_file(KEY_A);
    let region = build_region(&[
        Frame { tag: 0x4E, payload: b"ABCD".to_vec(), content_size: 4 },
        Frame { tag: 0x4E, payload: b"EFGH".to_vec(), content_size: 4 },
    ]);
    let (bi, cfg, idx, data) = build_storage_input(root, &[(region, KEY_A)], &[]);
    let storage = CascStorage::open(bi, cfg, idx, data).unwrap();
    let mut file = storage.open_file("\\f").unwrap();
    assert_eq!(file.size(), 8);
    file.seek(SeekFrom::Start(3)).unwrap();
    let bytes = file.read(3).unwrap();
    assert_eq!(bytes, b"DEF".to_vec());
}

#[test]
fn storage_streams_compressed_frame() {
    let content = vec![0xAAu8; 1 << 20];
    let compressed = {
        let mut enc = flate2::write::ZlibEncoder::new(Vec::new(), flate2::Compression::default());
        std::io::Write::write_all(&mut enc, &content).unwrap();
        enc.finish().unwrap()
    };
    let root = root_single_file(KEY_A);
    let region = region_with_content(0x5A, compressed, 1 << 20);
    let (bi, cfg, idx, data) = build_storage_input(root, &[(region, KEY_A)], &[]);
    let storage = CascStorage::open(bi, cfg, idx, data).unwrap();
    let mut file = storage.open_file("\\f").unwrap();
    assert_eq!(file.size(), 1 << 20);
    let mut groups = 0usize;
    let mut total = 0usize;
    loop {
        let chunk = file.read(4096).unwrap();
        if chunk.is_empty() {
            break;
        }
        assert!(chunk.iter().all(|b| *b == 0xAA));
        total += chunk.len();
        groups += 1;
    }
    assert_eq!(groups, 262144 / 1024);
    assert_eq!(total, 1 << 20);
}

#[test]
fn encrypted_frame_is_unsupported() {
    let root = root_single_file(KEY_A);
    let region = region_with_content(0x45, vec![0u8; 6], 6);
    let (bi, cfg, idx, data) = build_storage_input(root, &[(region, KEY_A)], &[]);
    let storage = CascStorage::open(bi, cfg, idx, data).unwrap();
    let mut file = storage.open_file("\\f").unwrap();
    match file.read(6) {
        Err(CascError::UnsupportedFileType(_)) => {},
        other => panic!("expected unsupported, got ok={}", other.is_ok()),
    }
}

#[test]
fn read_of_empty_budget_stays_put() {
    let root = root_single_file(KEY_A);
    let region = region_with_content(0x4E, b"HELLO\n".to_vec(), 6);
    let (bi, cfg, idx, data) = build_storage_input(root, &[(region, KEY_A)], &[]);
    let storage = CascStorage::open(bi, cfg, idx, data).unwrap();
    let mut file = storage.open_file("\\f").unwrap();
    file.seek(SeekFrom::Start(2)).unwrap();
    assert_eq!(file.read(0).unwrap(), Vec::<u8>::new());
    // The position stood still: the next read starts at offset two.
    assert_eq!(file.read(2).unwrap(), b"LL".to_vec());
    // A read at or past the end yields nothing.
    file.seek(SeekFrom::Start(6)).unwrap();
    assert_eq!(file.read(4).unwrap(), Vec::<u8>::new());
    file.seek(SeekFrom::Start(60)).unwrap();
    assert_eq!(file.read(4).unwrap(), Vec::<u8>::new());
}

#[test]
fn seek_end_reads_empty_and_start_reads_all() {
    let root = root_single_file(KEY_A);
    let region = region_with_content(0x4E, b"HELLO\n".to_vec(), 6);
    let (bi, cfg, idx, data) = build_storage_input(root, &[(region, KEY_A)], &[]);
    let storage = CascStorage::open(bi, cfg, idx, data).unwrap();
    let mut file = storage.open_file("\\f").unwrap();
    file.seek(SeekFrom::End(0)).unwrap();
    assert_eq!(file.read(100).unwrap(), Vec::<u8>::new());
    file.seek(SeekFrom::Start(0)).unwrap();
    assert_eq!(file.read(6).unwrap(), b"HELLO\n".to_vec());
    // Seeking back from the end lands where the size says.
    let p = file.seek(SeekFrom::End(-2)).unwrap();
    assert_eq!(p, 4);
    assert_eq!(file.read(2).unwrap(), b"O\n".to_vec());
    // Current-relative seeks reject an underflow.
    file.seek(SeekFrom::Start(1)).unwrap();
    assert!(file.seek(SeekFrom::Current(-2)).is_err());
}

#[test]
fn seek_then_read_matches_prefix_slice() {
    let root = root_single_file(KEY_A);
    let region = build_region(&[
        Frame { tag: 0x4E, payload: b"ABCD".to_vec(), content_size: 4 },
        Frame { tag: 0x4E, payload: b"EFGH".to_vec(), content_size: 4 },
    ]);
    let (bi, cfg, idx, data) = build_storage_input(root, &[(region, KEY_A)], &[]);
    let storage = CascStorage::open(bi, cfg, idx, data).unwrap();
    let mut file = storage.open_file("\\f").unwrap();
    let p = 3usize;
    let n = 4usize;
    file.seek(SeekFrom::Start(p as u64)).unwrap();
    let direct = file.read(n).unwrap();
    file.seek(SeekFrom::Start(0)).unwrap();
    let prefix = file.read(p + n).unwrap();
    assert_eq!(direct, prefix[p..p + n].to_vec());
}

#[test]
fn file_sizes_follow_idx_records() {
    let root = root_single_file(KEY_A);
    let region = region_with_content(0x4E, b"HELLO\n".to_vec(), 6);
    let region_len = region.len() as u32;
    let (bi, cfg, idx, data) = build_storage_input(root, &[(region, KEY_A)], &[]);
    let storage = CascStorage::open(bi, cfg, idx, data).unwrap();
    assert_eq!(storage.files.len(), 1);
    let info = &storage.files[0];
    assert_eq!(info.file_name(), "\\f");
    assert!(info.is_local());
    // The reported size is the IDX record's size field.
    assert_eq!(info.file_size(), region_len as i64);
    // Every record's archive index names an existing archive.
    for (_, e) in storage.entries.iter() {
        assert!((e.archive_index as usize) < storage.data_files.len());
        assert!(e.offset < (1u64 << 30));
    }
}

#[test]
fn missing_span_marks_file_not_local() {
    // Two files; the second file's span key has no IDX record.
    let path: Vec<u8> = [file_node("f", 0), file_node("g", 10)].concat();
    let vfs = build_vfs_single_span(&[0, 9]);
    let mut cft = KEY_A.to_vec();
    cft.extend_from_slice(&KEY_B);
    let root = build_tvfs(&path, &vfs, &cft);
    let region = region_with_content(0x4E, b"HELLO\n".to_vec(), 6);
    // KEY_B gets no IDX record.
    let (bi, cfg, idx, data) = build_storage_input(root, &[(region, KEY_A)], &[]);
    let storage = CascStorage::open(bi, cfg, idx, data).unwrap();
    assert_eq!(storage.files.len(), 2);
    let f = &storage.files[0];
    assert_eq!(f.file_name(), "\\f");
    assert!(f.is_local());
    assert!(f.file_size() > 0);
    let g = &storage.files[1];
    assert_eq!(g.file_name(), "\\g");
    assert!(!g.is_local());
    assert_eq!(g.file_size(), 0);
}

#[test]
fn missing_name_is_not_found() {
    let root = root_single_file(KEY_A);
    let region = region_with_content(0x4E, b"HELLO\n".to_vec(), 6);
    let (bi, cfg, idx, data) = build_storage_input(root, &[(region, KEY_A)], &[]);
    let storage = CascStorage::open(bi, cfg, idx, data).unwrap();
    match storage.open_file("\\absent") {
        Err(CascError::FileNotFound(_)) => {},
        other => panic!("expected not found, got ok={}", other.is_ok()),
    }
}

#[test]
fn tvfs_builds_nested_names() {
    // A folder node `dir` holding a file node `file.txt`.
    let inner = file_node("file.txt", 0);
    let folder_size = (inner.len() + 4) as u32;
    let mut path = vec![0u8, 3];
    path.extend_from_slice(b"dir");
    path.push(0xFF);
    path.extend_from_slice(&(0x8000_0000u32 | folder_size).to_be_bytes());
    path.extend_from_slice(&inner);
    let vfs = build_vfs_single_span(&[0]);
    let cft = KEY_A.to_vec();
    let root = build_tvfs(&path, &vfs, &cft);
    let handler = TVFSRootHandler::new(root).unwrap();
    assert_eq!(handler.file_entries.len(), 1);
    assert_eq!(handler.file_entries[0].name, "\\dir\\file.txt");
}

#[test]
fn tvfs_empty_name_with_both_separators() {
    // A node with a leading separator, a zero-length name and a trailing
    // separator builds a double-backslash segment.
    let mut path = vec![0u8, 0u8, 0u8, 0xFF];
    path.extend_from_slice(&0u32.to_be_bytes());
    let vfs = build_vfs_single_span(&[0]);
    let cft = KEY_A.to_vec();
    let root = build_tvfs(&path, &vfs, &cft);
    let handler = TVFSRootHandler::new(root).unwrap();
    assert_eq!(handler.file_entries.len(), 1);
    assert_eq!(handler.file_entries[0].name, "\\\\");
}

#[test]
fn tvfs_folder_must_end_at_its_boundary() {
    // A folder whose declared size reaches past the table is refused.
    let mut path = vec![0u8, 3];
    path.extend_from_slice(b"dir");
    path.push(0xFF);
    path.extend_from_slice(&(0x8000_0000u32 | 100).to_be_bytes());
    let vfs = build_vfs_single_span(&[0]);
    let cft = KEY_A.to_vec();
    let root = build_tvfs(&path, &vfs, &cft);
    assert!(TVFSRootHandler::new(root).is_err());
}

#[test]
fn vfs_root_resolves_through_base64_prefix() {
    // The hex hash decodes to sixteen bytes whose first nine name the
    // root's IDX record; the first twelve characters of its base64 name
    // the same bytes.
    let root = root_single_file(KEY_A);
    let region = region_with_content(0x4E, b"HELLO\n".to_vec(), 6);
    let (bi, cfg, idx, data) = build_storage_input(root, &[(region, KEY_A)], &[]);
    let mut full_hash = KEY_ROOT.to_vec();
    full_hash.extend_from_slice(&[0xAA; 7]);
    let b64 = base64::Engine::encode(&base64::engine::general_purpose::STANDARD, &full_hash);
    let b64_prefix_key =
        base64::Engine::encode(&base64::engine::general_purpose::STANDARD, KEY_ROOT);
    assert_eq!(&b64[0..12], &b64_prefix_key[0..12]);
    let storage = CascStorage::open(bi, cfg, idx, data).unwrap();
    match storage.root_handler {
        casc_rs::root_handler::RootHandler::Tvfs(_) => {},
    }
}

#[test]
fn non_tvfs_root_is_invalid() {
    let bogus_root = b"MNDXrest-of-the-root-file".to_vec();
    let region = region_with_content(0x4E, b"HELLO\n".to_vec(), 6);
    let (bi, cfg, idx, data) = build_storage_input(bogus_root, &[(region, KEY_A)], &[]);
    match CascStorage::open(bi, cfg, idx, data) {
        Err(CascError::InvalidData(_)) => {},
        other => panic!("expected invalid data, got ok={}", other.is_ok()),
    }
}

#[test]
fn arrange_data_files_rejects_gaps() {
    let with_gap = vec![(0usize, vec![1u8]), (2usize, vec![2u8])];
    match CascStorage::arrange_data_files(with_gap) {
        Err(CascError::FileNotFound(_)) => {},
        other => panic!("expected not found, got ok={}", other.is_ok()),
    }
    let complete = vec![(1usize, vec![7u8]), (0usize, vec![5u8])];
    let ordered = CascStorage::arrange_data_files(complete).unwrap();
    assert_eq!(ordered, vec![vec![5u8], vec![7u8]]);
}

#[test]
fn read_in_good_window_despite_bad_frame_beyond() {
    // The first frame is raw, the second encrypted: reading inside the
    // first frame succeeds; reading on into the second is refused.
    let root = root_single_file(KEY_A);
    let region = build_region(&[
        Frame { tag: 0x4E, payload: b"ABCD".to_vec(), content_size: 4 },
        Frame { tag: 0x45, payload: vec![0u8; 4], content_size: 4 },
    ]);
    let (bi, cfg, idx, data) = build_storage_input(root, &[(region, KEY_A)], &[]);
    let storage = CascStorage::open(bi, cfg, idx, data).unwrap();
    let mut file = storage.open_file("\\f").unwrap();
    assert_eq!(file.size(), 8);
    assert_eq!(file.read(4).unwrap(), b"ABCD".to_vec());
    match file.read(4) {
        Err(CascError::UnsupportedFileType(_)) => {},
        other => panic!("expected unsupported, got ok={}", other.is_ok()),
    }
}
