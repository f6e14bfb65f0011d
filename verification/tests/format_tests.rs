use std::collections::HashMap;

use casc_rs::block_table::{BlockTableEncoderType, BlockTableHeader};
use casc_rs::build_info::CascBuildInfo;
use casc_rs::bytes::ByteReader;
use casc_rs::config::CascConfig;
use casc_rs::dsv::DSVFile;
use casc_rs::error::CascError;
use casc_rs::idx::{CascKeyMappingTable, CascKeyMappingTableEntry};
use casc_rs::path_flags::{PathTableNodeFlags, IS_NODE_VALUE, PATH_SEPARATOR_PRE};
use casc_rs::span_info::SpanInfo;

fn build_idx(entries: &[([u8; 9], u32, u64, u32)], bits: u8) -> Vec<u8> {
    build_idx_with_lengths(entries, bits, 4, 5, 9)
}

fn build_idx_with_lengths(
    entries: &[([u8; 9], u32, u64, u32)],
    bits: u8,
    esl: u8,
    sol: u8,
    ekl: u8,
) -> Vec<u8> {
    let mut v = Vec::new();
    v.extend_from_slice(&16u32.to_le_bytes()); // header size
    v.extend_from_slice(&0u32.to_le_bytes()); // header hash
    v.extend_from_slice(&7u16.to_le_bytes()); // version
    v.push(3); // bucket index
    v.push(0); // extra
    v.push(esl);
    v.push(sol);
    v.push(ekl);
    v.push(bits);
    v.extend_from_slice(&0u64.to_le_bytes()); // file size
    while v.len() < 32 {
        v.push(0);
    }
    let table_size = (entries.len() * 18) as u32;
    v.extend_from_slice(&table_size.to_le_bytes());
    v.extend_from_slice(&0u32.to_le_bytes()); // table hash
    for (key, archive, offset, size) in entries {
        v.extend_from_slice(key);
        let packed: u64 = ((*archive as u64) << bits) | offset;
        let pb = packed.to_be_bytes();
        v.extend_from_slice(&pb[3..8]);
        v.extend_from_slice(&size.to_le_bytes());
    }
    v
}

#[test]
fn dsv_splits_rows_and_fields() {
    let text = b"a|b|c\n# comment\n\nx|y|z\r\n".to_vec();
    let dsv = DSVFile::from_text(text, "|", Some("#")).unwrap();
    assert_eq!(dsv.rows.len(), 2);
    assert_eq!(dsv.rows[0], vec!["a", "b", "c"]);
    assert_eq!(dsv.rows[1], vec!["x", "y", "z"]);
    assert_eq!(dsv.header().unwrap(), &vec!["a", "b", "c"]);
}

#[test]
fn dsv_decodes_multibyte_names() {
    let text = "nom\u{e9}|deux".as_bytes().to_vec();
    let dsv = DSVFile::from_text(text, "|", None).unwrap();
    assert_eq!(dsv.rows[0][0], "nom\u{e9}");
    assert_eq!(dsv.rows[0][1], "deux");
}

#[test]
fn dsv_rejects_bad_utf8() {
    let text = vec![0x61, 0xFF, 0x62];
    assert!(DSVFile::from_text(text, "|", None).is_err());
}

#[test]
fn build_info_reads_variables() {
    let text = b"# top\nBuild Key!STRING:0|Version!STRING:0\nabc123|9.9.9\n".to_vec();
    let info = CascBuildInfo::from_text(text).unwrap();
    assert_eq!(info.get("Build Key", ""), "abc123");
    assert_eq!(info.get("Version", ""), "9.9.9");
    assert_eq!(info.get("Absent", "fallback"), "fallback");
}

#[test]
fn build_info_rejects_short_files() {
    let text = b"Build Key!STRING:0\n".to_vec();
    match CascBuildInfo::from_text(text) {
        Err(CascError::FileCorrupted(_)) => {},
        other => panic!("expected corrupted, got {:?}", other.is_ok()),
    }
}

#[test]
fn build_info_rejects_headers_without_type() {
    let text = b"BuildKey|Other!T\nv1|v2\n".to_vec();
    match CascBuildInfo::from_text(text) {
        Err(CascError::FileCorrupted(_)) => {},
        other => panic!("expected corrupted, got {:?}", other.is_ok()),
    }
}

#[test]
fn build_info_rejects_arity_mismatch() {
    let text = b"A!T|B!T\nonly\n".to_vec();
    assert!(CascBuildInfo::from_text(text).is_err());
}

#[test]
fn config_parses_key_values() {
    let mut config = CascConfig::new();
    let text = b"# build config\nroot = abcd\nvfs-root = 11 2233\n".to_vec();
    config.load(text).unwrap();
    let var = config.get("vfs-root").unwrap();
    assert_eq!(var.name, "vfs-root");
    assert_eq!(var.values, vec!["11", "2233"]);
    assert!(config.get("missing").is_none());
}

#[test]
fn config_later_line_wins() {
    let mut config = CascConfig::new();
    config.load(b"k = one\nk = two\n".to_vec()).unwrap();
    assert_eq!(config.get("k").unwrap().values, vec!["two"]);
}

#[test]
fn idx_parses_one_record() {
    let key = [1u8, 2, 3, 4, 5, 6, 7, 8, 9];
    let data = build_idx(&[(key, 2, 0x1234, 77)], 30);
    let mut entries: HashMap<u128, CascKeyMappingTableEntry> = HashMap::new();
    let table = CascKeyMappingTable::new(data, &mut entries).unwrap();
    assert_eq!(table.file_offset_bits, 30);
    assert_eq!(table.encoding_key_length, 9);
    assert_eq!(entries.len(), 1);
    let k = casc_rs::encoding::pack_key9(&key);
    let e = entries.get(&k).unwrap();
    assert_eq!(e.archive_index, 2);
    assert_eq!(e.offset, 0x1234);
    assert_eq!(e.size, 77);
    assert_eq!(e.encoding_key, key.to_vec());
    // The offset always lies under the mask's bound.
    assert!(e.offset < (1u64 << 30));
}

#[test]
fn idx_rejects_unexpected_lengths() {
    let key = [0u8; 9];
    let data = build_idx_with_lengths(&[(key, 0, 0, 0)], 30, 4, 5, 8);
    let mut entries: HashMap<u128, CascKeyMappingTableEntry> = HashMap::new();
    match CascKeyMappingTable::new(data, &mut entries) {
        Err(CascError::FileCorrupted(_)) => {},
        other => panic!("expected corrupted, got {:?}", other.is_ok()),
    }
    assert!(entries.is_empty());
}

#[test]
fn idx_base64_keys_do_not_collide() {
    let key_a = [1u8, 2, 3, 4, 5, 6, 7, 8, 9];
    let key_b = [1u8, 2, 3, 4, 5, 6, 7, 8, 10];
    let data = build_idx(&[(key_a, 0, 16, 1), (key_b, 0, 32, 2)], 30);
    let mut entries: HashMap<u128, CascKeyMappingTableEntry> = HashMap::new();
    CascKeyMappingTable::new(data, &mut entries).unwrap();
    // Distinct keys stay distinct records: no overwrite of mismatched offsets.
    assert_eq!(entries.len(), 2);
    let b64_a = base64::Engine::encode(&base64::engine::general_purpose::STANDARD, key_a);
    let b64_b = base64::Engine::encode(&base64::engine::general_purpose::STANDARD, key_b);
    assert_ne!(b64_a, b64_b);
}

#[test]
fn idx_later_record_overwrites_earlier() {
    let key = [9u8, 8, 7, 6, 5, 4, 3, 2, 1];
    let data = build_idx(&[(key, 0, 16, 1), (key, 0, 32, 2)], 30);
    let mut entries: HashMap<u128, CascKeyMappingTableEntry> = HashMap::new();
    CascKeyMappingTable::new(data, &mut entries).unwrap();
    assert_eq!(entries.len(), 1);
    let k = casc_rs::encoding::pack_key9(&key);
    assert_eq!(entries.get(&k).unwrap().offset, 32);
}

#[test]
fn encoder_type_tags() {
    assert_eq!(BlockTableEncoderType::from(0x4E), BlockTableEncoderType::Raw);
    assert_eq!(BlockTableEncoderType::from(0x5A), BlockTableEncoderType::ZLib);
    assert_eq!(BlockTableEncoderType::from(0x45), BlockTableEncoderType::Encrypted);
    assert_eq!(BlockTableEncoderType::from(0x7F), BlockTableEncoderType::Unknown(0x7F));
}

#[test]
fn block_table_header_reads_fields() {
    let mut bytes = Vec::new();
    bytes.extend_from_slice(&[0x42, 0x4C, 0x54, 0x45]); // B L T E
    bytes.extend_from_slice(&36u32.to_le_bytes());
    bytes.push(0x0F);
    bytes.extend_from_slice(&[0x00, 0x01, 0x02]); // frame count 258, big-endian
    let mut reader = ByteReader::new(bytes);
    let header = BlockTableHeader::read(&mut reader).unwrap();
    assert_eq!(header.signature, 0x45544C42);
    assert_eq!(header.header_size, 36);
    assert_eq!(header.table_format, 0x0F);
    assert_eq!(header.frame_count, 258);
}

#[test]
fn path_flags_contain_their_bits() {
    let flags = PathTableNodeFlags(PATH_SEPARATOR_PRE | IS_NODE_VALUE);
    assert!(flags.has_flag(PathTableNodeFlags(PATH_SEPARATOR_PRE)));
    assert!(flags.has_flag(PathTableNodeFlags(IS_NODE_VALUE)));
    assert!(!flags.has_flag(PathTableNodeFlags(casc_rs::path_flags::PATH_SEPARATOR_POST)));
}

#[test]
fn span_info_encodes_its_key() {
    let span = SpanInfo::new_with_encoding_key(vec![0, 1, 2, 3, 4, 5, 6, 7, 8]);
    // Standard base64 of the nine bytes; a wrapper handing its input back
    // unchanged would fail this.
    assert_eq!(span.base64_encoding_key, "AAECAwQFBgcI");
    let full = SpanInfo::new_with_content_key(vec![0xFF], vec![1, 2], 5);
    assert_eq!(full.base64_content_key.as_deref(), Some("/w=="));
    assert_eq!(full.base64_encoding_key, "AQI=");
    assert_eq!(full.size, Some(5));
}

#[test]
fn reader_chars_stop_at_invalid_lead() {
    let mut reader = ByteReader::new(vec![b'a', 0xF9]);
    assert!(reader.read_chars(2).is_err());
    let mut ok = ByteReader::new("h\u{e9}!".as_bytes().to_vec());
    let chars = ok.read_chars(3).unwrap();
    assert_eq!(chars, vec!['h', '\u{e9}', '!']);
}

#[test]
fn dsv_constructors_set_delimiters() {
    let d = DSVFile::new();
    assert_eq!(d.delimiter, vec![',']);
    assert!(d.comment.is_none());
    assert!(d.rows.is_empty());
    let p = DSVFile::with_delimiter("||");
    assert_eq!(p.delimiter, vec!['|', '|']);
}

#[test]
fn config_variable_holds_its_parts() {
    let var = casc_rs::config::Variable::new(
        "root".to_string(),
        vec!["a".to_string(), "b".to_string()],
    );
    assert_eq!(var.name, "root");
    assert_eq!(var.values, vec!["a", "b"]);
}

#[test]
fn build_info_variable_holds_its_parts() {
    let var = casc_rs::build_info::Variable::new(
        "Build Key".to_string(),
        "STRING:0".to_string(),
        "abc".to_string(),
    );
    assert_eq!(var.name, "Build Key");
    assert_eq!(var.var_type, "STRING:0");
    assert_eq!(var.value, "abc");
}

#[test]
fn file_info_getters_and_setters() {
    let mut info = casc_rs::file_info::CascFileInfo::new("a".to_string(), 5, true);
    assert_eq!(info.file_name(), "a");
    assert_eq!(info.file_size(), 5);
    assert!(info.is_local());
    info.set_file_name("b".to_string());
    info.set_file_size(9);
    info.set_is_local(false);
    assert_eq!(info.file_name(), "b");
    assert_eq!(info.file_size(), 9);
    assert!(!info.is_local());
}

#[test]
fn span_header_reads_its_fields() {
    let mut bytes = vec![7u8; 16]; // encoding key
    bytes.extend_from_slice(&100u32.to_le_bytes()); // content size
    bytes.extend_from_slice(&3u16.to_le_bytes()); // flags
    bytes.extend_from_slice(&0xAABBCCDDu32.to_le_bytes()); // jenkins hash
    bytes.extend_from_slice(&0x11223344u32.to_le_bytes()); // checksum
    let mut reader = ByteReader::new(bytes);
    let header = casc_rs::span_header::CascSpanHeader::read(&mut reader).unwrap();
    assert_eq!(header.encoding_key, vec![7u8; 16]);
    assert_eq!(header.content_size, 100);
    assert_eq!(header.flags, 3);
    assert_eq!(header.jenkins_hash, 0xAABBCCDD);
    assert_eq!(header.checksum, 0x11223344);
    let empty = casc_rs::span_header::CascSpanHeader::new();
    assert_eq!(empty.encoding_key, vec![0u8; 16]);
    assert_eq!(empty.content_size, 0);
}

#[test]
fn tvfs_header_reads_big_endian_fields() {
    let mut bytes = Vec::new();
    bytes.extend_from_slice(&[0x54, 0x56, 0x46, 0x53]);
    bytes.push(1); // format version
    bytes.push(38); // header size
    bytes.push(16); // encoding key size
    bytes.push(0); // patch key size
    bytes.extend_from_slice(&0u32.to_be_bytes()); // flags
    bytes.extend_from_slice(&38u32.to_be_bytes()); // path offset
    bytes.extend_from_slice(&8u32.to_be_bytes()); // path size
    bytes.extend_from_slice(&46u32.to_be_bytes()); // vfs offset
    bytes.extend_from_slice(&10u32.to_be_bytes()); // vfs size
    bytes.extend_from_slice(&56u32.to_be_bytes()); // cft offset
    bytes.extend_from_slice(&16u32.to_be_bytes()); // cft size
    bytes.extend_from_slice(&3u16.to_be_bytes()); // max depth
    let mut reader = ByteReader::new(bytes);
    let header = casc_rs::tvfs::TVFSHeader::read(&mut reader).unwrap();
    assert_eq!(header.signature, 0x54564653);
    assert_eq!(header.encoding_key_size, 16);
    assert_eq!(header.path_table_offset, 38);
    assert_eq!(header.path_table_size, 8);
    assert_eq!(header.cft_table_size, 16);
    assert_eq!(header.max_depth, 3);
}

#[test]
fn error_messages_carry_their_kind() {
    let e = CascError::FileNotFound("x".to_string());
    assert_eq!(e.message(), "File not found: x");
    let e = CascError::UnsupportedFileType("y".to_string());
    assert_eq!(e.message(), "Unsupported file type: y");
    let e = CascError::InvalidData("z".to_string());
    assert_eq!(e.message(), "Invalid data: z");
}

#[test]
fn reader_chars_distinguish_failure_kinds() {
    // A byte that cannot lead a sequence is malformed data.
    let mut bad_lead = ByteReader::new(vec![0xFF]);
    match bad_lead.read_chars(1) {
        Err(CascError::InvalidData(_)) => {},
        other => panic!("expected invalid data, got ok={}", other.is_ok()),
    }
    // A valid lead whose continuation bytes run out is a truncated read.
    let mut truncated = ByteReader::new(vec![0xC3]);
    match truncated.read_chars(1) {
        Err(CascError::Io(_)) => {},
        other => panic!("expected an input error, got ok={}", other.is_ok()),
    }
    // A malformed continuation byte is data, not truncation.
    let mut bad_cont = ByteReader::new(vec![0xC3, 0x20]);
    match bad_cont.read_chars(1) {
        Err(CascError::InvalidData(_)) => {},
        other => panic!("expected invalid data, got ok={}", other.is_ok()),
    }
}

#[test]
fn peek_past_end_is_an_input_error() {
    let reader = ByteReader::new(Vec::new());
    match reader.peek_byte() {
        Err(CascError::Io(_)) => {},
        other => panic!("expected an input error, got ok={}", other.is_ok()),
    }
}

#[test]
fn empty_archive_listing_is_not_found() {
    match casc_rs::storage::CascStorage::arrange_data_files(Vec::new()) {
        Err(CascError::FileNotFound(_)) => {},
        other => panic!("expected not found, got ok={}", other.is_ok()),
    }
}
