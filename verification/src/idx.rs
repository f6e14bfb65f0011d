use vstd::prelude::*;

use std::collections::HashMap;

use crate::bytes::{u16_le, u32_le, u40_be, u64_le, ByteReader};
use crate::encoding::{key9_val, pack_key9};
use crate::error::CascError;

verus! {

broadcast use vstd::std_specs::hash::group_hash_axioms;

/// The decoded form of one IDX record: a nine-byte encoding key mapped to
/// where its data lies.
pub struct IdxRecord {
    /// The encoding key bytes, stored as-is.
    pub key: Seq<u8>,
    /// The byte offset of the data inside its archive file.
    pub offset: u64,
    /// The encoded size of the data.
    pub size: u32,
    /// The index of the archive file holding the data.
    pub archive_index: u32,
}

/// The mask with the low `bits` bits set.
pub open spec fn offset_mask(bits: u8) -> u64
    recommends
        bits < 64,
{
    ((1u64 << bits) - 1) as u64
}

/// What one 18-byte record denotes: the first nine bytes are the key, the
/// next five a big-endian packed word split by `bits` into archive index
/// and offset, the last four a little-endian size.
pub open spec fn decode_idx_record(rec: Seq<u8>, bits: u8) -> IdxRecord
    recommends
        rec.len() == 18,
        bits < 64,
{
    let packed = u40_be(rec.subrange(9, 14)) as u64;
    IdxRecord {
        key: rec.take(9),
        offset: packed & offset_mask(bits),
        size: u32_le(rec.subrange(14, 18)) as u32,
        archive_index: (packed >> bits) as u32,
    }
}

/// The header of one key mapping table, with the lengths and the offset
/// split that its records use.
#[derive(Debug, Clone, PartialEq, Eq, Structural)]
pub struct CascKeyMappingTable {
    /// The version of the key mapping table format.
    pub version: u16,
    /// The bucket index of this table.
    pub bucket_index: u8,
    /// An extra byte carried by the header.
    pub extra_byte: u8,
    /// The length in bytes of the encoded size field; must be 4.
    pub encoded_size_length: u8,
    /// The length in bytes of the storage offset field; must be 5.
    pub storage_offset_length: u8,
    /// The length in bytes of the encoding key; must be 9.
    pub encoding_key_length: u8,
    /// How many low bits of the packed word hold the file offset.
    pub file_offset_bits: u8,
    /// The mask with the low `file_offset_bits` bits set.
    pub file_offset_mask: u64,
    /// The total file size the table covers, as stored.
    pub file_size: u64,
}

/// One entry of the shared key map.
#[derive(Debug, Clone, PartialEq, Eq)]
pub struct CascKeyMappingTableEntry {
    /// The encoding key bytes.
    pub encoding_key: Vec<u8>,
    /// The byte offset of the data inside its archive file.
    pub offset: u64,
    /// The encoded size of the data.
    pub size: u32,
    /// The index of the archive file holding the data.
    pub archive_index: u32,
}

impl View for CascKeyMappingTableEntry {
    type V = IdxRecord;

    open spec fn view(&self) -> IdxRecord {
        IdxRecord {
            key: self.encoding_key@,
            offset: self.offset,
            size: self.size,
            archive_index: self.archive_index,
        }
    }
}

impl CascKeyMappingTableEntry {
    /// Decodes one fixed-width record as the table's header prescribes.
    pub(crate) fn new(buffer: &Vec<u8>, table: &CascKeyMappingTable) -> (r:
        CascKeyMappingTableEntry)
        requires
            buffer@.len() == 18,
            table.file_offset_bits < 64,
            table.file_offset_mask == offset_mask(table.file_offset_bits),
        ensures
            r@ == decode_idx_record(buffer@, table.file_offset_bits),
            r.offset <= table.file_offset_mask,
            r.encoding_key@.len() == 9,
    {
        // The five bytes after the key form a big-endian packed word.
        let packed: u64 = buffer[13] as u64 + 256 * (buffer[12] as u64 + 256 * (buffer[11] as u64
            + 256 * (buffer[10] as u64 + 256 * (buffer[9] as u64))));
        proof {
            assert(packed == u40_be(buffer@.subrange(9, 14)));
        }
        // The last four bytes form a little-endian size.
        let size: u32 = buffer[14] as u32 + 256 * (buffer[15] as u32 + 256 * (buffer[16] as u32
            + 256 * (buffer[17] as u32)));
        proof {
            assert(size == u32_le(buffer@.subrange(14, 18)));
        }
        let archive_index = (packed >> table.file_offset_bits) as u32;
        let offset = packed & table.file_offset_mask;
        proof {
            let m = table.file_offset_mask;
            assert(packed & m <= m) by (bit_vector);
        }
        let mut encoding_key: Vec<u8> = Vec::new();
        let mut k: usize = 0;
        while k < 9
            invariant
                k <= 9,
                buffer@.len() == 18,
                encoding_key@ =~= buffer@.take(k as int),
            decreases 9 - k,
        {
            encoding_key.push(buffer[k]);
            assert(encoding_key@ =~= buffer@.take(k + 1));
            k = k + 1;
        }
        CascKeyMappingTableEntry { encoding_key, offset, size, archive_index }
    }
}

/// Whether the three length fields of an IDX header are the supported
/// (4, 5, 9); any other combination is rejected as corrupted.
pub open spec fn idx_sizes_ok(s: Seq<u8>) -> bool
    recommends
        s.len() >= 16,
{
    s[12] == 4 && s[13] == 5 && s[14] == 9
}

/// The file-offset bit count of an IDX header.
pub open spec fn idx_bits(s: Seq<u8>) -> u8
    recommends
        s.len() >= 16,
{
    s[15]
}

/// The table size field, read after the aligned header.
pub open spec fn idx_table_size(s: Seq<u8>) -> int
    recommends
        s.len() >= 40,
{
    u32_le(s.subrange(32, 36))
}

/// How many full records the table holds.
pub open spec fn idx_record_count(s: Seq<u8>) -> int
    recommends
        s.len() >= 40,
{
    idx_table_size(s) / 18
}

/// The bytes of record `i`.
pub open spec fn idx_record(s: Seq<u8>, i: int) -> Seq<u8>
    recommends
        s.len() >= 40,
        0 <= i < idx_record_count(s),
{
    s.subrange(40 + 18 * i, 58 + 18 * i)
}

/// The map key under which record `i` is inserted.
pub open spec fn idx_record_key(s: Seq<u8>, i: int) -> u128 {
    key9_val(idx_record(s, i).take(9)) as u128
}

/// Whether a buffer holds a well-formed IDX file that parsing accepts.
pub open spec fn idx_ok(s: Seq<u8>) -> bool {
    &&& s.len() >= 40
    &&& idx_sizes_ok(s)
    &&& idx_bits(s) < 64
    &&& 40 + 18 * idx_record_count(s) <= s.len()
}

/// The views of a key map's records, under the map's own keys.
#[verifier::opaque]
pub open spec fn entries_view_map(m: Map<u128, CascKeyMappingTableEntry>) -> Map<u128, IdxRecord> {
    Map::new(|k: u128| m.contains_key(k), |k: u128| m[k]@)
}

/// The record views of a table's first `i` records folded into a map in
/// file order: a later record overwrites an earlier one under its key.
pub open spec fn idx_map_upto(s: Seq<u8>, m0: Map<u128, IdxRecord>, i: int) -> Map<u128, IdxRecord>
    decreases i,
{
    if i <= 0 {
        m0
    } else {
        idx_map_upto(s, m0, i - 1).insert(
            idx_record_key(s, i - 1),
            decode_idx_record(idx_record(s, i - 1), idx_bits(s)),
        )
    }
}

/// The record views of a whole table folded into a map.
pub open spec fn idx_map_of(s: Seq<u8>, m0: Map<u128, IdxRecord>) -> Map<u128, IdxRecord> {
    idx_map_upto(s, m0, idx_record_count(s))
}

impl CascKeyMappingTable {
    /// Parses one IDX file and merges its records into the shared key map,
    /// keyed by the packed nine-byte encoding key; a record inserted later
    /// overwrites an earlier one under the same key.
    pub fn new(data: Vec<u8>, entries: &mut HashMap<u128, CascKeyMappingTableEntry>) -> (r: Result<
        CascKeyMappingTable,
        CascError,
    >)
        ensures
            r is Ok <==> idx_ok(data@),
            data@.len() >= 24 && !idx_sizes_ok(data@) ==> r is Err && r->Err_0
                is FileCorrupted,
            r matches Ok(t) ==> {
                let s = data@;
                &&& t.version == u16_le(s.subrange(8, 10))
                &&& t.bucket_index == s[10]
                &&& t.extra_byte == s[11]
                &&& t.encoded_size_length == 4
                &&& t.storage_offset_length == 5
                &&& t.encoding_key_length == 9
                &&& t.file_offset_bits == idx_bits(s)
                &&& t.file_offset_mask == offset_mask(idx_bits(s))
                &&& t.file_size == u64_le(s.subrange(16, 24))
            },
            r is Ok ==> entries_view_map(final(entries)@) == idx_map_of(
                data@,
                entries_view_map(old(entries)@),
            ),
            r is Err ==> final(entries)@ == old(entries)@,
    {
        proof {
            reveal(entries_view_map);
        }
        let ghost s = data@;
        let mut reader = ByteReader::new(data);
        let _header_size = reader.read_u32_le()?;
        let _header_hash = reader.read_u32_le()?;
        let version = reader.read_u16_le()?;
        let bucket_index = reader.read_u8()?;
        let extra_byte = reader.read_u8()?;
        let encoded_size_length = reader.read_u8()?;
        let storage_offset_length = reader.read_u8()?;
        let encoding_key_length = reader.read_u8()?;
        let file_offset_bits = reader.read_u8()?;
        let file_size = reader.read_u64_le()?;
        if encoded_size_length != 4 || storage_offset_length != 5 || encoding_key_length != 9 {
            return Err(
                CascError::FileCorrupted(
                    String::from_str("Invalid Data Sizes in Key Mapping Table"),
                ),
            );
        }
        if file_offset_bits >= 64 {
            return Err(
                CascError::InvalidData(String::from_str("file offset bit count out of range")),
            );
        }
        proof {
            let b = file_offset_bits;
            assert(b < 64 ==> (1u64 << b) >= 1) by (bit_vector);
        }
        let file_offset_mask: u64 = (1u64 << file_offset_bits) - 1;

        // Align to the next 0x10 boundary after adding 0x17; the cursor
        // always stands at 24 here, so this lands on 32.
        let pos = reader.position();
        assert(pos == 24);
        let new_pos = (pos + 0x17) / 0x10 * 0x10;
        assert(new_pos == 32);
        reader.seek_to(new_pos);

        let table_size = reader.read_u32_le()?;
        let _table_hash = reader.read_u32_le()?;

        let table = CascKeyMappingTable {
            version,
            bucket_index,
            extra_byte,
            encoded_size_length,
            storage_offset_length,
            encoding_key_length,
            file_offset_bits,
            file_offset_mask,
            file_size,
        };

        let count = table_size / 18;
        assert(count == idx_record_count(s));
        if count as usize > (reader.len() - 40) / 18 {
            proof {
                let len = s.len() as int;
                assert(18 * count > 18 * ((len - 40) / 18)) by (nonlinear_arith)
                    requires
                        count > (len - 40) / 18,
                ;
                assert(18 * ((len - 40) / 18) > len - 40 - 18);
                assert(!(40 + 18 * idx_record_count(s) <= len));
            }
            return Err(CascError::Io(String::from_str("key mapping table truncated")));
        }
        proof {
            let len = s.len() as int;
            assert(18 * count <= 18 * ((len - 40) / 18)) by (nonlinear_arith)
                requires
                    count <= (len - 40) / 18,
            ;
            assert(18 * ((len - 40) / 18) <= len - 40);
            assert(idx_ok(s));
        }
        let ghost n = idx_record_count(s);
        let mut idx: u32 = 0;
        while idx < count
            invariant
                0 <= idx <= count,
                count == idx_record_count(s),
                n == idx_record_count(s),
                idx_ok(s),
                table.file_offset_bits == idx_bits(s),
                table.file_offset_mask == offset_mask(idx_bits(s)),
                reader.bytes() == s,
                reader.cursor() == 40 + 18 * idx,
                entries_view_map(entries@) == idx_map_upto(
                    s,
                    entries_view_map(old(entries)@),
                    idx as int,
                ),
            decreases count - idx,
        {
            assert(40 + 18 * (idx + 1) <= s.len()) by {
                assert(idx + 1 <= n);
                assert(18 * (idx + 1) <= 18 * n) by (nonlinear_arith)
                    requires
                        idx + 1 <= n,
                ;
            };
            let entry_buffer = reader.read_bytes(18)?;
            assert(entry_buffer@ == idx_record(s, idx as int));
            let entry = CascKeyMappingTableEntry::new(&entry_buffer, &table);
            let key = pack_key9(entry.encoding_key.as_slice());
            assert(entry.encoding_key@.take(9) =~= idx_record(s, idx as int).take(9));
            assert(key == idx_record_key(s, idx as int));
            let ghost vm0 = entries_view_map(entries@);
            let ghost ev = entry@;
            entries.insert(key, entry);
            proof {
                reveal(entries_view_map);
                assert(entries_view_map(entries@) =~= vm0.insert(key, ev));
            }
            idx = idx + 1;
        }
        Ok(table)
    }
}

} // verus!
