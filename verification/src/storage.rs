use vstd::prelude::*;

use std::collections::HashMap;

use crate::block_table::{BLTE_SIGNATURE, BlockTableEntry, BlockTableHeader};
use crate::build_info::{bi_columns, bi_ok, CascBuildInfo};
use crate::bytes::{u24_be, u32_be, u32_le, ByteReader};
use crate::config::{cfg_entries, cfg_lookup, CascConfig};
use crate::dsv::raw_lines;
use crate::encoding::{hex_decode, hex_decoded, hex_ok, key9_val, pack_key9};
use crate::error::CascError;
use crate::file::{content_of, frames_content, frames_tile, spans_chain, CascFile, CascFileFrame, CascFileSpan, SeekFrom};
use crate::file_info::CascFileInfo;
use crate::idx::{entries_view_map, idx_map_of, idx_ok, CascKeyMappingTable, CascKeyMappingTableEntry};
use crate::root_handler::RootHandler;
use crate::span_header::CascSpanHeader;
use crate::text::utf8_decode_all;
use crate::tvfs::{entry_lookup, tvfs_file_entries, TVFSRootHandler, TVFS_SIGNATURE};

verus! {

broadcast use vstd::std_specs::hash::group_hash_axioms, vstd::std_specs::vec::group_vec_axioms, crate::bytes::ByteReader::lemma_cursor_nonneg;

/// The map key of a span's encoding key: its first nine bytes packed,
/// when it holds that many.
pub open spec fn span_key9(key: Seq<u8>) -> Option<u128> {
    if key.len() >= 9 {
        Some(key9_val(key.take(9)) as u128)
    } else {
        None
    }
}

/// Whether every span key of an entry has a record in the key map.
pub open spec fn all_resolvable(keys: Seq<Seq<u8>>, m: Map<u128, CascKeyMappingTableEntry>) -> bool {
    forall|j: int|
        0 <= j < keys.len() ==> ((#[trigger] span_key9(keys[j])) matches Some(k)
            && m.contains_key(k))
}

/// The sum of the record sizes of an entry's span keys.
pub open spec fn keys_total(keys: Seq<Seq<u8>>, m: Map<u128, CascKeyMappingTableEntry>) -> int
    decreases keys.len(),
{
    if keys.len() == 0 {
        0
    } else {
        let head = match span_key9(keys[0]) {
            Some(k) => if m.contains_key(k) {
                m[k].size as int
            } else {
                0
            },
            None => 0,
        };
        head + keys_total(keys.skip(1), m)
    }
}

/// An open CASC storage: its parsed tables, its archive contents, and
/// the files it reports.
#[derive(Debug)]
pub struct CascStorage {
    /// The shared key map, keyed by the packed nine-byte encoding key.
    pub entries: HashMap<u128, CascKeyMappingTableEntry>,
    /// The headers of the parsed key mapping tables, in input order.
    pub key_mapping_tables: Vec<CascKeyMappingTable>,
    /// The root handler the storage's configuration names.
    pub root_handler: RootHandler,
    /// The parsed build information.
    pub build_info: CascBuildInfo,
    /// The parsed build configuration.
    pub config: CascConfig,
    /// The archive contents, ordered by archive index.
    pub data_files: Vec<Vec<u8>>,
    /// The files of the storage, with their sizes and locality.
    pub files: Vec<CascFileInfo>,
}

/// The frame count of the block table standing at archive offset `off`:
/// past the 30-byte span header, the table holds a 12-byte header whose
/// last three bytes are the big-endian count.
pub open spec fn blte_count(d: Seq<u8>, off: int) -> int {
    u24_be(d.subrange(off + 39, off + 42))
}

/// The encoded size of frame `j` of the block table at `off`.
pub open spec fn blte_encoded(d: Seq<u8>, off: int, j: int) -> int {
    u32_be(d.subrange(off + 42 + 24 * j, off + 46 + 24 * j))
}

/// The content size of frame `j` of the block table at `off`.
pub open spec fn blte_content(d: Seq<u8>, off: int, j: int) -> int {
    u32_be(d.subrange(off + 46 + 24 * j, off + 50 + 24 * j))
}

/// The encoded sizes of the first `j` frames summed: frame `j`'s bytes
/// stand that far past the table.
pub open spec fn encoded_sum(d: Seq<u8>, off: int, j: int) -> int
    decreases j,
{
    if j <= 0 {
        0
    } else {
        encoded_sum(d, off, j - 1) + blte_encoded(d, off, j - 1)
    }
}

/// The content sizes of the first `j` frames summed.
pub open spec fn content_sum(d: Seq<u8>, off: int, j: int) -> int
    decreases j,
{
    if j <= 0 {
        0
    } else {
        content_sum(d, off, j - 1) + blte_content(d, off, j - 1)
    }
}

/// Whether a well-formed span region stands at `off`: the span header
/// and table header fit, the signature reads `BLTE`, and the frame
/// descriptors lie inside the archive.
pub open spec fn region_ok(d: Seq<u8>, off: int) -> bool {
    &&& 0 <= off
    &&& off + 42 <= d.len()
    &&& u32_le(d.subrange(off + 30, off + 34)) == BLTE_SIGNATURE
    &&& off + 42 + 24 * blte_count(d, off) <= d.len()
}

/// The frames the block table at `off` describes, with virtual offsets
/// counted from `vo` and archive offsets advancing by each frame's
/// encoded size from the end of the table.
pub open spec fn region_frames(d: Seq<u8>, off: int, vo: int) -> Seq<CascFileFrame> {
    Seq::new(
        blte_count(d, off) as nat,
        |j: int|
            CascFileFrame {
                archive_offset: (off + 42 + 24 * blte_count(d, off) + encoded_sum(d, off, j))
                    as u64,
                encoded_size: blte_encoded(d, off, j) as u32,
                content_size: blte_content(d, off, j) as u32,
                virtual_start_offset: (vo + content_sum(d, off, j)) as u64,
                virtual_end_offset: (vo + content_sum(d, off, j + 1)) as u64,
            },
    )
}

/// The decoded bytes of the whole region at `off`, when every frame
/// decodes.
#[verifier::opaque]
pub open spec fn region_content(d: Seq<u8>, off: int) -> Option<Seq<u8>> {
    frames_content(d, region_frames(d, off, 0))
}

/// Whether the span at the record can be built when the file's decoded
/// bytes so far end at `vo`: the region is well-formed and the virtual
/// and archive offsets stay addressable.
pub open spec fn span_buildable(d: Seq<u8>, off: int, vo: int) -> bool {
    &&& region_ok(d, off)
    &&& vo + content_sum(d, off, blte_count(d, off)) <= u64::MAX
    &&& off + 42 + 24 * blte_count(d, off) + encoded_sum(d, off, blte_count(d, off)) <= u64::MAX
}

/// The bytes of the archive a record points into, empty when its index
/// names none.
pub open spec fn archive_of(data: Seq<Vec<u8>>, rec: CascKeyMappingTableEntry) -> Seq<u8> {
    if rec.archive_index < data.len() {
        data[rec.archive_index as int]@
    } else {
        Seq::<u8>::empty()
    }
}

/// The records of an entry's spans that the key map resolves, in span
/// order; a span whose key is too short or unknown contributes none.
pub open spec fn resolved_records(
    keys: Seq<Seq<u8>>,
    m: Map<u128, CascKeyMappingTableEntry>,
) -> Seq<CascKeyMappingTableEntry>
    decreases keys.len(),
{
    if keys.len() == 0 {
        Seq::<CascKeyMappingTableEntry>::empty()
    } else {
        let rest = resolved_records(keys.skip(1), m);
        match span_key9(keys[0]) {
            Some(k) => if m.contains_key(k) {
                seq![m[k]].add(rest)
            } else {
                rest
            },
            None => rest,
        }
    }
}

/// Where the span of record `i` starts within the file: the content of
/// all earlier records' regions ends there.
pub open spec fn record_start(data: Seq<Vec<u8>>, recs: Seq<CascKeyMappingTableEntry>, i: int) -> int
    decreases i,
{
    if i <= 0 {
        0
    } else {
        let d = archive_of(data, recs[i - 1]);
        let off = recs[i - 1].offset as int;
        record_start(data, recs, i - 1) + content_sum(d, off, blte_count(d, off))
    }
}

/// Whether every record's region can be built at its place in the file.
pub open spec fn chain_buildable(data: Seq<Vec<u8>>, recs: Seq<CascKeyMappingTableEntry>) -> bool {
    forall|i: int|
        0 <= i < recs.len() ==> (#[trigger] recs[i]).archive_index < data.len() && span_buildable(
            archive_of(data, recs[i]),
            recs[i].offset as int,
            record_start(data, recs, i),
        )
}

/// Whether a stream's spans are exactly the records' regions, in order:
/// each span reads its record's archive and holds the frames the block
/// table at the record's offset describes.
pub open spec fn spans_match_records(
    spans: Seq<CascFileSpan>,
    data: Seq<Vec<u8>>,
    recs: Seq<CascKeyMappingTableEntry>,
) -> bool {
    &&& spans.len() == recs.len()
    &&& forall|i: int|
        0 <= i < recs.len() ==> {
            let d = archive_of(data, #[trigger] recs[i]);
            let off = recs[i].offset as int;
            &&& spans[i].span_reader.bytes() == d
            &&& spans[i].virtual_start_offset == record_start(data, recs, i)
            &&& spans[i].virtual_end_offset == record_start(data, recs, i + 1)
            &&& spans[i].frames@ == region_frames(d, off, record_start(data, recs, i))
        }
}

/// Whether the first record whose region cannot be built fails on the
/// block-table signature: its headers fit but do not read `BLTE`.
pub open spec fn first_failure_bad_signature(
    data: Seq<Vec<u8>>,
    recs: Seq<CascKeyMappingTableEntry>,
) -> bool {
    exists|i: int|
        0 <= i < recs.len() && (forall|k: int|
            0 <= k < i ==> (#[trigger] recs[k]).archive_index < data.len() && span_buildable(
                archive_of(data, recs[k]),
                recs[k].offset as int,
                record_start(data, recs, k),
            )) && #[trigger] recs[i].archive_index < data.len() && !span_buildable(
            archive_of(data, recs[i]),
            recs[i].offset as int,
            record_start(data, recs, i),
        ) && recs[i].offset + 42 <= archive_of(data, recs[i]).len() && u32_le(
            archive_of(data, recs[i]).subrange(recs[i].offset + 30, recs[i].offset + 34),
        ) != BLTE_SIGNATURE
}

/// A sum of frame sizes never lies below zero.
proof fn lemma_sums_nonneg(d: Seq<u8>, off: int, j: int)
    ensures
        0 <= encoded_sum(d, off, j),
        0 <= content_sum(d, off, j),
    decreases j,
{
    if j <= 0 {
    } else {
        lemma_sums_nonneg(d, off, j - 1);
    }
}

/// A prefix sum of frame sizes never exceeds a longer one.
proof fn lemma_sums_monotone(d: Seq<u8>, off: int, j: int, n: int)
    requires
        0 <= j <= n,
    ensures
        encoded_sum(d, off, j) <= encoded_sum(d, off, n),
        content_sum(d, off, j) <= content_sum(d, off, n),
        0 <= encoded_sum(d, off, j),
        0 <= content_sum(d, off, j),
    decreases n,
{
    lemma_sums_nonneg(d, off, j);
    if j == n {
    } else {
        lemma_sums_monotone(d, off, j, n - 1);
    }
}

/// Builds one span over an archive: past the span header, a block table
/// whose signature must read `BLTE`, and the frames it describes, laid
/// out contiguously after the table.
#[verifier::rlimit(100)]
#[verifier::spinoff_prover]
fn build_span(data: &Vec<Vec<u8>>, e: &CascKeyMappingTableEntry, virtual_offset: u64) -> (r:
    Result<(CascFileSpan, u64), CascError>)
    ensures
        ({
            let d = if e.archive_index < data@.len() {
                data@[e.archive_index as int]@
            } else {
                Seq::<u8>::empty()
            };
            let off = e.offset as int;
            let n = blte_count(d, off);
            &&& (r is Ok <==> e.archive_index < data@.len() && span_buildable(
                d,
                off,
                virtual_offset as int,
            ))
            &&& r matches Ok((span, vo2)) ==> {
                &&& span.span_reader.bytes() == d
                &&& span.virtual_start_offset == virtual_offset
                &&& span.virtual_end_offset == vo2
                &&& vo2 == virtual_offset + content_sum(d, off, n)
                &&& span.archive_offset == off + 42 + 24 * n
                &&& span.frames@ == region_frames(d, off, virtual_offset as int)
                &&& frames_tile(span.frames@, virtual_offset as int, vo2 as int)
            }
            &&& (e.archive_index < data@.len() && off + 42 <= d.len() && u32_le(
                d.subrange(off + 30, off + 34),
            ) != BLTE_SIGNATURE ==> r is Err && r->Err_0 is InvalidData)
        }),
{
    let idx = e.archive_index as usize;
    if idx >= data.len() {
        return Err(CascError::Other(String::from_str("Missing data file")));
    }
    let dlen = data[idx].len();
    let ghost d = data@[idx as int]@;
    let ghost off_s = e.offset as int;
    let off = match usize::try_from(e.offset) {
        Ok(v) => v,
        Err(_) => {
            return Err(CascError::Io(String::from_str("archive offset out of range")));
        },
    };
    let mut reader = ByteReader::new(data[idx].clone());
    proof {
        assert(reader.bytes() =~= d);
    }
    reader.seek_to(off);
    let _span_header = CascSpanHeader::read(&mut reader)?;
    let header = BlockTableHeader::read(&mut reader)?;
    if header.signature != BLTE_SIGNATURE {
        return Err(
            CascError::InvalidData(String::from_str("Invalid Block Table Header signature")),
        );
    }
    let frame_count = header.frame_count;
    proof {
        assert(d.subrange(off_s + 30, off_s + 42).subrange(9, 12) =~= d.subrange(
            off_s + 39,
            off_s + 42,
        ));
        assert(d.subrange(off_s + 30, off_s + 42).subrange(0, 4) =~= d.subrange(
            off_s + 30,
            off_s + 34,
        ));
    }
    assert(frame_count == blte_count(d, off_s));
    let ghost n = blte_count(d, off_s);
    let mut block_table_frames: Vec<BlockTableEntry> = Vec::new();
    let mut i: u32 = 0;
    while i < frame_count
        invariant
            e.archive_index < data@.len(),
            d == data@[e.archive_index as int]@,
            reader.bytes() == d,
            off_s == e.offset as int,
            0 <= off_s,
            off_s + 42 + 24 * i <= d.len(),
            u32_le(d.subrange(off_s + 30, off_s + 34)) == BLTE_SIGNATURE,
            n == blte_count(d, off_s),
            frame_count == n,
            reader.cursor() == off_s + 42 + 24 * i,
            i <= frame_count,
            block_table_frames@.len() == i,
            forall|k: int|
                0 <= k < i ==> {
                    let bf = #[trigger] block_table_frames@[k];
                    bf.encoded_size == blte_encoded(d, off_s, k) && bf.content_size
                        == blte_content(d, off_s, k)
                },
        decreases frame_count - i,
    {
        let ghost p = reader.cursor();
        let entry = match BlockTableEntry::read(&mut reader) {
            Ok(v) => v,
            Err(_) => {
                proof {
                    assert(off_s + 42 + 24 * n > d.len());
                }
                return Err(CascError::Io(String::from_str("unexpected end of data")));
            },
        };
        proof {
            assert(d.subrange(p, p + 4) =~= d.subrange(off_s + 42 + 24 * i, off_s + 46 + 24 * i));
            assert(d.subrange(p + 4, p + 8) =~= d.subrange(
                off_s + 46 + 24 * i,
                off_s + 50 + 24 * i,
            ));
        }
        block_table_frames.push(entry);
        i = i + 1;
    }
    assert(off_s + 42 + 24 * n <= d.len());
    assert(region_ok(d, off_s));
    let mut archive_offset = reader.position() as u64;
    let span_archive_offset = archive_offset;
    let span_virtual_start_offset = virtual_offset;
    let ghost base = off_s + 42 + 24 * n;
    let mut vo = virtual_offset;
    let mut frames: Vec<CascFileFrame> = Vec::new();
    let mut j: usize = 0;
    while j < block_table_frames.len()
        invariant
            e.archive_index < data@.len(),
            d == data@[e.archive_index as int]@,
            reader.bytes() == d,
            off_s == e.offset as int,
            0 <= off_s,
            region_ok(d, off_s),
            n == blte_count(d, off_s),
            base == off_s + 42 + 24 * n,
            span_virtual_start_offset == virtual_offset,
            block_table_frames@.len() == n,
            forall|k: int|
                0 <= k < n ==> {
                    let bf = #[trigger] block_table_frames@[k];
                    bf.encoded_size == blte_encoded(d, off_s, k) && bf.content_size
                        == blte_content(d, off_s, k)
                },
            j <= block_table_frames@.len(),
            span_virtual_start_offset <= vo,
            vo == virtual_offset + content_sum(d, off_s, j as int),
            archive_offset == base + encoded_sum(d, off_s, j as int),
            frames@.len() == j,
            frames_tile(frames@, span_virtual_start_offset as int, vo as int),
            forall|k: int|
                0 <= k < j ==> #[trigger] frames@[k] == region_frames(
                    d,
                    off_s,
                    virtual_offset as int,
                )[k],
        decreases block_table_frames@.len() - j,
    {
        let bf = block_table_frames[j];
        if vo > u64::MAX - bf.content_size as u64 || archive_offset > u64::MAX - bf.encoded_size
            as u64 {
            proof {
                lemma_sums_monotone(d, off_s, j + 1, n);
            }
            return Err(CascError::InvalidData(String::from_str("frame sizes out of range")));
        }
        let frame = CascFileFrame {
            archive_offset,
            encoded_size: bf.encoded_size,
            content_size: bf.content_size,
            virtual_start_offset: vo,
            virtual_end_offset: vo + bf.content_size as u64,
        };
        let ghost frames_before = frames@;
        frames.push(frame);
        proof {
            assert(frames@ =~= frames_before.push(frame));
            assert(frames@.last() == frame);
            assert(forall|k: int|
                0 <= k < frames_before.len() ==> #[trigger] frames@[k] == frames_before[k]);
            assert(frame == region_frames(d, off_s, virtual_offset as int)[j as int]);
        }
        archive_offset = archive_offset + bf.encoded_size as u64;
        vo = vo + bf.content_size as u64;
        j = j + 1;
    }
    proof {
        lemma_sums_monotone(d, off_s, 0, n);
        assert(span_buildable(d, off_s, virtual_offset as int));
        assert(frames@ =~= region_frames(d, off_s, virtual_offset as int));
    }
    let span = CascFileSpan::new(reader, span_virtual_start_offset, vo, span_archive_offset, frames);
    Ok((span, vo))
}

/// The largest index among the first `k` listed pairs, or zero.
pub open spec fn max_index_upto(ps: Seq<(usize, Vec<u8>)>, k: int) -> int
    decreases k,
{
    if k <= 0 {
        0
    } else {
        let m = max_index_upto(ps, k - 1);
        if ps[k - 1].0 > m {
            ps[k - 1].0 as int
        } else {
            m
        }
    }
}

/// Every listed index lies at or below the running maximum.
pub proof fn lemma_max_index_bounds(ps: Seq<(usize, Vec<u8>)>, k: int)
    requires
        k <= ps.len(),
    ensures
        forall|p: int| 0 <= p < k ==> (#[trigger] ps[p]).0 <= max_index_upto(ps, k),
    decreases k,
{
    if k <= 0 {
    } else {
        lemma_max_index_bounds(ps, k - 1);
    }
}

/// The contents of the last listed pair carrying index `k`, when one does.
pub open spec fn last_of_index(ps: Seq<(usize, Vec<u8>)>, k: int) -> Option<Vec<u8>>
    decreases ps.len(),
{
    if ps.len() == 0 {
        None
    } else {
        match last_of_index(ps.skip(1), k) {
            Some(v) => Some(v),
            None => if ps[0].0 == k {
                Some(ps[0].1)
            } else {
                None
            },
        }
    }
}

/// Record `q` of a chain is buildable and span `q` is its region.
pub open spec fn built_at(
    spans: Seq<CascFileSpan>,
    data: Seq<Vec<u8>>,
    recs: Seq<CascKeyMappingTableEntry>,
    q: int,
) -> bool {
    let d = archive_of(data, recs[q]);
    let off = recs[q].offset as int;
    &&& recs[q].archive_index < data.len()
    &&& span_buildable(d, off, record_start(data, recs, q))
    &&& spans[q].span_reader.bytes() == d
    &&& spans[q].virtual_start_offset == record_start(data, recs, q)
    &&& spans[q].virtual_end_offset == record_start(data, recs, q + 1)
    &&& spans[q].frames@ == region_frames(d, off, record_start(data, recs, q))
}

/// A record's start never lies below zero when all earlier records are
/// buildable at their starts.
pub proof fn lemma_record_start_nonneg(
    data: Seq<Vec<u8>>,
    recs: Seq<CascKeyMappingTableEntry>,
    q: int,
)
    requires
        forall|k: int|
            0 <= k < recs.len() ==> span_buildable(
                archive_of(data, #[trigger] recs[k]),
                recs[k].offset as int,
                record_start(data, recs, k),
            ),
        0 <= q <= recs.len(),
    ensures
        0 <= record_start(data, recs, q),
    decreases q,
{
    if q <= 0 {
    } else {
        lemma_record_start_nonneg(data, recs, q - 1);
        let d = archive_of(data, recs[q - 1]);
        let off = recs[q - 1].offset as int;
        lemma_sums_nonneg(d, off, blte_count(d, off));
    }
}

/// The frames of a buildable region tile its content range.
pub proof fn lemma_region_frames_tile(d: Seq<u8>, off: int, vo: int)
    requires
        span_buildable(d, off, vo),
        0 <= vo,
    ensures
        frames_tile(
            region_frames(d, off, vo),
            vo,
            vo + content_sum(d, off, blte_count(d, off)),
        ),
{
    let n = blte_count(d, off);
    let fs = region_frames(d, off, vo);
    assert forall|i: int| 0 <= i < fs.len() implies {
        &&& (#[trigger] fs[i]).virtual_start_offset == (if i == 0 {
            vo
        } else {
            fs[i - 1].virtual_end_offset as int
        })
        &&& fs[i].virtual_end_offset == fs[i].virtual_start_offset + fs[i].content_size
    } by {
        lemma_sums_monotone(d, off, i, n);
        lemma_sums_monotone(d, off, i + 1, n);
        if i > 0 {
            lemma_sums_monotone(d, off, i - 1, n);
        }
    }
    if fs.len() > 0 {
        lemma_sums_monotone(d, off, n - 1, n);
        assert(fs.last().virtual_end_offset == vo + content_sum(d, off, n));
    }
}


/// The key the `vfs-root` configuration value names: the packed first
/// nine bytes of the hex-decoded second word of the value.
#[verifier::opaque]
pub open spec fn vfs_root_key(vars: Seq<crate::config::ConfigVarV>) -> Option<u128> {
    match cfg_lookup(vars, "vfs-root"@) {
        None => None,
        Some(v) => if v.values.len() < 2 {
            None
        } else {
            let hb = vstd::utf8::encode_utf8(v.values[1]);
            if !hex_ok(hb) {
                None
            } else {
                let bytes = hex_decoded(hb);
                if bytes.len() < 9 {
                    None
                } else {
                    Some(key9_val(bytes.take(9)) as u128)
                }
            }
        },
    }
}

/// The entries the name map keeps: those whose full name no later
/// traversal entry carries, since a later entry under the same name
/// overwrites an earlier one.
pub open spec fn surviving(es: Seq<crate::tvfs::EntryV>) -> Seq<crate::tvfs::EntryV>
    decreases es.len(),
{
    if es.len() == 0 {
        Seq::<crate::tvfs::EntryV>::empty()
    } else {
        let rest = surviving(es.skip(1));
        if exists|j: int| 1 <= j < es.len() && (#[trigger] es[j]).name == es[0].name {
            rest
        } else {
            seq![es[0]].add(rest)
        }
    }
}

/// What the storage reports for one entry: its name, whether all its
/// spans resolve, and the sum of its resolved record sizes or zero.
pub open spec fn info_matches(
    info: CascFileInfo,
    ev: crate::tvfs::EntryV,
    m: Map<u128, CascKeyMappingTableEntry>,
) -> bool {
    &&& info.name_view() == ev.name
    &&& info.local_view() == all_resolvable(ev.keys, m)
    &&& info.size_view() == (if all_resolvable(ev.keys, m) {
        if keys_total(ev.keys, m) <= i64::MAX {
            keys_total(ev.keys, m)
        } else {
            i64::MAX as int
        }
    } else {
        0
    })
}

/// A one-span stream's content is its region's content.
proof fn lemma_single_span_content(spans: Seq<CascFileSpan>, d: Seq<u8>, off: int)
    requires
        spans.len() == 1,
        spans[0].span_reader.bytes() == d,
        spans[0].frames@ == region_frames(d, off, 0),
    ensures
        content_of(spans) == region_content(d, off),
{
    reveal(region_content);
    assert(spans.skip(1) =~= Seq::<CascFileSpan>::empty());
    assert(content_of(spans.skip(1)) == Some(Seq::<u8>::empty()));
    match frames_content(d, region_frames(d, off, 0)) {
        Some(c) => {
            assert(c + Seq::<u8>::empty() =~= c);
            assert(content_of(spans) == Some(c));
            assert(region_content(d, off) == Some(c));
        },
        None => {
            assert(content_of(spans) is None);
            assert(region_content(d, off) is None);
        },
    }
}

/// The record views of every key mapping table folded into one map, in
/// listing order.
pub open spec fn idx_merge_all(files: Seq<Vec<u8>>, i: int) -> Map<u128, crate::idx::IdxRecord>
    decreases i,
{
    if i <= 0 {
        Map::<u128, crate::idx::IdxRecord>::empty()
    } else {
        idx_map_of(files[i - 1]@, idx_merge_all(files, i - 1))
    }
}

/// Whether the four inputs of a storage open are altogether well-formed:
/// the texts parse, every key mapping table is accepted, and the root
/// chain stands through the merged map.
pub open spec fn open_inputs_good(
    bi: Seq<u8>,
    cfg: Seq<u8>,
    idxs: Seq<Vec<u8>>,
    data: Seq<Vec<u8>>,
) -> bool {
    &&& bi_ok(bi)
    &&& utf8_decode_all(cfg) is Some
    &&& (forall|i: int| 0 <= i < idxs.len() ==> idx_ok((#[trigger] idxs[i])@))
    &&& root_inputs_good(
        cfg_entries(raw_lines(utf8_decode_all(cfg)->0)),
        idx_merge_all(idxs, idxs.len() as int),
        data,
    )
}

/// Whether the `vfs-root` value resolves through the merged map to a
/// buildable region whose decoded bytes carry the TVFS magic and parse,
/// with every listed file's size in range.
#[verifier::opaque]
pub open spec fn root_inputs_good(
    vars: Seq<crate::config::ConfigVarV>,
    merged: Map<u128, crate::idx::IdxRecord>,
    data: Seq<Vec<u8>>,
) -> bool {
    &&& vfs_root_key(vars) is Some
    &&& merged.contains_key(vfs_root_key(vars)->0)
    &&& ({
        let rec = merged[vfs_root_key(vars)->0];
        let d = if rec.archive_index < data.len() {
            data[rec.archive_index as int]@
        } else {
            Seq::<u8>::empty()
        };
        let off = rec.offset as int;
        &&& rec.archive_index < data.len()
        &&& span_buildable(d, off, 0)
        &&& region_content(d, off) is Some
        &&& ({
            let rb = region_content(d, off)->0;
            &&& rb.len() >= 4
            &&& u32_be(rb.subrange(0, 4)) == TVFS_SIGNATURE
            &&& rb.len() <= usize::MAX
            &&& tvfs_file_entries(rb) is Some
        })
    })
}

/// What an opened storage holds, in terms of the four inputs: the
/// parsed texts, the merged key map, the archives as given, the root
/// handler as the TVFS parse of the bytes the `vfs-root` record names,
/// and one file report per surviving name.
#[verifier::opaque]
pub open spec fn open_ok_state(
    s: CascStorage,
    bi: Seq<u8>,
    cfg: Seq<u8>,
    idxs: Seq<Vec<u8>>,
    data: Vec<Vec<u8>>,
) -> bool {
    let merged = idx_merge_all(idxs, idxs.len() as int);
    &&& bi_ok(bi)
    &&& s.build_info.vars_view() == bi_columns(bi)
    &&& utf8_decode_all(cfg) is Some
    &&& s.config.vars_view() == cfg_entries(raw_lines(utf8_decode_all(cfg)->0))
    &&& (forall|i: int| 0 <= i < idxs.len() ==> idx_ok((#[trigger] idxs[i])@))
    &&& entries_view_map(s.entries@) == merged
    &&& s.data_files == data
    &&& vfs_root_key(s.config.vars_view()) is Some
    &&& s.entries@.contains_key(vfs_root_key(s.config.vars_view())->0)
    &&& ({
        let rec = s.entries@[vfs_root_key(s.config.vars_view())->0];
        let d = archive_of(s.data_files@, rec);
        let off = rec.offset as int;
        &&& rec.archive_index < s.data_files@.len()
        &&& span_buildable(d, off, 0)
        &&& (region_content(d, off) matches Some(rb) ==> ({
            &&& rb.len() >= 4
            &&& u32_be(rb.subrange(0, 4)) == TVFS_SIGNATURE
            &&& tvfs_file_entries(rb) is Some
            &&& s.root_handler.entries_view() == tvfs_file_entries(rb)->0
        }))
    })
    &&& ({
        let survivors = surviving(s.root_handler.entries_view());
        s.files@.len() == survivors.len() && forall|i: int|
            0 <= i < s.files@.len() ==> info_matches(#[trigger] s.files@[i], survivors[i], s.entries@)
    })
}

/// On altogether good inputs, the parsed configuration and the merged
/// key map carry the whole root chain: the `vfs-root` key resolves, its
/// record is in the map, and the record's region decodes to a root file
/// that parses, with every listed file's size in range.
#[verifier::rlimit(100)]
#[verifier::spinoff_prover]
proof fn lemma_open_good_root(
    bi: Seq<u8>,
    cfg: Seq<u8>,
    idxs: Seq<Vec<u8>>,
    data: Seq<Vec<u8>>,
    vars: Seq<crate::config::ConfigVarV>,
    m: Map<u128, CascKeyMappingTableEntry>,
)
    requires
        open_inputs_good(bi, cfg, idxs, data),
        vars == cfg_entries(raw_lines(utf8_decode_all(cfg)->0)),
        entries_view_map(m) == idx_merge_all(idxs, idxs.len() as int),
    ensures
        vfs_root_key(vars) is Some,
        m.contains_key(vfs_root_key(vars)->0),
        ({
            let rec = m[vfs_root_key(vars)->0];
            let d = archive_of(data, rec);
            let off = rec.offset as int;
            &&& rec.archive_index < data.len()
            &&& span_buildable(d, off, 0)
            &&& region_content(d, off) is Some
            &&& ({
                let rb = region_content(d, off)->0;
                &&& rb.len() >= 4
                &&& u32_be(rb.subrange(0, 4)) == TVFS_SIGNATURE
                &&& rb.len() <= usize::MAX
                &&& tvfs_file_entries(rb) is Some
            })
        }),
        ({
            let rec = m[vfs_root_key(vars)->0];
            let mrec = idx_merge_all(idxs, idxs.len() as int)[vfs_root_key(vars)->0];
            rec.archive_index == mrec.archive_index && rec.offset == mrec.offset
        }),
{
    reveal(root_inputs_good);
    reveal(vfs_root_key);
    reveal(entries_view_map);
    let merged = idx_merge_all(idxs, idxs.len() as int);
    let k = vfs_root_key(vars)->0;
    assert(entries_view_map(m).contains_key(k) == m.contains_key(k));
    assert(m.contains_key(k));
    assert(entries_view_map(m)[k] == m[k]@);
    let rec = m[k];
    assert(merged[k].archive_index == rec.archive_index);
    assert(merged[k].offset == rec.offset);
    assert(archive_of(data, rec) == (if merged[k].archive_index < data.len() {
        data[merged[k].archive_index as int]@
    } else {
        Seq::<u8>::empty()
    }));
}

/// Everything the root-handler resolution promises of its result, over
/// the parsed configuration, the key map and the archives.
#[verifier::opaque]
pub open spec fn root_handler_contract(
    vars: Seq<crate::config::ConfigVarV>,
    m: Map<u128, CascKeyMappingTableEntry>,
    data: Seq<Vec<u8>>,
    r: Result<RootHandler, CascError>,
) -> bool {
    &&& (({
        &&& vfs_root_key(vars) is Some
        &&& m.contains_key(vfs_root_key(vars)->0)
        &&& ({
            let rec = m[vfs_root_key(vars)->0];
            let d = archive_of(data, rec);
            let off = rec.offset as int;
            &&& rec.archive_index < data.len()
            &&& span_buildable(d, off, 0)
            &&& region_content(d, off) is Some
            &&& ({
                let rb = region_content(d, off)->0;
                &&& rb.len() >= 4
                &&& u32_be(rb.subrange(0, 4)) == TVFS_SIGNATURE
                &&& rb.len() <= usize::MAX
                &&& tvfs_file_entries(rb) is Some
            })
        })
    }) ==> r is Ok)
    &&& (r matches Ok(h) ==> ({
        &&& vfs_root_key(vars) is Some
        &&& m.contains_key(vfs_root_key(vars)->0)
        &&& ({
            let rec = m[vfs_root_key(vars)->0];
            let d = archive_of(data, rec);
            let off = rec.offset as int;
            &&& rec.archive_index < data.len()
            &&& span_buildable(d, off, 0)
            &&& (region_content(d, off) matches Some(rb) ==> ({
                &&& rb.len() >= 4
                &&& u32_be(rb.subrange(0, 4)) == TVFS_SIGNATURE
                &&& tvfs_file_entries(rb) is Some
                &&& h.entries_view() == tvfs_file_entries(rb)->0
            }))
        })
    }))
    &&& (cfg_lookup(vars, "vfs-root"@) is None ==> r is Err && r->Err_0 is Other)
    &&& (cfg_lookup(vars, "vfs-root"@) is Some && vfs_root_key(vars) is None ==> r is Err
        && r->Err_0 is InvalidData)
    &&& ((vfs_root_key(vars) matches Some(k) && !m.contains_key(k)) ==> r is Err
        && r->Err_0 is FileNotFound)
    &&& ((vfs_root_key(vars) matches Some(k) && m.contains_key(k)) ==> ({
        let k = vfs_root_key(vars)->0;
        let rec = m[k];
        let d = archive_of(data, rec);
        let off = rec.offset as int;
        &&& (!(rec.archive_index < data.len() && span_buildable(d, off, 0)) ==> r is Err)
        &&& ((rec.archive_index < data.len() && span_buildable(d, off, 0) && region_content(
            d,
            off,
        ) matches Some(rb)) ==> ({
            let rb = region_content(d, off)->0;
            &&& (rb.len() < 4 ==> r is Err && r->Err_0 is InvalidData)
            &&& (rb.len() >= 4 && u32_be(rb.subrange(0, 4)) != TVFS_SIGNATURE ==> r is Err
                && r->Err_0 is InvalidData)
            &&& (rb.len() >= 4 && u32_be(rb.subrange(0, 4)) == TVFS_SIGNATURE && rb.len()
                <= usize::MAX ==> ({
                &&& (tvfs_file_entries(rb) is Some ==> (r matches Ok(h) && h.entries_view()
                    == tvfs_file_entries(rb)->0))
                &&& (tvfs_file_entries(rb) is None ==> r is Err)
            }))
        }))
    }))
}

impl CascStorage {
    /// Places the archive contents by their numeric index: slot `i` holds
    /// the contents of the last listing with index `i`; any gap below the
    /// highest index is a missing data file, as is an empty listing.
    pub fn arrange_data_files(indexed: Vec<(usize, Vec<u8>)>) -> (r: Result<
        Vec<Vec<u8>>,
        CascError,
    >)
        ensures
            ({
                let m = max_index_upto(indexed@, indexed@.len() as int);
                &&& r is Ok <==> indexed@.len() >= 1 && m < usize::MAX && (forall|k: int|
                    0 <= k <= m ==> last_of_index(indexed@, k) is Some)
                &&& r matches Ok(v) ==> v@.len() == m + 1 && (forall|k: int|
                    0 <= k <= m ==> #[trigger] v@[k] == last_of_index(indexed@, k)->0)
                &&& r is Err ==> (if indexed@.len() >= 1 && m >= usize::MAX {
                    r->Err_0 is Other
                } else {
                    r->Err_0 is FileNotFound
                })
            }),
    {
        let ghost indexed0 = indexed@;
        let mut remaining = indexed;
        let mut max_index: usize = 0;
        let mut k: usize = 0;
        while k < remaining.len()
            invariant
                remaining@ == indexed0,
                indexed0 == indexed@,
                k <= remaining@.len(),
                max_index == max_index_upto(indexed0, k as int),
            decreases remaining@.len() - k,
        {
            if remaining[k].0 > max_index {
                max_index = remaining[k].0;
            }
            k = k + 1;
        }
        let ghost m = max_index_upto(indexed0, indexed0.len() as int);
        if remaining.len() == 0 {
            return Err(CascError::FileNotFound(String::from_str("Missing data file")));
        }
        if max_index >= usize::MAX {
            return Err(CascError::Other(String::from_str("archive index out of range")));
        }
        let count = max_index + 1;
        let mut slots: Vec<Vec<u8>> = Vec::new();
        let mut seen: Vec<bool> = Vec::new();
        let mut s: usize = 0;
        while s < count
            invariant
                s <= count,
                slots@.len() == s,
                seen@.len() == s,
                forall|q: int| 0 <= q < s ==> !(#[trigger] seen@[q]),
            decreases count - s,
        {
            slots.push(Vec::new());
            seen.push(false);
            s = s + 1;
        }
        proof {
            lemma_max_index_bounds(indexed0, indexed0.len() as int);
            assert(indexed0.skip(indexed0.len() as int) =~= Seq::<(usize, Vec<u8>)>::empty());
        }
        loop
            invariant
                m == max_index_upto(indexed0, indexed0.len() as int),
                count == m + 1,
                slots@.len() == count,
                seen@.len() == count,
                indexed0 == indexed@,
                remaining@.len() <= indexed0.len(),
                forall|p: int| 0 <= p < remaining@.len() ==> remaining@[p] == indexed0[p],
                forall|p: int| 0 <= p < indexed0.len() ==> (#[trigger] indexed0[p]).0 <= m,
                forall|q: int|
                    0 <= q < count ==> (#[trigger] seen@[q] == last_of_index(
                        indexed0.skip(remaining@.len() as int),
                        q,
                    ) is Some),
                forall|q: int|
                    0 <= q < count && seen@[q] ==> #[trigger] slots@[q] == last_of_index(
                        indexed0.skip(remaining@.len() as int),
                        q,
                    )->0,
            ensures
                indexed0 == indexed@,
                slots@.len() == count,
                seen@.len() == count,
                count == m + 1,
                forall|q: int|
                    0 <= q < count ==> (#[trigger] seen@[q] == last_of_index(indexed0, q) is Some),
                forall|q: int|
                    0 <= q < count && seen@[q] ==> #[trigger] slots@[q] == last_of_index(
                        indexed0,
                        q,
                    )->0,
            decreases remaining@.len(),
        {
            let ghost before = remaining@;
            match remaining.pop() {
                Some(pair) => {
                    proof {
                        assert(pair == indexed0[before.len() - 1]);
                        assert(indexed0.skip(before.len() - 1)[0] == pair);
                        assert(indexed0.skip(before.len() - 1).skip(1) =~= indexed0.skip(
                            before.len() as int,
                        ));
                    }
                    let (index, contents) = pair;
                    if !seen[index] {
                        slots.set(index, contents);
                        seen.set(index, true);
                    }
                },
                None => {
                    proof {
                        assert(indexed0.skip(0) =~= indexed0);
                    }
                    break ;
                },
            }
        }
        let mut t: usize = 0;
        while t < count
            invariant
                indexed0 == indexed@,
                m == max_index_upto(indexed0, indexed0.len() as int),
                count == m + 1,
                t <= count,
                slots@.len() == count,
                seen@.len() == count,
                forall|q: int|
                    0 <= q < count ==> (#[trigger] seen@[q] == last_of_index(indexed0, q) is Some),
                forall|q: int|
                    0 <= q < count && seen@[q] ==> #[trigger] slots@[q] == last_of_index(
                        indexed0,
                        q,
                    )->0,
                forall|q: int| 0 <= q < t ==> last_of_index(indexed0, q) is Some,
            decreases count - t,
        {
            if !seen[t] {
                return Err(CascError::FileNotFound(String::from_str("Missing data file")));
            }
            t = t + 1;
        }
        Ok(slots)
    }

    /// Parses the three metadata inputs of an open: the build info, the
    /// build configuration, and every key mapping table merged in order.
    fn open_tables(
        build_info_text: Vec<u8>,
        config_text: Vec<u8>,
        idx_files: Vec<Vec<u8>>,
    ) -> (r: Result<
        (CascBuildInfo, CascConfig, HashMap<u128, CascKeyMappingTableEntry>, Vec<
            CascKeyMappingTable,
        >),
        CascError,
    >)
        ensures
            r matches Ok((b, c, m, t)) ==> ({
                &&& bi_ok(build_info_text@)
                &&& b.vars_view() == bi_columns(build_info_text@)
                &&& utf8_decode_all(config_text@) is Some
                &&& c.vars_view() == cfg_entries(raw_lines(utf8_decode_all(config_text@)->0))
                &&& (forall|i: int| 0 <= i < idx_files@.len() ==> idx_ok(#[trigger] idx_files@[i]@))
                &&& entries_view_map(m@) == idx_merge_all(idx_files@, idx_files@.len() as int)
            }),
            bi_ok(build_info_text@) && utf8_decode_all(config_text@) is Some && (forall|i: int|
                0 <= i < idx_files@.len() ==> idx_ok(#[trigger] idx_files@[i]@)) ==> r is Ok,
    {
        let build_info = CascBuildInfo::from_text(build_info_text)?;
        let mut config = CascConfig::new();
        config.load(config_text)?;
        let mut entries: HashMap<u128, CascKeyMappingTableEntry> = HashMap::new();
        let mut key_mapping_tables: Vec<CascKeyMappingTable> = Vec::new();
        let mut i: usize = 0;
        let ghost idx0 = idx_files@;
        let remaining = idx_files;
        proof {
            reveal(entries_view_map);
            assert(entries_view_map(entries@) =~= Map::<u128, crate::idx::IdxRecord>::empty());
        }
        while i < remaining.len()
            invariant
                i <= remaining@.len(),
                remaining@ == idx0,
                idx0 == idx_files@,
                forall|k: int| 0 <= k < i ==> idx_ok(#[trigger] idx0[k]@),
                entries_view_map(entries@) == idx_merge_all(idx0, i as int),
            decreases remaining@.len() - i,
        {
            let file = remaining[i].clone();
            proof {
                assert(file@ =~= idx0[i as int]@);
            }
            let table = CascKeyMappingTable::new(file, &mut entries)?;
            key_mapping_tables.push(table);
            i = i + 1;
        }
        Ok((build_info, config, entries, key_mapping_tables))
    }

    /// Opens a storage from its metadata texts, its key mapping tables
    /// and its archive contents: parses everything, resolves the
    /// `vfs-root` reference through the key map, demands the TVFS magic,
    /// and lists every surviving file with its size and locality. On
    /// altogether well-formed inputs the open succeeds.
    #[verifier::rlimit(100)]
    #[verifier::spinoff_prover]
    pub fn open(
        build_info_text: Vec<u8>,
        config_text: Vec<u8>,
        idx_files: Vec<Vec<u8>>,
        data_files: Vec<Vec<u8>>,
    ) -> (r: Result<CascStorage, CascError>)
        ensures
            r matches Ok(s) ==> open_ok_state(
                s,
                build_info_text@,
                config_text@,
                idx_files@,
                data_files,
            ),
            open_inputs_good(build_info_text@, config_text@, idx_files@, data_files@) ==> r
                is Ok,
    {
        let ghost good = open_inputs_good(
            build_info_text@,
            config_text@,
            idx_files@,
            data_files@,
        );
        let ghost idx0 = idx_files@;
        let (build_info, config, entries, key_mapping_tables) = match Self::open_tables(
            build_info_text,
            config_text,
            idx_files,
        ) {
            Ok(tuple) => tuple,
            Err(e) => {
                return Err(e);
            },
        };
        let ghost merged = idx_merge_all(idx0, idx0.len() as int);
        let ghost vars = config.vars_view();

        let root_handler = match Self::load_root_handler(&config, &data_files, &entries) {
            Ok(h) => h,
            Err(e) => {
                proof {
                    if good {
                        reveal(root_handler_contract);
                        lemma_open_good_root(
                            build_info_text@,
                            config_text@,
                            idx0,
                            data_files@,
                            vars,
                            entries@,
                        );
                    }
                }
                return Err(e);
            },
        };
        let files = match Self::load_files(&root_handler, &entries) {
            Ok(f) => f,
            Err(e) => {
                return Err(e);
            },
        };

        let storage = CascStorage {
            entries,
            key_mapping_tables,
            root_handler,
            build_info,
            config,
            data_files,
            files,
        };
        proof {
            reveal(open_ok_state);
            reveal(root_handler_contract);
            assert(open_ok_state(
                storage,
                build_info_text@,
                config_text@,
                idx0,
                storage.data_files,
            ));
        }
        Ok(storage)
    }

    /// Resolves the `vfs-root` configuration value: its second word is
    /// hexadecimal whose first nine decoded bytes name the IDX record of
    /// the root file; the record's region must decode to bytes carrying
    /// the TVFS magic, and the handler is the TVFS parse of those bytes.
    #[verifier::rlimit(100)]
    #[verifier::spinoff_prover]
    fn load_root_handler(
        config: &CascConfig,
        data_files: &Vec<Vec<u8>>,
        entries: &HashMap<u128, CascKeyMappingTableEntry>,
    ) -> (r: Result<RootHandler, CascError>)
        ensures
            root_handler_contract(config.vars_view(), entries@, data_files@, r),
    {
        proof {
            reveal(root_handler_contract);
            reveal(vfs_root_key);
        }
        let ghost vars = config.vars_view();
        let key = match config.get("vfs-root") {
            Some(v) => v,
            None => {
                return Err(CascError::Other(String::from_str("vfs-root not in config")));
            },
        };
        if key.values.len() < 2 {
            return Err(CascError::InvalidData(String::from_str("vfs-root has no hash value")));
        }
        proof {
            assert(key.values@[1]@ =~= cfg_lookup(vars, "vfs-root"@)->0.values[1]);
        }
        let hex_bytes = match hex_decode(key.values[1].as_str().as_bytes()) {
            Ok(v) => v,
            Err(_) => {
                return Err(CascError::InvalidData(String::from_str("Invalid hex in vfs-root")));
            },
        };
        if hex_bytes.len() < 9 {
            return Err(CascError::InvalidData(String::from_str("vfs-root hash too short")));
        }
        let idx_key = pack_key9(hex_bytes.as_slice());
        assert(vfs_root_key(vars) == Some(idx_key));
        let entry = match entries.get(&idx_key) {
            Some(e) => e,
            None => {
                return Err(
                    CascError::FileNotFound(String::from_str("Entry not found in entries")),
                );
            },
        };
        let ghost rec = entries@[idx_key];
        let ghost d = archive_of(data_files@, rec);
        let ghost off = rec.offset as int;
        let mut stream = Self::open_file_from_entry(data_files, entry)?;
        proof {
            lemma_single_span_content(stream.spans@, d, off);
            if region_content(d, off) is Some {
                crate::file::lemma_spans_content_props(
                    stream.spans@,
                    0,
                    stream.internal_size as int,
                );
            }
        }
        let ghost rb_opt = region_content(d, off);
        let header_buf = match stream.read(4) {
            Ok(v) => v,
            Err(e) => {
                return Err(e);
            },
        };
        if header_buf.len() < 4 {
            return Err(CascError::InvalidData(String::from_str("root file too short")));
        }
        // The magic reads `T V F S` on disk: a big-endian signature word.
        let magic: u32 = header_buf[3] as u32 + 256 * (header_buf[2] as u32 + 256 * (header_buf[1]
            as u32 + 256 * (header_buf[0] as u32)));
        proof {
            match rb_opt {
                Some(rb) => {
                    if rb.len() >= 4 {
                        assert(header_buf@ =~= rb.subrange(0, 4));
                        assert(magic == u32_be(rb.subrange(0, 4)));
                    }
                },
                None => {},
            }
        }
        if magic != TVFS_SIGNATURE {
            return Err(CascError::InvalidData(String::from_str("Invalid VFS header")));
        }
        match stream.seek(SeekFrom::Start(0)) {
            Ok(_) => {},
            Err(e) => {
                return Err(e);
            },
        }
        let total = stream.size();
        let count = match usize::try_from(total) {
            Ok(v) => v,
            Err(_) => {
                return Err(CascError::Other(String::from_str("root file too large")));
            },
        };
        let root_bytes = match stream.read(count) {
            Ok(v) => v,
            Err(e) => {
                return Err(e);
            },
        };
        proof {
            match rb_opt {
                Some(rb) => {
                    assert(rb.subrange(0, rb.len() as int) =~= rb);
                },
                None => {},
            }
        }
        let handler = TVFSRootHandler::new(root_bytes)?;
        Ok(RootHandler::Tvfs(handler))
    }

    /// Lists the files of the root handler, one per surviving name: a
    /// later traversal entry under the same name overwrites an earlier
    /// one. A file whose spans all have records in the key map is local
    /// and its size is the sum of their record sizes; any other file is
    /// not local and reports size zero.
    #[verifier::rlimit(100)]
    #[verifier::spinoff_prover]
    fn load_files(
        handler: &RootHandler,
        entries: &HashMap<u128, CascKeyMappingTableEntry>,
    ) -> (r: Result<Vec<CascFileInfo>, CascError>)
        ensures
            r matches Ok(files) ==> ({
                let survivors = surviving(handler.entries_view());
                files@.len() == survivors.len() && forall|i: int|
                    0 <= i < files@.len() ==> info_matches(
                        #[trigger] files@[i],
                        survivors[i],
                        entries@,
                    )
            }),
            r is Ok,
    {
        let ghost hv = handler.entries_view();
        let file_entries = match handler {
            RootHandler::Tvfs(h) => &h.file_entries,
        };
        let mut files: Vec<CascFileInfo> = Vec::new();
        let ghost mut done = Seq::<crate::tvfs::EntryV>::empty();
        let mut i: usize = 0;
        proof {
            assert(hv.skip(0) =~= hv);
            assert(done.add(surviving(hv)) =~= surviving(hv));
        }
        while i < file_entries.len()
            invariant
                i <= file_entries@.len(),
                handler matches RootHandler::Tvfs(h) && file_entries == &h.file_entries,
                hv == handler.entries_view(),
                done.add(surviving(hv.skip(i as int))) == surviving(hv),
                files@.len() == done.len(),
                forall|q: int|
                    0 <= q < done.len() ==> info_matches(#[trigger] files@[q], done[q], entries@),
            decreases file_entries@.len() - i,
        {
            proof {
                assert(hv.skip(i as int).skip(1) =~= hv.skip(i + 1));
            }
            let entry = &file_entries[i];
            let ghost ev = hv[i as int];
            proof {
                assert(hv.skip(i as int)[0] == ev);
            }
            // A later entry under the same name overwrites this one.
            let mut shadowed = false;
            let mut jj: usize = i + 1;
            while jj < file_entries.len() && !shadowed
                invariant
                    i < jj <= file_entries@.len(),
                    (i as int) < hv.len(),
                    handler matches RootHandler::Tvfs(h2) && file_entries == &h2.file_entries,
                    hv == handler.entries_view(),
                    *entry == file_entries@[i as int],
                    hv[i as int].name == file_entries@[i as int].name@,
                    shadowed ==> exists|w: int|
                        i < w < hv.len() && (#[trigger] hv[w]).name == hv[i as int].name,
                    !shadowed ==> forall|w: int|
                        i < w < jj ==> (#[trigger] hv[w]).name != hv[i as int].name,
                decreases file_entries@.len() - jj, (if shadowed {
                    0int
                } else {
                    1int
                }),
            {
                proof {
                    assert(hv[jj as int] == crate::tvfs::entry_v(file_entries@[jj as int]));
                }
                if file_entries[jj].name == entry.name {
                    shadowed = true;
                } else {
                    jj = jj + 1;
                }
            }
            proof {
                let tail = hv.skip(i as int);
                if shadowed {
                    let w = choose|w: int|
                        i < w < hv.len() && (#[trigger] hv[w]).name == hv[i as int].name;
                    assert(tail[w - i] == hv[w]);
                    assert(exists|j: int|
                        1 <= j < tail.len() && (#[trigger] tail[j]).name == tail[0].name);
                } else {
                    assert forall|j: int| 1 <= j < tail.len() implies (#[trigger] tail[j]).name
                        != tail[0].name by {
                        assert(tail[j] == hv[i + j]);
                    }
                    assert(!(exists|j: int|
                        1 <= j < tail.len() && (#[trigger] tail[j]).name == tail[0].name));
                }
            }
            if shadowed {
                i = i + 1;
                continue ;
            }
            let mut total: i64 = 0;
            let mut is_local = true;
            let mut j: usize = 0;
            let ghost keys = ev.keys;
            proof {
                assert(keys =~= crate::tvfs::spans_keys_view(entry.spans@));
                assert(keys.take(0) =~= Seq::<Seq<u8>>::empty());
            }
            while j < entry.spans.len() && is_local
                invariant
                    j <= entry.spans@.len(),
                    hv == handler.entries_view(),
                    0 <= (i as int) < hv.len(),
                    ev == hv[i as int],
                    keys == ev.keys,
                    keys.len() == entry.spans@.len(),
                    forall|q: int|
                        0 <= q < keys.len() ==> keys[q] == (#[trigger] entry.spans@[q]).encoding_key@,
                    is_local ==> forall|q: int|
                        0 <= q < j ==> ((#[trigger] span_key9(keys[q])) matches Some(k)
                            && entries@.contains_key(k)),
                    is_local ==> total == (if keys_total(keys.take(j as int), entries@)
                        <= i64::MAX {
                        keys_total(keys.take(j as int), entries@)
                    } else {
                        i64::MAX as int
                    }),
                    is_local ==> 0 <= total,
                    !is_local ==> !all_resolvable(keys, entries@),
                decreases entry.spans@.len() - j,
            {
                let span = &entry.spans[j];
                if span.encoding_key.len() < 9 {
                    is_local = false;
                    proof {
                        assert(span_key9(keys[j as int]) is None);
                        assert(!all_resolvable(keys, entries@));
                    }
                } else {
                    let k = pack_key9(span.encoding_key.as_slice());
                    match entries.get(&k) {
                        Some(rec) => {
                            proof {
                                lemma_keys_total_take(keys, entries@, j as int);
                                lemma_keys_total_nonneg(keys, entries@, j as int);
                            }
                            if total > i64::MAX - rec.size as i64 {
                                // An absurd sum saturates rather than wrap.
                                total = i64::MAX;
                            } else {
                                total = total + rec.size as i64;
                            }
                        },
                        None => {
                            is_local = false;
                            proof {
                                assert(span_key9(keys[j as int]) matches Some(kk) && kk == k);
                                assert(!all_resolvable(keys, entries@));
                            }
                        },
                    }
                }
                j = j + 1;
            }
            let info;
            if is_local {
                proof {
                    assert(keys.take(keys.len() as int) =~= keys);
                }
                info = CascFileInfo::new(entry.name.clone(), total, true);
            } else {
                info = CascFileInfo::new(entry.name.clone(), 0, false);
            }
            let ghost files_before = files@;
            files.push(info);
            proof {
                assert(forall|k: int|
                    0 <= k < files_before.len() ==> #[trigger] files@[k] == files_before[k]);
                let tail = hv.skip(i as int);
                assert(surviving(tail) == seq![ev].add(surviving(hv.skip(i + 1))));
                assert(done.push(ev).add(surviving(hv.skip(i + 1))) =~= done.add(
                    seq![ev].add(surviving(hv.skip(i + 1))),
                ));
            }
            proof {
                done = done.push(ev);
            }
            i = i + 1;
        }
        proof {
            assert(hv.skip(hv.len() as int) =~= Seq::<crate::tvfs::EntryV>::empty());
            assert(done.add(Seq::<crate::tvfs::EntryV>::empty()) =~= done);
        }
        Ok(files)
    }

    /// Opens a file of the storage by name, returning a fresh stream
    /// with its own copy of the archive regions it reads. A span whose
    /// encoding key is too short or has no record in the key map is
    /// skipped; a record whose region is malformed fails the open, with
    /// the invalid-data error when its block-table signature is wrong.
    #[verifier::rlimit(100)]
    #[verifier::spinoff_prover]
    pub fn open_file(&self, entry_name: &str) -> (r: Result<CascFile, CascError>)
        ensures
            entry_lookup(self.root_handler.entries_view(), entry_name@) is None <==> (r is Err
                && r->Err_0 is FileNotFound),
            entry_lookup(self.root_handler.entries_view(), entry_name@) matches Some(ev) ==> ({
                let recs = resolved_records(ev.keys, self.entries@);
                &&& (r is Ok <==> chain_buildable(self.data_files@, recs))
                &&& r matches Ok(f) ==> {
                    &&& f.stream_wf()
                    &&& f.internal_position == 0
                    &&& f.is_open
                    &&& f.cache is None
                    &&& spans_match_records(f.spans@, self.data_files@, recs)
                    &&& f.internal_size == record_start(self.data_files@, recs, recs.len() as int)
                }
                &&& (first_failure_bad_signature(self.data_files@, recs) ==> r is Err
                    && r->Err_0 is InvalidData)
            }),
    {
        let handler = match &self.root_handler {
            RootHandler::Tvfs(h) => h,
        };
        let entry = match handler.get_file_entry(entry_name) {
            Some(e) => e,
            None => {
                return Err(CascError::FileNotFound(String::from_str("Entry not found")));
            },
        };
        let ghost keys = entry_lookup(self.root_handler.entries_view(), entry_name@)->0.keys;
        let ghost m = self.entries@;
        let ghost recs = resolved_records(keys, m);
        proof {
            assert(keys =~= crate::tvfs::spans_keys_view(entry.spans@));
            assert(keys.skip(0) =~= keys);
            assert(recs.skip(0) =~= recs);
        }
        let mut virtual_offset: u64 = 0;
        let mut spans: Vec<CascFileSpan> = Vec::new();
        let mut j: usize = 0;
        while j < entry.spans.len()
            invariant
                j <= entry.spans@.len(),
                entry_lookup(self.root_handler.entries_view(), entry_name@) matches Some(ev)
                    && ev.keys == keys,
                keys.len() == entry.spans@.len(),
                forall|q: int|
                    0 <= q < keys.len() ==> keys[q] == (#[trigger] entry.spans@[q]).encoding_key@,
                m == self.entries@,
                recs == resolved_records(keys, m),
                resolved_records(keys.skip(j as int), m) == recs.skip(spans@.len() as int),
                spans@.len() <= recs.len(),
                virtual_offset == record_start(self.data_files@, recs, spans@.len() as int),
                forall|q: int|
                    0 <= q < spans@.len() ==> built_at(spans@, self.data_files@, recs, q),
            decreases entry.spans@.len() - j,
        {
            proof {
                assert(keys.skip(j as int).skip(1) =~= keys.skip(j + 1));
                assert(keys.skip(j as int)[0] == keys[j as int]);
            }
            let span = &entry.spans[j];
            if span.encoding_key.len() >= 9 {
                let k = pack_key9(span.encoding_key.as_slice());
                proof {
                    assert(span_key9(keys[j as int]) == Some(k));
                }
                match self.entries.get(&k) {
                    Some(e) => {
                        let ghost built = spans@.len() as int;
                        proof {
                            assert(resolved_records(keys.skip(j as int), m) == seq![m[k]].add(
                                resolved_records(keys.skip(j + 1), m),
                            ));
                            assert(recs.skip(built).len() >= 1);
                            assert(built < recs.len());
                            assert(recs.skip(built)[0] == recs[built]);
                            assert(recs.skip(built).skip(1) =~= recs.skip(built + 1));
                            assert(*e == recs[built]);
                        }
                        let (new_span, vo2) = match build_span(
                            &self.data_files,
                            e,
                            virtual_offset,
                        ) {
                            Ok(pair) => pair,
                            // A span that fails to parse is a structural
                            // fault of the storage, never a missing name.
                            Err(CascError::FileNotFound(msg)) => {
                                proof {
                                    lemma_chain_failure(spans@, self.data_files@, recs, built);
                                }
                                return Err(CascError::Other(msg));
                            },
                            Err(other) => {
                                proof {
                                    lemma_chain_failure(spans@, self.data_files@, recs, built);
                                }
                                return Err(other);
                            },
                        };
                        let ghost spans_before = spans@;
                        spans.push(new_span);
                        proof {
                            assert(forall|q: int|
                                0 <= q < spans_before.len() ==> #[trigger] spans@[q]
                                    == spans_before[q]);
                            assert(spans@.last() == new_span);
                            assert(built_at(spans@, self.data_files@, recs, built));
                            assert(forall|q: int|
                                0 <= q < spans_before.len() && built_at(
                                    spans_before,
                                    self.data_files@,
                                    recs,
                                    q,
                                ) ==> #[trigger] built_at(spans@, self.data_files@, recs, q));
                        }
                        virtual_offset = vo2;
                    },
                    None => {},
                }
            }
            j = j + 1;
        }
        proof {
            assert(keys.skip(keys.len() as int) =~= Seq::<Seq<u8>>::empty());
            assert(recs.skip(spans@.len() as int).len() == 0);
            assert(spans@.len() == recs.len());
            lemma_chain_complete(spans@, self.data_files@, recs, virtual_offset as int);
        }
        let file = CascFile::new(spans, virtual_offset);
        Ok(file)
    }

    /// Opens a stream over the single region one key-map record names.
    pub(crate) fn open_file_from_entry(
        data_files: &Vec<Vec<u8>>,
        entry: &CascKeyMappingTableEntry,
    ) -> (r: Result<CascFile, CascError>)
        ensures
            ({
                let d = archive_of(data_files@, *entry);
                let off = entry.offset as int;
                &&& (r is Ok <==> entry.archive_index < data_files@.len() && span_buildable(
                    d,
                    off,
                    0,
                ))
                &&& r matches Ok(f) ==> {
                    &&& f.stream_wf()
                    &&& f.internal_position == 0
                    &&& f.is_open
                    &&& f.cache is None
                    &&& f.spans@.len() == 1
                    &&& f.spans@[0].span_reader.bytes() == d
                    &&& f.spans@[0].frames@ == region_frames(d, off, 0)
                    &&& f.internal_size == content_sum(d, off, blte_count(d, off))
                }
            }),
    {
        let (span, virtual_offset) = build_span(data_files, entry, 0)?;
        let mut spans: Vec<CascFileSpan> = Vec::new();
        spans.push(span);
        proof {
            assert(spans@.len() == 1);
            assert(spans@[0] == span);
            assert(spans_chain(spans@, 0, virtual_offset as int));
        }
        let file = CascFile::new(spans, virtual_offset);
        Ok(file)
    }
}

/// A stream whose spans are all built at their records' places is a
/// buildable chain, matches its records, and tiles the file.
#[verifier::rlimit(100)]
#[verifier::spinoff_prover]
proof fn lemma_chain_complete(
    spans: Seq<CascFileSpan>,
    data: Seq<Vec<u8>>,
    recs: Seq<CascKeyMappingTableEntry>,
    vo: int,
)
    requires
        spans.len() == recs.len(),
        forall|q: int| 0 <= q < spans.len() ==> built_at(spans, data, recs, q),
        vo == record_start(data, recs, recs.len() as int),
    ensures
        chain_buildable(data, recs),
        spans_match_records(spans, data, recs),
        spans_chain(spans, 0, vo),
{
    assert forall|q: int| 0 <= q < recs.len() implies (#[trigger] recs[q]).archive_index
        < data.len() && span_buildable(
        archive_of(data, recs[q]),
        recs[q].offset as int,
        record_start(data, recs, q),
    ) by {
        assert(built_at(spans, data, recs, q));
    }
    assert forall|q: int| 0 <= q < recs.len() implies {
        let d = archive_of(data, #[trigger] recs[q]);
        let off = recs[q].offset as int;
        &&& spans[q].span_reader.bytes() == d
        &&& spans[q].virtual_start_offset == record_start(data, recs, q)
        &&& spans[q].virtual_end_offset == record_start(data, recs, q + 1)
        &&& spans[q].frames@ == region_frames(d, off, record_start(data, recs, q))
    } by {
        assert(built_at(spans, data, recs, q));
    }
    assert(spans_match_records(spans, data, recs));
    lemma_chain_tiles(spans, data, recs, vo);
}

/// The spans of a fully built chain tile the file from zero to its size.
#[verifier::rlimit(100)]
#[verifier::spinoff_prover]
proof fn lemma_chain_tiles(
    spans: Seq<CascFileSpan>,
    data: Seq<Vec<u8>>,
    recs: Seq<CascKeyMappingTableEntry>,
    vo: int,
)
    requires
        spans.len() == recs.len(),
        forall|q: int| 0 <= q < spans.len() ==> built_at(spans, data, recs, q),
        vo == record_start(data, recs, recs.len() as int),
    ensures
        spans_chain(spans, 0, vo),
{
    assert forall|k: int| 0 <= k < recs.len() implies span_buildable(
        archive_of(data, #[trigger] recs[k]),
        recs[k].offset as int,
        record_start(data, recs, k),
    ) by {
        assert(built_at(spans, data, recs, k));
    }
    assert forall|q: int| 0 <= q < spans.len() implies frames_tile(
        (#[trigger] spans[q]).frames@,
        spans[q].virtual_start_offset as int,
        spans[q].virtual_end_offset as int,
    ) && spans[q].virtual_start_offset == record_start(data, recs, q)
        && spans[q].virtual_end_offset == record_start(data, recs, q + 1) by {
        assert(built_at(spans, data, recs, q));
        lemma_record_start_nonneg(data, recs, q);
        lemma_region_frames_tile(
            archive_of(data, recs[q]),
            recs[q].offset as int,
            record_start(data, recs, q),
        );
    }
    assert(spans_chain(spans, 0, vo));
}

/// A chain whose record `i` cannot be built, all earlier ones standing,
/// is not buildable; and when that record's headers fit but its
/// signature does not read `BLTE`, the first failure is the signature.
proof fn lemma_chain_failure(
    spans: Seq<CascFileSpan>,
    data: Seq<Vec<u8>>,
    recs: Seq<CascKeyMappingTableEntry>,
    i: int,
)
    requires
        0 <= i < recs.len(),
        forall|k: int| 0 <= k < i ==> built_at(spans, data, recs, k),
        !(recs[i].archive_index < data.len() && span_buildable(
            archive_of(data, recs[i]),
            recs[i].offset as int,
            record_start(data, recs, i),
        )),
    ensures
        !chain_buildable(data, recs),
        recs[i].archive_index < data.len() && recs[i].offset + 42 <= archive_of(
            data,
            recs[i],
        ).len() && u32_le(
            archive_of(data, recs[i]).subrange(recs[i].offset + 30, recs[i].offset + 34),
        ) != BLTE_SIGNATURE ==> first_failure_bad_signature(data, recs),
        first_failure_bad_signature(data, recs) ==> recs[i].archive_index < data.len()
            && recs[i].offset + 42 <= archive_of(data, recs[i]).len() && u32_le(
            archive_of(data, recs[i]).subrange(recs[i].offset + 30, recs[i].offset + 34),
        ) != BLTE_SIGNATURE,
{
    assert forall|k: int| 0 <= k < i implies (#[trigger] recs[k]).archive_index < data.len()
        && span_buildable(
        archive_of(data, recs[k]),
        recs[k].offset as int,
        record_start(data, recs, k),
    ) by {
        assert(built_at(spans, data, recs, k));
    }
    if first_failure_bad_signature(data, recs) {
        let w = choose|w: int|
            0 <= w < recs.len() && (forall|k: int|
                0 <= k < w ==> (#[trigger] recs[k]).archive_index < data.len() && span_buildable(
                    archive_of(data, recs[k]),
                    recs[k].offset as int,
                    record_start(data, recs, k),
                )) && #[trigger] recs[w].archive_index < data.len() && !span_buildable(
                archive_of(data, recs[w]),
                recs[w].offset as int,
                record_start(data, recs, w),
            ) && recs[w].offset + 42 <= archive_of(data, recs[w]).len() && u32_le(
                archive_of(data, recs[w]).subrange(recs[w].offset + 30, recs[w].offset + 34),
            ) != BLTE_SIGNATURE;
        if w < i {
            assert(built_at(spans, data, recs, w));
            assert(false);
        }
        if w > i {
            assert(recs[i].archive_index < data.len() && span_buildable(
                archive_of(data, recs[i]),
                recs[i].offset as int,
                record_start(data, recs, i),
            ));
            assert(false);
        }
    }
}

/// Taking one more key adds that record's size when the key resolves,
/// and nothing otherwise.
proof fn lemma_keys_total_take(keys: Seq<Seq<u8>>, m: Map<u128, CascKeyMappingTableEntry>, j: int)
    requires
        0 <= j < keys.len(),
    ensures
        keys_total(keys.take(j + 1), m) == keys_total(keys.take(j), m) + (
        match span_key9(keys[j]) {
            Some(k) => if m.contains_key(k) {
                m[k].size as int
            } else {
                0
            },
            None => 0,
        }),
    decreases j,
{
    if j == 0 {
        assert(keys.take(1)[0] == keys[0]);
        assert(keys.take(1).skip(1) =~= Seq::<Seq<u8>>::empty());
        assert(keys.take(0) =~= Seq::<Seq<u8>>::empty());
    } else {
        let t1 = keys.take(j + 1);
        let t0 = keys.take(j);
        assert(t1.skip(1) =~= keys.skip(1).take(j));
        assert(t0.skip(1) =~= keys.skip(1).take(j - 1));
        assert(t1[0] == keys[0]);
        assert(t0[0] == keys[0]);
        lemma_keys_total_take(keys.skip(1), m, j - 1);
        assert(keys.skip(1)[j - 1] == keys[j]);
    }
}


/// Every prefix sum of span keys lies at or above zero.
proof fn lemma_keys_total_nonneg(keys: Seq<Seq<u8>>, m: Map<u128, CascKeyMappingTableEntry>, j: int)
    requires
        0 <= j <= keys.len(),
    ensures
        0 <= keys_total(keys.take(j), m),
    decreases j,
{
    if j == 0 {
        assert(keys.take(0) =~= Seq::<Seq<u8>>::empty());
    } else {
        lemma_keys_total_nonneg(keys, m, j - 1);
        lemma_keys_total_take(keys, m, j - 1);
    }
}

} // verus!
