use vstd::prelude::*;

use crate::bytes::{u16_be, u24_be, u32_be, ByteReader};
use crate::encoding::b64_encode;
use crate::entry::Entry;
use crate::error::CascError;
use crate::path_flags::{
    flags_contain, PathTableNodeFlags, IS_NODE_VALUE, PATH_SEPARATOR_POST, PATH_SEPARATOR_PRE,
};
use crate::chars::str_chars;
use crate::span_info::SpanInfo;
use crate::text::{chars_to_string, utf8_decode_prefix};

verus! {

broadcast use vstd::std_specs::vec::group_vec_axioms, crate::bytes::ByteReader::lemma_cursor_nonneg;

/// The header of a TVFS root file; every field is big-endian on disk.
#[derive(Debug, Clone, Copy, PartialEq, Eq, Structural)]
pub struct TVFSHeader {
    /// The signature word; `T V F S` on disk.
    pub signature: u32,
    /// The version of the format.
    pub format_version: u8,
    /// The size of this header in bytes.
    pub header_size: u8,
    /// The width of an encoding key in the content file table.
    pub encoding_key_size: u8,
    /// The width of a patch key.
    pub patch_key_size: u8,
    /// Format flags.
    pub flags: u32,
    /// Where the path table starts.
    pub path_table_offset: u32,
    /// How many bytes the path table holds.
    pub path_table_size: u32,
    /// Where the file table starts.
    pub vfs_table_offset: u32,
    /// How many bytes the file table holds.
    pub vfs_table_size: u32,
    /// Where the content file table starts.
    pub cft_table_offset: u32,
    /// How many bytes the content file table holds.
    pub cft_table_size: u32,
    /// The deepest nesting of the path trie.
    pub max_depth: u16,
}

/// The header a TVFS root file starts with.
pub open spec fn tvfs_header_of(s: Seq<u8>) -> TVFSHeader {
    TVFSHeader {
        signature: u32_be(s.subrange(0, 4)) as u32,
        format_version: s[4],
        header_size: s[5],
        encoding_key_size: s[6],
        patch_key_size: s[7],
        flags: u32_be(s.subrange(8, 12)) as u32,
        path_table_offset: u32_be(s.subrange(12, 16)) as u32,
        path_table_size: u32_be(s.subrange(16, 20)) as u32,
        vfs_table_offset: u32_be(s.subrange(20, 24)) as u32,
        vfs_table_size: u32_be(s.subrange(24, 28)) as u32,
        cft_table_offset: u32_be(s.subrange(28, 32)) as u32,
        cft_table_size: u32_be(s.subrange(32, 36)) as u32,
        max_depth: u16_be(s.subrange(36, 38)) as u16,
    }
}

impl TVFSHeader {
    /// Parses the 38 header bytes at the reader's cursor.
    pub fn read(r: &mut ByteReader) -> (res: Result<TVFSHeader, CascError>)
        ensures
            final(r).bytes() == old(r).bytes(),
            res is Ok <==> old(r).cursor() == 0 && old(r).bytes().len() >= 38,
            res matches Ok(h) ==> h == tvfs_header_of(old(r).bytes()) && final(r).cursor() == 38,
    {
        if r.position() != 0 {
            return Err(CascError::InvalidData(String::from_str("header read away from start")));
        }
        let signature = r.read_u32_be()?;
        let format_version = r.read_u8()?;
        let header_size = r.read_u8()?;
        let encoding_key_size = r.read_u8()?;
        let patch_key_size = r.read_u8()?;
        let flags = r.read_u32_be()?;
        let path_table_offset = r.read_u32_be()?;
        let path_table_size = r.read_u32_be()?;
        let vfs_table_offset = r.read_u32_be()?;
        let vfs_table_size = r.read_u32_be()?;
        let cft_table_offset = r.read_u32_be()?;
        let cft_table_size = r.read_u32_be()?;
        let max_depth = r.read_u16_be()?;
        Ok(
            TVFSHeader {
                signature,
                format_version,
                header_size,
                encoding_key_size,
                patch_key_size,
                flags,
                path_table_offset,
                path_table_size,
                vfs_table_offset,
                vfs_table_size,
                cft_table_offset,
                cft_table_size,
                max_depth,
            },
        )
    }
}

/// The signature bytes `T V F S` read as a big-endian word.
pub const TVFS_SIGNATURE: u32 = 0x54564653;

/// One parsed node of the path table.
pub struct NodeSpec {
    /// Whether a separator stood before the name.
    pub pre: bool,
    /// The node's name.
    pub name: Seq<char>,
    /// Whether a separator stands after the name.
    pub post: bool,
    /// The node's value, when it carries one.
    pub value: Option<u32>,
    /// Where the node ends.
    pub end: int,
}

/// The tail of a node after its name: an optional separator, then either
/// a value marker with a big-endian word, or nothing.
pub open spec fn finish_node(s: Seq<u8>, pre: bool, name: Seq<char>, p2: int) -> Option<NodeSpec> {
    if !(p2 < s.len()) {
        None
    } else {
        let post0 = s[p2] == 0;
        let p3 = if post0 {
            p2 + 1
        } else {
            p2
        };
        if !(p3 < s.len()) {
            None
        } else if s[p3] == 0xFF {
            if p3 + 5 <= s.len() {
                Some(
                    NodeSpec {
                        pre,
                        name,
                        post: post0,
                        value: Some(u32_be(s.subrange(p3 + 1, p3 + 5)) as u32),
                        end: p3 + 5,
                    },
                )
            } else {
                None
            }
        } else {
            Some(NodeSpec { pre, name, post: true, value: None, end: p3 })
        }
    }
}

/// The node standing at position `pos` of the path table: an optional
/// leading separator, an optional length-prefixed UTF-8 name, and the
/// tail that `finish_node` reads.
pub open spec fn parse_node_at(s: Seq<u8>, pos: int) -> Option<NodeSpec> {
    if !(0 <= pos < s.len()) {
        None
    } else {
        let pre = s[pos] == 0;
        let p1 = if pre {
            pos + 1
        } else {
            pos
        };
        if !(p1 < s.len()) {
            None
        } else if s[p1] < 0x7F && s[p1] != 0xFF {
            match utf8_decode_prefix(s.skip(p1 + 1), s[p1] as nat) {
                None => None,
                Some((cs, n)) => finish_node(s, pre, cs, p1 + 1 + n),
            }
        } else {
            finish_node(s, pre, Seq::<char>::empty(), p1)
        }
    }
}

/// A node of the path table: a name together with separator flags and an
/// optional value.
#[derive(Debug, Default, Clone)]
pub struct PathTableNode {
    /// The name of the node.
    pub name: String,
    /// Which separators stand around the name, and whether a value comes.
    pub flags: PathTableNodeFlags,
    /// The node's value: a folder size or a file-table offset.
    pub value: Option<u32>,
}

/// Parses one path-table node at the reader's cursor.
fn parse_path_node(pt: &mut ByteReader) -> (r: Result<PathTableNode, CascError>)
    ensures
        final(pt).bytes() == old(pt).bytes(),
        match parse_node_at(old(pt).bytes(), old(pt).cursor()) {
            None => r is Err,
            Some(n) => r matches Ok(node) && node.name@ == n.name && flags_contain(
                node.flags.0,
                PATH_SEPARATOR_PRE,
            ) == n.pre && flags_contain(node.flags.0, PATH_SEPARATOR_POST) == n.post
                && flags_contain(node.flags.0, IS_NODE_VALUE) == (n.value is Some) && node.value
                == n.value && final(pt).cursor() == n.end,
        },
{
    let mut b = match pt.peek_byte() {
        Ok(v) => v,
        Err(e) => {
            return Err(e);
        },
    };
    let mut pre = false;
    if b == 0 {
        pre = true;
        let consumed_pre = pt.read_u8();
        assert(consumed_pre is Ok);
        b = match pt.peek_byte() {
            Ok(v) => v,
            Err(e) => {
                return Err(e);
            },
        };
    }
    let mut name_chars: Vec<char> = Vec::new();
    if b < 0x7F && b != 0xFF {
        let consumed_len = pt.read_u8();
        assert(consumed_len is Ok);
        let ghost name_tail = pt.bytes().skip(pt.cursor());
        name_chars = match pt.read_chars(b as usize) {
            Ok(v) => v,
            Err(e) => {
                return Err(e);
            },
        };
        proof {
            if utf8_decode_prefix(name_tail, b as nat) is Some {
                crate::text::lemma_decode_prefix_bounds(name_tail, b as nat);
            }
        }
        b = match pt.peek_byte() {
            Ok(v) => v,
            Err(e) => {
                return Err(e);
            },
        };
    }
    let mut post = false;
    if b == 0 {
        post = true;
        let consumed_post = pt.read_u8();
        assert(consumed_post is Ok);
        b = match pt.peek_byte() {
            Ok(v) => v,
            Err(e) => {
                return Err(e);
            },
        };
    }
    let mut value: Option<u32> = None;
    if b == 0xFF {
        let consumed_marker = pt.read_u8();
        assert(consumed_marker is Ok);
        let v = match pt.read_u32_be() {
            Ok(v) => v,
            Err(e) => {
                return Err(e);
            },
        };
        value = Some(v);
    } else {
        post = true;
    }
    let name = chars_to_string(name_chars);
    let fa: u32 = if pre {
        1
    } else {
        0
    };
    let fb: u32 = if post {
        1
    } else {
        0
    };
    let fc: u32 = if value.is_some() {
        1
    } else {
        0
    };
    proof {
        crate::path_flags::lemma_flag_bits(fa, fb, fc);
    }
    Ok(PathTableNode { name, flags: PathTableNodeFlags(fa + 2 * fb + 4 * fc), value })
}

/// A separator when the flag asks for one.
pub open spec fn sep_seq(b: bool) -> Seq<char> {
    if b {
        seq!['\\']
    } else {
        Seq::<char>::empty()
    }
}

/// The file entries found between `pos` and `end` of the path table, with
/// the byte position after the region. `base` is what the name builder is
/// reset to after a value node; `builder` is its current content. Nothing
/// is yielded when a node is malformed, makes no progress, or crosses a
/// boundary, or when a folder does not end exactly at its declared end.
pub open spec fn walk(s: Seq<u8>, pos: int, end: int, base: Seq<char>, builder: Seq<char>) -> Option<
    (Seq<(Seq<char>, u32)>, int),
>
    decreases s.len() - pos,
{
    if pos >= end {
        Some((Seq::<(Seq<char>, u32)>::empty(), pos))
    } else if end > s.len() || pos < 0 {
        None
    } else {
        match parse_node_at(s, pos) {
            None => None,
            Some(n) => {
                if n.end <= pos || n.end > end {
                    None
                } else {
                    let b2 = builder + sep_seq(n.pre) + n.name + sep_seq(n.post);
                    match n.value {
                        None => walk(s, n.end, end, base, b2),
                        Some(v) => {
                            if v >= 0x80000000 {
                                let fend = n.end + (v - 0x80000000) - 4;
                                if fend < n.end || fend > end {
                                    None
                                } else {
                                    match walk(s, n.end, fend, b2, b2) {
                                        None => None,
                                        Some((es1, p1)) => {
                                            if p1 != fend {
                                                None
                                            } else {
                                                match walk(s, fend, end, base, base) {
                                                    None => None,
                                                    Some((es2, p2)) => Some((es1 + es2, p2)),
                                                }
                                            }
                                        },
                                    }
                                }
                            } else {
                                match walk(s, n.end, end, base, base) {
                                    None => None,
                                    Some((es, p)) => Some((seq![(b2, v)].add(es), p)),
                                }
                            }
                        },
                    }
                }
            },
        }
    }
}

/// A successful walk of a region stands exactly at the region's end.
pub proof fn lemma_walk_ends_exactly(
    s: Seq<u8>,
    pos: int,
    end: int,
    base: Seq<char>,
    builder: Seq<char>,
)
    requires
        pos <= end,
        walk(s, pos, end, base, builder) is Some,
    ensures
        (walk(s, pos, end, base, builder)->0).1 == end,
    decreases s.len() - pos,
{
    if pos >= end {
    } else {
        let n = parse_node_at(s, pos)->0;
        let b2 = builder + sep_seq(n.pre) + n.name + sep_seq(n.post);
        match n.value {
            None => {
                lemma_walk_ends_exactly(s, n.end, end, base, b2);
            },
            Some(v) => {
                if v >= 0x80000000 {
                    let fend = n.end + (v - 0x80000000) - 4;
                    lemma_walk_ends_exactly(s, fend, end, base, base);
                } else {
                    lemma_walk_ends_exactly(s, n.end, end, base, base);
                }
            },
        }
    }
}

/// The big-endian value of one to four bytes.
pub open spec fn be_val(s: Seq<u8>) -> int {
    if s.len() == 1 {
        s[0] as int
    } else if s.len() == 2 {
        u16_be(s)
    } else if s.len() == 3 {
        u24_be(s)
    } else {
        u32_be(s)
    }
}

/// How many bytes a reference into the content file table takes, chosen
/// from that table's size.
pub open spec fn vfs_width(cft_table_size: int) -> int {
    if cft_table_size > 0xFFFFFF {
        4
    } else if cft_table_size > 0xFFFF {
        3
    } else if cft_table_size > 0xFF {
        2
    } else {
        1
    }
}

/// The encoding keys of `count` spans read from the file table at `p`:
/// each span holds two ignored words and a `w`-byte reference into the
/// content file table, where `ks` key bytes lie.
pub open spec fn span_keys(
    vfs: Seq<u8>,
    cft: Seq<u8>,
    p: int,
    count: int,
    w: int,
    ks: int,
) -> Option<Seq<Seq<u8>>>
    decreases count,
{
    if count <= 0 {
        Some(Seq::<Seq<u8>>::empty())
    } else if p + 8 + w > vfs.len() || p < 0 {
        None
    } else {
        let off = be_val(vfs.subrange(p + 8, p + 8 + w));
        if off + ks > cft.len() {
            None
        } else {
            match span_keys(vfs, cft, p + 8 + w, count - 1, w, ks) {
                None => None,
                Some(rest) => Some(seq![cft.subrange(off, off + ks)].add(rest)),
            }
        }
    }
}

/// The encoding keys of the file entry whose span list stands at `p`.
pub open spec fn entry_spans(vfs: Seq<u8>, cft: Seq<u8>, p: int, w: int, ks: int) -> Option<
    Seq<Seq<u8>>,
> {
    if !(0 <= p < vfs.len()) {
        None
    } else {
        span_keys(vfs, cft, p + 1, vfs[p] as int, w, ks)
    }
}

/// What one file entry holds: its full name and its spans' encoding keys.
pub struct EntryV {
    /// The full name of the entry.
    pub name: Seq<char>,
    /// The encoding keys of its spans, in content order.
    pub keys: Seq<Seq<u8>>,
}

/// The entries that the walked (name, offset) pairs denote, with each
/// offset resolved through the file table and the content file table.
pub open spec fn materialize(
    pairs: Seq<(Seq<char>, u32)>,
    vfs: Seq<u8>,
    cft: Seq<u8>,
    w: int,
    ks: int,
) -> Option<Seq<EntryV>>
    decreases pairs.len(),
{
    if pairs.len() == 0 {
        Some(Seq::<EntryV>::empty())
    } else {
        match entry_spans(vfs, cft, pairs[0].1 as int, w, ks) {
            None => None,
            Some(keys) => match materialize(pairs.skip(1), vfs, cft, w, ks) {
                None => None,
                Some(rest) => Some(seq![EntryV { name: pairs[0].0, keys }].add(rest)),
            },
        }
    }
}

/// The views of walked name and offset pairs.
pub open spec fn pairs_view(v: Seq<(Vec<char>, u32)>) -> Seq<(Seq<char>, u32)> {
    Seq::new(v.len(), |i: int| (v[i].0@, v[i].1))
}

/// Joins the entries already taken with the outcome over the rest.
pub open spec fn walk_compose(
    done: Seq<(Seq<char>, u32)>,
    rest: Option<(Seq<(Seq<char>, u32)>, int)>,
) -> Option<(Seq<(Seq<char>, u32)>, int)> {
    match rest {
        None => None,
        Some((es, p)) => Some((done + es, p)),
    }
}

/// Walks one region of the path table, collecting the (name, offset)
/// pairs of its file nodes, exactly as `walk` describes.
#[verifier::rlimit(100)]
fn parse_region(
    pt: &mut ByteReader,
    end: usize,
    builder: Vec<char>,
    out: &mut Vec<(Vec<char>, u32)>,
) -> (r: Result<(), CascError>)
    ensures
        final(pt).bytes() == old(pt).bytes(),
        match walk(old(pt).bytes(), old(pt).cursor(), end as int, builder@, builder@) {
            None => r is Err,
            Some((es, p)) => r is Ok && pairs_view(final(out)@) == pairs_view(old(out)@).add(es)
                && final(pt).cursor() == p,
        },
    decreases pt.bytes().len() - pt.cursor(),
{
    let ghost s = pt.bytes();
    let ghost pos0 = pt.cursor();
    let ghost b0 = builder@;
    let ghost n0 = out@.len() as int;
    let ghost out0 = out@;
    let base_len = builder.len();
    let mut cur = builder;
    proof {
        assert(pairs_view(out@).skip(n0) =~= Seq::<(Seq<char>, u32)>::empty());
        match walk(s, pos0, end as int, b0, b0) {
            Some((es, p)) => {
                assert(Seq::<(Seq<char>, u32)>::empty().add(es) =~= es);
            },
            None => {},
        }
    }
    while pt.position() < end
        invariant
            s == old(pt).bytes(),
            pos0 == old(pt).cursor(),
            out0 == old(out)@,
            b0 == builder@,
            pt.bytes() == s,
            pt.cursor() >= pos0,
            out@.len() >= n0,
            0 <= n0 <= out@.len(),
            pairs_view(out@).take(n0) =~= pairs_view(out0),
            cur@.len() >= base_len,
            cur@.take(base_len as int) == b0,
            base_len == b0.len(),
            walk(s, pos0, end as int, b0, b0) == walk_compose(
                pairs_view(out@).skip(n0),
                walk(s, pt.cursor(), end as int, b0, cur@),
            ),
        decreases end - pt.cursor(),
    {
        let pos_cur = pt.position();
        if end > pt.len() {
            return Err(CascError::InvalidData(String::from_str("path table region truncated")));
        }
        let node = match parse_path_node(pt) {
            Ok(n) => n,
            Err(e) => {
                return Err(e);
            },
        };
        let ghost nspec = parse_node_at(s, pos_cur as int)->0;
        let node_end = pt.position();
        if node_end <= pos_cur || node_end > end {
            return Err(
                CascError::InvalidData(String::from_str("path table node crosses its region")),
            );
        }
        let ghost b_before = cur@;
        if node.flags.has_flag(PathTableNodeFlags(PATH_SEPARATOR_PRE)) {
            cur.push('\\');
        }
        let mut nc = str_chars(node.name.as_str());
        cur.append(&mut nc);
        if node.flags.has_flag(PathTableNodeFlags(PATH_SEPARATOR_POST)) {
            cur.push('\\');
        }
        let ghost b2 = b_before + sep_seq(nspec.pre) + nspec.name + sep_seq(nspec.post);
        proof {
            assert(cur@ =~= b2);
        }
        match node.value {
            None => {
                proof {
                    assert(walk(s, pos_cur as int, end as int, b0, b_before) == walk(
                        s,
                        node_end as int,
                        end as int,
                        b0,
                        b2,
                    ));
                    assert(cur@.take(base_len as int) =~= b0);
                }
            },
            Some(v) => {
                if v >= 0x80000000 {
                    let fsize = v - 0x80000000;
                    if fsize < 4 {
                        return Err(
                            CascError::InvalidData(String::from_str("folder size too small")),
                        );
                    }
                    let body = fsize - 4;
                    let avail = end - node_end;
                    if body as u64 > avail as u64 {
                        return Err(
                            CascError::InvalidData(
                                String::from_str("folder crosses its region"),
                            ),
                        );
                    }
                    let fend = node_end + (body as usize);
                    assert(fend as int == node_end + (v - 0x80000000) - 4);
                    let ghost done_before = pairs_view(out@).skip(n0);
                    let inner_builder = cur.clone();
                    proof {
                        assert(inner_builder.deep_view() =~= inner_builder@);
                        assert(cur.deep_view() =~= cur@);
                        assert(inner_builder@ =~= cur@);
                    }
                    let ghost out_mid = out@;
                    match parse_region(pt, fend, inner_builder, out) {
                        Ok(()) => {},
                        Err(e) => {
                            return Err(e);
                        },
                    }
                    if pt.position() != fend {
                        return Err(
                            CascError::InvalidData(
                                String::from_str("folder does not end at its boundary"),
                            ),
                        );
                    }
                    cur.truncate(base_len);
                    proof {
                        assert(b2.take(base_len as int) =~= b_before.take(base_len as int));
                        let es1 = (walk(s, node_end as int, fend as int, b2, b2)->0).0;
                        assert(pairs_view(out@) =~= pairs_view(out_mid).add(es1));
                        assert(pairs_view(out@).take(n0) =~= pairs_view(out0));
                        assert(pairs_view(out@).skip(n0) =~= done_before.add(es1));
                        assert(cur@ =~= b0);
                        assert(cur@.take(base_len as int) =~= b0);
                    }
                } else {
                    let ghost out_before = out@;
                    let name_clone = cur.clone();
                    proof {
                        assert(name_clone.deep_view() =~= name_clone@);
                        assert(cur.deep_view() =~= cur@);
                        assert(name_clone@ =~= cur@);
                    }
                    out.push((name_clone, v));
                    cur.truncate(base_len);
                    proof {
                        assert(b2.take(base_len as int) =~= b_before.take(base_len as int));
                        assert(pairs_view(out@) =~= pairs_view(out_before).push((b2, v)));
                        assert(pairs_view(out@).take(n0) =~= pairs_view(out0));
                        assert(pairs_view(out@).skip(n0) =~= pairs_view(out_before).skip(
                            n0,
                        ).push((b2, v)));
                        assert(cur@ =~= b0);
                        assert(cur@.take(base_len as int) =~= b0);
                        let es = (walk(s, node_end as int, end as int, b0, b0)->0).0;
                        assert(pairs_view(out_before).skip(n0).push((b2, v)).add(es)
                            =~= pairs_view(out_before).skip(n0).add(seq![(b2, v)].add(es)));
                    }
                }
            },
        }
    }
    proof {
        assert(pairs_view(out@).skip(n0).add(Seq::<(Seq<char>, u32)>::empty()) =~= pairs_view(
            out@,
        ).skip(n0));
        assert(pairs_view(out@) =~= pairs_view(out0).add(pairs_view(out@).skip(n0)));
        assert(pairs_view(out0) =~= pairs_view(old(out)@));
    }
    Ok(())
}

/// Reads one reference into the content file table, whose width is
/// chosen from that table's size.
fn read_variable_size_int(reader: &mut ByteReader, data_size: u32) -> (r: Result<u32, CascError>)
    ensures
        final(reader).bytes() == old(reader).bytes(),
        ({
            let w = vfs_width(data_size as int);
            &&& r is Ok <==> old(reader).cursor() + w <= old(reader).bytes().len()
            &&& r matches Ok(v) ==> v == be_val(
                old(reader).bytes().subrange(old(reader).cursor(), old(reader).cursor() + w),
            ) && final(reader).cursor() == old(reader).cursor() + w
        }),
{
    if data_size > 0xFFFFFF {
        proof {
            assert(vfs_width(data_size as int) == 4);
        }
        reader.read_u32_be()
    } else if data_size > 0xFFFF {
        proof {
            assert(vfs_width(data_size as int) == 3);
        }
        reader.read_u24_be()
    } else if data_size > 0xFF {
        proof {
            assert(vfs_width(data_size as int) == 2);
        }
        match reader.read_u16_be() {
            Ok(v) => Ok(v as u32),
            Err(e) => Err(e),
        }
    } else {
        proof {
            assert(vfs_width(data_size as int) == 1);
        }
        match reader.read_u8() {
            Ok(v) => Ok(v as u32),
            Err(e) => Err(e),
        }
    }
}

/// The outcome over the remaining spans joined onto the keys already read.
pub open spec fn keys_compose(done: Seq<Seq<u8>>, rest: Option<Seq<Seq<u8>>>) -> Option<
    Seq<Seq<u8>>,
> {
    match rest {
        None => None,
        Some(ks) => Some(done + ks),
    }
}

/// Reads the span list of one file entry from the file table, resolving
/// each span's reference into the content file table.
fn read_entry_spans(
    vfs: &mut ByteReader,
    cft: &mut ByteReader,
    cft_size_field: u32,
    key_size: u8,
    pos: u32,
) -> (r: Result<Vec<SpanInfo>, CascError>)
    ensures
        final(vfs).bytes() == old(vfs).bytes(),
        final(cft).bytes() == old(cft).bytes(),
        match entry_spans(
            old(vfs).bytes(),
            old(cft).bytes(),
            pos as int,
            vfs_width(cft_size_field as int),
            key_size as int,
        ) {
            None => r is Err,
            Some(keys) => r matches Ok(spans) && spans@.len() == keys.len() && forall|i: int|
                0 <= i < keys.len() ==> (#[trigger] spans@[i]).encoding_key@ == keys[i]
                    && spans@[i].base64_encoding_key@ == b64_encode(keys[i]),
        },
{
    let ghost vb = vfs.bytes();
    let ghost cb = cft.bytes();
    let ghost w = vfs_width(cft_size_field as int);
    let ghost ks = key_size as int;
    let vlen = vfs.len();
    let clen = cft.len();
    vfs.seek_to(pos as usize);
    let span_count = match vfs.read_u8() {
        Ok(v) => v,
        Err(e) => {
            return Err(e);
        },
    };
    let mut spans: Vec<SpanInfo> = Vec::new();
    let ghost full = span_keys(vb, cb, pos + 1, span_count as int, w, ks);
    let mut i: u8 = 0;
    proof {
        match full {
            Some(keys) => {
                assert(Seq::<Seq<u8>>::empty().add(keys) =~= keys);
            },
            None => {},
        }
    }
    while i < span_count
        invariant
            vfs.bytes() == vb,
            cft.bytes() == cb,
            old(vfs).bytes() == vb,
            old(cft).bytes() == cb,
            vb.len() == vlen,
            cb.len() == clen,
            w == vfs_width(cft_size_field as int),
            ks == key_size as int,
            i <= span_count,
            0 <= (pos as int) && (pos as int) < vb.len(),
            span_count == vb[pos as int],
            full == span_keys(vb, cb, pos + 1, span_count as int, w, ks),
            full == entry_spans(vb, cb, pos as int, w, ks),
            full == keys_compose(
                spans_keys_view(spans@),
                span_keys(vb, cb, vfs.cursor(), (span_count - i) as int, w, ks),
            ),
            spans@.len() == i,
            forall|k: int|
                0 <= k < spans@.len() ==> (#[trigger] spans@[k]).base64_encoding_key@
                    == b64_encode(spans@[k].encoding_key@),
        decreases span_count - i,
    {
        let ghost p = vfs.cursor();
        match vfs.skip(8) {
            Ok(()) => {},
            Err(e) => {
                proof {
                    assert(p + 8 + w > vb.len());
                }
                return Err(e);
            },
        }
        let off = match read_variable_size_int(vfs, cft_size_field) {
            Ok(v) => v,
            Err(e) => {
                return Err(e);
            },
        };
        proof {
            assert(vb.subrange(p + 8, p + 8 + w) =~= vb.subrange(p + 8, p + 8 + w));
        }
        cft.seek_to(off as usize);
        let key = match cft.read_bytes(key_size as usize) {
            Ok(v) => v,
            Err(e) => {
                return Err(e);
            },
        };
        let ghost done0 = spans_keys_view(spans@);
        let span = SpanInfo::new_with_encoding_key(key);
        spans.push(span);
        proof {
            let rest0 = span_keys(vb, cb, p, (span_count - i) as int, w, ks);
            let rest1 = span_keys(vb, cb, p + 8 + w, (span_count - i - 1) as int, w, ks);
            assert(spans_keys_view(spans@) =~= done0.push(cb.subrange(off as int, off + ks)));
            match rest1 {
                Some(ks1) => {
                    assert(done0.push(cb.subrange(off as int, off + ks)).add(ks1) =~= done0.add(
                        seq![cb.subrange(off as int, off + ks)].add(ks1),
                    ));
                },
                None => {},
            }
        }
        i = i + 1;
    }
    proof {
        assert(span_keys(vb, cb, vfs.cursor(), 0, w, ks) == Some(Seq::<Seq<u8>>::empty()));
        match full {
            Some(keys) => {
                assert(spans_keys_view(spans@).add(Seq::<Seq<u8>>::empty()) =~= spans_keys_view(
                    spans@,
                ));
            },
            None => {},
        }
    }
    Ok(spans)
}


/// The encoding keys of a run of spans, in order.
pub open spec fn spans_keys_view(spans: Seq<SpanInfo>) -> Seq<Seq<u8>> {
    Seq::new(spans.len(), |i: int| spans[i].encoding_key@)
}

/// Whether the three tables named by the header lie inside the file.
pub open spec fn tvfs_tables_ok(s: Seq<u8>) -> bool {
    let h = tvfs_header_of(s);
    &&& s.len() >= 38
    &&& h.path_table_offset + h.path_table_size <= s.len()
    &&& h.vfs_table_offset + h.vfs_table_size <= s.len()
    &&& h.cft_table_offset + h.cft_table_size <= s.len()
}

/// The bytes of the path table.
pub open spec fn tvfs_path_table(s: Seq<u8>) -> Seq<u8> {
    let h = tvfs_header_of(s);
    s.subrange(h.path_table_offset as int, h.path_table_offset + h.path_table_size)
}

/// The bytes of the file table.
pub open spec fn tvfs_vfs_table(s: Seq<u8>) -> Seq<u8> {
    let h = tvfs_header_of(s);
    s.subrange(h.vfs_table_offset as int, h.vfs_table_offset + h.vfs_table_size)
}

/// The bytes of the content file table.
pub open spec fn tvfs_cft_table(s: Seq<u8>) -> Seq<u8> {
    let h = tvfs_header_of(s);
    s.subrange(h.cft_table_offset as int, h.cft_table_offset + h.cft_table_size)
}

/// The file entries a TVFS root file defines, in traversal order, or
/// nothing when any of its tables is malformed.
#[verifier::opaque]
pub open spec fn tvfs_file_entries(s: Seq<u8>) -> Option<Seq<EntryV>> {
    if !tvfs_tables_ok(s) {
        None
    } else {
        let h = tvfs_header_of(s);
        let pt = tvfs_path_table(s);
        match walk(pt, 0, pt.len() as int, Seq::<char>::empty(), Seq::<char>::empty()) {
            None => None,
            Some((pairs, p)) => materialize(
                pairs,
                tvfs_vfs_table(s),
                tvfs_cft_table(s),
                vfs_width(h.cft_table_size as int),
                h.encoding_key_size as int,
            ),
        }
    }
}

/// What one stored entry holds.
pub open spec fn entry_v(e: Entry) -> EntryV {
    EntryV { name: e.name@, keys: spans_keys_view(e.spans@) }
}

/// The outcome over the remaining pairs joined onto the entries already
/// materialized.
pub open spec fn mat_compose(done: Seq<EntryV>, rest: Option<Seq<EntryV>>) -> Option<Seq<EntryV>> {
    match rest {
        None => None,
        Some(es) => Some(done + es),
    }
}

/// The entry that traversal most recently produced under this name.
pub open spec fn entry_lookup(es: Seq<EntryV>, name: Seq<char>) -> Option<EntryV>
    decreases es.len(),
{
    if es.len() == 0 {
        None
    } else if es.last().name == name {
        Some(es.last())
    } else {
        entry_lookup(es.drop_last(), name)
    }
}

/// The TVFS root handler: the parsed header, the three tables, and the
/// file entries found by walking the path trie.
#[derive(Debug)]
pub struct TVFSRootHandler {
    /// A reader over the path table.
    pub path_table_reader: ByteReader,
    /// A reader over the file table.
    pub vfs_table_reader: ByteReader,
    /// A reader over the content file table.
    pub cft_table_reader: ByteReader,
    /// The parsed header.
    pub header: TVFSHeader,
    /// The file entries, in traversal order; a later entry under the same
    /// name stands for an earlier one.
    pub file_entries: Vec<Entry>,
}

impl TVFSRootHandler {
    /// The views of the stored entries, in order.
    pub open spec fn entries_view(&self) -> Seq<EntryV> {
        Seq::new(self.file_entries@.len(), |i: int| entry_v(self.file_entries@[i]))
    }

    /// Parses a TVFS root file: reads the header, takes the three tables
    /// apart, walks the path trie, and resolves every entry's spans.
    pub fn new(data: Vec<u8>) -> (r: Result<TVFSRootHandler, CascError>)
        ensures
            r is Ok <==> tvfs_file_entries(data@) is Some,
            r matches Ok(h) ==> {
                &&& h.header == tvfs_header_of(data@)
                &&& h.entries_view() == tvfs_file_entries(data@)->0
                &&& h.path_table_reader.bytes() == tvfs_path_table(data@)
                &&& h.vfs_table_reader.bytes() == tvfs_vfs_table(data@)
                &&& h.cft_table_reader.bytes() == tvfs_cft_table(data@)
            },
    {
        proof {
            reveal(tvfs_file_entries);
        }
        let ghost sv = data@;
        let dlen = data.len();
        let mut reader = ByteReader::new(data);
        let header = match TVFSHeader::read(&mut reader) {
            Ok(h) => h,
            Err(e) => {
                return Err(e);
            },
        };
        if header.path_table_offset as u64 + header.path_table_size as u64 > dlen as u64 {
            return Err(CascError::InvalidData(String::from_str("path table out of range")));
        }
        if header.vfs_table_offset as u64 + header.vfs_table_size as u64 > dlen as u64 {
            return Err(CascError::InvalidData(String::from_str("file table out of range")));
        }
        if header.cft_table_offset as u64 + header.cft_table_size as u64 > dlen as u64 {
            return Err(
                CascError::InvalidData(String::from_str("content file table out of range")),
            );
        }
        assert(tvfs_tables_ok(sv));
        reader.seek_to(header.path_table_offset as usize);
        let path_buf = match reader.read_bytes(header.path_table_size as usize) {
            Ok(v) => v,
            Err(e) => {
                return Err(e);
            },
        };
        reader.seek_to(header.vfs_table_offset as usize);
        let vfs_buf = match reader.read_bytes(header.vfs_table_size as usize) {
            Ok(v) => v,
            Err(e) => {
                return Err(e);
            },
        };
        reader.seek_to(header.cft_table_offset as usize);
        let cft_buf = match reader.read_bytes(header.cft_table_size as usize) {
            Ok(v) => v,
            Err(e) => {
                return Err(e);
            },
        };
        proof {
            assert(path_buf@ =~= tvfs_path_table(sv));
            assert(vfs_buf@ =~= tvfs_vfs_table(sv));
            assert(cft_buf@ =~= tvfs_cft_table(sv));
        }
        let mut path_reader = ByteReader::new(path_buf);
        let mut vfs_reader = ByteReader::new(vfs_buf);
        let mut cft_reader = ByteReader::new(cft_buf);

        let pt_len = path_reader.len();
        let empty_builder: Vec<char> = Vec::new();
        let mut pairs: Vec<(Vec<char>, u32)> = Vec::new();
        proof {
            assert(empty_builder@ =~= Seq::<char>::empty());
        }
        match parse_region(&mut path_reader, pt_len, empty_builder, &mut pairs) {
            Ok(()) => {},
            Err(e) => {
                return Err(e);
            },
        }
        let ghost pv = pairs_view(pairs@);
        proof {
            assert(pairs_view(Seq::<(Vec<char>, u32)>::empty()) =~= Seq::<(Seq<char>, u32)>::empty());
            assert(Seq::<(Seq<char>, u32)>::empty().add(pv) =~= pv);
        }
        let ghost w = vfs_width(header.cft_table_size as int);
        let ghost ks = header.encoding_key_size as int;
        let ghost full = materialize(pv, vfs_reader.bytes(), cft_reader.bytes(), w, ks);
        let mut file_entries: Vec<Entry> = Vec::new();
        let mut i: usize = 0;
        proof {
            assert(pv.skip(0) =~= pv);
            match full {
                Some(es) => {
                    assert(Seq::<EntryV>::empty().add(es) =~= es);
                },
                None => {},
            }
            assert(Seq::new(file_entries@.len(), |k: int| entry_v(file_entries@[k]))
                =~= Seq::<EntryV>::empty());
        }
        proof {
            assert(full == tvfs_file_entries(sv));
        }
        while i < pairs.len()
            invariant
                i <= pairs@.len(),
                sv == data@,
                pv == pairs_view(pairs@),
                w == vfs_width(header.cft_table_size as int),
                ks == header.encoding_key_size as int,
                vfs_reader.bytes() == tvfs_vfs_table(sv),
                cft_reader.bytes() == tvfs_cft_table(sv),
                full == materialize(pv, tvfs_vfs_table(sv), tvfs_cft_table(sv), w, ks),
                full == tvfs_file_entries(sv),
                full == mat_compose(
                    Seq::new(file_entries@.len(), |k: int| entry_v(file_entries@[k])),
                    materialize(pv.skip(i as int), tvfs_vfs_table(sv), tvfs_cft_table(sv), w, ks),
                ),
                file_entries@.len() == i,
            decreases pairs@.len() - i,
        {
            proof {
                assert(pv.skip(i as int).skip(1) =~= pv.skip(i + 1));
            }
            let vfs_pos = pairs[i].1;
            assert(vfs_pos == pv[i as int].1);
            let spans = match read_entry_spans(
                &mut vfs_reader,
                &mut cft_reader,
                header.cft_table_size,
                header.encoding_key_size,
                vfs_pos,
            ) {
                Ok(v) => v,
                Err(e) => {
                    return Err(e);
                },
            };
            let name_chars = pairs[i].0.clone();
            proof {
                assert(name_chars.deep_view() =~= name_chars@);
                assert(pairs@[i as int].0.deep_view() =~= pairs@[i as int].0@);
                assert(name_chars@ =~= pv[i as int].0);
            }
            let name = chars_to_string(name_chars);
            let ghost done0 = Seq::new(file_entries@.len(), |k: int| entry_v(file_entries@[k]));
            let entry = Entry::new_with_spans(name, spans);
            let ghost ev = entry_v(entry);
            proof {
                let keys = entry_spans(tvfs_vfs_table(sv), tvfs_cft_table(sv), pv[i as int].1 as int, w, ks)->0;
                assert(spans_keys_view(entry.spans@) =~= keys);
                assert(ev == EntryV { name: pv[i as int].0, keys });
            }
            file_entries.push(entry);
            proof {
                assert(Seq::new(file_entries@.len(), |k: int| entry_v(file_entries@[k]))
                    =~= done0.push(ev));
                let rest1 = materialize(pv.skip(i + 1), tvfs_vfs_table(sv), tvfs_cft_table(sv), w, ks);
                match rest1 {
                    Some(es1) => {
                        assert(done0.push(ev).add(es1) =~= done0.add(seq![ev].add(es1)));
                    },
                    None => {},
                }
            }
            i = i + 1;
        }
        proof {
            assert(pv.skip(i as int) =~= Seq::<(Seq<char>, u32)>::empty());
            match full {
                Some(es) => {
                    let done = Seq::new(file_entries@.len(), |k: int| entry_v(file_entries@[k]));
                    assert(done.add(Seq::<EntryV>::empty()) =~= done);
                },
                None => {},
            }
        }
        let handler = TVFSRootHandler {
            path_table_reader: path_reader,
            vfs_table_reader: vfs_reader,
            cft_table_reader: cft_reader,
            header,
            file_entries,
        };
        proof {
            assert(handler.entries_view() =~= Seq::new(
                handler.file_entries@.len(),
                |k: int| entry_v(handler.file_entries@[k]),
            ));
        }
        Ok(handler)
    }

    /// The entry under the given full name, when the trie defines one.
    pub fn get_file_entry(&self, name: &str) -> (r: Option<&Entry>)
        ensures
            match entry_lookup(self.entries_view(), name@) {
                Some(v) => r matches Some(e) && entry_v(*e) == v,
                None => r is None,
            },
    {
        let key = String::from_str(name);
        let mut i: usize = self.file_entries.len();
        proof {
            assert(self.entries_view().take(i as int) =~= self.entries_view());
        }
        while i > 0
            invariant
                i <= self.file_entries@.len(),
                entry_lookup(self.entries_view(), name@) == entry_lookup(
                    self.entries_view().take(i as int),
                    name@,
                ),
                key@ == name@,
            decreases i,
        {
            i = i - 1;
            proof {
                assert(self.entries_view().take(i + 1).drop_last() =~= self.entries_view().take(
                    i as int,
                ));
                assert(self.entries_view().take(i + 1).last() == self.entries_view()[i as int]);
            }
            if self.file_entries[i].name == key {
                return Some(&self.file_entries[i]);
            }
        }
        proof {
            assert(self.entries_view().take(0) =~= Seq::<EntryV>::empty());
        }
        None
    }
}

} // verus!
