use vstd::prelude::*;

use crate::bytes::ByteReader;
use crate::error::CascError;
use crate::zlib::inflate_of;

verus! {

broadcast use vstd::std_specs::vec::group_vec_axioms, crate::bytes::ByteReader::lemma_cursor_nonneg, crate::bytes::ByteReader::lemma_len_bound;

/// One frame of a file: a contiguous run of decoded bytes, stored encoded
/// at an archive offset.
#[derive(Debug, Clone, Copy, PartialEq, Eq, Structural)]
pub struct CascFileFrame {
    /// Where the frame's decoded bytes start within the file.
    pub virtual_start_offset: u64,
    /// Where they end.
    pub virtual_end_offset: u64,
    /// Where the frame's encoded bytes start within the archive.
    pub archive_offset: u64,
    /// The encoded size of the frame, its tag byte included.
    pub encoded_size: u32,
    /// The decoded size of the frame.
    pub content_size: u32,
}

/// One span of a file: an independent reader over its archive's bytes
/// and the frames lying in it.
#[derive(Debug)]
pub struct CascFileSpan {
    /// A reader over the archive bytes holding the span.
    pub span_reader: ByteReader,
    /// Where the span's decoded bytes start within the file.
    pub virtual_start_offset: u64,
    /// Where they end.
    pub virtual_end_offset: u64,
    /// Where the span's first frame's encoded bytes start.
    pub archive_offset: u64,
    /// The frames of the span, in order.
    pub frames: Vec<CascFileFrame>,
}

impl CascFileSpan {
    /// A span with the given reader, bounds and frames.
    pub fn new(
        span_reader: ByteReader,
        virtual_start_offset: u64,
        virtual_end_offset: u64,
        archive_offset: u64,
        frames: Vec<CascFileFrame>,
    ) -> (r: CascFileSpan)
        ensures
            r.span_reader == span_reader,
            r.virtual_start_offset == virtual_start_offset,
            r.virtual_end_offset == virtual_end_offset,
            r.archive_offset == archive_offset,
            r.frames == frames,
    {
        CascFileSpan { span_reader, virtual_start_offset, virtual_end_offset, archive_offset, frames }
    }
}

/// Where a seek is measured from.
#[derive(Debug, Clone, Copy, PartialEq, Eq, Structural)]
pub enum SeekFrom {
    /// From the start of the file.
    Start(u64),
    /// From the current position.
    Current(i64),
    /// From the end of the file.
    End(i64),
}

/// The decoded bytes of one frame, or nothing when its tag is refused or
/// its encoded bytes are out of range or malformed. A raw frame's bytes
/// follow the tag directly; a zlib frame's bytes must inflate to exactly
/// the frame's content size.
pub open spec fn decode_frame(data: Seq<u8>, f: CascFileFrame) -> Option<Seq<u8>> {
    if !(0 <= f.archive_offset && f.archive_offset < data.len()) {
        None
    } else {
        let tag = data[f.archive_offset as int];
        if tag == 0x4E {
            if f.archive_offset + 1 + f.content_size <= data.len() {
                Some(
                    data.subrange(
                        f.archive_offset + 1,
                        f.archive_offset + 1 + f.content_size,
                    ),
                )
            } else {
                None
            }
        } else if tag == 0x5A {
            if f.encoded_size >= 1 && f.archive_offset + f.encoded_size <= data.len() {
                match inflate_of(
                    data.subrange(f.archive_offset + 1, f.archive_offset + f.encoded_size),
                ) {
                    Some(c) => if c.len() == f.content_size {
                        Some(c)
                    } else {
                        None
                    },
                    None => None,
                }
            } else {
                None
            }
        } else {
            None
        }
    }
}

/// The concatenated decoded bytes of a run of frames.
pub open spec fn frames_content(data: Seq<u8>, frames: Seq<CascFileFrame>) -> Option<Seq<u8>>
    decreases frames.len(),
{
    if frames.len() == 0 {
        Some(Seq::<u8>::empty())
    } else {
        match decode_frame(data, frames[0]) {
            None => None,
            Some(c) => match frames_content(data, frames.skip(1)) {
                None => None,
                Some(r) => Some(c + r),
            },
        }
    }
}

/// The concatenated decoded bytes of a run of spans.
pub open spec fn content_of(spans: Seq<CascFileSpan>) -> Option<Seq<u8>>
    decreases spans.len(),
{
    if spans.len() == 0 {
        Some(Seq::<u8>::empty())
    } else {
        match frames_content(spans[0].span_reader.bytes(), spans[0].frames@) {
            None => None,
            Some(c) => match content_of(spans.skip(1)) {
                None => None,
                Some(r) => Some(c + r),
            },
        }
    }
}

/// Whether a run of frames tiles the virtual range from `lo` to `hi`.
pub open spec fn frames_tile(frames: Seq<CascFileFrame>, lo: int, hi: int) -> bool {
    &&& forall|i: int|
        0 <= i < frames.len() ==> (#[trigger] frames[i]).virtual_start_offset == (if i == 0 {
            lo
        } else {
            frames[i - 1].virtual_end_offset as int
        })
    &&& forall|i: int|
        0 <= i < frames.len() ==> (#[trigger] frames[i]).virtual_end_offset
            == frames[i].virtual_start_offset + frames[i].content_size
    &&& if frames.len() == 0 {
        lo == hi
    } else {
        frames.last().virtual_end_offset == hi
    }
}

/// Whether a run of spans tiles the virtual range from `lo` to `hi`,
/// each span's frames tiling the span's own range.
pub open spec fn spans_chain(spans: Seq<CascFileSpan>, lo: int, hi: int) -> bool {
    &&& forall|i: int|
        0 <= i < spans.len() ==> (#[trigger] spans[i]).virtual_start_offset == (if i == 0 {
            lo
        } else {
            spans[i - 1].virtual_end_offset as int
        })
    &&& forall|i: int|
        0 <= i < spans.len() ==> frames_tile(
            (#[trigger] spans[i]).frames@,
            spans[i].virtual_start_offset as int,
            spans[i].virtual_end_offset as int,
        )
    &&& if spans.len() == 0 {
        lo == hi
    } else {
        spans.last().virtual_end_offset == hi
    }
}

/// Whether a run of spans tiles the whole file.
pub open spec fn spans_tile(spans: Seq<CascFileSpan>, size: int) -> bool {
    spans_chain(spans, 0, size)
}

/// The index of the first frame covering position `p`, or -1.
pub open spec fn frame_idx_at(frames: Seq<CascFileFrame>, p: int) -> int
    decreases frames.len(),
{
    if frames.len() == 0 {
        -1
    } else if frames[0].virtual_start_offset <= p < frames[0].virtual_end_offset {
        0
    } else {
        let r = frame_idx_at(frames.skip(1), p);
        if r < 0 {
            -1
        } else {
            1 + r
        }
    }
}

/// The index of the first span covering position `p`, or -1.
pub open spec fn span_idx_at(spans: Seq<CascFileSpan>, p: int) -> int
    decreases spans.len(),
{
    if spans.len() == 0 {
        -1
    } else if spans[0].virtual_start_offset <= p < spans[0].virtual_end_offset {
        0
    } else {
        let r = span_idx_at(spans.skip(1), p);
        if r < 0 {
            -1
        } else {
            1 + r
        }
    }
}

/// Whether the frame covering position `p` carries a tag that the
/// decoder refuses: neither raw nor zlib.
pub open spec fn unsupported_frame_at(spans: Seq<CascFileSpan>, p: int) -> bool {
    let si = span_idx_at(spans, p);
    &&& si >= 0
    &&& {
        let s = spans[si];
        let fi = frame_idx_at(s.frames@, p);
        &&& fi >= 0
        &&& {
            let f = s.frames@[fi];
            let d = s.span_reader.bytes();
            &&& 0 <= f.archive_offset < d.len()
            &&& d[f.archive_offset as int] != 0x4E
            &&& d[f.archive_offset as int] != 0x5A
        }
    }
}

/// The decoded byte of a stream at position `p`: the byte the covering
/// frame's decoded content holds there, or nothing when no frame covers
/// the position or the covering frame does not decode.
pub open spec fn byte_at(spans: Seq<CascFileSpan>, p: int) -> Option<u8> {
    let si = span_idx_at(spans, p);
    if si < 0 {
        None
    } else {
        let s = spans[si];
        let fi = frame_idx_at(s.frames@, p);
        if fi < 0 {
            None
        } else {
            let f = s.frames@[fi];
            match decode_frame(s.span_reader.bytes(), f) {
                Some(c) => if 0 <= p - f.virtual_start_offset < c.len() {
                    Some(c[p - f.virtual_start_offset])
                } else {
                    None
                },
                None => None,
            }
        }
    }
}

/// The decoded bytes of a stream over the window from `a` to `b`, when
/// every position in it has one.
pub open spec fn window_bytes(spans: Seq<CascFileSpan>, a: int, b: int) -> Option<Seq<u8>> {
    if a <= b && (forall|p: int| a <= p < b ==> (#[trigger] byte_at(spans, p)) is Some) {
        Some(Seq::new((b - a) as nat, |i: int| byte_at(spans, a + i)->0))
    } else {
        None
    }
}

/// In a tiled run of frames, the first frame covering a position is the
/// only one: the frame whose range holds it.
#[verifier::rlimit(100)]
#[verifier::spinoff_prover]
pub proof fn lemma_frame_idx_unique(frames: Seq<CascFileFrame>, lo: int, hi: int, fi: int, p: int)
    requires
        frames_tile(frames, lo, hi),
        0 <= fi < frames.len(),
        frames[fi].virtual_start_offset <= p < frames[fi].virtual_end_offset,
    ensures
        frame_idx_at(frames, p) == fi,
    decreases fi,
{
    if fi == 0 {
    } else {
        let rest = frames.skip(1);
        assert(frames_tile(rest, frames[0].virtual_end_offset as int, hi)) by {
            assert(forall|i: int| 0 <= i < rest.len() ==> #[trigger] rest[i] == frames[i + 1]);
        }
        lemma_frames_tile_bounds(frames, lo, hi);
        assert(frames[0].virtual_end_offset <= frames[fi].virtual_start_offset) by {
            lemma_frame_starts_ordered(frames, lo, hi, 1, fi);
        }
        assert(rest[fi - 1] == frames[fi]);
        lemma_frame_idx_unique(rest, frames[0].virtual_end_offset as int, hi, fi - 1, p);
    }
}

/// Frame starts never step backwards across a tiled run.
#[verifier::rlimit(100)]
#[verifier::spinoff_prover]
pub proof fn lemma_frame_starts_ordered(
    frames: Seq<CascFileFrame>,
    lo: int,
    hi: int,
    i: int,
    j: int,
)
    requires
        frames_tile(frames, lo, hi),
        0 <= i <= j < frames.len(),
    ensures
        frames[i].virtual_start_offset <= frames[j].virtual_start_offset,
        i >= 1 ==> frames[i - 1].virtual_end_offset <= frames[j].virtual_start_offset,
    decreases j - i,
{
    if i == j {
    } else {
        lemma_frame_starts_ordered(frames, lo, hi, i + 1, j);
    }
}

/// Span starts never step backwards across a chained run.
#[verifier::rlimit(100)]
#[verifier::spinoff_prover]
pub proof fn lemma_span_starts_ordered(
    spans: Seq<CascFileSpan>,
    lo: int,
    hi: int,
    i: int,
    j: int,
)
    requires
        forall|q: int|
            0 <= q < spans.len() ==> (#[trigger] spans[q]).virtual_start_offset == (if q == 0 {
                lo
            } else {
                spans[q - 1].virtual_end_offset as int
            }),
        forall|q: int|
            0 <= q < spans.len() ==> (#[trigger] spans[q]).virtual_start_offset <= spans[
                q
            ].virtual_end_offset,
        0 <= i <= j < spans.len(),
    ensures
        spans[i].virtual_start_offset <= spans[j].virtual_start_offset,
        i >= 1 ==> spans[i - 1].virtual_end_offset <= spans[j].virtual_start_offset,
    decreases j - i,
{
    if i == j {
    } else {
        lemma_span_starts_ordered(spans, lo, hi, i + 1, j);
    }
}

/// In a chained run of spans, the first span covering a position is the
/// only one: the span whose range holds it.
#[verifier::rlimit(100)]
#[verifier::spinoff_prover]
pub proof fn lemma_span_idx_unique(spans: Seq<CascFileSpan>, lo: int, hi: int, si: int, p: int)
    requires
        spans_chain(spans, lo, hi),
        0 <= si < spans.len(),
        spans[si].virtual_start_offset <= p < spans[si].virtual_end_offset,
    ensures
        span_idx_at(spans, p) == si,
    decreases si,
{
    if si == 0 {
    } else {
        let rest = spans.skip(1);
        assert(spans_chain(rest, spans[0].virtual_end_offset as int, hi)) by {
            assert(forall|i: int| 0 <= i < rest.len() ==> #[trigger] rest[i] == spans[i + 1]);
        }
        lemma_spans_chain_bounds(spans, lo, hi);
        lemma_span_starts_ordered(spans, lo, hi, 1, si);
        assert(spans[0].virtual_end_offset <= spans[si].virtual_start_offset);
        assert(rest[si - 1] == spans[si]);
        lemma_span_idx_unique(rest, spans[0].virtual_end_offset as int, hi, si - 1, p);
    }
}

/// A nonnegative frame index covers its position.
pub proof fn lemma_frame_idx_covers(frames: Seq<CascFileFrame>, p: int)
    requires
        frame_idx_at(frames, p) >= 0,
    ensures
        ({
            let fi = frame_idx_at(frames, p);
            &&& fi < frames.len()
            &&& frames[fi].virtual_start_offset <= p < frames[fi].virtual_end_offset
        }),
    decreases frames.len(),
{
    if frames.len() == 0 {
    } else if frames[0].virtual_start_offset <= p < frames[0].virtual_end_offset {
    } else {
        lemma_frame_idx_covers(frames.skip(1), p);
    }
}

/// A nonnegative span index covers its position.
pub proof fn lemma_span_idx_covers(spans: Seq<CascFileSpan>, p: int)
    requires
        span_idx_at(spans, p) >= 0,
    ensures
        ({
            let si = span_idx_at(spans, p);
            &&& si < spans.len()
            &&& spans[si].virtual_start_offset <= p < spans[si].virtual_end_offset
        }),
    decreases spans.len(),
{
    if spans.len() == 0 {
    } else if spans[0].virtual_start_offset <= p < spans[0].virtual_end_offset {
    } else {
        lemma_span_idx_covers(spans.skip(1), p);
    }
}

/// In a tiled file whose content decodes, the byte at each position is
/// the content's byte there.
#[verifier::rlimit(100)]
#[verifier::spinoff_prover]
pub proof fn lemma_content_byte_at(spans: Seq<CascFileSpan>, size: int, p: int)
    requires
        spans_tile(spans, size),
        content_of(spans) is Some,
        0 <= p < size,
    ensures
        byte_at(spans, p) == Some((content_of(spans)->0)[p]),
{
    lemma_span_covering(spans, 0, size, p);
    let si = span_idx_at(spans, p);
    lemma_span_idx_covers(spans, p);
    let s = spans[si];
    lemma_frame_covering(s.frames@, s.virtual_start_offset as int, s.virtual_end_offset as int, p);
    let fi = frame_idx_at(s.frames@, p);
    lemma_frame_idx_covers(s.frames@, p);
    let f = s.frames@[fi];
    lemma_content_frame_slice(spans, size, si, fi);
    let ct = content_of(spans)->0;
    let c = decode_frame(s.span_reader.bytes(), f)->0;
    lemma_decode_len(s.span_reader.bytes(), f);
    lemma_spans_content_props(spans, 0, size);
    assert(ct.subrange(f.virtual_start_offset as int, f.virtual_end_offset as int) == c);
    assert(c[p - f.virtual_start_offset] == ct.subrange(
        f.virtual_start_offset as int,
        f.virtual_end_offset as int,
    )[p - f.virtual_start_offset]);
    assert(byte_at(spans, p) == Some(c[p - f.virtual_start_offset]));
}

/// A cache whose window bytes all stand in the stream yields any of its
/// sub-windows.
#[verifier::rlimit(100)]
#[verifier::spinoff_prover]
pub proof fn lemma_cache_window(
    spans: Seq<CascFileSpan>,
    c: Seq<u8>,
    cs: int,
    ce: int,
    a: int,
    b: int,
)
    requires
        cs <= a <= b <= ce,
        c.len() == ce - cs,
        forall|p: int| cs <= p < ce ==> byte_at(spans, p) == Some(c[p - cs]),
    ensures
        window_bytes(spans, a, b) == Some(c.subrange(a - cs, b - cs)),
{
    assert forall|p: int| a <= p < b implies (#[trigger] byte_at(spans, p)) is Some by {}
    assert(Seq::new((b - a) as nat, |i: int| byte_at(spans, a + i)->0) =~= c.subrange(
        a - cs,
        b - cs,
    ));
}

/// A decoded frame holds exactly its content size of bytes.
pub proof fn lemma_decode_len(data: Seq<u8>, f: CascFileFrame)
    requires
        decode_frame(data, f) is Some,
    ensures
        (decode_frame(data, f)->0).len() == f.content_size,
{
}

/// Over a tiled run of frames, the concatenated content has the range's
/// length, and each frame's decoded bytes stand at the frame's own window.
#[verifier::rlimit(100)]
pub proof fn lemma_frames_content_props(data: Seq<u8>, frames: Seq<CascFileFrame>, lo: int, hi: int)
    requires
        frames_tile(frames, lo, hi),
        frames_content(data, frames) is Some,
    ensures
        (frames_content(data, frames)->0).len() == hi - lo,
        forall|i: int|
            0 <= i < frames.len() ==> {
                let f = #[trigger] frames[i];
                &&& lo <= f.virtual_start_offset <= f.virtual_end_offset <= hi
                &&& decode_frame(data, f) is Some
                &&& (frames_content(data, frames)->0).subrange(
                    f.virtual_start_offset - lo,
                    f.virtual_end_offset - lo,
                ) == decode_frame(data, f)->0
            },
    decreases frames.len(),
{
    if frames.len() == 0 {
    } else {
        let f0 = frames[0];
        lemma_decode_len(data, f0);
        let rest = frames.skip(1);
        assert(frames_tile(rest, f0.virtual_end_offset as int, hi)) by {
            assert(forall|i: int| 0 <= i < rest.len() ==> #[trigger] rest[i] == frames[i + 1]);
        }
        lemma_frames_content_props(data, rest, f0.virtual_end_offset as int, hi);
        let c0 = decode_frame(data, f0)->0;
        let ctr = frames_content(data, rest)->0;
        let ct = frames_content(data, frames)->0;
        assert(ct == c0 + ctr);
        assert forall|i: int| 0 <= i < frames.len() implies {
            let f = #[trigger] frames[i];
            &&& lo <= f.virtual_start_offset <= f.virtual_end_offset <= hi
            &&& decode_frame(data, f) is Some
            &&& ct.subrange(f.virtual_start_offset - lo, f.virtual_end_offset - lo)
                == decode_frame(data, f)->0
        } by {
            if i == 0 {
                assert(ct.subrange(0, f0.content_size as int) =~= c0);
            } else {
                let f = frames[i];
                assert(f == rest[i - 1]);
                let flo = f.virtual_start_offset - lo;
                let fhi = f.virtual_end_offset - lo;
                assert(ctr.subrange(
                    f.virtual_start_offset - f0.virtual_end_offset,
                    f.virtual_end_offset - f0.virtual_end_offset,
                ) == decode_frame(data, f)->0);
                assert(ct.subrange(flo, fhi) =~= ctr.subrange(
                    f.virtual_start_offset - f0.virtual_end_offset,
                    f.virtual_end_offset - f0.virtual_end_offset,
                ));
            }
        }
    }
}

/// Over a chained run of spans, the concatenated content has the range's
/// length, and each span's content stands at the span's own window.
#[verifier::rlimit(100)]
#[verifier::spinoff_prover]
pub proof fn lemma_spans_content_props(spans: Seq<CascFileSpan>, lo: int, hi: int)
    requires
        spans_chain(spans, lo, hi),
        content_of(spans) is Some,
    ensures
        (content_of(spans)->0).len() == hi - lo,
        forall|i: int|
            0 <= i < spans.len() ==> {
                let s = #[trigger] spans[i];
                &&& lo <= s.virtual_start_offset <= s.virtual_end_offset <= hi
                &&& frames_content(s.span_reader.bytes(), s.frames@) is Some
                &&& (content_of(spans)->0).subrange(
                    s.virtual_start_offset - lo,
                    s.virtual_end_offset - lo,
                ) == frames_content(s.span_reader.bytes(), s.frames@)->0
            },
    decreases spans.len(),
{
    if spans.len() == 0 {
    } else {
        let s0 = spans[0];
        lemma_frames_content_props(
            s0.span_reader.bytes(),
            s0.frames@,
            s0.virtual_start_offset as int,
            s0.virtual_end_offset as int,
        );
        let rest = spans.skip(1);
        assert(spans_chain(rest, s0.virtual_end_offset as int, hi)) by {
            assert(forall|i: int| 0 <= i < rest.len() ==> #[trigger] rest[i] == spans[i + 1]);
        }
        lemma_spans_content_props(rest, s0.virtual_end_offset as int, hi);
        let c0 = frames_content(s0.span_reader.bytes(), s0.frames@)->0;
        let ctr = content_of(rest)->0;
        let ct = content_of(spans)->0;
        assert(ct == c0 + ctr);
        assert forall|i: int| 0 <= i < spans.len() implies {
            let s = #[trigger] spans[i];
            &&& lo <= s.virtual_start_offset <= s.virtual_end_offset <= hi
            &&& frames_content(s.span_reader.bytes(), s.frames@) is Some
            &&& ct.subrange(s.virtual_start_offset - lo, s.virtual_end_offset - lo)
                == frames_content(s.span_reader.bytes(), s.frames@)->0
        } by {
            if i == 0 {
                assert(ct.subrange(0, s0.virtual_end_offset - lo) =~= c0);
            } else {
                let s = spans[i];
                assert(s == rest[i - 1]);
                assert(ctr.subrange(
                    s.virtual_start_offset - s0.virtual_end_offset,
                    s.virtual_end_offset - s0.virtual_end_offset,
                ) == frames_content(s.span_reader.bytes(), s.frames@)->0);
                assert(ct.subrange(
                    s.virtual_start_offset - lo,
                    s.virtual_end_offset - lo,
                ) =~= ctr.subrange(
                    s.virtual_start_offset - s0.virtual_end_offset,
                    s.virtual_end_offset - s0.virtual_end_offset,
                ));
            }
        }
    }
}

/// A position inside a chained range is covered by some span.
pub proof fn lemma_span_covering(spans: Seq<CascFileSpan>, lo: int, hi: int, p: int)
    requires
        spans_chain(spans, lo, hi),
        lo <= p < hi,
    ensures
        0 <= span_idx_at(spans, p) < spans.len(),
    decreases spans.len(),
{
    if spans.len() == 0 {
    } else if spans[0].virtual_start_offset <= p < spans[0].virtual_end_offset {
    } else {
        let rest = spans.skip(1);
        assert(spans_chain(rest, spans[0].virtual_end_offset as int, hi)) by {
            assert(forall|i: int| 0 <= i < rest.len() ==> #[trigger] rest[i] == spans[i + 1]);
        }
        lemma_span_covering(rest, spans[0].virtual_end_offset as int, hi, p);
    }
}

/// A position inside a tiled range is covered by some frame.
pub proof fn lemma_frame_covering(frames: Seq<CascFileFrame>, lo: int, hi: int, p: int)
    requires
        frames_tile(frames, lo, hi),
        lo <= p < hi,
    ensures
        0 <= frame_idx_at(frames, p) < frames.len(),
    decreases frames.len(),
{
    if frames.len() == 0 {
    } else if frames[0].virtual_start_offset <= p < frames[0].virtual_end_offset {
    } else {
        let rest = frames.skip(1);
        assert(frames_tile(rest, frames[0].virtual_end_offset as int, hi)) by {
            assert(forall|i: int| 0 <= i < rest.len() ==> #[trigger] rest[i] == frames[i + 1]);
        }
        lemma_frame_covering(rest, frames[0].virtual_end_offset as int, hi, p);
    }
}

/// Finds the first span covering position `p`.
fn find_covering_span(spans: &Vec<CascFileSpan>, p: u64) -> (r: Option<usize>)
    ensures
        match r {
            Some(i) => i < spans@.len() && span_idx_at(spans@, p as int) == i
                && spans@[i as int].virtual_start_offset <= p < spans@[i as int].virtual_end_offset,
            None => span_idx_at(spans@, p as int) == -1,
        },
{
    let mut i: usize = 0;
    proof {
        assert(spans@.skip(0) =~= spans@);
    }
    while i < spans.len()
        invariant
            i <= spans@.len(),
            ({
                let r2 = span_idx_at(spans@.skip(i as int), p as int);
                span_idx_at(spans@, p as int) == (if r2 < 0 {
                    -1int
                } else {
                    i + r2
                })
            }),
        decreases spans@.len() - i,
    {
        proof {
            assert(spans@.skip(i as int).skip(1) =~= spans@.skip(i + 1));
        }
        if spans[i].virtual_start_offset <= p && p < spans[i].virtual_end_offset {
            return Some(i);
        }
        i = i + 1;
    }
    None
}

/// Finds the first frame covering position `p`.
fn find_covering_frame(frames: &Vec<CascFileFrame>, p: u64) -> (r: Option<usize>)
    ensures
        match r {
            Some(i) => i < frames@.len() && frame_idx_at(frames@, p as int) == i
                && frames@[i as int].virtual_start_offset <= p < frames@[
                    i as int
                ].virtual_end_offset,
            None => frame_idx_at(frames@, p as int) == -1,
        },
{
    let mut i: usize = 0;
    proof {
        assert(frames@.skip(0) =~= frames@);
    }
    while i < frames.len()
        invariant
            i <= frames@.len(),
            ({
                let r2 = frame_idx_at(frames@.skip(i as int), p as int);
                frame_idx_at(frames@, p as int) == (if r2 < 0 {
                    -1int
                } else {
                    i + r2
                })
            }),
        decreases frames@.len() - i,
    {
        proof {
            assert(frames@.skip(i as int).skip(1) =~= frames@.skip(i + 1));
        }
        if frames[i].virtual_start_offset <= p && p < frames[i].virtual_end_offset {
            return Some(i);
        }
        i = i + 1;
    }
    None
}

/// Every frame of a tiled run lies inside the range and ends where its
/// content size says.
pub proof fn lemma_frames_tile_bounds(frames: Seq<CascFileFrame>, lo: int, hi: int)
    requires
        frames_tile(frames, lo, hi),
    ensures
        forall|i: int|
            0 <= i < frames.len() ==> lo <= (#[trigger] frames[i]).virtual_start_offset
                && frames[i].virtual_end_offset <= hi && frames[i].virtual_end_offset == frames[
                i
            ].virtual_start_offset + frames[i].content_size,
    decreases frames.len(),
{
    if frames.len() == 0 {
    } else {
        let rest = frames.skip(1);
        assert(frames_tile(rest, frames[0].virtual_end_offset as int, hi)) by {
            assert(forall|i: int| 0 <= i < rest.len() ==> #[trigger] rest[i] == frames[i + 1]);
        }
        lemma_frames_tile_bounds(rest, frames[0].virtual_end_offset as int, hi);
        assert(forall|i: int| 1 <= i < frames.len() ==> #[trigger] frames[i] == rest[i - 1]);
    }
}

/// Every span of a chained run lies inside the range.
pub proof fn lemma_spans_chain_bounds(spans: Seq<CascFileSpan>, lo: int, hi: int)
    requires
        spans_chain(spans, lo, hi),
    ensures
        forall|i: int|
            0 <= i < spans.len() ==> lo <= (#[trigger] spans[i]).virtual_start_offset && spans[
                i
            ].virtual_end_offset <= hi && spans[i].virtual_start_offset <= spans[
                i
            ].virtual_end_offset,
    decreases spans.len(),
{
    if spans.len() == 0 {
    } else {
        let rest = spans.skip(1);
        assert(spans_chain(rest, spans[0].virtual_end_offset as int, hi)) by {
            assert(forall|i: int| 0 <= i < rest.len() ==> #[trigger] rest[i] == spans[i + 1]);
        }
        lemma_spans_chain_bounds(rest, spans[0].virtual_end_offset as int, hi);
        assert(forall|i: int| 1 <= i < spans.len() ==> #[trigger] spans[i] == rest[i - 1]);
        assert(spans[0].virtual_start_offset <= spans[0].virtual_end_offset) by {
            lemma_frames_tile_bounds(
                spans[0].frames@,
                spans[0].virtual_start_offset as int,
                spans[0].virtual_end_offset as int,
            );
            if spans[0].frames@.len() == 0 {
            } else {
                assert(spans[0].frames@[0].virtual_start_offset == spans[0].virtual_start_offset);
            }
        }
    }
}

/// In a tiled file whose content decodes, each frame decodes and its
/// bytes stand at the frame's own window of the content.
pub proof fn lemma_content_frame_slice(spans: Seq<CascFileSpan>, size: int, si: int, fi: int)
    requires
        spans_tile(spans, size),
        content_of(spans) is Some,
        0 <= si < spans.len(),
        0 <= fi < spans[si].frames@.len(),
    ensures
        ({
            let s = spans[si];
            let f = s.frames@[fi];
            let d = s.span_reader.bytes();
            &&& decode_frame(d, f) is Some
            &&& 0 <= f.virtual_start_offset && f.virtual_end_offset <= size
            &&& f.virtual_end_offset == f.virtual_start_offset + f.content_size
            &&& (content_of(spans)->0).subrange(
                f.virtual_start_offset as int,
                f.virtual_end_offset as int,
            ) == decode_frame(d, f)->0
        }),
{
    lemma_spans_content_props(spans, 0, size);
    let s = spans[si];
    let f = s.frames@[fi];
    let d = s.span_reader.bytes();
    lemma_frames_content_props(d, s.frames@, s.virtual_start_offset as int, s.virtual_end_offset as int);
    let ct = content_of(spans)->0;
    let fc = frames_content(d, s.frames@)->0;
    assert(ct.subrange(f.virtual_start_offset as int, f.virtual_end_offset as int) =~= ct.subrange(
        s.virtual_start_offset as int,
        s.virtual_end_offset as int,
    ).subrange(
        f.virtual_start_offset - s.virtual_start_offset,
        f.virtual_end_offset - s.virtual_start_offset,
    ));
}

/// The sum of the content sizes of a run of frames.
pub open spec fn frames_total(frames: Seq<CascFileFrame>) -> int
    decreases frames.len(),
{
    if frames.len() == 0 {
        0
    } else {
        frames[0].content_size + frames_total(frames.skip(1))
    }
}

/// The sum of the content sizes of all frames of a run of spans.
pub open spec fn spans_total_size(spans: Seq<CascFileSpan>) -> int
    decreases spans.len(),
{
    if spans.len() == 0 {
        0
    } else {
        frames_total(spans[0].frames@) + spans_total_size(spans.skip(1))
    }
}

/// The content sizes of a tiled run of frames sum to its range.
pub proof fn lemma_frames_total_tiled(frames: Seq<CascFileFrame>, lo: int, hi: int)
    requires
        frames_tile(frames, lo, hi),
    ensures
        frames_total(frames) == hi - lo,
    decreases frames.len(),
{
    if frames.len() == 0 {
    } else {
        let rest = frames.skip(1);
        assert(frames_tile(rest, frames[0].virtual_end_offset as int, hi)) by {
            assert(forall|i: int| 0 <= i < rest.len() ==> #[trigger] rest[i] == frames[i + 1]);
        }
        lemma_frames_total_tiled(rest, frames[0].virtual_end_offset as int, hi);
    }
}

/// Reading a well-formed stream to its end yields exactly the sum of its
/// frames' content sizes: the stream's size is that sum.
pub proof fn lemma_size_is_frame_total(spans: Seq<CascFileSpan>, lo: int, hi: int)
    requires
        spans_chain(spans, lo, hi),
    ensures
        spans_total_size(spans) == hi - lo,
    decreases spans.len(),
{
    if spans.len() == 0 {
    } else {
        let rest = spans.skip(1);
        assert(spans_chain(rest, spans[0].virtual_end_offset as int, hi)) by {
            assert(forall|i: int| 0 <= i < rest.len() ==> #[trigger] rest[i] == spans[i + 1]);
        }
        lemma_frames_total_tiled(
            spans[0].frames@,
            spans[0].virtual_start_offset as int,
            spans[0].virtual_end_offset as int,
        );
        lemma_size_is_frame_total(rest, spans[0].virtual_end_offset as int, hi);
    }
}

/// Two consecutive reads compose: the bytes of the window from `a` to
/// `b` followed by those from `b` to `c` are exactly the window from `a`
/// to `c`, and their lengths sum to its width. Repeated reads to the end
/// of a file therefore return its whole content, piece by piece, and the
/// returned lengths sum to the file's size.
pub proof fn lemma_consecutive_reads(ct: Seq<u8>, a: int, b: int, c: int)
    requires
        0 <= a <= b <= c <= ct.len(),
    ensures
        ct.subrange(a, b) + ct.subrange(b, c) == ct.subrange(a, c),
        ct.subrange(a, b).len() + ct.subrange(b, c).len() == c - a,
{
    assert(ct.subrange(a, b) + ct.subrange(b, c) =~= ct.subrange(a, c));
}

/// Seeking to `p` and reading `n` bytes yields the same bytes as reading
/// `p + n` bytes from the start and then keeping only the window from
/// `p` on.
pub proof fn lemma_seek_then_read(ct: Seq<u8>, p: int, n: int)
    requires
        0 <= p,
        0 <= n,
        p + n <= ct.len(),
    ensures
        ct.subrange(0, p + n).subrange(p, p + n) == ct.subrange(p, p + n),
{
    assert(ct.subrange(0, p + n).subrange(p, p + n) =~= ct.subrange(p, p + n));
}

/// Reading the whole file from its start yields exactly its content.
pub proof fn lemma_read_all(ct: Seq<u8>)
    ensures
        ct.subrange(0, ct.len() as int) == ct,
{
    assert(ct.subrange(0, ct.len() as int) =~= ct);
}

/// A seekable read stream over one logical file, decoding one frame at a
/// time and keeping the last decoded frame as a cache.
#[derive(Debug)]
pub struct CascFile {
    /// The spans that make up the file, in content order.
    pub spans: Vec<CascFileSpan>,
    /// The total size of the file.
    pub internal_size: u64,
    /// The current read position.
    pub internal_position: u64,
    /// Whether the stream is open.
    pub is_open: bool,
    /// The most recently decoded frame's bytes, when one is held.
    pub cache: Option<Vec<u8>>,
    /// Where the cached bytes start within the file.
    pub cache_start_position: u64,
    /// Where they end.
    pub cache_end_position: u64,
}

impl CascFile {
    /// Whether the stream's spans tile its size and its cache, when one
    /// is held, holds exactly the content of its window.
    pub open spec fn stream_wf(&self) -> bool {
        &&& spans_tile(self.spans@, self.internal_size as int)
        &&& match self.cache {
            None => true,
            Some(c) => {
                &&& self.cache_start_position <= self.cache_end_position <= self.internal_size
                &&& c@.len() == self.cache_end_position - self.cache_start_position
                &&& forall|p: int|
                    self.cache_start_position <= p < self.cache_end_position ==> byte_at(
                        self.spans@,
                        p,
                    ) == Some(c@[p - self.cache_start_position])
            },
        }
    }

    /// A stream over the given spans, with the given total size.
    pub(crate) fn new(spans: Vec<CascFileSpan>, size: u64) -> (r: CascFile)
        ensures
            r.spans == spans,
            r.internal_size == size,
            r.internal_position == 0,
            r.is_open,
            r.cache is None,
            spans_tile(spans@, size as int) ==> r.stream_wf(),
    {
        CascFile {
            spans,
            internal_size: size,
            internal_position: 0,
            is_open: true,
            cache: None,
            cache_start_position: 0,
            cache_end_position: 0,
        }
    }

    /// The total size of the file.
    pub fn size(&self) -> (r: u64)
        ensures
            r == self.internal_size,
    {
        self.internal_size
    }


    /// Whether the cache holds the byte at position `p` and its buffer
    /// length agrees with its window.
    pub open spec fn cache_usable(&self, p: int) -> bool {
        &&& self.cache matches Some(c) && c@.len() == self.cache_end_position
            - self.cache_start_position
        &&& self.cache_start_position <= p < self.cache_end_position
    }

    /// Decodes the frame covering `pos` into the cache. On a well-formed
    /// stream whose content decodes, this succeeds for every position
    /// inside the file; a frame with an encrypted or unknown tag is
    /// refused as unsupported.
    #[verifier::rlimit(100)]
    fn fill_cache(&mut self, pos: u64) -> (r: Result<(), CascError>)
        ensures
            final(self).spans == old(self).spans,
            final(self).internal_size == old(self).internal_size,
            final(self).internal_position == old(self).internal_position,
            final(self).is_open == old(self).is_open,
            old(self).stream_wf() ==> final(self).stream_wf(),
            old(self).stream_wf() && byte_at(old(self).spans@, pos as int) is Some ==> r is Ok,
            r is Ok ==> final(self).cache_usable(pos as int),
            old(self).stream_wf() && unsupported_frame_at(old(self).spans@, pos as int) ==> (
            r is Err && r->Err_0 is UnsupportedFileType),
    {
        let ghost spans0 = self.spans@;
        let ghost size0 = self.internal_size as int;
        let ghost wf0 = old(self).stream_wf();
        let ghost ba = byte_at(spans0, pos as int);
        let si = match find_covering_span(&self.spans, pos) {
            Some(i) => i,
            None => {
                return Err(CascError::Io(String::from_str("Span not found")));
            },
        };
        let fi = match find_covering_frame(&self.spans[si].frames, pos) {
            Some(i) => i,
            None => {
                return Err(CascError::Io(String::from_str("Frame not found")));
            },
        };
        let f = self.spans[si].frames[fi];
        let ghost d = self.spans@[si as int].span_reader.bytes();
        proof {
            if wf0 {
                let sp = spans0[si as int];
                lemma_frames_tile_bounds(
                    sp.frames@,
                    sp.virtual_start_offset as int,
                    sp.virtual_end_offset as int,
                );
                lemma_spans_chain_bounds(spans0, 0, size0);
            }
            if ba is Some {
                assert(decode_frame(d, f) is Some);
            }
        }
        let ao: usize = match usize::try_from(f.archive_offset) {
            Ok(v) => v,
            Err(_) => {
                return Err(CascError::Io(String::from_str("frame out of range")));
            },
        };
        let tag = match self.spans[si].span_reader.byte_at(ao) {
            Ok(b) => b,
            Err(e) => {
                return Err(e);
            },
        };
        let decoded: Vec<u8>;
        if tag == 0x4E {
            decoded = match self.spans[si].span_reader.read_at(ao + 1, f.content_size as usize) {
                Ok(v) => v,
                Err(e) => {
                    return Err(e);
                },
            };
        } else if tag == 0x5A {
            if f.encoded_size == 0 {
                return Err(
                    CascError::InvalidData(String::from_str("frame has no encoded bytes")),
                );
            }
            let encoded = match self.spans[si].span_reader.read_at(
                ao + 1,
                (f.encoded_size - 1) as usize,
            ) {
                Ok(v) => v,
                Err(e) => {
                    return Err(e);
                },
            };
            match crate::zlib::zlib_decompress(encoded.as_slice()) {
                Ok(c) => {
                    if c.len() != f.content_size as usize {
                        return Err(
                            CascError::InvalidData(
                                String::from_str("frame does not expand to its size"),
                            ),
                        );
                    }
                    decoded = c;
                },
                Err(_) => {
                    return Err(
                        CascError::InvalidData(String::from_str("frame does not decompress")),
                    );
                },
            }
        } else {
            return Err(
                CascError::UnsupportedFileType(String::from_str("Unsupported Block Table Type")),
            );
        }
        proof {
            assert(decoded@ == decode_frame(d, f)->0);
        }
        if f.virtual_start_offset > u64::MAX - f.content_size as u64 {
            return Err(
                CascError::InvalidData(String::from_str("frame beyond addressable range")),
            );
        }
        if !(f.virtual_start_offset <= pos && pos - f.virtual_start_offset < f.content_size
            as u64) {
            return Err(
                CascError::InvalidData(String::from_str("frame does not cover its position")),
            );
        }
        self.cache_start_position = f.virtual_start_offset;
        self.cache_end_position = f.virtual_start_offset + f.content_size as u64;
        self.cache = Some(decoded);
        proof {
            if wf0 {
                lemma_decode_len(d, f);
                assert forall|p: int|
                    f.virtual_start_offset <= p < f.virtual_start_offset
                        + f.content_size implies byte_at(spans0, p) == Some(
                    decoded@[p - f.virtual_start_offset],
                ) by {
                    let sp = spans0[si as int];
                    lemma_span_idx_unique(spans0, 0, size0, si as int, p);
                    lemma_frame_idx_unique(
                        sp.frames@,
                        sp.virtual_start_offset as int,
                        sp.virtual_end_offset as int,
                        fi as int,
                        p,
                    );
                }
            }
        }
        Ok(())
    }

    /// Appends `n` bytes of `c` starting at `base` onto `out`.
    fn copy_slice(c: &Vec<u8>, base: usize, n: usize, out: &mut Vec<u8>)
        requires
            base + n <= c@.len(),
        ensures
            final(out)@ == old(out)@ + c@.subrange(base as int, base + n),
    {
        let ghost out_before = out@;
        let cl = c.len();
        let mut k: usize = 0;
        while k < n
            invariant
                k <= n,
                base + n <= c@.len(),
                c@.len() == cl,
                out@ == out_before + c@.subrange(base as int, base + k),
            decreases n - k,
        {
            out.push(c[base + k]);
            assert(out@ =~= out_before + c@.subrange(base as int, base + k + 1));
            k = k + 1;
        }
    }

    /// Copies as much as the cache holds at the current position, up to
    /// the byte budget and the end of the file.
    #[verifier::rlimit(100)]
    #[verifier::spinoff_prover]
    fn copy_from_cache(&mut self, count: usize, out: &mut Vec<u8>) -> (copied: bool)
        requires
            old(out)@.len() < count,
            old(self).internal_position < old(self).internal_size,
        ensures
            final(self).spans == old(self).spans,
            final(self).internal_size == old(self).internal_size,
            final(self).is_open == old(self).is_open,
            final(self).cache == old(self).cache,
            final(self).cache_start_position == old(self).cache_start_position,
            final(self).cache_end_position == old(self).cache_end_position,
            copied == old(self).cache_usable(old(self).internal_position as int),
            !copied ==> final(self).internal_position == old(self).internal_position
                && final(out)@ == old(out)@,
            copied ==> ({
                let n = final(self).internal_position - old(self).internal_position;
                &&& 1 <= n
                &&& final(out)@.len() == old(out)@.len() + n
                &&& final(out)@.len() <= count
                &&& final(self).internal_position <= old(self).internal_size
                &&& (old(self).stream_wf() ==> final(out)@ == old(out)@ + window_bytes(
                    old(self).spans@,
                    old(self).internal_position as int,
                    final(self).internal_position as int,
                )->0 && window_bytes(
                    old(self).spans@,
                    old(self).internal_position as int,
                    final(self).internal_position as int,
                ) is Some)
            }),
    {
        let pos = self.internal_position;
        let ghost wf0 = old(self).stream_wf();
        match &self.cache {
            Some(c) => {
                let clen = c.len();
                if self.cache_start_position <= pos && pos < self.cache_end_position && clen
                    as u64 == self.cache_end_position - self.cache_start_position {
                    let avail64 = self.cache_end_position - pos;
                    let want = count - out.len();
                    let mut n: usize = if avail64 < want as u64 {
                        avail64 as usize
                    } else {
                        want
                    };
                    let lim = self.internal_size - pos;
                    if n as u64 > lim {
                        n = lim as usize;
                    }
                    let base = (pos - self.cache_start_position) as usize;
                    let ghost out_before = out@;
                    CascFile::copy_slice(c, base, n, out);
                    self.internal_position = pos + n as u64;
                    proof {
                        if wf0 {
                            lemma_cache_window(
                                old(self).spans@,
                                c@,
                                self.cache_start_position as int,
                                self.cache_end_position as int,
                                pos as int,
                                pos + n,
                            );
                            assert(c@.subrange(base as int, base + n) =~= c@.subrange(
                                pos - self.cache_start_position,
                                pos + n - self.cache_start_position,
                            ));
                            assert(out@ =~= out_before + c@.subrange(base as int, base + n));
                        }
                    }
                    true
                } else {
                    false
                }
            },
            None => false,
        }
    }

    /// Reads up to `count` bytes at the current position, decoding frames
    /// as the read crosses them and keeping the last decoded frame as the
    /// cache. Reading nothing, or at or past the end, yields no bytes and
    /// leaves the position alone. The read succeeds whenever every
    /// position of the requested window has a decodable frame.
    #[verifier::rlimit(100)]
    #[verifier::spinoff_prover]
    pub fn read(&mut self, count: usize) -> (r: Result<Vec<u8>, CascError>)
        ensures
            final(self).spans == old(self).spans,
            final(self).internal_size == old(self).internal_size,
            final(self).is_open == old(self).is_open,
            old(self).stream_wf() ==> final(self).stream_wf(),
            !old(self).is_open ==> r is Err,
            old(self).is_open && count == 0 ==> (r matches Ok(v) && v@ == Seq::<u8>::empty()
                && final(self).internal_position == old(self).internal_position),
            old(self).is_open && old(self).internal_position >= old(self).internal_size ==> (
            r matches Ok(v) && v@ == Seq::<u8>::empty()
                && final(self).internal_position == old(self).internal_position),
            old(self).is_open && old(self).stream_wf() && old(self).internal_position < old(
                self,
            ).internal_size && count > 0 ==> ({
                let start = old(self).internal_position as int;
                let end = if start + count <= old(self).internal_size {
                    start + count
                } else {
                    old(self).internal_size as int
                };
                window_bytes(old(self).spans@, start, end) matches Some(w) ==> (r matches Ok(v)
                    && v@ == w && final(self).internal_position == end)
            }),
            old(self).is_open && old(self).stream_wf() && content_of(old(self).spans@) is Some
                && old(self).internal_position < old(self).internal_size && count > 0 ==> ({
                let ct = content_of(old(self).spans@)->0;
                let start = old(self).internal_position as int;
                let end = if start + count <= old(self).internal_size {
                    start + count
                } else {
                    old(self).internal_size as int
                };
                r matches Ok(v) && v@ == ct.subrange(start, end)
                    && final(self).internal_position == end
            }),
            old(self).is_open && old(self).stream_wf() && count > 0
                && old(self).internal_position < old(self).internal_size && !old(
                self,
            ).cache_usable(old(self).internal_position as int) && unsupported_frame_at(
                old(self).spans@,
                old(self).internal_position as int,
            ) ==> (r is Err && r->Err_0 is UnsupportedFileType),
    {
        if !self.is_open {
            return Err(CascError::Other(String::from_str("Stream is closed")));
        }
        if self.internal_position >= self.internal_size {
            let empty_out: Vec<u8> = Vec::new();
            assert(empty_out@ =~= Seq::<u8>::empty());
            return Ok(empty_out);
        }
        let ghost start = self.internal_position as int;
        let ghost spans0 = self.spans@;
        let ghost size0 = self.internal_size as int;
        let ghost wf0 = old(self).stream_wf();
        let ghost ct_opt = content_of(spans0);
        let ghost end: int = if start + count <= size0 {
            start + count
        } else {
            size0
        };
        let mut out: Vec<u8> = Vec::new();
        proof {
            assert(out@ =~= Seq::<u8>::empty());
            if wf0 {
                assert(window_bytes(spans0, start, start) == Some(out@)) by {
                    assert(Seq::new(0, |i: int| byte_at(spans0, start + i)->0) =~= out@);
                }
            }
        }
        while out.len() < count && self.internal_position < self.internal_size
            invariant
                spans0 == old(self).spans@,
                size0 == old(self).internal_size as int,
                start == old(self).internal_position as int,
                wf0 == old(self).stream_wf(),
                ct_opt == content_of(spans0),
                end == (if start + count <= size0 {
                    start + count
                } else {
                    size0
                }),
                self.spans == old(self).spans,
                self.internal_size == old(self).internal_size,
                self.is_open == old(self).is_open,
                self.internal_position == start + out@.len(),
                out@.len() <= count,
                start <= self.internal_position <= size0,
                wf0 ==> self.stream_wf(),
                wf0 ==> window_bytes(spans0, start, self.internal_position as int) == Some(out@),
                (wf0 && unsupported_frame_at(spans0, start) && !old(self).cache_usable(start))
                    ==> (self.cache == old(self).cache && self.cache_start_position == old(
                    self,
                ).cache_start_position && self.cache_end_position == old(
                    self,
                ).cache_end_position && self.internal_position == start),
            decreases count - out@.len(), (if self.cache_usable(self.internal_position as int) {
                0int
            } else {
                1int
            }),
        {
            let pos = self.internal_position;
            let ghost out0 = out@;
            let copied = self.copy_from_cache(count, &mut out);
            proof {
                if copied && wf0 {
                    let wa = window_bytes(spans0, start, pos as int);
                    let wb = window_bytes(spans0, pos as int, self.internal_position as int);
                    assert(wa is Some && wb is Some);
                    assert forall|p: int|
                        start <= p < self.internal_position implies (#[trigger] byte_at(
                        spans0,
                        p,
                    )) is Some by {}
                    assert(window_bytes(spans0, start, self.internal_position as int) == Some(
                        out@,
                    )) by {
                        assert(out@ == out0 + wb->0);
                        assert(Seq::new(
                            (self.internal_position - start) as nat,
                            |i: int| byte_at(spans0, start + i)->0,
                        ) =~= out@);
                    }
                }
            }
            if !copied {
                match self.fill_cache(pos) {
                    Ok(()) => {},
                    Err(e) => {
                        proof {
                            if wf0 {
                                match window_bytes(spans0, start, end) {
                                    Some(w) => {
                                        assert(byte_at(spans0, pos as int) is Some);
                                        assert(false);
                                    },
                                    None => {},
                                }
                                if ct_opt is Some {
                                    lemma_content_byte_at(spans0, size0, pos as int);
                                    assert(false);
                                }
                            }
                        }
                        return Err(e);
                    },
                }
            }
        }
        proof {
            if wf0 {
                assert(window_bytes(spans0, start, end) == Some(out@));
                if ct_opt is Some {
                    lemma_spans_content_props(spans0, 0, size0);
                    let ct = ct_opt->0;
                    assert forall|p: int| start <= p < end implies (#[trigger] byte_at(
                        spans0,
                        p,
                    )) == Some(ct[p]) by {
                        lemma_content_byte_at(spans0, size0, p);
                    }
                    assert(out@ =~= ct.subrange(start, end));
                }
            }
        }
        Ok(out)
    }

    /// Moves the read position: from the start to the offset itself, from
    /// the current position or the end by a signed distance. A position
    /// that would fall below zero or beyond the addressable range is
    /// refused and the position stands unchanged.
    pub fn seek(&mut self, pos: SeekFrom) -> (r: Result<u64, CascError>)
        ensures
            final(self).spans == old(self).spans,
            final(self).internal_size == old(self).internal_size,
            final(self).is_open == old(self).is_open,
            final(self).cache == old(self).cache,
            final(self).cache_start_position == old(self).cache_start_position,
            final(self).cache_end_position == old(self).cache_end_position,
            ({
                let target: int = match pos {
                    SeekFrom::Start(o) => o as int,
                    SeekFrom::Current(d) => old(self).internal_position + d,
                    SeekFrom::End(d) => old(self).internal_size + d,
                };
                &&& r is Ok <==> 0 <= target <= u64::MAX
                &&& r matches Ok(p) ==> p == target && final(self).internal_position == target
                &&& r is Err ==> final(self).internal_position == old(self).internal_position
            }),
    {
        match pos {
            SeekFrom::Start(offset) => {
                self.internal_position = offset;
                Ok(self.internal_position)
            },
            SeekFrom::Current(delta) => {
                let base = self.internal_position as i128;
                let target = base + delta as i128;
                if target < 0 || target > u64::MAX as i128 {
                    return Err(CascError::Io(String::from_str("seek out of range")));
                }
                self.internal_position = target as u64;
                Ok(self.internal_position)
            },
            SeekFrom::End(delta) => {
                let base = self.internal_size as i128;
                let target = base + delta as i128;
                if target < 0 || target > u64::MAX as i128 {
                    return Err(CascError::Io(String::from_str("seek out of range")));
                }
                self.internal_position = target as u64;
                Ok(self.internal_position)
            },
        }
    }
}

} // verus!
