use vstd::prelude::*;

use crate::bytes::{u16_le, u32_le, ByteReader};
use crate::error::CascError;

verus! {

/// The 30-byte header standing before each span's block table in an
/// archive. The reader advances past it without validating its fields.
#[derive(Debug, Clone, PartialEq, Eq)]
pub struct CascSpanHeader {
    /// The encoding key of the span.
    pub encoding_key: Vec<u8>,
    /// The size of the content in bytes, as stored.
    pub content_size: u32,
    /// Flags associated with the span.
    pub flags: u16,
    /// Jenkins hash of the span data.
    pub jenkins_hash: u32,
    /// Checksum of the header.
    pub checksum: u32,
}

impl CascSpanHeader {
    /// An empty header with zeroed fields.
    pub fn new() -> (r: CascSpanHeader)
        ensures
            r.encoding_key@ == Seq::new(16, |i: int| 0u8),
            r.content_size == 0,
            r.flags == 0,
            r.jenkins_hash == 0,
            r.checksum == 0,
    {
        let mut key: Vec<u8> = Vec::new();
        let mut i: usize = 0;
        while i < 16
            invariant
                i <= 16,
                key@ =~= Seq::new(i as nat, |j: int| 0u8),
            decreases 16 - i,
        {
            key.push(0);
            assert(key@ =~= Seq::new((i + 1) as nat, |j: int| 0u8));
            i = i + 1;
        }
        CascSpanHeader { encoding_key: key, content_size: 0, flags: 0, jenkins_hash: 0, checksum: 0 }
    }

    /// Parses the 30 header bytes at the reader's cursor.
    pub fn read(r: &mut ByteReader) -> (res: Result<CascSpanHeader, CascError>)
        ensures
            final(r).bytes() == old(r).bytes(),
            res is Ok <==> old(r).cursor() + 30 <= old(r).bytes().len(),
            res matches Ok(h) ==> {
                let s = old(r).bytes();
                let p = old(r).cursor();
                &&& h.encoding_key@ == s.subrange(p, p + 16)
                &&& h.content_size == u32_le(s.subrange(p + 16, p + 20))
                &&& h.flags == u16_le(s.subrange(p + 20, p + 22))
                &&& h.jenkins_hash == u32_le(s.subrange(p + 22, p + 26))
                &&& h.checksum == u32_le(s.subrange(p + 26, p + 30))
                &&& final(r).cursor() == p + 30
            },
    {
        let encoding_key = r.read_bytes(16)?;
        let content_size = r.read_u32_le()?;
        let flags = r.read_u16_le()?;
        let jenkins_hash = r.read_u32_le()?;
        let checksum = r.read_u32_le()?;
        Ok(CascSpanHeader { encoding_key, content_size, flags, jenkins_hash, checksum })
    }
}

} // verus!
