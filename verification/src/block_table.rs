use vstd::prelude::*;

use crate::bytes::{u24_be, u32_be, u32_le, u64_le, ByteReader};
use crate::error::CascError;

verus! {

/// How the data of one frame is stored on disk.
#[derive(Debug, Clone, Copy, PartialEq, Eq, Structural)]
pub enum BlockTableEncoderType {
    /// Plain raw data, uncompressed and unencrypted.
    Raw,
    /// ZLib compressed data.
    ZLib,
    /// Encrypted data; recognized but refused.
    Encrypted,
    /// Any other tag byte, carried along unchanged.
    Unknown(u8),
}

/// The encoder type that a frame's tag byte denotes.
pub open spec fn encoder_type_of(b: u8) -> BlockTableEncoderType {
    if b == 0x4E {
        BlockTableEncoderType::Raw
    } else if b == 0x5A {
        BlockTableEncoderType::ZLib
    } else if b == 0x45 {
        BlockTableEncoderType::Encrypted
    } else {
        BlockTableEncoderType::Unknown(b)
    }
}

impl From<u8> for BlockTableEncoderType {
    fn from(byte: u8) -> (r: BlockTableEncoderType)
        ensures
            r == encoder_type_of(byte),
    {
        if byte == 0x4E {
            BlockTableEncoderType::Raw
        } else if byte == 0x5A {
            BlockTableEncoderType::ZLib
        } else if byte == 0x45 {
            BlockTableEncoderType::Encrypted
        } else {
            BlockTableEncoderType::Unknown(byte)
        }
    }
}

impl vstd::std_specs::convert::FromSpecImpl<u8> for BlockTableEncoderType {
    open spec fn obeys_from_spec() -> bool {
        true
    }

    open spec fn from_spec(byte: u8) -> BlockTableEncoderType {
        encoder_type_of(byte)
    }
}

/// The header of a block table: a `BLTE` signature, the header size, the
/// table format, and a 24-bit big-endian frame count.
#[derive(Debug, Clone, Copy, PartialEq, Eq, Structural)]
pub struct BlockTableHeader {
    /// The signature bytes read as a little-endian word; `B L T E` on disk.
    pub signature: u32,
    /// The size of the header in bytes.
    pub header_size: u32,
    /// The format version of the table.
    pub table_format: u8,
    /// The number of frames, decoded from three big-endian bytes.
    pub frame_count: u32,
}

/// The signature bytes `B L T E` read as a little-endian word.
pub const BLTE_SIGNATURE: u32 = 0x45544C42;

impl BlockTableHeader {
    /// Parses the twelve header bytes at the reader's cursor.
    pub fn read(r: &mut ByteReader) -> (res: Result<BlockTableHeader, CascError>)
        ensures
            final(r).bytes() == old(r).bytes(),
            res is Ok <==> old(r).cursor() + 12 <= old(r).bytes().len(),
            res matches Ok(h) ==> {
                let s = old(r).bytes();
                let p = old(r).cursor();
                &&& h.signature == u32_le(s.subrange(p, p + 4))
                &&& h.header_size == u32_le(s.subrange(p + 4, p + 8))
                &&& h.table_format == s[p + 8]
                &&& h.frame_count == u24_be(s.subrange(p + 9, p + 12))
                &&& final(r).cursor() == p + 12
            },
    {
        let signature = r.read_u32_le()?;
        let header_size = r.read_u32_le()?;
        let table_format = match r.read_u8() {
            Ok(b) => b,
            Err(e) => {
                return Err(e);
            },
        };
        let frame_count = match r.read_u24_be() {
            Ok(v) => v,
            Err(e) => {
                return Err(e);
            },
        };
        Ok(BlockTableHeader { signature, header_size, table_format, frame_count })
    }
}

/// One frame descriptor of a block table: big-endian sizes and a 128-bit
/// hash split in two words.
#[derive(Debug, Clone, Copy, PartialEq, Eq, Structural)]
pub struct BlockTableEntry {
    /// The encoded size of the frame's bytes on disk.
    pub encoded_size: u32,
    /// The decoded content size of the frame.
    pub content_size: u32,
    /// Lower half of the frame's hash.
    pub hash_lower: u64,
    /// Upper half of the frame's hash.
    pub hash_upper: u64,
}

impl BlockTableEntry {
    /// Parses one 24-byte frame descriptor at the reader's cursor.
    pub fn read(r: &mut ByteReader) -> (res: Result<BlockTableEntry, CascError>)
        ensures
            final(r).bytes() == old(r).bytes(),
            res is Ok <==> old(r).cursor() + 24 <= old(r).bytes().len(),
            res matches Ok(e) ==> {
                let s = old(r).bytes();
                let p = old(r).cursor();
                &&& e.encoded_size == u32_be(s.subrange(p, p + 4))
                &&& e.content_size == u32_be(s.subrange(p + 4, p + 8))
                &&& e.hash_lower == u64_le(s.subrange(p + 8, p + 16))
                &&& e.hash_upper == u64_le(s.subrange(p + 16, p + 24))
                &&& final(r).cursor() == p + 24
            },
    {
        let encoded_size = r.read_u32_be()?;
        let content_size = r.read_u32_be()?;
        let hash_lower = r.read_u64_le()?;
        let hash_upper = r.read_u64_le()?;
        Ok(BlockTableEntry { encoded_size, content_size, hash_lower, hash_upper })
    }
}

} // verus!
