use vstd::prelude::*;

use crate::error::CascError;

verus! {

broadcast use vstd::std_specs::vec::group_vec_axioms;

/// The value of a little-endian 16-bit field.
pub open spec fn u16_le(s: Seq<u8>) -> int
    recommends
        s.len() == 2,
{
    s[0] + 256 * s[1]
}

/// The value of a little-endian 32-bit field.
pub open spec fn u32_le(s: Seq<u8>) -> int
    recommends
        s.len() == 4,
{
    s[0] + 256 * (s[1] + 256 * (s[2] + 256 * s[3]))
}

/// The value of a little-endian 64-bit field.
pub open spec fn u64_le(s: Seq<u8>) -> int
    recommends
        s.len() == 8,
{
    s[0] + 256 * (s[1] + 256 * (s[2] + 256 * (s[3] + 256 * (s[4] + 256 * (s[5] + 256 * (s[6]
        + 256 * s[7]))))))
}

/// The value of a big-endian 16-bit field.
pub open spec fn u16_be(s: Seq<u8>) -> int
    recommends
        s.len() == 2,
{
    s[1] + 256 * s[0]
}

/// The value of a big-endian 24-bit field.
pub open spec fn u24_be(s: Seq<u8>) -> int
    recommends
        s.len() == 3,
{
    s[2] + 256 * (s[1] + 256 * s[0])
}

/// The value of a big-endian 32-bit field.
pub open spec fn u32_be(s: Seq<u8>) -> int
    recommends
        s.len() == 4,
{
    s[3] + 256 * (s[2] + 256 * (s[1] + 256 * s[0]))
}

/// The value of a big-endian 40-bit field.
pub open spec fn u40_be(s: Seq<u8>) -> int
    recommends
        s.len() == 5,
{
    s[4] + 256 * (s[3] + 256 * (s[2] + 256 * (s[1] + 256 * s[0])))
}

/// A cursor over an in-memory byte buffer.
///
/// All binary tables of a CASC storage are parsed through this reader;
/// multi-byte integers are read with an explicit endianness per call.
#[derive(Debug)]
pub struct ByteReader {
    data: Vec<u8>,
    pos: usize,
}

impl ByteReader {
    /// The bytes the reader ranges over.
    pub closed spec fn bytes(&self) -> Seq<u8> {
        self.data@
    }

    /// The current cursor position.
    pub closed spec fn cursor(&self) -> int {
        self.pos as int
    }

    /// A reader's cursor never stands below zero.
    pub broadcast proof fn lemma_cursor_nonneg(&self)
        ensures
            #[trigger] self.cursor() >= 0,
    {
    }

    /// A reader's buffer is addressable.
    pub broadcast proof fn lemma_len_bound(&self)
        ensures
            #[trigger] self.bytes().len() <= usize::MAX,
    {
        assert(self.data.len() == self.data@.len());
    }

    pub fn new(data: Vec<u8>) -> (r: ByteReader)
        ensures
            r.bytes() == data@,
            r.cursor() == 0,
    {
        ByteReader { data, pos: 0 }
    }

    pub fn position(&self) -> (r: usize)
        ensures
            r == self.cursor(),
    {
        self.pos
    }

    pub fn len(&self) -> (r: usize)
        ensures
            r == self.bytes().len(),
    {
        self.data.len()
    }

    /// Moves the cursor to an absolute position; no bounds are required,
    /// a later read past the end fails instead.
    pub fn seek_to(&mut self, p: usize)
        ensures
            final(self).bytes() == old(self).bytes(),
            final(self).cursor() == p,
    {
        self.pos = p;
    }

    /// Skips forward over the given number of bytes.
    pub fn skip(&mut self, n: usize) -> (r: Result<(), CascError>)
        ensures
            final(self).bytes() == old(self).bytes(),
            r is Ok <==> old(self).cursor() + n <= usize::MAX,
            r is Ok ==> final(self).cursor() == old(self).cursor() + n,
            r is Err ==> final(self).cursor() == old(self).cursor(),
    {
        if n <= usize::MAX - self.pos {
            self.pos = self.pos + n;
            Ok(())
        } else {
            Err(CascError::Io(String::from_str("seek beyond addressable range")))
        }
    }

    /// Reads one byte without advancing the cursor.
    pub fn peek_byte(&self) -> (r: Result<u8, CascError>)
        ensures
            r is Ok <==> 0 <= self.cursor() < self.bytes().len(),
            r is Ok ==> r->Ok_0 == self.bytes()[self.cursor()],
            r is Err ==> r->Err_0 is Io,
    {
        if self.pos < self.data.len() {
            Ok(self.data[self.pos])
        } else {
            Err(CascError::Io(String::from_str("unexpected end of data")))
        }
    }

    pub fn read_u8(&mut self) -> (r: Result<u8, CascError>)
        ensures
            final(self).bytes() == old(self).bytes(),
            r is Ok <==> old(self).cursor() + 1 <= old(self).bytes().len(),
            r is Ok ==> r->Ok_0 == old(self).bytes()[old(self).cursor()] && final(self).cursor()
                == old(self).cursor() + 1,
            r is Err ==> final(self).cursor() == old(self).cursor(),
    {
        if self.pos < self.data.len() {
            let b = self.data[self.pos];
            self.pos = self.pos + 1;
            Ok(b)
        } else {
            Err(CascError::Io(String::from_str("unexpected end of data")))
        }
    }

    /// Reads `n` bytes as an owned buffer.
    pub fn read_bytes(&mut self, n: usize) -> (r: Result<Vec<u8>, CascError>)
        ensures
            final(self).bytes() == old(self).bytes(),
            r is Ok <==> old(self).cursor() + n <= old(self).bytes().len(),
            r is Ok ==> r->Ok_0@ == old(self).bytes().subrange(
                old(self).cursor(),
                old(self).cursor() + n,
            ) && final(self).cursor() == old(self).cursor() + n,
            r is Err ==> final(self).cursor() == old(self).cursor(),
    {
        if n <= self.data.len() && self.pos <= self.data.len() - n {
            let mut out: Vec<u8> = Vec::new();
            let mut i: usize = 0;
            while i < n
                invariant
                    self.pos + n <= self.data.len(),
                    i <= n,
                    out@ == self.data@.subrange(self.pos as int, self.pos + i),
                decreases n - i,
            {
                out.push(self.data[self.pos + i]);
                assert(out@ =~= self.data@.subrange(self.pos as int, self.pos + i + 1));
                i = i + 1;
            }
            self.pos = self.pos + n;
            Ok(out)
        } else {
            Err(CascError::Io(String::from_str("unexpected end of data")))
        }
    }

    /// Reads one byte at an absolute position, leaving the cursor alone.
    pub fn byte_at(&self, off: usize) -> (r: Result<u8, CascError>)
        ensures
            r is Ok <==> off < self.bytes().len(),
            r matches Ok(b) ==> b == self.bytes()[off as int],
    {
        if off < self.data.len() {
            Ok(self.data[off])
        } else {
            Err(CascError::Io(String::from_str("unexpected end of data")))
        }
    }

    /// Reads `n` bytes at an absolute position, leaving the cursor alone.
    pub fn read_at(&self, off: usize, n: usize) -> (r: Result<Vec<u8>, CascError>)
        ensures
            r is Ok <==> off + n <= self.bytes().len(),
            r matches Ok(v) ==> v@ == self.bytes().subrange(off as int, off + n),
    {
        let dl = self.data.len();
        if n <= dl && off <= dl - n {
            let mut out: Vec<u8> = Vec::new();
            let mut i: usize = 0;
            while i < n
                invariant
                    off + n <= self.data@.len(),
                    self.data@.len() == dl,
                    i <= n,
                    out@ == self.data@.subrange(off as int, off + i),
                decreases n - i,
            {
                out.push(self.data[off + i]);
                assert(out@ =~= self.data@.subrange(off as int, off + i + 1));
                i = i + 1;
            }
            Ok(out)
        } else {
            Err(CascError::Io(String::from_str("unexpected end of data")))
        }
    }

    /// Drains the rest of the buffer.
    pub fn read_to_end(&mut self) -> (r: Vec<u8>)
        ensures
            final(self).bytes() == old(self).bytes(),
            final(self).cursor() == final(self).bytes().len(),
            old(self).cursor() <= old(self).bytes().len() ==> r@ == old(self).bytes().subrange(
                old(self).cursor(),
                old(self).bytes().len() as int,
            ),
            old(self).cursor() > old(self).bytes().len() ==> r@ == Seq::<u8>::empty(),
    {
        let n = if self.pos <= self.data.len() {
            self.data.len() - self.pos
        } else {
            0
        };
        let r = match self.read_bytes(n) {
            Ok(v) => v,
            Err(_) => Vec::new(),
        };
        self.pos = self.data.len();
        r
    }

    pub fn read_u16_le(&mut self) -> (r: Result<u16, CascError>)
        ensures
            final(self).bytes() == old(self).bytes(),
            r is Ok <==> old(self).cursor() + 2 <= old(self).bytes().len(),
            r is Ok ==> r->Ok_0 == u16_le(
                old(self).bytes().subrange(old(self).cursor(), old(self).cursor() + 2),
            ) && final(self).cursor() == old(self).cursor() + 2,
            r is Err ==> final(self).cursor() == old(self).cursor(),
    {
        let b = self.read_bytes(2)?;
        Ok(b[0] as u16 + 256 * (b[1] as u16))
    }

    pub fn read_u32_le(&mut self) -> (r: Result<u32, CascError>)
        ensures
            final(self).bytes() == old(self).bytes(),
            r is Ok <==> old(self).cursor() + 4 <= old(self).bytes().len(),
            r is Ok ==> r->Ok_0 == u32_le(
                old(self).bytes().subrange(old(self).cursor(), old(self).cursor() + 4),
            ) && final(self).cursor() == old(self).cursor() + 4,
            r is Err ==> final(self).cursor() == old(self).cursor(),
    {
        let b = self.read_bytes(4)?;
        Ok(b[0] as u32 + 256 * (b[1] as u32 + 256 * (b[2] as u32 + 256 * (b[3] as u32))))
    }

    pub fn read_u64_le(&mut self) -> (r: Result<u64, CascError>)
        ensures
            final(self).bytes() == old(self).bytes(),
            r is Ok <==> old(self).cursor() + 8 <= old(self).bytes().len(),
            r is Ok ==> r->Ok_0 == u64_le(
                old(self).bytes().subrange(old(self).cursor(), old(self).cursor() + 8),
            ) && final(self).cursor() == old(self).cursor() + 8,
            r is Err ==> final(self).cursor() == old(self).cursor(),
    {
        let b = self.read_bytes(8)?;
        Ok(
            b[0] as u64 + 256 * (b[1] as u64 + 256 * (b[2] as u64 + 256 * (b[3] as u64 + 256 * (
            b[4] as u64 + 256 * (b[5] as u64 + 256 * (b[6] as u64 + 256 * (b[7] as u64))))))),
        )
    }

    pub fn read_u16_be(&mut self) -> (r: Result<u16, CascError>)
        ensures
            final(self).bytes() == old(self).bytes(),
            r is Ok <==> old(self).cursor() + 2 <= old(self).bytes().len(),
            r is Ok ==> r->Ok_0 == u16_be(
                old(self).bytes().subrange(old(self).cursor(), old(self).cursor() + 2),
            ) && final(self).cursor() == old(self).cursor() + 2,
            r is Err ==> final(self).cursor() == old(self).cursor(),
    {
        let b = self.read_bytes(2)?;
        Ok(b[1] as u16 + 256 * (b[0] as u16))
    }

    pub fn read_u24_be(&mut self) -> (r: Result<u32, CascError>)
        ensures
            final(self).bytes() == old(self).bytes(),
            r is Ok <==> old(self).cursor() + 3 <= old(self).bytes().len(),
            r is Ok ==> r->Ok_0 == u24_be(
                old(self).bytes().subrange(old(self).cursor(), old(self).cursor() + 3),
            ) && final(self).cursor() == old(self).cursor() + 3,
            r is Err ==> final(self).cursor() == old(self).cursor(),
    {
        let b = self.read_bytes(3)?;
        Ok(b[2] as u32 + 256 * (b[1] as u32 + 256 * (b[0] as u32)))
    }

    pub fn read_u32_be(&mut self) -> (r: Result<u32, CascError>)
        ensures
            final(self).bytes() == old(self).bytes(),
            r is Ok <==> old(self).cursor() + 4 <= old(self).bytes().len(),
            r is Ok ==> r->Ok_0 == u32_be(
                old(self).bytes().subrange(old(self).cursor(), old(self).cursor() + 4),
            ) && final(self).cursor() == old(self).cursor() + 4,
            r is Err ==> final(self).cursor() == old(self).cursor(),
    {
        let b = self.read_bytes(4)?;
        Ok(b[3] as u32 + 256 * (b[2] as u32 + 256 * (b[1] as u32 + 256 * (b[0] as u32))))
    }

    pub fn read_u40_be(&mut self) -> (r: Result<u64, CascError>)
        ensures
            final(self).bytes() == old(self).bytes(),
            r is Ok <==> old(self).cursor() + 5 <= old(self).bytes().len(),
            r is Ok ==> r->Ok_0 == u40_be(
                old(self).bytes().subrange(old(self).cursor(), old(self).cursor() + 5),
            ) && final(self).cursor() == old(self).cursor() + 5,
            r is Err ==> final(self).cursor() == old(self).cursor(),
    {
        let b = self.read_bytes(5)?;
        Ok(
            b[4] as u64 + 256 * (b[3] as u64 + 256 * (b[2] as u64 + 256 * (b[1] as u64 + 256 * (
            b[0] as u64)))),
        )
    }
}

} // verus!
