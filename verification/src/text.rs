use vstd::prelude::*;

use crate::bytes::ByteReader;
use crate::error::CascError;

verus! {

broadcast use vstd::std_specs::vec::group_vec_axioms;

/// The byte width of a UTF-8 sequence with this lead byte, or 0 when the
/// byte cannot lead a sequence.
pub open spec fn utf8_width(b: u8) -> int {
    if b < 0x80 {
        1
    } else if 0xC0 <= b && b <= 0xDF {
        2
    } else if 0xE0 <= b && b <= 0xEF {
        3
    } else if 0xF0 <= b && b <= 0xF7 {
        4
    } else {
        0
    }
}

/// Whether a byte is a UTF-8 continuation byte.
pub open spec fn utf8_is_cont(b: u8) -> bool {
    0x80 <= b && b <= 0xBF
}

/// The code point held by one UTF-8 sequence, assuming widths and
/// continuation bytes are in order.
pub open spec fn utf8_cp(s: Seq<u8>) -> int
    recommends
        1 <= s.len() <= 4,
{
    if s.len() == 1 {
        s[0] as int
    } else if s.len() == 2 {
        (s[0] as int - 0xC0) * 0x40 + (s[1] as int - 0x80)
    } else if s.len() == 3 {
        (s[0] as int - 0xE0) * 0x1000 + (s[1] as int - 0x80) * 0x40 + (s[2] as int - 0x80)
    } else {
        (s[0] as int - 0xF0) * 0x40000 + (s[1] as int - 0x80) * 0x1000 + (s[2] as int - 0x80)
            * 0x40 + (s[3] as int - 0x80)
    }
}

/// The smallest code point that a sequence of the given width may encode;
/// anything below it is an overlong encoding.
pub open spec fn utf8_min_cp(w: int) -> int {
    if w == 1 {
        0
    } else if w == 2 {
        0x80
    } else if w == 3 {
        0x800
    } else {
        0x10000
    }
}

/// Whether a code point is a Unicode scalar value.
pub open spec fn is_unicode_scalar(v: int) -> bool {
    0 <= v <= 0x10FFFF && !(0xD800 <= v <= 0xDFFF)
}

/// Whether the bytes form exactly one well-formed UTF-8 character.
pub open spec fn utf8_char_ok(s: Seq<u8>) -> bool {
    &&& s.len() >= 1
    &&& utf8_width(s[0]) == s.len()
    &&& forall|i: int| 1 <= i < s.len() ==> utf8_is_cont(#[trigger] s[i])
    &&& utf8_cp(s) >= utf8_min_cp(s.len() as int)
    &&& is_unicode_scalar(utf8_cp(s))
}

/// Decodes up to `count` characters from the front of `s`, stopping cleanly
/// at the end of the bytes. Yields the characters and the bytes consumed,
/// or nothing when a malformed sequence stands in the way.
pub open spec fn utf8_decode_prefix(s: Seq<u8>, count: nat) -> Option<(Seq<char>, int)>
    decreases count,
{
    if count == 0 || s.len() == 0 {
        Some((Seq::<char>::empty(), 0))
    } else {
        let w = utf8_width(s[0]);
        if w == 0 || s.len() < w || !utf8_char_ok(s.take(w)) {
            None
        } else {
            match utf8_decode_prefix(s.skip(w), (count - 1) as nat) {
                None => None,
                Some((cs, n)) => Some((seq![utf8_cp(s.take(w)) as char].add(cs), w + n)),
            }
        }
    }
}

/// Whether the whole byte sequence is well-formed UTF-8, and what it says.
pub open spec fn utf8_decode_all(s: Seq<u8>) -> Option<Seq<char>> {
    match utf8_decode_prefix(s, s.len()) {
        None => None,
        Some((cs, n)) => if n == s.len() {
            Some(cs)
        } else {
            None
        },
    }
}

/// Whether the first undecodable character of `s` fails by truncation:
/// a valid lead byte whose continuation bytes run out at the end of the
/// buffer, every byte present being a well-formed continuation. Any
/// other failure is a malformed sequence.
pub open spec fn utf8_failure_truncated(s: Seq<u8>, count: nat) -> bool
    decreases count,
{
    if count == 0 || s.len() == 0 {
        false
    } else {
        let w = utf8_width(s[0]);
        if w == 0 {
            false
        } else if s.len() < w {
            forall|i: int| 1 <= i < s.len() ==> utf8_is_cont(#[trigger] s[i])
        } else if !utf8_char_ok(s.take(w)) {
            false
        } else {
            utf8_failure_truncated(s.skip(w), (count - 1) as nat)
        }
    }
}

/// Decoding with a character budget at least as large as the byte count
/// consumes the whole buffer.
pub proof fn lemma_decode_prefix_full(s: Seq<u8>, count: nat)
    requires
        count >= s.len(),
        utf8_decode_prefix(s, count) is Some,
    ensures
        ({
            let (cs, n) = utf8_decode_prefix(s, count)->0;
            n == s.len()
        }),
    decreases count,
{
    if count == 0 || s.len() == 0 {
    } else {
        let w = utf8_width(s[0]);
        lemma_decode_prefix_full(s.skip(w), (count - 1) as nat);
    }
}

/// A successful decode consumes between zero bytes and the whole buffer.
pub proof fn lemma_decode_prefix_bounds(s: Seq<u8>, count: nat)
    requires
        utf8_decode_prefix(s, count) is Some,
    ensures
        ({
            let (cs, n) = utf8_decode_prefix(s, count)->0;
            0 <= n <= s.len()
        }),
    decreases count,
{
    if count == 0 || s.len() == 0 {
    } else {
        let w = utf8_width(s[0]);
        lemma_decode_prefix_bounds(s.skip(w), (count - 1) as nat);
    }
}

/// Relies on char::from_u32: it returns `Some` exactly on Unicode scalar
/// values, and the character returned has the given code point.
#[verifier::external_body]
fn char_from_u32(v: u32) -> (r: Option<char>)
    ensures
        r is Some <==> is_unicode_scalar(v as int),
        r matches Some(c) ==> c as int == v as int,
{
    char::from_u32(v)
}

/// Relies on String's FromIterator over char: the characters are collected
/// in order into the resulting string.
#[verifier::external_body]
pub(crate) fn chars_to_string(v: Vec<char>) -> (r: String)
    ensures
        r@ == v@,
{
    String::from_iter(v)
}

/// Turns rows of characters into strings, in order.
pub(crate) fn strings_of_rows(v: &Vec<Vec<char>>) -> (r: Vec<String>)
    ensures
        r.deep_view() == v.deep_view(),
{
    let mut r: Vec<String> = Vec::new();
    let mut j: usize = 0;
    while j < v.len()
        invariant
            j <= v@.len(),
            r.deep_view() =~= v.deep_view().take(j as int),
        decreases v@.len() - j,
    {
        let f = v[j].clone();
        proof {
            assert(f.deep_view() =~= f@);
            assert(f@ =~= v.deep_view()[j as int]);
        }
        let ghost rdv0 = r.deep_view();
        let fs = chars_to_string(f);
        let ghost sv = fs@;
        r.push(fs);
        proof {
            assert(r.deep_view() =~~= rdv0.push(sv));
            assert(rdv0.push(sv) =~= v.deep_view().take(j + 1));
        }
        j = j + 1;
    }
    proof {
        assert(r.deep_view() =~= v.deep_view());
    }
    r
}

impl ByteReader {
    /// Reads up to `count` UTF-8 characters, advancing only by the bytes
    /// consumed, and stopping cleanly when the buffer ends between
    /// characters.
    pub fn read_chars(&mut self, count: usize) -> (r: Result<Vec<char>, CascError>)
        ensures
            final(self).bytes() == old(self).bytes(),
            0 <= old(self).cursor() <= old(self).bytes().len() ==> {
                let tail = old(self).bytes().skip(old(self).cursor());
                match utf8_decode_prefix(tail, count as nat) {
                    Some((cs, n)) => r matches Ok(v) && v@ == cs && final(self).cursor()
                        == old(self).cursor() + n,
                    None => r is Err && (if utf8_failure_truncated(tail, count as nat) {
                        r->Err_0 is Io
                    } else {
                        r->Err_0 is InvalidData
                    }),
                }
            },
            old(self).cursor() > old(self).bytes().len() ==> (r matches Ok(v) && v@
                == Seq::<char>::empty() && final(self).cursor() == old(self).cursor()),
    {
        let mut out: Vec<char> = Vec::new();
        if self.position() > self.len() {
            return Ok(out);
        }
        match self.read_chars_into(count, &mut out) {
            Ok(()) => Ok(out),
            Err(e) => Err(e),
        }
    }

    /// Decodes characters one at a time, following the recursion of
    /// `utf8_decode_prefix`.
    fn read_chars_into(&mut self, count: usize, out: &mut Vec<char>) -> (r: Result<(), CascError>)
        requires
            0 <= old(self).cursor() <= old(self).bytes().len(),
        ensures
            final(self).bytes() == old(self).bytes(),
            0 <= final(self).cursor() <= final(self).bytes().len(),
            ({
                let tail = old(self).bytes().skip(old(self).cursor());
                match utf8_decode_prefix(tail, count as nat) {
                    Some((cs, n)) => r is Ok && final(out)@ == old(out)@ + cs
                        && final(self).cursor() == old(self).cursor() + n,
                    None => r is Err && (if utf8_failure_truncated(tail, count as nat) {
                        r->Err_0 is Io
                    } else {
                        r->Err_0 is InvalidData
                    }),
                }
            }),
        decreases count,
    {
        let ghost tail = self.bytes().skip(self.cursor());
        let ghost pos0 = self.cursor();
        if count == 0 || self.position() == self.len() {
            assert(out@ =~= old(out)@ + Seq::<char>::empty());
            return Ok(());
        }
        let lead = match self.read_u8() {
            Ok(b) => b,
            Err(_) => {
                return Err(CascError::Io(String::from_str("unexpected end of data")));
            },
        };
        assert(lead == tail[0]);
        let w: usize = if lead < 0x80 {
            1
        } else if 0xC0 <= lead && lead <= 0xDF {
            2
        } else if 0xE0 <= lead && lead <= 0xEF {
            3
        } else if 0xF0 <= lead && lead <= 0xF7 {
            4
        } else {
            return Err(CascError::InvalidData(String::from_str("invalid UTF-8 lead byte")));
        };
        assert(w == utf8_width(tail[0]));
        let cp: u32;
        if w == 1 {
            cp = lead as u32;
        } else {
            let b1 = match self.read_u8() {
                Ok(b) => b,
                Err(_) => {
                    return Err(CascError::Io(String::from_str("unexpected end of data")));
                },
            };
            assert(b1 == tail[1]);
            if !(0x80 <= b1 && b1 <= 0xBF) {
                return Err(
                    CascError::InvalidData(String::from_str("invalid UTF-8 continuation byte")),
                );
            }
            if w == 2 {
                cp = (lead as u32 - 0xC0) * 0x40 + (b1 as u32 - 0x80);
            } else {
                let b2 = match self.read_u8() {
                    Ok(b) => b,
                    Err(_) => {
                        return Err(CascError::Io(String::from_str("unexpected end of data")));
                    },
                };
                assert(b2 == tail[2]);
                if !(0x80 <= b2 && b2 <= 0xBF) {
                    return Err(
                        CascError::InvalidData(
                            String::from_str("invalid UTF-8 continuation byte"),
                        ),
                    );
                }
                if w == 3 {
                    cp = (lead as u32 - 0xE0) * 0x1000 + (b2 as u32 - 0x80) + (b1 as u32 - 0x80)
                        * 0x40;
                } else {
                    let b3 = match self.read_u8() {
                        Ok(b) => b,
                        Err(_) => {
                            return Err(
                                CascError::Io(String::from_str("unexpected end of data")),
                            );
                        },
                    };
                    assert(b3 == tail[3]);
                    if !(0x80 <= b3 && b3 <= 0xBF) {
                        return Err(
                            CascError::InvalidData(
                                String::from_str("invalid UTF-8 continuation byte"),
                            ),
                        );
                    }
                    cp = (lead as u32 - 0xF0) * 0x40000 + (b1 as u32 - 0x80) * 0x1000 + (b2
                        as u32 - 0x80) * 0x40 + (b3 as u32 - 0x80);
                }
            }
        }
        let ghost chunk = tail.take(w as int);
        assert(w <= tail.len() && cp == utf8_cp(chunk) && forall|i: int|
            1 <= i < chunk.len() ==> utf8_is_cont(#[trigger] chunk[i]));
        let min: u32 = if w == 1 {
            0
        } else if w == 2 {
            0x80
        } else if w == 3 {
            0x800
        } else {
            0x10000
        };
        if cp < min {
            return Err(CascError::InvalidData(String::from_str("overlong UTF-8 encoding")));
        }
        let c = match char_from_u32(cp) {
            Some(c) => c,
            None => {
                return Err(
                    CascError::InvalidData(String::from_str("invalid Unicode scalar value")),
                );
            },
        };
        assert(utf8_char_ok(chunk));
        out.push(c);
        let ghost mid_out = out@;
        let r = self.read_chars_into(count - 1, out);
        proof {
            assert(self.bytes().skip(pos0 + w) =~= tail.skip(w as int));
            if r is Ok {
                match utf8_decode_prefix(tail.skip(w as int), (count - 1) as nat) {
                    Some((cs, n)) => {
                        assert(out@ =~= old(out)@ + (seq![utf8_cp(chunk) as char].add(cs)));
                    },
                    None => {},
                }
            }
        }
        r
    }
}

} // verus!
