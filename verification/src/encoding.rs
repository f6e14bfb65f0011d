use vstd::prelude::*;

verus! {

/// The standard base64 alphabet character for a 6-bit index.
pub open spec fn b64_char(i: int) -> char
    recommends
        0 <= i < 64,
{
    if 0 <= i < 26 {
        (('A' as int) + i) as char
    } else if 26 <= i < 52 {
        (('a' as int) + (i - 26)) as char
    } else if 52 <= i < 62 {
        (('0' as int) + (i - 52)) as char
    } else if i == 62 {
        '+'
    } else {
        '/'
    }
}

/// Standard base64 of a byte string: four alphabet characters for every
/// three bytes, with `=` padding closing a short final group.
pub open spec fn b64_encode(s: Seq<u8>) -> Seq<char>
    decreases s.len(),
{
    if s.len() == 0 {
        Seq::<char>::empty()
    } else if s.len() == 1 {
        let b0 = s[0] as int;
        seq![b64_char(b0 / 4), b64_char((b0 % 4) * 16), '=', '=']
    } else if s.len() == 2 {
        let b0 = s[0] as int;
        let b1 = s[1] as int;
        seq![b64_char(b0 / 4), b64_char((b0 % 4) * 16 + b1 / 16), b64_char((b1 % 16) * 4), '=']
    } else {
        b64_group(s[0] as int, s[1] as int, s[2] as int).add(b64_encode(s.skip(3)))
    }
}

/// The four alphabet characters of one full three-byte group.
pub open spec fn b64_group(b0: int, b1: int, b2: int) -> Seq<char> {
    seq![
        b64_char(b0 / 4),
        b64_char((b0 % 4) * 16 + b1 / 16),
        b64_char((b1 % 16) * 4 + b2 / 64),
        b64_char(b2 % 64),
    ]
}

/// Relies on base64's standard engine: the standard alphabet, four
/// characters per three input bytes, `=` padding on the final group.
#[verifier::external_body]
pub(crate) fn base64_encode(b: &[u8]) -> (r: String)
    ensures
        r@ == b64_encode(b@),
{
    base64::Engine::encode(&base64::engine::general_purpose::STANDARD, b)
}

/// The value of one hexadecimal digit byte, or -1 when the byte is no digit.
pub open spec fn hex_val(b: u8) -> int {
    if 0x30 <= b <= 0x39 {
        b - 0x30
    } else if 0x41 <= b <= 0x46 {
        b - 0x41 + 10
    } else if 0x61 <= b <= 0x66 {
        b - 0x61 + 10
    } else {
        -1
    }
}

/// Whether a byte string is well-formed hexadecimal: even length, digits only.
pub open spec fn hex_ok(s: Seq<u8>) -> bool {
    s.len() % 2 == 0 && forall|i: int| 0 <= i < s.len() ==> hex_val(#[trigger] s[i]) >= 0
}

/// The bytes that a well-formed hexadecimal string denotes.
pub open spec fn hex_decoded(s: Seq<u8>) -> Seq<u8> {
    Seq::new((s.len() / 2) as nat, |i: int| (hex_val(s[2 * i]) * 16 + hex_val(s[2 * i + 1])) as u8)
}

/// Relies on hex::decode: pairs of digits of either case become single
/// bytes; an odd length or a character outside the digits is refused.
#[verifier::external_body]
pub(crate) fn hex_decode(s: &[u8]) -> (r: Result<Vec<u8>, ()>)
    ensures
        r is Ok <==> hex_ok(s@),
        r matches Ok(v) ==> v@ == hex_decoded(s@),
{
    match hex::decode(s) {
        Ok(v) => Ok(v),
        Err(_) => Err(()),
    }
}

/// The value of nine key bytes read as one big-endian number; the map of
/// IDX entries is keyed by it.
pub open spec fn key9_val(s: Seq<u8>) -> int
    recommends
        s.len() == 9,
{
    s[8] + 256 * (s[7] + 256 * (s[6] + 256 * (s[5] + 256 * (s[4] + 256 * (s[3] + 256 * (s[2]
        + 256 * (s[1] + 256 * s[0])))))))
}

/// Packs the first nine bytes of an encoding key into the map key.
pub fn pack_key9(b: &[u8]) -> (r: u128)
    requires
        b@.len() >= 9,
    ensures
        r == key9_val(b@.take(9)),
{
    let r = b[8] as u128 + 256 * (b[7] as u128 + 256 * (b[6] as u128 + 256 * (b[5] as u128 + 256
        * (b[4] as u128 + 256 * (b[3] as u128 + 256 * (b[2] as u128 + 256 * (b[1] as u128 + 256
        * (b[0] as u128))))))));
    proof {
        let t = b@.take(9);
        assert(forall|i: int| 0 <= i < 9 ==> t[i] == b@[i]);
    }
    r
}

/// The base64 alphabet is injective on 6-bit indices.
pub proof fn lemma_b64_char_injective(i: int, j: int)
    requires
        0 <= i < 64,
        0 <= j < 64,
        b64_char(i) == b64_char(j),
    ensures
        i == j,
{
    assert(('A' as int) == 65);
    assert(('a' as int) == 97);
    assert(('0' as int) == 48);
    assert(('+' as int) == 43);
    assert(('/' as int) == 47);
    assert((b64_char(i) as int) == (b64_char(j) as int));
}

/// Two equally long byte strings with the same standard base64 encoding
/// are the same bytes: base64 keys of one table cannot collide.
pub proof fn lemma_b64_encode_injective(a: Seq<u8>, b: Seq<u8>)
    requires
        a.len() == b.len(),
        b64_encode(a) == b64_encode(b),
    ensures
        a =~= b,
    decreases a.len(),
{
    if a.len() == 0 {
    } else if a.len() == 1 {
        let ea = b64_encode(a);
        let eb = b64_encode(b);
        assert(ea[0] == eb[0] && ea[1] == eb[1]);
        lemma_b64_char_injective(a[0] as int / 4, b[0] as int / 4);
        lemma_b64_char_injective((a[0] as int % 4) * 16, (b[0] as int % 4) * 16);
    } else if a.len() == 2 {
        let ea = b64_encode(a);
        let eb = b64_encode(b);
        assert(ea[0] == eb[0] && ea[1] == eb[1] && ea[2] == eb[2]);
        lemma_b64_char_injective(a[0] as int / 4, b[0] as int / 4);
        lemma_b64_char_injective(
            (a[0] as int % 4) * 16 + a[1] as int / 16,
            (b[0] as int % 4) * 16 + b[1] as int / 16,
        );
        lemma_b64_char_injective((a[1] as int % 16) * 4, (b[1] as int % 16) * 4);
    } else {
        let ea = b64_encode(a);
        let eb = b64_encode(b);
        assert(ea[0] == eb[0] && ea[1] == eb[1] && ea[2] == eb[2] && ea[3] == eb[3]);
        lemma_b64_char_injective(a[0] as int / 4, b[0] as int / 4);
        lemma_b64_char_injective(
            (a[0] as int % 4) * 16 + a[1] as int / 16,
            (b[0] as int % 4) * 16 + b[1] as int / 16,
        );
        lemma_b64_char_injective(
            (a[1] as int % 16) * 4 + a[2] as int / 64,
            (b[1] as int % 16) * 4 + b[2] as int / 64,
        );
        lemma_b64_char_injective(a[2] as int % 64, b[2] as int % 64);
        let ta = b64_encode(a.skip(3));
        let tb = b64_encode(b.skip(3));
        lemma_b64_len(a.skip(3));
        lemma_b64_len(b.skip(3));
        assert forall|k: int| 0 <= k < ta.len() implies ta[k] == tb[k] by {
            assert(ta[k] == ea[4 + k]);
            assert(tb[k] == eb[4 + k]);
        }
        assert(ta =~= tb);
        lemma_b64_encode_injective(a.skip(3), b.skip(3));
        assert(forall|k: int| 3 <= k < a.len() ==> a[k] == a.skip(3)[k - 3] && b[k] == b.skip(
            3,
        )[k - 3]);
    }
}

/// The first twelve characters of a key's base64 encoding are the base64
/// encoding of its first nine bytes.
pub proof fn lemma_b64_take9(s: Seq<u8>)
    requires
        s.len() >= 9,
    ensures
        b64_encode(s).take(12) =~= b64_encode(s.take(9)),
{
    let t = s.take(9);
    let u = s.skip(3);
    let v = u.skip(3);
    let tu = t.skip(3);
    let tv = tu.skip(3);
    lemma_b64_len(s);
    lemma_b64_len(u);
    lemma_b64_len(v);
    lemma_b64_len(tv);
    let g0 = b64_group(s[0] as int, s[1] as int, s[2] as int);
    let g1 = b64_group(u[0] as int, u[1] as int, u[2] as int);
    let g2 = b64_group(v[0] as int, v[1] as int, v[2] as int);
    assert(b64_encode(s) == g0.add(b64_encode(u)));
    assert(b64_encode(u) == g1.add(b64_encode(v)));
    assert(b64_encode(v) == g2.add(b64_encode(v.skip(3))));
    assert(t[0] == s[0] && t[1] == s[1] && t[2] == s[2]);
    assert(tu[0] == u[0] && tu[1] == u[1] && tu[2] == u[2]);
    assert(tv[0] == v[0] && tv[1] == v[1] && tv[2] == v[2]);
    assert(tv.len() == 3);
    assert(b64_encode(t) == g0.add(b64_encode(tu)));
    assert(b64_encode(tu) == g1.add(b64_encode(tv)));
    assert(b64_encode(tv) == g2.add(b64_encode(tv.skip(3))));
    assert(tv.skip(3) =~= Seq::<u8>::empty());
    assert(b64_encode(tv) =~= g2);
    assert forall|k: int| 0 <= k < 12 implies b64_encode(s).take(12)[k] == b64_encode(t)[k] by {
        assert(b64_encode(s).take(12)[k] == b64_encode(s)[k]);
        if k < 4 {
            assert(b64_encode(s)[k] == g0[k]);
            assert(b64_encode(t)[k] == g0[k]);
        } else if k < 8 {
            assert(b64_encode(s)[k] == b64_encode(u)[k - 4]);
            assert(b64_encode(u)[k - 4] == g1[k - 4]);
            assert(b64_encode(t)[k] == b64_encode(tu)[k - 4]);
            assert(b64_encode(tu)[k - 4] == g1[k - 4]);
        } else {
            assert(b64_encode(s)[k] == b64_encode(u)[k - 4]);
            assert(b64_encode(u)[k - 4] == b64_encode(v)[k - 8]);
            assert(b64_encode(v)[k - 8] == g2[k - 8]);
            assert(b64_encode(t)[k] == b64_encode(tu)[k - 4]);
            assert(b64_encode(tu)[k - 4] == b64_encode(tv)[k - 8]);
        }
    }
    assert(b64_encode(s).take(12) =~= b64_encode(t));
}

/// The length of a base64 encoding: four characters per started group of three.
pub proof fn lemma_b64_len(s: Seq<u8>)
    ensures
        b64_encode(s).len() == 4 * ((s.len() + 2) / 3),
    decreases s.len(),
{
    if s.len() >= 3 {
        lemma_b64_len(s.skip(3));
    }
}

/// The nested value of the bytes of a key below index `i`, as `key9_val`
/// builds it up.
pub open spec fn key9_nest(s: Seq<u8>, i: int) -> int
    recommends
        s.len() == 9,
        0 <= i <= 8,
{
    if i == 0 {
        s[0] as int
    } else if i == 1 {
        s[1] + 256 * s[0]
    } else if i == 2 {
        s[2] + 256 * (s[1] + 256 * s[0])
    } else if i == 3 {
        s[3] + 256 * (s[2] + 256 * (s[1] + 256 * s[0]))
    } else if i == 4 {
        s[4] + 256 * (s[3] + 256 * (s[2] + 256 * (s[1] + 256 * s[0])))
    } else if i == 5 {
        s[5] + 256 * (s[4] + 256 * (s[3] + 256 * (s[2] + 256 * (s[1] + 256 * s[0]))))
    } else if i == 6 {
        s[6] + 256 * (s[5] + 256 * (s[4] + 256 * (s[3] + 256 * (s[2] + 256 * (s[1] + 256
            * s[0])))))
    } else if i == 7 {
        s[7] + 256 * (s[6] + 256 * (s[5] + 256 * (s[4] + 256 * (s[3] + 256 * (s[2] + 256 * (s[1]
            + 256 * s[0]))))))
    } else {
        s[8] + 256 * (s[7] + 256 * (s[6] + 256 * (s[5] + 256 * (s[4] + 256 * (s[3] + 256 * (s[2]
            + 256 * (s[1] + 256 * s[0])))))))
    }
}

/// Nine-byte keys pack injectively into the map key.
pub proof fn lemma_key9_injective(a: Seq<u8>, b: Seq<u8>)
    requires
        a.len() == 9,
        b.len() == 9,
        key9_val(a) == key9_val(b),
    ensures
        a =~= b,
{
    assert(key9_val(a) == key9_nest(a, 8) && key9_val(b) == key9_nest(b, 8));
    lemma_byte_split(a[8] as int, key9_nest(a, 7), b[8] as int, key9_nest(b, 7));
    lemma_byte_split(a[7] as int, key9_nest(a, 6), b[7] as int, key9_nest(b, 6));
    lemma_byte_split(a[6] as int, key9_nest(a, 5), b[6] as int, key9_nest(b, 5));
    lemma_byte_split(a[5] as int, key9_nest(a, 4), b[5] as int, key9_nest(b, 4));
    lemma_byte_split(a[4] as int, key9_nest(a, 3), b[4] as int, key9_nest(b, 3));
    lemma_byte_split(a[3] as int, key9_nest(a, 2), b[3] as int, key9_nest(b, 2));
    lemma_byte_split(a[2] as int, key9_nest(a, 1), b[2] as int, key9_nest(b, 1));
    lemma_byte_split(a[1] as int, key9_nest(a, 0), b[1] as int, key9_nest(b, 0));
}

/// A low byte and a high part are both determined by their combined value.
proof fn lemma_byte_split(x: int, xs: int, y: int, ys: int)
    requires
        0 <= x < 256,
        0 <= y < 256,
        x + 256 * xs == y + 256 * ys,
        xs >= 0,
        ys >= 0,
    ensures
        x == y,
        xs == ys,
{
    assert(x == y && xs == ys) by (nonlinear_arith)
        requires
            0 <= x < 256,
            0 <= y < 256,
            x + 256 * xs == y + 256 * ys,
    ;
}

} // verus!
