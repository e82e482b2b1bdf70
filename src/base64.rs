//! Standard base64 (RFC 4648 alphabet, `=` padding), as the runtime offers it
//! to guests.
use vstd::prelude::*;
use vstd::arithmetic::div_mod::lemma_fundamental_div_mod_converse as div_mod_unique;

verus! {

/// The character for the six-bit value `v`.
pub open spec fn b64_char(v: int) -> u8 {
    if v < 26 {
        (65 + v) as u8
    } else if v < 52 {
        (97 + v - 26) as u8
    } else if v < 62 {
        (48 + v - 52) as u8
    } else if v == 62 {
        43
    } else {
        47
    }
}

/// The six-bit value of the character `c`; -1 where `c` is not in the alphabet.
pub open spec fn b64_value(c: u8) -> int {
    if 65 <= c <= 90 {
        c - 65
    } else if 97 <= c <= 122 {
        c - 97 + 26
    } else if 48 <= c <= 57 {
        c - 48 + 52
    } else if c == 43 {
        62
    } else if c == 47 {
        63
    } else {
        -1
    }
}

/// The byte `=`.
pub const PAD: u8 = 61;

/// Four characters for one to three bytes, padded with `=`.
#[verifier::opaque]
pub open spec fn encode_group(b: Seq<u8>) -> Seq<u8> {
    let n = b[0] as int * 65536 + (if b.len() > 1 { b[1] as int } else { 0 }) * 256 + (if b.len() > 2 {
        b[2] as int
    } else {
        0
    });
    seq![
        b64_char(n / 262144),
        b64_char((n / 4096) % 64),
        if b.len() > 1 { b64_char((n / 64) % 64) } else { PAD },
        if b.len() > 2 { b64_char(n % 64) } else { PAD },
    ]
}

/// The base64 text of `b`.
pub open spec fn base64_encoding(b: Seq<u8>) -> Seq<u8>
    decreases b.len(),
{
    if b.len() == 0 {
        Seq::empty()
    } else if b.len() <= 3 {
        encode_group(b)
    } else {
        encode_group(b.take(3)) + base64_encoding(b.skip(3))
    }
}

/// The bytes of one group of four characters; `None` where a character is
/// outside the alphabet, the padding is misplaced, or the bits that padding
/// leaves over are not zero.
#[verifier::opaque]
pub open spec fn decode_group(c: Seq<u8>) -> Option<Seq<u8>> {
    let v0 = b64_value(c[0]);
    let v1 = b64_value(c[1]);
    let v2 = b64_value(c[2]);
    let v3 = b64_value(c[3]);
    if v0 < 0 || v1 < 0 {
        None
    } else if c[2] == PAD && c[3] == PAD {
        if v1 % 16 != 0 {
            None
        } else {
            Some(seq![(v0 * 4 + v1 / 16) as u8])
        }
    } else if c[3] == PAD {
        if v2 < 0 || v2 % 4 != 0 {
            None
        } else {
            Some(seq![(v0 * 4 + v1 / 16) as u8, ((v1 % 16) * 16 + v2 / 4) as u8])
        }
    } else if v2 < 0 || v3 < 0 {
        None
    } else {
        Some(seq![(v0 * 4 + v1 / 16) as u8, ((v1 % 16) * 16 + v2 / 4) as u8, ((v2 % 4) * 64 + v3) as u8])
    }
}

/// The bytes that the base64 text `s` stands for; `None` where `s` is not
/// the canonical base64 text of any bytes (padding only in the last group).
pub open spec fn base64_decoding(s: Seq<u8>) -> Option<Seq<u8>>
    decreases s.len(),
{
    if s.len() == 0 {
        Some(Seq::empty())
    } else if s.len() < 4 {
        None
    } else {
        match decode_group(s.take(4)) {
            None => None,
            Some(g) => if s.len() > 4 && g.len() < 3 {
                None
            } else {
                match base64_decoding(s.skip(4)) {
                    Some(rest) => Some(g + rest),
                    None => None,
                }
            },
        }
    }
}

fn char_of(v: u32) -> (r: u8)
    requires
        v < 64,
    ensures
        r == b64_char(v as int),
{
    if v < 26 {
        (65 + v) as u8
    } else if v < 52 {
        (97 + v - 26) as u8
    } else if v < 62 {
        (48 + v - 52) as u8
    } else if v == 62 {
        43
    } else {
        47
    }
}

fn value_of(c: u8) -> (r: i32)
    ensures
        r as int == b64_value(c),
{
    if 65 <= c && c <= 90 {
        (c - 65) as i32
    } else if 97 <= c && c <= 122 {
        (c - 97 + 26) as i32
    } else if 48 <= c && c <= 57 {
        (c - 48 + 52) as i32
    } else if c == 43 {
        62
    } else if c == 47 {
        63
    } else {
        -1
    }
}

/// The base64 text of `b`.
pub fn base64_encode(b: &[u8]) -> (r: Vec<u8>)
    ensures
        r@ == base64_encoding(b@),
{
    let mut out: Vec<u8> = Vec::new();
    let mut i: usize = 0;
    assert(b@.skip(0) =~= b@);
    while i < b.len()
        invariant
            i <= b@.len(),
            base64_encoding(b@) == out@ + base64_encoding(b@.skip(i as int)),
        decreases b@.len() - i,
    {
        reveal(encode_group);
        let rest = b.len() - i;
        let b0 = b[i] as u32;
        let b1: u32 = if rest > 1 { b[i + 1] as u32 } else { 0 };
        let b2: u32 = if rest > 2 { b[i + 2] as u32 } else { 0 };
        let n: u32 = b0 * 65536 + b1 * 256 + b2;
        let ghost tail = b@.skip(i as int);
        let ghost g = if rest > 3 { tail.take(3) } else { tail };
        assert(g[0] == b0);
        assert(g.len() > 1 ==> g[1] == b1);
        assert(g.len() > 2 ==> g[2] == b2);
        assert(n / 262144 < 64) by (nonlinear_arith)
            requires n == b0 * 65536 + b1 * 256 + b2, b0 < 256, b1 < 256, b2 < 256;
        let c0 = char_of(n / 262144);
        let c1 = char_of((n / 4096) % 64);
        let c2 = if rest > 1 { char_of((n / 64) % 64) } else { PAD };
        let c3 = if rest > 2 { char_of(n % 64) } else { PAD };
        let ghost before = out@;
        out.push(c0);
        out.push(c1);
        out.push(c2);
        out.push(c3);
        assert(out@ =~= before + encode_group(g));
        if rest > 3 {
            assert(tail.skip(3) =~= b@.skip(i + 3));
            i = i + 3;
        } else {
            assert(base64_encoding(tail) == encode_group(g));
            i = b.len();
            assert(b@.skip(i as int) =~= Seq::<u8>::empty());
        }
        assert(out@ + base64_encoding(b@.skip(i as int)) =~= before + base64_encoding(tail));
    }
    assert(b@.skip(i as int) =~= Seq::<u8>::empty());
    assert(out@ + Seq::<u8>::empty() =~= out@);
    out
}

proof fn lemma_char_value(v: int)
    requires
        0 <= v < 64,
    ensures
        b64_value(b64_char(v)) == v,
        b64_char(v) != PAD,
{
}

proof fn lemma_group_round_trip(g: Seq<u8>)
    requires
        1 <= g.len() <= 3,
    ensures
        decode_group(encode_group(g)) == Some(g),
{
    reveal(encode_group);
    reveal(decode_group);
    let b0 = g[0] as int;
    let b1 = if g.len() > 1 { g[1] as int } else { 0 };
    let b2 = if g.len() > 2 { g[2] as int } else { 0 };
    let n = b0 * 65536 + b1 * 256 + b2;
    // n / 262144 and n / 4096
    div_mod_unique(n, 262144, b0 / 4, (b0 % 4) * 65536 + b1 * 256 + b2);
    div_mod_unique(b0, 4, b0 / 4, b0 % 4);
    div_mod_unique(b1, 16, b1 / 16, b1 % 16);
    div_mod_unique(b2, 64, b2 / 64, b2 % 64);
    let q12 = b0 * 16 + b1 / 16;
    div_mod_unique(n, 4096, q12, (b1 % 16) * 256 + b2);
    let v1 = (b0 % 4) * 16 + b1 / 16;
    div_mod_unique(q12, 64, b0 / 4, v1);
    // n / 64 and n % 64
    let q6 = b0 * 1024 + b1 * 4 + b2 / 64;
    div_mod_unique(n, 64, q6, b2 % 64);
    let v2 = (b1 % 16) * 4 + b2 / 64;
    div_mod_unique(q6, 64, b0 * 16 + b1 / 16, v2);
    let v0 = b0 / 4;
    let v3 = b2 % 64;
    lemma_char_value(v0);
    lemma_char_value(v1);
    lemma_char_value(v2);
    lemma_char_value(v3);
    // rebuilding the bytes
    div_mod_unique(v1, 16, b0 % 4, b1 / 16);
    div_mod_unique(v2, 4, b1 % 16, b2 / 64);
    assert(v0 * 4 + v1 / 16 == b0);
    assert((v1 % 16) * 16 + v2 / 4 == b1);
    assert((v2 % 4) * 64 + v3 == b2);
    let c = encode_group(g);
    if g.len() == 1 {
        assert(v1 % 16 == 0);
        assert(decode_group(c) == Some(seq![b0 as u8]));
        assert(seq![b0 as u8] =~= g);
    } else if g.len() == 2 {
        assert(v2 % 4 == 0);
        assert(seq![b0 as u8, b1 as u8] =~= g);
    } else {
        assert(seq![b0 as u8, b1 as u8, b2 as u8] =~= g);
    }
}

proof fn lemma_encode_group_len(g: Seq<u8>)
    ensures
        encode_group(g).len() == 4,
{
    reveal(encode_group);
}

/// Decoding the base64 text of any bytes gives those bytes back.
pub proof fn lemma_base64_round_trip(b: Seq<u8>)
    ensures
        base64_decoding(base64_encoding(b)) == Some(b),
    decreases b.len(),
{
    if b.len() == 0 {
    } else if b.len() <= 3 {
        let s = base64_encoding(b);
        lemma_group_round_trip(b);
        lemma_encode_group_len(b);
        assert(s.take(4) =~= s);
        assert(s.skip(4) =~= Seq::<u8>::empty());
        assert(decode_group(s.take(4)) == Some(b));
        assert(base64_decoding(s.skip(4)) == Some(Seq::<u8>::empty()));
        assert(b + Seq::<u8>::empty() =~= b);
        assert(base64_decoding(s) == Some(b + Seq::<u8>::empty()));
    } else {
        let head = b.take(3);
        let rest = b.skip(3);
        let s = base64_encoding(b);
        let e = encode_group(head);
        let es = base64_encoding(rest);
        lemma_group_round_trip(head);
        lemma_encode_group_len(head);
        lemma_base64_round_trip(rest);
        assert(es.len() > 0) by {
            if rest.len() <= 3 {
                lemma_encode_group_len(rest);
            } else {
                lemma_encode_group_len(rest.take(3));
                assert(base64_encoding(rest) == encode_group(rest.take(3)) + base64_encoding(rest.skip(3)));
            }
        }
        assert(s == e + es);
        assert(s.take(4) =~= e);
        assert(s.skip(4) =~= es);
        assert(decode_group(s.take(4)) == Some(head));
        assert(head.len() == 3);
        assert(base64_decoding(s.skip(4)) == Some(rest));
        assert(head + rest =~= b);
        assert(base64_decoding(s) == Some(head + rest));
    }
}

spec fn prefixed(acc: Seq<u8>, o: Option<Seq<u8>>) -> Option<Seq<u8>> {
    match o {
        Some(rest) => Some(acc + rest),
        None => None,
    }
}

/// The bytes that the base64 text `s` stands for; `None` where `s` is not
/// canonical base64 text.
pub fn base64_decode(s: &[u8]) -> (r: Option<Vec<u8>>)
    ensures
        r is Some <==> base64_decoding(s@) is Some,
        r matches Some(b) ==> b@ == base64_decoding(s@)->0,
{
    let mut out: Vec<u8> = Vec::new();
    let mut i: usize = 0;
    assert(s@.skip(0) =~= s@);
    assert(out@ + base64_decoding(s@)->0 =~= base64_decoding(s@)->0);
    while i < s.len()
        invariant
            i <= s@.len(),
            base64_decoding(s@) == prefixed(out@, base64_decoding(s@.skip(i as int))),
        decreases s@.len() - i,
    {
        reveal(decode_group);
        let ghost tail = s@.skip(i as int);
        if s.len() - i < 4 {
            return None;
        }
        let ghost c = tail.take(4);
        assert(c[0] == s@[i as int] && c[1] == s@[i + 1] && c[2] == s@[i + 2] && c[3] == s@[i + 3]);
        let v0 = value_of(s[i]);
        let v1 = value_of(s[i + 1]);
        let v2 = value_of(s[i + 2]);
        let v3 = value_of(s[i + 3]);
        if v0 < 0 || v1 < 0 {
            return None;
        }
        let last = s.len() - i == 4;
        let ghost before = out@;
        if s[i + 2] == PAD && s[i + 3] == PAD {
            if v1 % 16 != 0 || !last {
                return None;
            }
            out.push((v0 * 4 + v1 / 16) as u8);
        } else if s[i + 3] == PAD {
            if v2 < 0 || v2 % 4 != 0 || !last {
                return None;
            }
            out.push((v0 * 4 + v1 / 16) as u8);
            out.push(((v1 % 16) * 16 + v2 / 4) as u8);
        } else {
            if v2 < 0 || v3 < 0 {
                return None;
            }
            out.push((v0 * 4 + v1 / 16) as u8);
            out.push(((v1 % 16) * 16 + v2 / 4) as u8);
            out.push(((v2 % 4) * 64 + v3) as u8);
        }
        let ghost g = decode_group(c);
        assert(g is Some);
        assert(out@ =~= before + g->0);
        assert(tail.skip(4) =~= s@.skip(i + 4));
        proof {
            let rest = base64_decoding(tail.skip(4));
            if rest is Some {
                assert(before + (g->0 + rest->0) =~= (before + g->0) + rest->0);
            }
        }
        i = i + 4;
    }
    assert(s@.skip(i as int) =~= Seq::<u8>::empty());
    assert(out@ + Seq::<u8>::empty() =~= out@);
    Some(out)
}

} // verus!
