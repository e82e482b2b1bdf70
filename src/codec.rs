//! The wire format for ordered key/value metadata.
//!
//! A header list of `N` pairs is written as a little-endian `u32` string count
//! (`2 * N`), then each string as a little-endian `u32` length followed by its
//! bytes. Within each pair the value comes first and the key second.
use vstd::prelude::*;
use byteorder::{LittleEndian, ReadBytesExt, WriteBytesExt};
use crate::bytes::append_bytes;
use crate::entries::{pairs_to_map, pairs_view, Pair};

verus! {

/// The four bytes of `n`, least significant first.
pub open spec fn le_bytes(n: u32) -> Seq<u8> {
    seq![
        (n % 256) as u8,
        ((n / 256) % 256) as u8,
        ((n / 65536) % 256) as u8,
        ((n / 16777216) % 256) as u8,
    ]
}

/// The number whose little-endian bytes are the first four of `b`.
pub open spec fn le_value(b: Seq<u8>) -> int {
    b[0] as int + b[1] as int * 256 + b[2] as int * 65536 + b[3] as int * 16777216
}

pub proof fn lemma_le_value_of_bytes(n: u32)
    ensures
        le_value(le_bytes(n)) == n as int,
{
    let x = n as int;
    assert(x == (x % 256) + 256 * ((x / 256) % 256) + 65536 * ((x / 65536) % 256)
        + 16777216 * (x / 16777216)) by (nonlinear_arith)
        requires
            0 <= x,
    ;
    assert(x / 16777216 < 256) by (nonlinear_arith)
        requires
            0 <= x < 0x1_0000_0000,
    ;
}

/// Relies on byteorder's `ReadBytesExt::read_u32::<LittleEndian>` on a byte
/// slice: it reads four bytes as a little-endian `u32`, and fails when fewer
/// than four remain.
#[verifier::external_body]
fn read_u32_le_at(buf: &[u8], pos: usize) -> (r: Option<u32>)
    requires
        pos <= buf@.len(),
    ensures
        r is Some <==> buf@.len() - pos >= 4,
        r matches Some(v) ==> v as int == le_value(buf@.subrange(pos as int, buf@.len() as int)),
{
    let mut rest = &buf[pos..];
    rest.read_u32::<LittleEndian>().ok()
}

/// Relies on byteorder's `WriteBytesExt::write_u32::<LittleEndian>` on a
/// `Vec<u8>`: it appends the four little-endian bytes of `n`.
#[verifier::external_body]
fn push_u32_le(out: &mut Vec<u8>, n: u32)
    ensures
        final(out)@ == old(out)@ + le_bytes(n),
{
    let _ = out.write_u32::<LittleEndian>(n);
}

/// A string on the wire: its length, then its bytes.
#[verifier::opaque]
pub open spec fn encode_str(s: Seq<u8>) -> Seq<u8> {
    le_bytes(s.len() as u32) + s
}

/// One entry on the wire. The value is written before the key: this order is
/// the format's, and decoders depend on it, unusual as it looks.
pub open spec fn encode_pair(p: Pair) -> Seq<u8> {
    encode_str(p.1) + encode_str(p.0)
}

/// The entries on the wire, in order, without the leading count.
pub open spec fn encode_body(ps: Seq<Pair>) -> Seq<u8>
    decreases ps.len(),
{
    if ps.len() == 0 {
        Seq::empty()
    } else {
        encode_pair(ps[0]) + encode_body(ps.drop_first())
    }
}

/// The full wire form: the number of strings (twice the entries), then the entries.
pub open spec fn encoding(ps: Seq<Pair>) -> Seq<u8> {
    le_bytes((2 * ps.len()) as u32) + encode_body(ps)
}

/// Every count and length of `ps` fits the format's 32-bit fields.
pub open spec fn encodable(ps: Seq<Pair>) -> bool {
    &&& 2 * ps.len() <= u32::MAX
    &&& forall|i: int| 0 <= i < ps.len() ==> ps[i].0.len() <= u32::MAX && ps[i].1.len() <= u32::MAX
}

proof fn lemma_encode_body_push(ps: Seq<Pair>, p: Pair)
    ensures
        encode_body(ps.push(p)) == encode_body(ps) + encode_pair(p),
    decreases ps.len(),
{
    if ps.len() == 0 {
        assert(ps.push(p).drop_first() =~= Seq::<Pair>::empty());
        assert(encode_body(ps.push(p)) == encode_pair(p) + encode_body(Seq::<Pair>::empty()));
        assert(encode_body(ps.push(p)) =~= encode_pair(p));
        assert(encode_body(ps) =~= Seq::<u8>::empty());
        assert(encode_body(ps) + encode_pair(p) =~= encode_pair(p));
    } else {
        let rest = ps.drop_first();
        assert(ps.push(p).drop_first() =~= rest.push(p));
        assert(ps.push(p)[0] == ps[0]);
        lemma_encode_body_push(rest, p);
        let a = encode_pair(ps[0]);
        let b = encode_body(rest);
        let c = encode_pair(p);
        assert(encode_body(ps.push(p)) == a + (b + c));
        assert(encode_body(ps) == a + b);
        assert(a + (b + c) =~= (a + b) + c);
    }
}

/// Writes the header entries in wire form; `None` when a count or a length
/// does not fit in 32 bits.
pub fn encode_headers(pairs: &Vec<(Vec<u8>, Vec<u8>)>) -> (r: Option<Vec<u8>>)
    ensures
        r is Some <==> encodable(pairs_view(pairs@)),
        r matches Some(b) ==> b@ == encoding(pairs_view(pairs@)),
{
    let ghost ps = pairs_view(pairs@);
    let n = pairs.len();
    assert(ps.len() == n);
    if n > 0x7fff_ffff {
        return None;
    }
    let mut i: usize = 0;
    while i < n
        invariant
            n == pairs@.len(),
            ps == pairs_view(pairs@),
            i <= n,
            forall|j: int| 0 <= j < i ==> ps[j].0.len() <= u32::MAX && ps[j].1.len() <= u32::MAX,
        decreases n - i,
    {
        if pairs[i].0.len() > 0xffff_ffff || pairs[i].1.len() > 0xffff_ffff {
            assert(ps[i as int] == (pairs@[i as int].0@, pairs@[i as int].1@));
            assert(!(ps[i as int].0.len() <= u32::MAX && ps[i as int].1.len() <= u32::MAX));
            return None;
        }
        i = i + 1;
    }
    let mut out: Vec<u8> = Vec::new();
    push_u32_le(&mut out, (2 * n) as u32);
    let mut i: usize = 0;
    while i < n
        invariant
            n == pairs@.len(),
            ps == pairs_view(pairs@),
            encodable(ps),
            i <= n,
            out@ == le_bytes((2 * n) as u32) + encode_body(ps.subrange(0, i as int)),
        decreases n - i,
    {
        let (key, value) = (&pairs[i].0, &pairs[i].1);
        let ghost before = out@;
        reveal(encode_str);
        assert(ps[i as int] == (key@, value@));
        push_u32_le(&mut out, value.len() as u32);
        append_bytes(&mut out, value.as_slice());
        push_u32_le(&mut out, key.len() as u32);
        append_bytes(&mut out, key.as_slice());
        proof {
            assert(ps.subrange(0, i + 1) =~= ps.subrange(0, i as int).push(ps[i as int]));
            lemma_encode_body_push(ps.subrange(0, i as int), ps[i as int]);
            assert(out@ =~= before + encode_pair(ps[i as int]));
        }
        i = i + 1;
    }
    assert(ps.subrange(0, n as int) =~= ps);
    Some(out)
}

/// The string that starts at `pos`, with the position just after it; `None`
/// where the bytes end first.
#[verifier::opaque]
pub open spec fn str_at(b: Seq<u8>, pos: int) -> Option<(Seq<u8>, int)> {
    if pos < 0 || pos + 4 > b.len() {
        None
    } else {
        let len = le_value(b.subrange(pos, pos + 4));
        if pos + 4 + len > b.len() {
            None
        } else {
            Some((b.subrange(pos + 4, pos + 4 + len), pos + 4 + len))
        }
    }
}

/// Reads `counter` more strings from `pos`. A string read while the counter is
/// even is held as the next entry's value; one read while it is odd is that
/// entry's key, and the entry is filed.
pub open spec fn decode_from(b: Seq<u8>, pos: int, counter: nat, pending: Seq<u8>) -> Option<Seq<Pair>>
    decreases counter,
{
    if counter == 0 {
        Some(Seq::empty())
    } else {
        match str_at(b, pos) {
            None => None,
            Some((s, next)) => if counter % 2 == 0 {
                decode_from(b, next, (counter - 1) as nat, s)
            } else {
                match decode_from(b, next, (counter - 1) as nat, pending) {
                    Some(rest) => Some(seq![(s, pending)] + rest),
                    None => None,
                }
            },
        }
    }
}

/// The header entries that `b` holds in wire form, in wire order; `None` when
/// `b` is cut short. Bytes after the last string are ignored.
pub open spec fn decoding(b: Seq<u8>) -> Option<Seq<Pair>> {
    if b.len() < 4 {
        None
    } else {
        decode_from(b, 4, le_value(b) as nat, Seq::empty())
    }
}

spec fn prefixed(acc: Seq<Pair>, o: Option<Seq<Pair>>) -> Option<Seq<Pair>> {
    match o {
        Some(rest) => Some(acc + rest),
        None => None,
    }
}

/// Reads header entries from their wire form; `None` when the bytes end
/// before the last string does.
pub fn decode_headers(b: &[u8]) -> (r: Option<Vec<(Vec<u8>, Vec<u8>)>>)
    ensures
        r is Some <==> decoding(b@) is Some,
        r matches Some(v) ==> pairs_view(v@) == decoding(b@)->0,
{
    reveal(str_at);
    let count = match read_u32_le_at(b, 0) {
        None => return None,
        Some(c) => c,
    };
    assert(b@.subrange(0, b@.len() as int)[0] == b@[0]);
    assert(le_value(b@.subrange(0, b@.len() as int)) == le_value(b@));
    let mut pos: usize = 4;
    let mut counter: u32 = count;
    let mut pending: Vec<u8> = Vec::new();
    let mut out: Vec<(Vec<u8>, Vec<u8>)> = Vec::new();
    assert(pairs_view(out@) =~= Seq::<Pair>::empty());
    assert(pending@ =~= Seq::<u8>::empty());
    while counter > 0
        invariant
            pos <= b@.len(),
            decoding(b@) == prefixed(pairs_view(out@), decode_from(b@, pos as int, counter as nat, pending@)),
        decreases counter,
    {
        reveal(str_at);
        let len = match read_u32_le_at(b, pos) {
            None => return None,
            Some(v) => v,
        };
        assert(le_value(b@.subrange(pos as int, b@.len() as int)) == le_value(b@.subrange(pos as int, pos + 4)));
        if len as usize > b.len() - pos - 4 {
            return None;
        }
        let start = pos + 4;
        let end = start + len as usize;
        let mut s: Vec<u8> = Vec::new();
        append_bytes(&mut s, &b[start..end]);
        assert(s@ =~= b@.subrange(start as int, end as int));
        pos = end;
        if counter % 2 == 0 {
            pending = s;
        } else {
            let mut v: Vec<u8> = Vec::new();
            append_bytes(&mut v, pending.as_slice());
            assert(v@ =~= pending@);
            let ghost acc = pairs_view(out@);
            out.push((s, v));
            assert(pairs_view(out@) =~= acc + seq![(s@, pending@)]);
            proof {
                let tail = decode_from(b@, pos as int, (counter - 1) as nat, pending@);
                if tail is Some {
                    assert(acc + (seq![(s@, pending@)] + tail->0) =~= (acc + seq![(s@, pending@)]) + tail->0);
                }
            }
        }
        counter = counter - 1;
    }
    assert(pairs_view(out@) + Seq::<Pair>::empty() =~= pairs_view(out@));
    Some(out)
}

proof fn lemma_str_at(pre: Seq<u8>, s: Seq<u8>, post: Seq<u8>)
    requires
        s.len() <= u32::MAX,
    ensures
        str_at(pre + encode_str(s) + post, pre.len() as int) == Some((s, pre.len() + 4 + s.len() as int)),
        encode_str(s).len() == 4 + s.len(),
{
    reveal(str_at);
    reveal(encode_str);
    let b = pre + encode_str(s) + post;
    let p0 = pre.len() as int;
    let lb = le_bytes(s.len() as u32);
    assert(b.subrange(p0, p0 + 4) =~= lb);
    lemma_le_value_of_bytes(s.len() as u32);
    assert(b.subrange(p0 + 4, p0 + 4 + s.len()) =~= s);
}

proof fn lemma_decode_body(pre: Seq<u8>, ps: Seq<Pair>, post: Seq<u8>, pending: Seq<u8>)
    requires
        encodable(ps),
    ensures
        decode_from(pre + encode_body(ps) + post, pre.len() as int, (2 * ps.len()) as nat, pending) == Some(ps),
    decreases ps.len(),
{
    let b = pre + encode_body(ps) + post;
    if ps.len() == 0 {
        assert(ps =~= Seq::<Pair>::empty());
    } else {
        let rest = ps.drop_first();
        let (k, v) = ps[0];
        assert(k.len() <= u32::MAX && v.len() <= u32::MAX);
        assert(encodable(rest)) by {
            assert forall|i: int| 0 <= i < rest.len() implies rest[i].0.len() <= u32::MAX
                && rest[i].1.len() <= u32::MAX by {
                assert(rest[i] == ps[i + 1]);
            }
        }
        let p1 = pre.len() + 4 + v.len() as int;
        let p2 = p1 + 4 + k.len() as int;
        let tail = encode_body(rest) + post;
        let pre1 = pre + encode_str(v);
        let pre2 = pre1 + encode_str(k);
        assert(b =~= pre + encode_str(v) + (encode_str(k) + tail));
        lemma_str_at(pre, v, encode_str(k) + tail);
        assert(b =~= pre1 + encode_str(k) + tail);
        lemma_str_at(pre1, k, tail);
        assert(b =~= pre2 + encode_body(rest) + post);
        lemma_decode_body(pre2, rest, post, v);
        let n2 = (2 * ps.len()) as nat;
        assert(decode_from(b, p2, (n2 - 2) as nat, v) == Some(rest));
        assert(decode_from(b, p1, (n2 - 1) as nat, v) == Some(seq![(k, v)] + rest));
        assert(seq![(k, v)] + rest =~= ps);
    }
}

/// Decoding the wire form of a header list gives back the same entries in the
/// same order, and so the same mapping.
pub proof fn lemma_header_round_trip(ps: Seq<Pair>)
    requires
        encodable(ps),
    ensures
        decoding(encoding(ps)) == Some(ps),
        pairs_to_map(decoding(encoding(ps))->0) == pairs_to_map(ps),
{
    let e = encoding(ps);
    let n = (2 * ps.len()) as u32;
    lemma_le_value_of_bytes(n);
    assert(e.subrange(0, 4) =~= le_bytes(n));
    assert(le_value(e) == le_value(e.subrange(0, 4)));
    lemma_decode_body(le_bytes(n), ps, Seq::empty(), Seq::empty());
    assert(le_bytes(n) + encode_body(ps) + Seq::<u8>::empty() =~= e);
}

} // verus!
