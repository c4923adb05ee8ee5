//! Byte-level primitives of the on-disk format: big-endian 64-bit integers
//! and length-prefixed byte strings, together with the spec-level encoders,
//! the spec-level parsers, and the round-trip lemmas that connect them.

use vstd::prelude::*;
use vstd::slice::{slice_subrange, slice_to_vec};
use vstd::string::{StrSliceExecFns, StringExecFns, StringSliceAdditionalSpecFns};
use vstd::utf8::{decode_utf8, encode_utf8, valid_utf8};

verus! {

/// The big-endian 8-byte encoding of a 64-bit integer.
pub open spec fn spec_u64_to_be_bytes(x: u64) -> Seq<u8> {
    seq![
        ((x >> 56) & 0xff) as u8,
        ((x >> 48) & 0xff) as u8,
        ((x >> 40) & 0xff) as u8,
        ((x >> 32) & 0xff) as u8,
        ((x >> 24) & 0xff) as u8,
        ((x >> 16) & 0xff) as u8,
        ((x >> 8) & 0xff) as u8,
        (x & 0xff) as u8,
    ]
}

/// The 64-bit integer read from 8 bytes in big-endian order.
pub open spec fn spec_u64_from_be_bytes(s: Seq<u8>) -> u64
    recommends
        s.len() == 8,
{
    ((s[0] as u64) << 56) | ((s[1] as u64) << 48) | ((s[2] as u64) << 40) | ((s[3] as u64) << 32)
        | ((s[4] as u64) << 24) | ((s[5] as u64) << 16) | ((s[6] as u64) << 8) | (s[7] as u64)
}

/// Reading back the big-endian encoding of `x` yields `x` again.
pub broadcast proof fn lemma_u64_be_bytes_roundtrip(x: u64)
    ensures
        #[trigger] spec_u64_from_be_bytes(spec_u64_to_be_bytes(x)) == x,
        spec_u64_to_be_bytes(x).len() == 8,
{
    let s = spec_u64_to_be_bytes(x);
    assert((((((x >> 56) & 0xff) as u8) as u64) << 56) | (((((x >> 48) & 0xff) as u8) as u64)
        << 48) | (((((x >> 40) & 0xff) as u8) as u64) << 40) | (((((x >> 32) & 0xff) as u8) as u64)
        << 32) | (((((x >> 24) & 0xff) as u8) as u64) << 24) | (((((x >> 16) & 0xff) as u8) as u64)
        << 16) | (((((x >> 8) & 0xff) as u8) as u64) << 8) | (((x & 0xff) as u8) as u64) == x)
        by (bit_vector);
}

/// A length-prefixed byte string: 8 bytes of big-endian length, then the bytes.
pub open spec fn spec_enc_bytes(b: Seq<u8>) -> Seq<u8>
    recommends
        b.len() < 0x1_0000_0000_0000_0000,
{
    spec_u64_to_be_bytes(b.len() as u64) + b
}

/// A character string on the wire: its UTF-8 bytes, length-prefixed.
pub open spec fn spec_enc_str(s: Seq<char>) -> Seq<u8> {
    spec_enc_bytes(encode_utf8(s))
}

/// Parse 8 bytes of big-endian integer from the front; yield it and the rest.
pub open spec fn spec_take_u64(b: Seq<u8>) -> Option<(u64, Seq<u8>)> {
    if b.len() < 8 {
        None
    } else {
        Some((spec_u64_from_be_bytes(b.take(8)), b.skip(8)))
    }
}

/// Parse a length-prefixed byte string from the front.
pub open spec fn spec_take_bytes(b: Seq<u8>) -> Option<(Seq<u8>, Seq<u8>)> {
    match spec_take_u64(b) {
        None => None,
        Some((n, rest)) => if rest.len() < n {
            None
        } else {
            Some((rest.take(n as int), rest.skip(n as int)))
        },
    }
}

/// Parse a length-prefixed UTF-8 string from the front.
pub open spec fn spec_take_str(b: Seq<u8>) -> Option<(Seq<char>, Seq<u8>)> {
    match spec_take_bytes(b) {
        None => None,
        Some((bs, rest)) => if valid_utf8(bs) {
            Some((decode_utf8(bs), rest))
        } else {
            None
        },
    }
}

/// Parsing an encoded integer followed by anything yields the integer and the rest.
pub proof fn lemma_take_u64_roundtrip(x: u64, rest: Seq<u8>)
    ensures
        spec_take_u64(spec_u64_to_be_bytes(x) + rest) == Some((x, rest)),
{
    lemma_u64_be_bytes_roundtrip(x);
    let all = spec_u64_to_be_bytes(x) + rest;
    assert(all.take(8) =~= spec_u64_to_be_bytes(x));
    assert(all.skip(8) =~= rest);
}

/// Parsing an encoded byte string followed by anything yields the bytes and the rest.
pub proof fn lemma_take_bytes_roundtrip(bs: Seq<u8>, rest: Seq<u8>)
    requires
        bs.len() < 0x1_0000_0000_0000_0000,
    ensures
        spec_take_bytes(spec_enc_bytes(bs) + rest) == Some((bs, rest)),
{
    let all = spec_enc_bytes(bs) + rest;
    assert(all =~= spec_u64_to_be_bytes(bs.len() as u64) + (bs + rest));
    lemma_take_u64_roundtrip(bs.len() as u64, bs + rest);
    let n = bs.len() as u64;
    assert((bs + rest).take(n as int) =~= bs);
    assert((bs + rest).skip(n as int) =~= rest);
}

/// Parsing an encoded string followed by anything yields the characters and the rest.
pub proof fn lemma_take_str_roundtrip(s: Seq<char>, rest: Seq<u8>)
    requires
        encode_utf8(s).len() < 0x1_0000_0000_0000_0000,
    ensures
        spec_take_str(spec_enc_str(s) + rest) == Some((s, rest)),
{
    broadcast use vstd::utf8::encode_utf8_valid_utf8, vstd::utf8::encode_utf8_decode_utf8;

    lemma_take_bytes_roundtrip(encode_utf8(s), rest);
}

/// Appends the big-endian encoding of `x` to `out`.
pub fn push_u64(out: &mut Vec<u8>, x: u64)
    ensures
        final(out)@ == old(out)@ + spec_u64_to_be_bytes(x),
{
    out.push(((x >> 56) & 0xff) as u8);
    out.push(((x >> 48) & 0xff) as u8);
    out.push(((x >> 40) & 0xff) as u8);
    out.push(((x >> 32) & 0xff) as u8);
    out.push(((x >> 24) & 0xff) as u8);
    out.push(((x >> 16) & 0xff) as u8);
    out.push(((x >> 8) & 0xff) as u8);
    out.push((x & 0xff) as u8);
    assert(out@ =~= old(out)@ + spec_u64_to_be_bytes(x));
}

/// Appends the length-prefixed encoding of `b` to `out`.
pub fn push_bytes(out: &mut Vec<u8>, b: &[u8])
    ensures
        final(out)@ == old(out)@ + spec_enc_bytes(b@),
        b@.len() < 0x1_0000_0000_0000_0000,
{
    push_u64(out, b.len() as u64);
    out.extend_from_slice(b);
    assert(out@ =~= old(out)@ + spec_enc_bytes(b@));
}

/// Appends the length-prefixed UTF-8 encoding of `s` to `out`.
pub fn push_str(out: &mut Vec<u8>, s: &str)
    ensures
        final(out)@ == old(out)@ + spec_enc_str(s@),
        encode_utf8(s@).len() < 0x1_0000_0000_0000_0000,
{
    push_bytes(out, s.as_bytes());
}

/// Reads a big-endian 64-bit integer at `pos`; yields it and the next position.
pub fn read_u64(b: &[u8], pos: usize) -> (r: Option<(u64, usize)>)
    requires
        pos <= b@.len(),
    ensures
        match r {
            Some((x, p2)) => {
                &&& spec_take_u64(b@.skip(pos as int)) == Some((x, b@.skip(p2 as int)))
                &&& p2 == pos + 8
                &&& p2 <= b@.len()
            },
            None => spec_take_u64(b@.skip(pos as int)) is None,
        },
{
    if b.len() - pos < 8 {
        return None;
    }
    let s = slice_subrange(b, pos, pos + 8);
    let x = ((s[0] as u64) << 56) | ((s[1] as u64) << 48) | ((s[2] as u64) << 40) | ((s[3] as u64)
        << 32) | ((s[4] as u64) << 24) | ((s[5] as u64) << 16) | ((s[6] as u64) << 8) | (s[7]
        as u64);
    proof {
        assert(b@.skip(pos as int).take(8) =~= b@.subrange(pos as int, pos + 8));
        assert(b@.skip(pos as int).skip(8) =~= b@.skip(pos + 8));
    }
    Some((x, pos + 8))
}

/// Reads a length-prefixed byte string at `pos`; yields it and the next position.
pub fn read_bytes(b: &[u8], pos: usize) -> (r: Option<(Vec<u8>, usize)>)
    requires
        pos <= b@.len(),
    ensures
        match r {
            Some((v, p2)) => {
                &&& spec_take_bytes(b@.skip(pos as int)) == Some((v@, b@.skip(p2 as int)))
                &&& pos <= p2 <= b@.len()
            },
            None => spec_take_bytes(b@.skip(pos as int)) is None,
        },
{
    match read_u64(b, pos) {
        None => None,
        Some((n, p1)) => {
            if n > (b.len() - p1) as u64 {
                return None;
            }
            let n_us = n as usize;
            let v = slice_to_vec(slice_subrange(b, p1, p1 + n_us));
            proof {
                assert(b@.skip(p1 as int).take(n as int) =~= b@.subrange(
                    p1 as int,
                    p1 + n_us as int,
                ));
                assert(b@.skip(p1 as int).skip(n as int) =~= b@.skip(p1 + n_us as int));
            }
            Some((v, p1 + n_us))
        },
    }
}

/// Relies on `core::str::from_utf8`: returns the decoded string exactly when
/// the bytes are valid UTF-8.
#[verifier::external_body]
fn utf8_to_str<'a>(v: &'a [u8]) -> (r: Option<&'a str>)
    ensures
        r matches Some(s) ==> valid_utf8(v@) && s@ == decode_utf8(v@),
        r is None ==> !valid_utf8(v@),
{
    core::str::from_utf8(v).ok()
}

/// Reads a length-prefixed UTF-8 string at `pos`; yields it and the next position.
pub fn read_str(b: &[u8], pos: usize) -> (r: Option<(String, usize)>)
    requires
        pos <= b@.len(),
    ensures
        match r {
            Some((s, p2)) => {
                &&& spec_take_str(b@.skip(pos as int)) == Some((s@, b@.skip(p2 as int)))
                &&& pos <= p2 <= b@.len()
            },
            None => spec_take_str(b@.skip(pos as int)) is None,
        },
{
    match read_bytes(b, pos) {
        None => None,
        Some((v, p2)) => {
            match utf8_to_str(v.as_slice()) {
                None => None,
                Some(st) => Some((String::from_str(st), p2)),
            }
        },
    }
}

} // verus!
