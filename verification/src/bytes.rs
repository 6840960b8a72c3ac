use vstd::prelude::*;

verus! {

use vstd::utf8::{encode_utf8, decode_utf8, valid_utf8};
use vstd::utf8::{encode_utf8_valid_utf8, encode_utf8_decode_utf8};
use vstd::string::StrSliceExecFns;
use crate::error::Error;

/// Eight-byte little-endian encoding of a 64-bit integer, the fixed
/// framing width used for every length prefix in the key and value
/// formats.
pub open spec fn u64_le(n: u64) -> Seq<u8> {
    seq![
        (n & 0xff) as u8,
        ((n >> 8) & 0xff) as u8,
        ((n >> 16) & 0xff) as u8,
        ((n >> 24) & 0xff) as u8,
        ((n >> 32) & 0xff) as u8,
        ((n >> 40) & 0xff) as u8,
        ((n >> 48) & 0xff) as u8,
        ((n >> 56) & 0xff) as u8,
    ]
}

/// The 64-bit integer read back from eight little-endian bytes.
pub open spec fn u64_from_le(b: Seq<u8>) -> u64
    recommends
        b.len() == 8,
{
    ((b[0] as u64) | ((b[1] as u64) << 8) | ((b[2] as u64) << 16) | ((b[3] as u64) << 24) | ((
    b[4] as u64) << 32) | ((b[5] as u64) << 40) | ((b[6] as u64) << 48) | ((b[7] as u64) << 56))
}

/// Reading back the eight little-endian bytes of `n` yields `n` again.
pub proof fn lemma_u64_le_round_trip(n: u64)
    ensures
        u64_from_le(u64_le(n)) == n,
{
    assert((((n & 0xff) as u8) as u64) | ((((n >> 8) & 0xff) as u8) as u64) << 8 | ((((n >> 16)
        & 0xff) as u8) as u64) << 16 | ((((n >> 24) & 0xff) as u8) as u64) << 24 | ((((n >> 32)
        & 0xff) as u8) as u64) << 32 | ((((n >> 40) & 0xff) as u8) as u64) << 40 | ((((n >> 48)
        & 0xff) as u8) as u64) << 48 | ((((n >> 56) & 0xff) as u8) as u64) << 56 == n)
        by (bit_vector);
}

/// Appends the eight little-endian bytes of `n` to `out`.
pub fn push_u64_le(out: &mut Vec<u8>, n: u64)
    ensures
        final(out)@ == old(out)@ + u64_le(n),
{
    out.push((n & 0xff) as u8);
    out.push(((n >> 8) & 0xff) as u8);
    out.push(((n >> 16) & 0xff) as u8);
    out.push(((n >> 24) & 0xff) as u8);
    out.push(((n >> 32) & 0xff) as u8);
    out.push(((n >> 40) & 0xff) as u8);
    out.push(((n >> 48) & 0xff) as u8);
    out.push(((n >> 56) & 0xff) as u8);
    proof {
        assert(out@ =~= old(out)@ + u64_le(n));
    }
}

/// Reads the eight little-endian bytes starting at `pos`.
pub fn read_u64_le(data: &[u8], pos: usize) -> (r: u64)
    requires
        pos + 8 <= data@.len(),
    ensures
        r == u64_from_le(data@.subrange(pos as int, pos as int + 8)),
{
    let r: u64 = (data[pos] as u64) | ((data[pos + 1] as u64) << 8) | ((data[pos + 2] as u64)
        << 16) | ((data[pos + 3] as u64) << 24) | ((data[pos + 4] as u64) << 32) | ((data[pos
        + 5] as u64) << 40) | ((data[pos + 6] as u64) << 48) | ((data[pos + 7] as u64) << 56);
    proof {
        let s = data@.subrange(pos as int, pos as int + 8);
        assert(s[0] == data@[pos as int]);
        assert(s[1] == data@[pos as int + 1]);
        assert(s[2] == data@[pos as int + 2]);
        assert(s[3] == data@[pos as int + 3]);
        assert(s[4] == data@[pos as int + 4]);
        assert(s[5] == data@[pos as int + 5]);
        assert(s[6] == data@[pos as int + 6]);
        assert(s[7] == data@[pos as int + 7]);
    }
    r
}

/// True when the UTF-8 encoding of `s` is short enough for its byte
/// length to be carried in the 64-bit length prefix.
pub open spec fn str_representable(s: Seq<char>) -> bool {
    encode_utf8(s).len() < 0x1_0000_0000_0000_0000
}

/// A string framed on the wire: a 64-bit little-endian byte count,
/// then exactly that many bytes of UTF-8.
pub open spec fn spec_encode_str(s: Seq<char>) -> Seq<u8> {
    u64_le(encode_utf8(s).len() as u64) + encode_utf8(s)
}

/// Parses one framed string from the front of `b`; yields the decoded
/// characters and the unconsumed remainder, or nothing when `b` is
/// truncated or the framed bytes are not valid UTF-8.
pub open spec fn spec_decode_str(b: Seq<u8>) -> Option<(Seq<char>, Seq<u8>)> {
    if b.len() < 8 {
        None
    } else {
        let n = u64_from_le(b.take(8)) as int;
        if b.len() - 8 < n {
            None
        } else {
            let content = b.subrange(8, 8 + n);
            if valid_utf8(content) {
                Some((decode_utf8(content), b.skip(8 + n)))
            } else {
                None
            }
        }
    }
}

/// Round trip: parsing a framed string back off the wire yields the
/// original characters and leaves the trailing bytes untouched.
pub proof fn lemma_str_round_trip(s: Seq<char>, rest: Seq<u8>)
    requires
        str_representable(s),
    ensures
        spec_decode_str(spec_encode_str(s) + rest) == Some((s, rest)),
{
    let e = encode_utf8(s);
    let n = e.len() as u64;
    let b = spec_encode_str(s) + rest;
    assert(b.take(8) =~= u64_le(n));
    lemma_u64_le_round_trip(n);
    assert(b.len() - 8 >= n);
    assert(b.subrange(8, 8 + n as int) =~= e);
    encode_utf8_valid_utf8(s);
    encode_utf8_decode_utf8(s);
    assert(b.skip(8 + n as int) =~= rest);
}

/// Relies on `String::from_utf8`: returns the string whose UTF-8
/// encoding is exactly the given bytes, and refuses exactly the byte
/// sequences that are not valid UTF-8.
#[verifier::external_body]
fn vec_to_string(bytes: Vec<u8>) -> (r: Option<String>)
    ensures
        match r {
            Some(s) => valid_utf8(bytes@) && s@ == decode_utf8(bytes@),
            None => !valid_utf8(bytes@),
        },
{
    String::from_utf8(bytes).ok()
}

/// Appends the framed encoding of `s` (length prefix, then UTF-8
/// bytes) to `out`.
pub fn push_str_encoded(out: &mut Vec<u8>, s: &String)
    ensures
        final(out)@ == old(out)@ + spec_encode_str(s@),
        str_representable(s@),
{
    let bytes: &[u8] = s.as_str().as_bytes();
    let n: u64 = bytes.len() as u64;
    push_u64_le(out, n);
    out.extend_from_slice(bytes);
    proof {
        assert(out@ =~= old(out)@ + spec_encode_str(s@));
    }
}

/// Parses one framed string at offset `pos` of `data`; on success
/// returns the string and the offset just past it.
pub fn read_str(data: &[u8], pos: usize) -> (r: Result<(String, usize), Error>)
    requires
        pos <= data@.len(),
    ensures
        match r {
            Ok(p) => {
                &&& spec_decode_str(data@.skip(pos as int)) == Some((p.0@, data@.skip(p.1 as int)))
                &&& pos + 8 <= p.1 <= data@.len()
            },
            Err(e) => {
                &&& e == Error::DecodingError
                &&& spec_decode_str(data@.skip(pos as int)) is None
            },
        },
{
    let ghost b = data@.skip(pos as int);
    if data.len() - pos < 8 {
        return Err(Error::DecodingError);
    }
    let n: u64 = read_u64_le(data, pos);
    proof {
        assert(b.take(8) =~= data@.subrange(pos as int, pos as int + 8));
    }
    let remaining: usize = data.len() - (pos + 8);
    if n > remaining as u64 {
        return Err(Error::DecodingError);
    }
    let len: usize = n as usize;
    let content: &[u8] = vstd::slice::slice_subrange(data, pos + 8, pos + 8 + len);
    proof {
        assert(content@ =~= b.subrange(8, 8 + n as int));
    }
    let content_vec: Vec<u8> = vstd::slice::slice_to_vec(content);
    match vec_to_string(content_vec) {
        Some(s) => {
            let new_pos: usize = pos + 8 + len;
            proof {
                assert(b.skip(8 + n as int) =~= data@.skip(new_pos as int));
            }
            Ok((s, new_pos))
        },
        None => Err(Error::DecodingError),
    }
}

} // verus!
