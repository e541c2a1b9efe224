//! Checksums and digests computed by outside crates, and what they compute.

use vstd::prelude::*;
use base64::Engine;
use sha2::Digest;
use crate::text::push_char;

verus! {

/// One bit of the reflected CRC-32 (IEEE 802.3) register update, polynomial 0xEDB88320.
pub open spec fn crc32_bit(c: u32) -> u32 {
    if c & 1 == 1 {
        (c >> 1u32) ^ 0xEDB8_8320u32
    } else {
        c >> 1u32
    }
}

/// The register after feeding one byte.
pub open spec fn crc32_byte(c: u32, b: u8) -> u32 {
    let x = c ^ (b as u32);
    crc32_bit(crc32_bit(crc32_bit(crc32_bit(crc32_bit(crc32_bit(crc32_bit(crc32_bit(x))))))))
}

/// The register after feeding all of `s`, starting from all ones.
pub open spec fn crc32_register(s: Seq<u8>) -> u32
    decreases s.len(),
{
    if s.len() == 0 {
        0xFFFF_FFFFu32
    } else {
        crc32_byte(crc32_register(s.drop_last()), s.last())
    }
}

/// The CRC-32 (IEEE) checksum of `s`, as PNG uses it.
pub open spec fn crc32_of(s: Seq<u8>) -> u32 {
    crc32_register(s) ^ 0xFFFF_FFFFu32
}

/// `crc32fast::hash`: the crate computes the CRC-32 (IEEE) checksum of its input, the
/// checksum PNG chunks carry.
#[verifier::external_body]
pub(crate) fn crc32(bytes: &[u8]) -> (r: u32)
    ensures
        r == crc32_of(bytes@),
{
    crc32fast::hash(bytes)
}


/// The SHA-256 digest of `data`: named, not stated.
pub uninterp spec fn sha256_digest(data: Seq<u8>) -> Seq<u8>;

/// `sha2::Sha256::digest`: the 32-byte SHA-256 digest of the input.
#[verifier::external_body]
pub(crate) fn sha256(data: &[u8]) -> (r: Vec<u8>)
    ensures
        r@ == sha256_digest(data@),
        r@.len() == 32,
{
    sha2::Sha256::digest(data).to_vec()
}

/// Lower-case hexadecimal digit of `v < 16`.
pub open spec fn lower_hex_char(v: int) -> char {
    if v < 10 {
        ((48 + v) as u8) as char
    } else {
        ((87 + v) as u8) as char
    }
}

/// Each byte of `s` as two lower-case hexadecimal digits.
pub open spec fn lower_hex(s: Seq<u8>) -> Seq<char>
    decreases s.len(),
{
    if s.len() == 0 {
        Seq::empty()
    } else {
        lower_hex(s.drop_last()).push(lower_hex_char((s.last() / 16) as int)).push(
            lower_hex_char((s.last() % 16) as int),
        )
    }
}

fn lower_hex_digit(v: u8) -> (r: char)
    requires
        v < 16,
    ensures
        r == lower_hex_char(v as int),
{
    if v < 10 {
        (48u8 + v) as char
    } else {
        (87u8 + v) as char
    }
}

/// `bytes` in lower-case hexadecimal, two digits a byte.
pub fn to_lower_hex(bytes: &[u8]) -> (r: String)
    ensures
        r@ == lower_hex(bytes@),
{
    let mut out = String::new();
    let mut i: usize = 0;
    while i < bytes.len()
        invariant
            i <= bytes@.len(),
            out@ == lower_hex(bytes@.subrange(0, i as int)),
        decreases bytes.len() - i,
    {
        let b = bytes[i];
        push_char(&mut out, lower_hex_digit(b / 16));
        push_char(&mut out, lower_hex_digit(b % 16));
        proof {
            let next = bytes@.subrange(0, i + 1);
            assert(next.drop_last() =~= bytes@.subrange(0, i as int));
        }
        i = i + 1;
    }
    assert(bytes@.subrange(0, bytes@.len() as int) =~= bytes@);
    out
}

/// The SHA-256 digest of `data` in lower-case hexadecimal, as recovered files are labelled.
pub fn sha256_hex(data: &[u8]) -> (r: String)
    ensures
        r@ == lower_hex(sha256_digest(data@)),
{
    let digest = sha256(data);
    to_lower_hex(digest.as_slice())
}

/// The character of the standard base64 alphabet for `v < 64`.
pub open spec fn base64_char(v: int) -> char {
    if v < 26 {
        ((65 + v) as u8) as char
    } else if v < 52 {
        ((71 + v) as u8) as char
    } else if v < 62 {
        ((v - 4) as u8) as char
    } else if v == 62 {
        '+'
    } else {
        '/'
    }
}

/// Standard base64 with padding (RFC 4648): three bytes become four characters; a last
/// group of one or two bytes is padded with `=`.
pub open spec fn base64_of(s: Seq<u8>) -> Seq<char>
    decreases s.len(),
{
    if s.len() == 0 {
        Seq::empty()
    } else if s.len() == 1 {
        seq![base64_char(s[0] as int / 4), base64_char((s[0] % 4) * 16), '=', '=']
    } else if s.len() == 2 {
        seq![
            base64_char(s[0] as int / 4),
            base64_char((s[0] % 4) * 16 + s[1] / 16),
            base64_char((s[1] % 16) * 4),
            '=',
        ]
    } else {
        seq![
            base64_char(s[0] as int / 4),
            base64_char((s[0] % 4) * 16 + s[1] / 16),
            base64_char((s[1] % 16) * 4 + s[2] / 64),
            base64_char(s[2] as int % 64),
        ] + base64_of(s.subrange(3, s.len() as int))
    }
}

/// `base64::engine::general_purpose::STANDARD.encode`: standard alphabet, with padding.
/// The crate panics when the length of the output overflows `usize`.
#[verifier::external_body]
pub(crate) fn base64_encode(bytes: &[u8]) -> (r: String)
    requires
        (bytes@.len() / 3) * 4 + 4 <= usize::MAX,
    ensures
        r@ == base64_of(bytes@),
{
    base64::engine::general_purpose::STANDARD.encode(bytes)
}

} // verus!
