//! File signatures of the supported image formats.

use vstd::prelude::*;
use crate::domain::ImageFormat;

verus! {

/// The four bytes at `i` are `a b c e`.
pub open spec fn bytes4(d: Seq<u8>, i: int, a: u8, b: u8, c: u8, e: u8) -> bool {
    d[i] == a && d[i + 1] == b && d[i + 2] == c && d[i + 3] == e
}

/// The four bytes at `i` name a HEIF/AVIF brand: heic, heix, hevc, hevx, heim, heis,
/// mif1, msf1, avif or avis.
pub open spec fn heic_brand_at(d: Seq<u8>, i: int) -> bool {
    ||| bytes4(d, i, 0x68, 0x65, 0x69, 0x63)
    ||| bytes4(d, i, 0x68, 0x65, 0x69, 0x78)
    ||| bytes4(d, i, 0x68, 0x65, 0x76, 0x63)
    ||| bytes4(d, i, 0x68, 0x65, 0x76, 0x78)
    ||| bytes4(d, i, 0x68, 0x65, 0x69, 0x6D)
    ||| bytes4(d, i, 0x68, 0x65, 0x69, 0x73)
    ||| bytes4(d, i, 0x6D, 0x69, 0x66, 0x31)
    ||| bytes4(d, i, 0x6D, 0x73, 0x66, 0x31)
    ||| bytes4(d, i, 0x61, 0x76, 0x69, 0x66)
    ||| bytes4(d, i, 0x61, 0x76, 0x69, 0x73)
}

/// `\x89PNG\r\n\x1a\n` at `i`.
pub open spec fn png_signature_at(d: Seq<u8>, i: int) -> bool {
    bytes4(d, i, 0x89, 0x50, 0x4E, 0x47) && bytes4(d, i + 4, 0x0D, 0x0A, 0x1A, 0x0A)
}

/// `\xff\xd8\xff` at `i`.
pub open spec fn jpeg_signature_at(d: Seq<u8>, i: int) -> bool {
    d[i] == 0xFF && d[i + 1] == 0xD8 && d[i + 2] == 0xFF
}

/// `RIFF` at `i` and `WEBP` at `i + 8`.
pub open spec fn webp_signature_at(d: Seq<u8>, i: int) -> bool {
    bytes4(d, i, 0x52, 0x49, 0x46, 0x46) && bytes4(d, i + 8, 0x57, 0x45, 0x42, 0x50)
}

/// `GIF87a` or `GIF89a` at `i`.
pub open spec fn gif_signature_at(d: Seq<u8>, i: int) -> bool {
    &&& bytes4(d, i, 0x47, 0x49, 0x46, 0x38)
    &&& (d[i + 4] == 0x37 || d[i + 4] == 0x39)
    &&& d[i + 5] == 0x61
}

/// `BM` at `i`.
pub open spec fn bmp_signature_at(d: Seq<u8>, i: int) -> bool {
    d[i] == 0x42 && d[i + 1] == 0x4D
}

/// `ftyp` at `i + 4` followed by a HEIF/AVIF major brand.
pub open spec fn heic_signature_at(d: Seq<u8>, i: int) -> bool {
    bytes4(d, i + 4, 0x66, 0x74, 0x79, 0x70) && heic_brand_at(d, i + 8)
}

/// The format whose signature `s` starts with, tried in the order PNG, JPEG, WebP,
/// GIF, BMP, HEIC.
#[verifier::opaque]
pub open spec fn detect(s: Seq<u8>) -> Option<ImageFormat> {
    if s.len() >= 8 && png_signature_at(s, 0) {
        Some(ImageFormat::Png)
    } else if s.len() >= 3 && jpeg_signature_at(s, 0) {
        Some(ImageFormat::Jpeg)
    } else if s.len() >= 12 && webp_signature_at(s, 0) {
        Some(ImageFormat::Webp)
    } else if s.len() >= 6 && gif_signature_at(s, 0) {
        Some(ImageFormat::Gif)
    } else if s.len() >= 2 && bmp_signature_at(s, 0) {
        Some(ImageFormat::Bmp)
    } else if s.len() >= 12 && heic_signature_at(s, 0) {
        Some(ImageFormat::Heic)
    } else {
        None
    }
}

pub fn has_bytes4(data: &[u8], i: usize, a: u8, b: u8, c: u8, e: u8) -> (r: bool)
    requires
        i + 4 <= data@.len(),
    ensures
        r == bytes4(data@, i as int, a, b, c, e),
{
    data[i] == a && data[i + 1] == b && data[i + 2] == c && data[i + 3] == e
}

/// Whether the four bytes at `i` name a HEIF/AVIF brand.
pub fn is_heic_brand_at(data: &[u8], i: usize) -> (r: bool)
    requires
        i + 4 <= data@.len(),
    ensures
        r == heic_brand_at(data@, i as int),
{
    has_bytes4(data, i, 0x68, 0x65, 0x69, 0x63) || has_bytes4(data, i, 0x68, 0x65, 0x69, 0x78)
        || has_bytes4(data, i, 0x68, 0x65, 0x76, 0x63) || has_bytes4(
        data,
        i,
        0x68,
        0x65,
        0x76,
        0x78,
    ) || has_bytes4(data, i, 0x68, 0x65, 0x69, 0x6D) || has_bytes4(data, i, 0x68, 0x65, 0x69, 0x73)
        || has_bytes4(data, i, 0x6D, 0x69, 0x66, 0x31) || has_bytes4(
        data,
        i,
        0x6D,
        0x73,
        0x66,
        0x31,
    ) || has_bytes4(data, i, 0x61, 0x76, 0x69, 0x66) || has_bytes4(data, i, 0x61, 0x76, 0x69, 0x73)
}

/// The format whose signature starts at `from` when only the bytes before `to` are seen.
pub fn detect_format_in(data: &[u8], from: usize, to: usize) -> (r: Option<ImageFormat>)
    requires
        from <= to <= data@.len(),
    ensures
        r == detect(data@.subrange(from as int, to as int)),
{
    reveal(detect);
    let ghost s = data@.subrange(from as int, to as int);
    let n = to - from;
    if n >= 8 && has_bytes4(data, from, 0x89, 0x50, 0x4E, 0x47) && has_bytes4(
        data,
        from + 4,
        0x0D,
        0x0A,
        0x1A,
        0x0A,
    ) {
        assert(png_signature_at(s, 0));
        return Some(ImageFormat::Png);
    }
    assert(n >= 8 ==> (png_signature_at(s, 0) == png_signature_at(data@, from as int)));
    if n >= 3 && data[from] == 0xFF && data[from + 1] == 0xD8 && data[from + 2] == 0xFF {
        return Some(ImageFormat::Jpeg);
    }
    if n >= 12 && has_bytes4(data, from, 0x52, 0x49, 0x46, 0x46) && has_bytes4(
        data,
        from + 8,
        0x57,
        0x45,
        0x42,
        0x50,
    ) {
        assert(webp_signature_at(s, 0));
        return Some(ImageFormat::Webp);
    }
    assert(n >= 12 ==> (webp_signature_at(s, 0) == webp_signature_at(data@, from as int)));
    if n >= 6 && has_bytes4(data, from, 0x47, 0x49, 0x46, 0x38) && (data[from + 4] == 0x37
        || data[from + 4] == 0x39) && data[from + 5] == 0x61 {
        assert(gif_signature_at(s, 0));
        return Some(ImageFormat::Gif);
    }
    assert(n >= 6 ==> (gif_signature_at(s, 0) == gif_signature_at(data@, from as int)));
    if n >= 2 && data[from] == 0x42 && data[from + 1] == 0x4D {
        return Some(ImageFormat::Bmp);
    }
    if n >= 12 && has_bytes4(data, from + 4, 0x66, 0x74, 0x79, 0x70) && is_heic_brand_at(
        data,
        from + 8,
    ) {
        assert(heic_signature_at(s, 0));
        return Some(ImageFormat::Heic);
    }
    assert(n >= 12 ==> (heic_signature_at(s, 0) == heic_signature_at(data@, from as int)));
    None
}

/// The format whose signature `bytes` starts with, if any.
pub fn detect_format(bytes: &[u8]) -> (r: Option<ImageFormat>)
    ensures
        r == detect(bytes@),
{
    assert(bytes@.subrange(0, bytes@.len() as int) =~= bytes@);
    detect_format_in(bytes, 0, bytes.len())
}

/// Which signature a byte sequence starts with is decided by its first twelve bytes, and a
/// recognised signature stays recognised whatever bytes follow it.
pub proof fn lemma_detect_prefix(s: Seq<u8>, t: Seq<u8>)
    ensures
        s.len() >= 12 ==> detect(s) == detect(s.subrange(0, 12)),
        detect(s) matches Some(f) ==> detect(s + t) == Some(f),
{
    reveal(detect);
    let u = s + t;
    assert forall|i: int| 0 <= i < s.len() implies u[i] == s[i] by {}
    if s.len() >= 12 {
        let p = s.subrange(0, 12);
        assert forall|i: int| 0 <= i < 12 implies p[i] == s[i] by {}
    }
}

} // verus!
