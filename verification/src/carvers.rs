//! Carving: from a signature at a given offset, find out how long the image is and
//! how intact it looks, by walking the structure of its format.
//!
//! The volume is seen as a byte image; a read that would run past its end fails,
//! as it does on the original reader.

use vstd::prelude::*;
use crate::bytes::{
    lemma_image_len, be_u16, be_u32, be_u64, can_read, le_u32, read_be_u16, read_be_u32, read_be_u64, read_le_u32,
    readable,
};
use crate::checksums::{crc32, crc32_of};
use crate::domain::{CandidateStatus, ImageFormat};
use crate::signatures::{
    bmp_signature_at, bytes4, detect, detect_format_in, gif_signature_at, has_bytes4, heic_brand_at,
    is_heic_brand_at, jpeg_signature_at, png_signature_at, webp_signature_at,
};

verus! {

/// Shortest partial or damaged image still reported.
pub const MIN_PARTIAL_IMAGE_BYTES: u64 = 16;

/// Size of the reads that look for the next signature or for the end of JPEG scan data.
pub const CARVE_BUFFER_SIZE: u64 = 1048576;

/// Bytes kept from one read to the next while looking for a signature.
pub const SIGNATURE_TAIL: u64 = 32;

/// The outcome of carving one candidate.
#[derive(Debug, Clone, Copy, PartialEq, Eq, Structural)]
pub struct CarveResult {
    pub length: u64,
    pub confidence: u8,
    pub status: CandidateStatus,
}

pub open spec fn complete(length: int, confidence: u8) -> CarveResult {
    CarveResult { length: length as u64, confidence, status: CandidateStatus::Found }
}

pub open spec fn partial(length: int, confidence: u8) -> CarveResult {
    CarveResult { length: length as u64, confidence, status: CandidateStatus::Partial }
}

pub open spec fn corrupted(length: int, confidence: u8) -> CarveResult {
    CarveResult { length: length as u64, confidence, status: CandidateStatus::Corrupted }
}

impl CarveResult {
    fn complete(length: u64, confidence: u8) -> (r: Self)
        ensures
            r == complete(length as int, confidence),
    {
        CarveResult { length, confidence, status: CandidateStatus::Found }
    }

    fn partial(length: u64, confidence: u8) -> (r: Self)
        ensures
            r == partial(length as int, confidence),
    {
        CarveResult { length, confidence, status: CandidateStatus::Partial }
    }

    fn corrupted(length: u64, confidence: u8) -> (r: Self)
        ensures
            r == corrupted(length as int, confidence),
    {
        CarveResult { length, confidence, status: CandidateStatus::Corrupted }
    }
}

// ---------------------------------------------------------------- WebP

/// A RIFF/WEBP container is as long as its RIFF size field says, plus the 8 header bytes.
pub open spec fn spec_carve_webp(d: Seq<u8>, start: int, max: int) -> Option<CarveResult> {
    if !readable(d, start, 12) || !webp_signature_at(d, start) {
        None
    } else {
        let total = le_u32(d, start + 4) + 8;
        if 12 <= total <= max {
            Some(complete(total, 95))
        } else {
            None
        }
    }
}

pub fn carve_webp(data: &[u8], start: u64, max_file_size: u64) -> (r: Option<CarveResult>)
    ensures
        r == spec_carve_webp(data@, start as int, max_file_size as int),
{
    if !can_read(data, start, 12) {
        return None;
    }
    let s = start as usize;
    if !(has_bytes4(data, s, 0x52, 0x49, 0x46, 0x46) && has_bytes4(data, s + 8, 0x57, 0x45, 0x42, 0x50)) {
        return None;
    }
    let riff_length = read_le_u32(data, start + 4);
    let total_length = riff_length + 8;
    if !(12 <= total_length && total_length <= max_file_size) {
        return None;
    }
    Some(CarveResult::complete(total_length, 95))
}

// ---------------------------------------------------------------- BMP

/// A BMP file is as long as its header says, if the header is plausible.
pub open spec fn spec_carve_bmp(d: Seq<u8>, start: int, max: int) -> Option<CarveResult> {
    if !readable(d, start, 18) || !bmp_signature_at(d, start) {
        None
    } else {
        let total = le_u32(d, start + 2);
        let pixel_offset = le_u32(d, start + 10);
        let dib_size = le_u32(d, start + 14);
        if total < 26 || total > max || pixel_offset < 18 || pixel_offset >= total || dib_size < 12 {
            None
        } else {
            Some(complete(total, 90))
        }
    }
}

pub fn carve_bmp(data: &[u8], start: u64, max_file_size: u64) -> (r: Option<CarveResult>)
    ensures
        r == spec_carve_bmp(data@, start as int, max_file_size as int),
{
    if !can_read(data, start, 18) {
        return None;
    }
    let s = start as usize;
    if !(data[s] == 0x42 && data[s + 1] == 0x4D) {
        return None;
    }
    let total_length = read_le_u32(data, start + 2);
    let pixel_offset = read_le_u32(data, start + 10);
    let dib_size = read_le_u32(data, start + 14);
    if total_length < 26 || total_length > max_file_size || pixel_offset < 18 || pixel_offset
        >= total_length || dib_size < 12 {
        return None;
    }
    Some(CarveResult::complete(total_length, 90))
}

// ---------------------------------------------------------------- GIF

/// Size of a GIF colour table announced by a packed-fields byte: 3 * 2^(n+1) bytes.
pub open spec fn gif_table_bytes(flags: u8) -> int {
    let n = flags & 7u8;
    if n == 0 {
        6
    } else if n == 1 {
        12
    } else if n == 2 {
        24
    } else if n == 3 {
        48
    } else if n == 4 {
        96
    } else if n == 5 {
        192
    } else if n == 6 {
        384
    } else {
        768
    }
}

/// The position just after a chain of GIF data sub-blocks starting at `pos`.
pub open spec fn gif_sub_blocks(d: Seq<u8>, limit: int, pos: int) -> Option<int>
    decreases (if pos < limit { limit - pos } else { 0 }),
{
    if pos >= limit || !(0 <= pos < d.len()) {
        None
    } else {
        let size = d[pos] as int;
        if size == 0 {
            Some(pos + 1)
        } else if pos + 1 + size > limit {
            None
        } else {
            gif_sub_blocks(d, limit, pos + 1 + size)
        }
    }
}

pub proof fn lemma_gif_sub_blocks_advance(d: Seq<u8>, limit: int, pos: int)
    ensures
        gif_sub_blocks(d, limit, pos) matches Some(q) ==> pos < q <= limit,
    decreases (if pos < limit { limit - pos } else { 0 }),
{
    if pos < limit && 0 <= pos < d.len() {
        let size = d[pos] as int;
        if size != 0 && pos + 1 + size <= limit {
            lemma_gif_sub_blocks_advance(d, limit, pos + 1 + size);
        }
    }
}

/// Walks the GIF blocks from `pos` until the trailer.
pub open spec fn gif_blocks(d: Seq<u8>, start: int, limit: int, pos: int) -> Option<CarveResult>
    decreases (if pos < limit { limit - pos } else { 0 }),
{
    if pos >= limit || !(0 <= pos < d.len()) {
        None
    } else if d[pos] == 0x3B {
        Some(complete(pos + 1 - start, 96))
    } else if d[pos] == 0x2C {
        if !readable(d, pos + 1, 9) {
            None
        } else {
            let flags = d[pos + 9];
            let after = pos + 10 + (if flags & 0x80u8 != 0 { gif_table_bytes(flags) } else { 0 }) + 1;
            match gif_sub_blocks(d, limit, after) {
                Some(next) => {
                    proof {
                        lemma_gif_sub_blocks_advance(d, limit, after);
                    }
                    gif_blocks(d, start, limit, next)
                },
                None => None,
            }
        }
    } else if d[pos] == 0x21 {
        match gif_sub_blocks(d, limit, pos + 2) {
            Some(next) => {
                proof {
                    lemma_gif_sub_blocks_advance(d, limit, pos + 2);
                }
                gif_blocks(d, start, limit, next)
            },
            None => None,
        }
    } else {
        None
    }
}

/// A GIF ends at its trailer byte, found by walking image descriptors and extensions.
pub open spec fn spec_carve_gif(d: Seq<u8>, start: int, max: int) -> Option<CarveResult> {
    if !readable(d, start, 13) || !gif_signature_at(d, start) {
        None
    } else if start + max > u64::MAX {
        None
    } else {
        let flags = d[start + 10];
        let pos = start + 13 + (if flags & 0x80u8 != 0 { gif_table_bytes(flags) } else { 0 });
        if pos > u64::MAX {
            None
        } else {
            gif_blocks(d, start, start + max, pos)
        }
    }
}

fn gif_color_table_bytes(flags: u8) -> (r: u64)
    ensures
        r as int == gif_table_bytes(flags),
{
    let n = flags & 7u8;
    if n == 0 {
        6
    } else if n == 1 {
        12
    } else if n == 2 {
        24
    } else if n == 3 {
        48
    } else if n == 4 {
        96
    } else if n == 5 {
        192
    } else if n == 6 {
        384
    } else {
        768
    }
}

fn skip_gif_sub_blocks(data: &[u8], start_position: u64, limit: u64) -> (r: Option<u64>)
    ensures
        r == (match gif_sub_blocks(data@, limit as int, start_position as int) {
            Some(q) => Some(q as u64),
            None => None::<u64>,
        }),
{
    let mut position = start_position;
    loop
        invariant
            gif_sub_blocks(data@, limit as int, position as int) == gif_sub_blocks(
                data@,
                limit as int,
                start_position as int,
            ),
        decreases (if position < limit { limit - position } else { 0 }),
    {
        if position >= limit || position >= data.len() as u64 {
            return None;
        }
        let size = data[position as usize] as u64;
        position = position + 1;
        if size == 0 {
            return Some(position);
        }
        if size > limit - position {
            return None;
        }
        position = position + size;
    }
}

pub fn carve_gif(data: &[u8], start: u64, max_file_size: u64) -> (r: Option<CarveResult>)
    ensures
        r == spec_carve_gif(data@, start as int, max_file_size as int),
{
    if !can_read(data, start, 13) {
        return None;
    }
    let s = start as usize;
    if !(has_bytes4(data, s, 0x47, 0x49, 0x46, 0x38) && (data[s + 4] == 0x37 || data[s + 4] == 0x39)
        && data[s + 5] == 0x61) {
        return None;
    }
    let limit = match start.checked_add(max_file_size) {
        Some(limit) => limit,
        None => return None,
    };
    let mut position = start + 13;
    let flags = data[s + 10];
    if flags & 0x80u8 != 0 {
        position = match position.checked_add(gif_color_table_bytes(flags)) {
            Some(p) => p,
            None => return None,
        };
    }
    let ghost spec_result = spec_carve_gif(data@, start as int, max_file_size as int);
    loop
        invariant
            start as int + max_file_size as int == limit as int,
            spec_result == spec_carve_gif(data@, start as int, max_file_size as int),
            spec_result == gif_blocks(data@, start as int, limit as int, position as int),
            start < position,
        decreases (if position < limit { limit - position } else { 0 }),
    {
        if position >= limit || position >= data.len() as u64 {
            return None;
        }
        let block = data[position as usize];
        if block == 0x3B {
            return Some(CarveResult::complete(position + 1 - start, 96));
        } else if block == 0x2C {
            if !can_read(data, position + 1, 9) {
                return None;
            }
            let descriptor_flags = data[(position + 9) as usize];
            let mut after = position + 10;
            if descriptor_flags & 0x80u8 != 0 {
                after = after.saturating_add(gif_color_table_bytes(descriptor_flags));
            }
            after = after.saturating_add(1);
            proof {
                lemma_gif_sub_blocks_advance(data@, limit as int, after as int);
                let exact = position + 10 + (if descriptor_flags & 0x80u8 != 0 {
                    gif_table_bytes(descriptor_flags)
                } else {
                    0
                }) + 1;
                assert(exact >= limit ==> gif_sub_blocks(data@, limit as int, exact) is None);
                assert(after >= limit ==> gif_sub_blocks(data@, limit as int, after as int) is None);
            }
            position = match skip_gif_sub_blocks(data, after, limit) {
                Some(next) => next,
                None => return None,
            };
        } else if block == 0x21 {
            let after = position.saturating_add(2);
            proof {
                lemma_gif_sub_blocks_advance(data@, limit as int, after as int);
                assert(position + 2 >= limit ==> gif_sub_blocks(data@, limit as int, position + 2) is None);
            }
            position = match skip_gif_sub_blocks(data, after, limit) {
                Some(next) => next,
                None => return None,
            };
        } else {
            return None;
        }
    }
}


// ---------------------------------------------------------------- HEIC / AVIF

/// `ftyp` box lists a HEIF/AVIF brand in one of the 4-byte slots between `i` and `to`.
pub open spec fn any_heic_brand(d: Seq<u8>, i: int, to: int) -> bool
    decreases to - i,
{
    if i + 4 > to {
        false
    } else {
        heic_brand_at(d, i) || any_heic_brand(d, i + 4, to)
    }
}

/// An ISO-BMFF box type is made of ASCII letters, digits and spaces.
pub open spec fn box_type_byte_ok(b: u8) -> bool {
    (0x30 <= b <= 0x39) || (0x41 <= b <= 0x5A) || (0x61 <= b <= 0x7A) || b == 0x20
}

pub open spec fn box_type_ok(d: Seq<u8>, i: int) -> bool {
    box_type_byte_ok(d[i]) && box_type_byte_ok(d[i + 1]) && box_type_byte_ok(d[i + 2])
        && box_type_byte_ok(d[i + 3])
}

/// The walk over top-level boxes stops at `pos`: the file counts if a box followed the
/// `ftyp` box and one of the boxes was `mdat`.
pub open spec fn heic_finish(start: int, pos: int, more_boxes: bool, saw_mdat: bool) -> Option<
    CarveResult,
> {
    if more_boxes && saw_mdat {
        Some(complete(pos - start, 75))
    } else {
        None
    }
}

/// Walks top-level ISO-BMFF boxes from `pos` until one is implausible or the limit is met.
pub open spec fn heic_boxes(
    d: Seq<u8>,
    start: int,
    limit: int,
    pos: int,
    more_boxes: bool,
    saw_mdat: bool,
) -> Option<CarveResult>
    decreases (if pos < limit { limit - pos } else { 0 }),
{
    if pos + 8 > limit || !readable(d, pos, 8) {
        heic_finish(start, pos, more_boxes, saw_mdat)
    } else {
        let size32 = be_u32(d, pos);
        if size32 == 1 && !readable(d, pos + 8, 8) {
            None
        } else {
            let size = if size32 == 1 { be_u64(d, pos + 8) } else { size32 };
            let header = if size32 == 1 { 16int } else { 8int };
            if size == 0 || size < header || pos + size > limit || !box_type_ok(d, pos + 4) {
                heic_finish(start, pos, more_boxes, saw_mdat)
            } else {
                heic_boxes(
                    d,
                    start,
                    limit,
                    pos + size,
                    true,
                    saw_mdat || bytes4(d, pos + 4, 0x6D, 0x64, 0x61, 0x74),
                )
            }
        }
    }
}

/// A HEIF/AVIF file: an `ftyp` box naming a compatible brand, then top-level boxes, one of
/// them `mdat`.
pub open spec fn spec_carve_heic(d: Seq<u8>, start: int, max: int) -> Option<CarveResult> {
    if !readable(d, start, 16) {
        None
    } else {
        let first = be_u32(d, start);
        if !bytes4(d, start + 4, 0x66, 0x74, 0x79, 0x70) || first < 16 || first > 1048576 || first
            > max || !heic_brand_at(d, start + 8) {
            None
        } else if !readable(d, start, first) {
            None
        } else if !any_heic_brand(d, start + 8, start + first) {
            None
        } else if start + max > u64::MAX {
            None
        } else {
            heic_boxes(d, start, start + max, start + first, false, false)
        }
    }
}

fn box_type_is_plausible(data: &[u8], i: usize) -> (r: bool)
    requires
        i + 4 <= data.len(),
    ensures
        r == box_type_ok(data@, i as int),
{
    let mut k: usize = 0;
    while k < 4
        invariant
            k <= 4,
            i + 4 <= data.len(),
            forall|j: int| 0 <= j < k ==> box_type_byte_ok(#[trigger] data@[i + j]),
        decreases 4 - k,
    {
        let b = data[i + k];
        if !((0x30 <= b && b <= 0x39) || (0x41 <= b && b <= 0x5A) || (0x61 <= b && b <= 0x7A) || b
            == 0x20) {
            return false;
        }
        k = k + 1;
    }
    assert(box_type_byte_ok(data@[i + 0]));
    assert(box_type_byte_ok(data@[i + 1]));
    assert(box_type_byte_ok(data@[i + 2]));
    assert(box_type_byte_ok(data@[i + 3]));
    true
}

fn heic_finish_result(start: u64, position: u64, more_boxes: bool, saw_media_data: bool) -> (r:
    Option<CarveResult>)
    requires
        start <= position,
    ensures
        r == heic_finish(start as int, position as int, more_boxes, saw_media_data),
{
    if more_boxes && saw_media_data {
        Some(CarveResult::complete(position - start, 75))
    } else {
        None
    }
}

pub fn carve_heic(data: &[u8], start: u64, max_file_size: u64) -> (r: Option<CarveResult>)
    ensures
        r == spec_carve_heic(data@, start as int, max_file_size as int),
{
    if !can_read(data, start, 16) {
        return None;
    }
    let s = start as usize;
    let first_size = read_be_u32(data, start);
    if !has_bytes4(data, s + 4, 0x66, 0x74, 0x79, 0x70) || first_size < 16 || first_size > 1048576
        || first_size > max_file_size || !is_heic_brand_at(data, s + 8) {
        return None;
    }
    if !can_read(data, start, first_size) {
        return None;
    }
    let end = s + first_size as usize;
    let mut i = s + 8;
    let mut has_compatible_brand = false;
    while !has_compatible_brand && end - i >= 4
        invariant
            s + 8 <= i <= end,
            end <= data@.len(),
            (i - (s + 8)) % 4 == 0,
            has_compatible_brand ==> any_heic_brand(data@, s + 8, end as int),
            !has_compatible_brand ==> any_heic_brand(data@, s + 8, end as int) == any_heic_brand(
                data@,
                i as int,
                end as int,
            ),
        decreases (end - i) * 2 + (if has_compatible_brand { 0int } else { 1int }),
    {
        if is_heic_brand_at(data, i) {
            has_compatible_brand = true;
        } else {
            i = i + 4;
        }
    }
    if !has_compatible_brand {
        return None;
    }
    let limit = match start.checked_add(max_file_size) {
        Some(limit) => limit,
        None => return None,
    };
    let mut position = start + first_size;
    let mut more_boxes = false;
    let mut saw_media_data = false;
    let ghost spec_result = spec_carve_heic(data@, start as int, max_file_size as int);
    loop
        invariant
            start as int + max_file_size as int == limit as int,
            start <= position <= limit,
            spec_result == spec_carve_heic(data@, start as int, max_file_size as int),
            spec_result == heic_boxes(
                data@,
                start as int,
                limit as int,
                position as int,
                more_boxes,
                saw_media_data,
            ),
        decreases limit - position,
    {
        if limit - position < 8 || !can_read(data, position, 8) {
            return heic_finish_result(start, position, more_boxes, saw_media_data);
        }
        let p = position as usize;
        let size32 = read_be_u32(data, position);
        let mut box_size = size32;
        let mut header_size: u64 = 8;
        if size32 == 1 {
            if !can_read(data, position + 8, 8) {
                return None;
            }
            box_size = read_be_u64(data, position + 8);
            header_size = 16;
        }
        if box_size == 0 || box_size < header_size || box_size > limit - position
            || !box_type_is_plausible(data, p + 4) {
            return heic_finish_result(start, position, more_boxes, saw_media_data);
        }
        saw_media_data = saw_media_data || has_bytes4(data, p + 4, 0x6D, 0x64, 0x61, 0x74);
        more_boxes = true;
        position = position + box_size;
    }
}

// ---------------------------------------------------------------- PNG

pub open spec fn ascii_alpha(b: u8) -> bool {
    (0x41 <= b <= 0x5A) || (0x61 <= b <= 0x7A)
}

/// The chunk at `pos` carries a CRC that matches its type and data.
pub open spec fn png_crc_ok(d: Seq<u8>, pos: int, len: int) -> bool {
    crc32_of(d.subrange(pos + 4, pos + 8 + len)) as int == be_u32(d, pos + 8 + len)
}

/// The image ended or broke off after a chunk that parsed: what deep scans keep of it.
pub open spec fn png_unfinished(
    allow_partial: bool,
    start: int,
    last_good: int,
    saw_ihdr: bool,
    saw_idat: bool,
    integrity_ok: bool,
) -> Option<CarveResult> {
    if !allow_partial || !saw_ihdr {
        None
    } else {
        let length = if last_good > start { last_good - start } else { 0 };
        if length < 16 {
            None
        } else if saw_idat {
            Some(partial(length, if integrity_ok { 66 } else { 50 }))
        } else {
            Some(corrupted(length, 40))
        }
    }
}

/// A chunk did not parse: what deep scans keep of the image before it.
pub open spec fn png_damaged(
    allow_partial: bool,
    start: int,
    last_good: int,
    saw_ihdr: bool,
    saw_idat: bool,
) -> Option<CarveResult> {
    if !allow_partial || !saw_ihdr {
        None
    } else {
        let length = if last_good > start { last_good - start } else { 0 };
        if length < 16 {
            None
        } else {
            Some(corrupted(length, if saw_idat { 48 } else { 38 }))
        }
    }
}

/// Walks PNG chunks from `pos` until `IEND`, checking each CRC.
pub open spec fn png_chunks(
    d: Seq<u8>,
    start: int,
    limit: int,
    max: int,
    allow_partial: bool,
    pos: int,
    integrity_ok: bool,
    saw_ihdr: bool,
    saw_idat: bool,
    last_good: int,
) -> Option<CarveResult>
    decreases (if pos < limit { limit - pos } else { 0 }),
{
    if pos + 12 > limit || !readable(d, pos, 8) {
        png_unfinished(allow_partial, start, last_good, saw_ihdr, saw_idat, integrity_ok)
    } else {
        let len = be_u32(d, pos);
        if !(ascii_alpha(d[pos + 4]) && ascii_alpha(d[pos + 5]) && ascii_alpha(d[pos + 6])
            && ascii_alpha(d[pos + 7])) {
            png_damaged(allow_partial, start, last_good, saw_ihdr, saw_idat)
        } else if len > max || pos + 12 + len > limit || !readable(d, pos + 8, len + 4) {
            png_unfinished(allow_partial, start, last_good, saw_ihdr, saw_idat, integrity_ok)
        } else {
            let ok = integrity_ok && png_crc_ok(d, pos, len);
            let is_ihdr = bytes4(d, pos + 4, 0x49, 0x48, 0x44, 0x52);
            if is_ihdr && (saw_ihdr || len != 13 || pos != start + 8) {
                png_damaged(allow_partial, start, last_good, true, saw_idat)
            } else if !is_ihdr && !saw_ihdr {
                None
            } else {
                let idat = saw_idat || (!is_ihdr && bytes4(d, pos + 4, 0x49, 0x44, 0x41, 0x54));
                let next = pos + 12 + len;
                if bytes4(d, pos + 4, 0x49, 0x45, 0x4E, 0x44) {
                    if len != 0 || !idat {
                        Some(corrupted(next - start, 45))
                    } else if ok {
                        Some(complete(next - start, 100))
                    } else {
                        Some(corrupted(next - start, 70))
                    }
                } else {
                    png_chunks(d, start, limit, max, allow_partial, next, ok, true, idat, next)
                }
            }
        }
    }
}

/// A PNG runs from its signature through its `IEND` chunk.
pub open spec fn spec_carve_png(d: Seq<u8>, start: int, max: int, allow_partial: bool) -> Option<
    CarveResult,
> {
    if !readable(d, start, 8) || !png_signature_at(d, start) {
        None
    } else if start + max > u64::MAX {
        None
    } else {
        png_chunks(d, start, start + max, max, allow_partial, start + 8, true, false, false, start + 8)
    }
}

fn png_unfinished_result(
    allow_partial: bool,
    start: u64,
    last_good_position: u64,
    saw_ihdr: bool,
    saw_idat: bool,
    integrity_ok: bool,
) -> (r: Option<CarveResult>)
    ensures
        r == png_unfinished(
            allow_partial,
            start as int,
            last_good_position as int,
            saw_ihdr,
            saw_idat,
            integrity_ok,
        ),
{
    if !allow_partial || !saw_ihdr {
        return None;
    }
    let length = last_good_position.saturating_sub(start);
    if length < MIN_PARTIAL_IMAGE_BYTES {
        return None;
    }
    if saw_idat {
        Some(
            CarveResult::partial(
                length,
                if integrity_ok {
                    66
                } else {
                    50
                },
            ),
        )
    } else {
        Some(CarveResult::corrupted(length, 40))
    }
}

fn png_damaged_result(
    allow_partial: bool,
    start: u64,
    last_good_position: u64,
    saw_ihdr: bool,
    saw_idat: bool,
) -> (r: Option<CarveResult>)
    ensures
        r == png_damaged(allow_partial, start as int, last_good_position as int, saw_ihdr, saw_idat),
{
    if !allow_partial || !saw_ihdr {
        return None;
    }
    let length = last_good_position.saturating_sub(start);
    if length < MIN_PARTIAL_IMAGE_BYTES {
        return None;
    }
    Some(
        CarveResult::corrupted(
            length,
            if saw_idat {
                48
            } else {
                38
            },
        ),
    )
}

/// Checks the CRC of the chunk at `chunk_offset` with `data_length` data bytes; `None`
/// when the chunk runs past the end of the image.
fn verify_png_crc(data: &[u8], chunk_offset: u64, data_length: u64) -> (r: Option<bool>)
    requires
        readable(data@, chunk_offset as int, 8),
    ensures
        r == (if readable(data@, chunk_offset + 8, data_length + 4) {
            Some(png_crc_ok(data@, chunk_offset as int, data_length as int))
        } else {
            None
        }),
{
    proof {
        lemma_image_len(data);
    }
    if !can_read(data, chunk_offset + 8, data_length) || !can_read(
        data,
        chunk_offset + 8 + data_length,
        4,
    ) {
        return None;
    }
    let from = (chunk_offset + 4) as usize;
    let to = (chunk_offset + 8 + data_length) as usize;
    let computed = crc32(&data[from..to]);
    let stored = read_be_u32(data, chunk_offset + 8 + data_length);
    Some(computed as u64 == stored)
}

pub fn carve_png(data: &[u8], start: u64, max_file_size: u64, allow_partial: bool) -> (r: Option<
    CarveResult,
>)
    ensures
        r == spec_carve_png(data@, start as int, max_file_size as int, allow_partial),
{
    if !can_read(data, start, 8) {
        return None;
    }
    let s = start as usize;
    if !(has_bytes4(data, s, 0x89, 0x50, 0x4E, 0x47) && has_bytes4(data, s + 4, 0x0D, 0x0A, 0x1A, 0x0A)) {
        return None;
    }
    let mut position = start + 8;
    let limit = match start.checked_add(max_file_size) {
        Some(limit) => limit,
        None => return None,
    };
    let mut integrity_ok = true;
    let mut saw_ihdr = false;
    let mut saw_idat = false;
    let mut last_good_position = position;
    let ghost spec_result = spec_carve_png(data@, start as int, max_file_size as int, allow_partial);
    loop
        invariant
            start as int + max_file_size as int == limit as int,
            start <= last_good_position,
            start <= position,
            spec_result == spec_carve_png(data@, start as int, max_file_size as int, allow_partial),
            spec_result == png_chunks(
                data@,
                start as int,
                limit as int,
                max_file_size as int,
                allow_partial,
                position as int,
                integrity_ok,
                saw_ihdr,
                saw_idat,
                last_good_position as int,
            ),
        decreases (if position < limit { limit - position } else { 0 }),
    {
        if position > limit || limit - position < 12 || !can_read(data, position, 8) {
            return png_unfinished_result(
                allow_partial,
                start,
                last_good_position,
                saw_ihdr,
                saw_idat,
                integrity_ok,
            );
        }
        let p = position as usize;
        let data_length = read_be_u32(data, position);
        let alpha = {
            let b4 = data[p + 4];
            let b5 = data[p + 5];
            let b6 = data[p + 6];
            let b7 = data[p + 7];
            ((0x41 <= b4 && b4 <= 0x5A) || (0x61 <= b4 && b4 <= 0x7A)) && ((0x41 <= b5 && b5 <= 0x5A)
                || (0x61 <= b5 && b5 <= 0x7A)) && ((0x41 <= b6 && b6 <= 0x5A) || (0x61 <= b6 && b6
                <= 0x7A)) && ((0x41 <= b7 && b7 <= 0x5A) || (0x61 <= b7 && b7 <= 0x7A))
        };
        if !alpha {
            return png_damaged_result(allow_partial, start, last_good_position, saw_ihdr, saw_idat);
        }
        if data_length > max_file_size || data_length > limit - position - 12 {
            return png_unfinished_result(
                allow_partial,
                start,
                last_good_position,
                saw_ihdr,
                saw_idat,
                integrity_ok,
            );
        }
        let crc_ok = match verify_png_crc(data, position, data_length) {
            Some(ok) => ok,
            None => {
                return png_unfinished_result(
                    allow_partial,
                    start,
                    last_good_position,
                    saw_ihdr,
                    saw_idat,
                    integrity_ok,
                );
            },
        };
        integrity_ok = integrity_ok && crc_ok;
        let is_ihdr = has_bytes4(data, p + 4, 0x49, 0x48, 0x44, 0x52);
        if is_ihdr {
            if saw_ihdr || data_length != 13 || position != start + 8 {
                return png_damaged_result(allow_partial, start, last_good_position, true, saw_idat);
            }
            saw_ihdr = true;
        } else if !saw_ihdr {
            return None;
        } else if has_bytes4(data, p + 4, 0x49, 0x44, 0x41, 0x54) {
            saw_idat = true;
        }
        let is_iend = has_bytes4(data, p + 4, 0x49, 0x45, 0x4E, 0x44);
        position = position + 12 + data_length;
        last_good_position = position;
        if is_iend {
            if !saw_ihdr || data_length != 0 || !saw_idat {
                return Some(CarveResult::corrupted(position - start, 45));
            }
            return Some(
                if integrity_ok {
                    CarveResult::complete(position - start, 100)
                } else {
                    CarveResult::corrupted(position - start, 70)
                },
            );
        }
    }
}


// ---------------------------------------------------------------- shared scans

/// End of the part of the image that a scan bounded by `limit` can read.
pub open spec fn readable_end(d: Seq<u8>, limit: int) -> int {
    if limit < d.len() {
        limit
    } else {
        d.len() as int
    }
}

/// Searching `[from, e)` from `i`: the position just after the first `FF D9` pair whose
/// `D9` lies after `from`.
pub open spec fn ffd9_search(d: Seq<u8>, from: int, i: int, e: int) -> Option<int>
    decreases e - i,
{
    if i >= e {
        None
    } else if i > from && d[i - 1] == 0xFF && d[i] == 0xD9 {
        Some(i + 1)
    } else {
        ffd9_search(d, from, i + 1, e)
    }
}

/// The first end-of-image marker in the readable data from `from` to `limit`.
pub open spec fn entropy_end(d: Seq<u8>, from: int, limit: int) -> Option<int> {
    ffd9_search(d, from, from, readable_end(d, limit))
}

/// Where the reads of `CARVE_BUFFER_SIZE` bytes from `from` towards `limit` fail, when the
/// readable data ends at a read failure before `limit`: the start of the read that reaches
/// the failure.
pub open spec fn failing_window(d: Seq<u8>, from: int, limit: int, failed: bool) -> Option<int> {
    if failed && d.len() < limit && from <= d.len() {
        Some(from + CARVE_BUFFER_SIZE * ((d.len() - from) / CARVE_BUFFER_SIZE as int))
    } else {
        None
    }
}

/// The end of JPEG entropy-coded data starting at `from`: just after the first end-of-image
/// marker before `limit`, read in windows of `CARVE_BUFFER_SIZE` bytes; nothing when the
/// window that holds the marker, or one before it, fails to read.
pub open spec fn spec_scan_jpeg_entropy(d: Seq<u8>, from: int, limit: int, failed: bool) -> Option<int> {
    match (entropy_end(d, from, limit), failing_window(d, from, limit, failed)) {
        (Some(x), Some(w)) => if x - 1 >= w {
            None
        } else {
            Some(x)
        },
        (found, _) => found,
    }
}

/// The first position in `[lo, e)` at which a signature is recognised, looking only at the
/// bytes before `e`.
pub open spec fn first_detect_in(d: Seq<u8>, lo: int, e: int) -> Option<int>
    decreases e - lo,
{
    if lo >= e {
        None
    } else if detect(d.subrange(lo, e)) is Some {
        Some(lo)
    } else {
        first_detect_in(d, lo + 1, e)
    }
}

/// The search for the next signature reads the image in windows of `CARVE_BUFFER_SIZE`
/// bytes from `start`; each window also looks again at the last `SIGNATURE_TAIL` bytes
/// before it, and sees no byte past its own end. With no signature before `end_all`, the
/// search ends where reading ended, if it read anything. When the readable data ends at a
/// read failure (`failed`), a read that reaches it fails and the search gives nothing.
pub open spec fn partial_windows(d: Seq<u8>, start: int, end_all: int, pos: int, limit: int, failed: bool) -> Option<int>
    decreases end_all - pos,
{
    if failed && pos < limit && pos + (if limit - pos < CARVE_BUFFER_SIZE {
        limit - pos
    } else {
        CARVE_BUFFER_SIZE as int
    }) > d.len() {
        None
    } else if pos >= end_all {
        if pos > start {
            Some(pos)
        } else {
            None
        }
    } else {
        let e = if pos + CARVE_BUFFER_SIZE < end_all { pos + CARVE_BUFFER_SIZE } else { end_all };
        let lo = if pos - SIGNATURE_TAIL > start { pos - SIGNATURE_TAIL } else { start };
        match first_detect_in(d, lo, e) {
            Some(a) => Some(a),
            None => partial_windows(d, start, end_all, e, limit, failed),
        }
    }
}

/// Where a truncated image most likely ends: at the next recognised signature after
/// `start`, else where the readable data before `limit` ends.
pub open spec fn spec_partial_end(d: Seq<u8>, start: int, limit: int, failed: bool) -> Option<int> {
    partial_windows(d, start, readable_end(d, limit), start, limit, failed)
}

fn readable_end_of(data: &[u8], limit: u64) -> (r: u64)
    ensures
        r as int == readable_end(data@, limit as int),
        r <= data.len(),
{
    proof {
        lemma_image_len(data);
    }
    let len = data.len() as u64;
    if limit < len {
        limit
    } else {
        len
    }
}

fn scan_jpeg_entropy(data: &[u8], start: u64, limit: u64, failed: bool) -> (r: Option<u64>)
    ensures
        r is Some <==> spec_scan_jpeg_entropy(data@, start as int, limit as int, failed) is Some,
        r matches Some(e) ==> spec_scan_jpeg_entropy(data@, start as int, limit as int, failed) == Some(
            e as int,
        ),
{
    proof {
        lemma_image_len(data);
        lemma_ffd9_bounds(data@, start as int, start as int, readable_end(data@, limit as int));
    }
    let found = find_entropy_end(data, start, limit);
    let len = data.len() as u64;
    if failed && len < limit && start <= len {
        let span = len - start;
        let whole = span / CARVE_BUFFER_SIZE * CARVE_BUFFER_SIZE;
        proof {
            vstd::arithmetic::div_mod::lemma_fundamental_div_mod(span as int, CARVE_BUFFER_SIZE as int);
            assert(whole == CARVE_BUFFER_SIZE * (span as int / CARVE_BUFFER_SIZE as int)) by (nonlinear_arith)
                requires
                    whole == (span / CARVE_BUFFER_SIZE) * CARVE_BUFFER_SIZE,
            ;
        }
        let window = start + whole;
        if let Some(x) = found {
            if x - 1 >= window {
                return None;
            }
        }
    }
    found
}

fn find_entropy_end(data: &[u8], start: u64, limit: u64) -> (r: Option<u64>)
    ensures
        r is Some <==> entropy_end(data@, start as int, limit as int) is Some,
        r matches Some(e) ==> entropy_end(data@, start as int, limit as int) == Some(e as int),
{
    let e = readable_end_of(data, limit);
    let mut i = start;
    let mut previous_was_ff = false;
    while i < e
        invariant
            start <= i,
            e <= data@.len(),
            e as int == readable_end(data@, limit as int),
            ffd9_search(data@, start as int, i as int, e as int) == entropy_end(
                data@,
                start as int,
                limit as int,
            ),
            previous_was_ff == (i > start && data@[i - 1] == 0xFF),
        decreases e - i,
    {
        let b = data[i as usize];
        if previous_was_ff && b == 0xD9 {
            return Some(i + 1);
        }
        previous_was_ff = b == 0xFF;
        i = i + 1;
    }
    None
}

fn first_detect_between(data: &[u8], lo: u64, e: u64) -> (r: Option<u64>)
    requires
        e <= data@.len(),
    ensures
        r is Some <==> first_detect_in(data@, lo as int, e as int) is Some,
        r matches Some(a) ==> first_detect_in(data@, lo as int, e as int) == Some(a as int),
{
    proof {
        lemma_image_len(data);
    }
    let mut a = lo;
    while a < e
        invariant
            e <= data@.len(),
            data@.len() == data.len(),
            lo <= a,
            first_detect_in(data@, a as int, e as int) == first_detect_in(data@, lo as int, e as int),
        decreases e - a,
    {
        if detect_format_in(data, a as usize, e as usize).is_some() {
            return Some(a);
        }
        a = a + 1;
    }
    None
}

fn partial_end_before_next_signature(data: &[u8], start: u64, limit: u64, failed: bool) -> (r: Option<u64>)
    ensures
        r is Some <==> spec_partial_end(data@, start as int, limit as int, failed) is Some,
        r matches Some(e) ==> spec_partial_end(data@, start as int, limit as int, failed) == Some(e as int),
        r matches Some(e) ==> start <= e <= readable_end(data@, limit as int),
{
    let end_all = readable_end_of(data, limit);
    let mut position = start;
    loop
        invariant
            end_all <= data@.len(),
            end_all as int == readable_end(data@, limit as int),
            start <= position,
            position > start ==> position <= end_all,
            partial_windows(data@, start as int, end_all as int, position as int, limit as int, failed)
                == spec_partial_end(data@, start as int, limit as int, failed),
        decreases end_all - position,
    {
        if failed && position < limit {
            let wanted = if limit - position < CARVE_BUFFER_SIZE {
                limit - position
            } else {
                CARVE_BUFFER_SIZE
            };
            let len = data.len() as u64;
            if position >= len || wanted > len - position {
                return None;
            }
        }
        if position >= end_all {
            if position > start {
                return Some(position);
            } else {
                return None;
            }
        }
        let window_end = if end_all - position > CARVE_BUFFER_SIZE {
            position + CARVE_BUFFER_SIZE
        } else {
            end_all
        };
        let lo = if position - start > SIGNATURE_TAIL {
            position - SIGNATURE_TAIL
        } else {
            start
        };
        if let Some(found) = first_detect_between(data, lo, window_end) {
            proof {
                lemma_first_detect_bounds(data@, lo as int, window_end as int);
            }
            return Some(found);
        }
        position = window_end;
    }
}

proof fn lemma_first_detect_bounds(d: Seq<u8>, lo: int, e: int)
    ensures
        first_detect_in(d, lo, e) matches Some(a) ==> lo <= a < e,
    decreases e - lo,
{
    if lo < e && detect(d.subrange(lo, e)) is None {
        lemma_first_detect_bounds(d, lo + 1, e);
    }
}

// ---------------------------------------------------------------- JPEG

/// Skips a run of `FF` fill bytes from `pos`, without passing `limit`; `None` when a byte
/// before `limit` cannot be read.
pub open spec fn skip_ff(d: Seq<u8>, limit: int, pos: int) -> Option<int>
    decreases (if pos < limit { limit - pos } else { 0 }),
{
    if pos < limit {
        if !(0 <= pos < d.len()) {
            None
        } else if d[pos] == 0xFF {
            skip_ff(d, limit, pos + 1)
        } else {
            Some(pos)
        }
    } else {
        Some(pos)
    }
}

pub proof fn lemma_skip_ff_advance(d: Seq<u8>, limit: int, pos: int)
    ensures
        skip_ff(d, limit, pos) matches Some(q) ==> pos <= q,
        skip_ff(d, limit, pos) matches Some(q) ==> (q <= limit || q == pos),
    decreases (if pos < limit { limit - pos } else { 0 }),
{
    if pos < limit && 0 <= pos < d.len() && d[pos] == 0xFF {
        lemma_skip_ff_advance(d, limit, pos + 1);
    }
}

/// The JPEG ended before its end-of-image marker: deep scans keep scan data up to the next
/// signature as partial, and header segments alone as corrupted.
pub open spec fn jpeg_unfinished(
    d: Seq<u8>,
    start: int,
    pos: int,
    limit: int,
    allow_partial: bool,
    saw_sos: bool,
    saw_segment: bool,
    last_structured: int,
    failed: bool,
) -> Option<CarveResult> {
    if !allow_partial {
        None
    } else if saw_sos {
        let end = match spec_partial_end(d, pos, limit, failed) {
            Some(e) => e,
            None => limit,
        };
        let length = if end > start { end - start } else { 0 };
        if length >= 16 {
            Some(partial(length, 68))
        } else {
            None
        }
    } else if saw_segment {
        let from = if last_structured > start + 3 { last_structured } else { start + 3 };
        let end = if from < limit { from } else { limit };
        let length = if end > start { end - start } else { 0 };
        if length >= 16 {
            Some(corrupted(length, 42))
        } else {
            None
        }
    } else {
        None
    }
}

/// A segment length did not fit: deep scans keep what came before as corrupted.
pub open spec fn jpeg_damaged(
    d: Seq<u8>,
    start: int,
    pos: int,
    limit: int,
    allow_partial: bool,
    saw_segment: bool,
    last_structured: int,
    failed: bool,
) -> Option<CarveResult> {
    if !allow_partial || !saw_segment {
        None
    } else {
        let from = if last_structured > pos { last_structured } else { pos };
        let fallback = if from < limit { from } else { limit };
        let end = match spec_partial_end(d, fallback, limit, failed) {
            Some(e) => e,
            None => fallback,
        };
        let length = if end > start { end - start } else { 0 };
        if length >= 16 {
            Some(corrupted(length, 45))
        } else {
            None
        }
    }
}

/// Walks JPEG markers from `pos`: segments are skipped by their length, and the scan data
/// after start-of-scan runs to the first end-of-image marker.
pub open spec fn jpeg_walk(
    d: Seq<u8>,
    start: int,
    limit: int,
    allow_partial: bool,
    pos: int,
    saw_segment: bool,
    saw_sos: bool,
    last_structured: int,
    failed: bool,
) -> Option<CarveResult>
    decreases (if pos < limit { limit - pos } else { 0 }),
{
    if !(pos + 1 < limit) || !(0 <= pos < d.len()) {
        jpeg_unfinished(d, start, pos, limit, allow_partial, saw_sos, saw_segment, last_structured, failed)
    } else if d[pos] != 0xFF {
        jpeg_walk(d, start, limit, allow_partial, pos + 1, saw_segment, saw_sos, last_structured, failed)
    } else {
        match skip_ff(d, limit, pos) {
            None => None,
            Some(p) => {
                proof {
                    lemma_skip_ff_advance(d, limit, pos);
                }
                if !(0 <= p < d.len()) || p >= limit {
                    jpeg_unfinished(
                        d,
                        start,
                        p,
                        limit,
                        allow_partial,
                        saw_sos,
                        saw_segment,
                        last_structured,
                        failed,
                    )
                } else {
                    let marker = d[p];
                    let q = p + 1;
                    if marker == 0xD9 {
                        if q - start >= 4 {
                            Some(complete(q - start, 65))
                        } else {
                            None
                        }
                    } else if marker == 0xD8 || marker == 0x01 || (0xD0 <= marker <= 0xD7) {
                        jpeg_walk(d, start, limit, allow_partial, q, saw_segment, saw_sos, last_structured, failed)
                    } else if !readable(d, q, 2) {
                        jpeg_unfinished(
                            d,
                            start,
                            q,
                            limit,
                            allow_partial,
                            saw_sos || marker == 0xDA,
                            saw_segment,
                            last_structured,
                            failed,
                        )
                    } else {
                        let length = be_u16(d, q);
                        if length < 2 || q + length > limit {
                            jpeg_damaged(d, start, q, limit, allow_partial, saw_segment, last_structured, failed)
                        } else if marker == 0xDA {
                            match spec_scan_jpeg_entropy(d, q + length, limit, failed) {
                                Some(end) => Some(complete(end - start, 98)),
                                None => jpeg_unfinished(
                                    d,
                                    start,
                                    q + length,
                                    limit,
                                    allow_partial,
                                    true,
                                    saw_segment,
                                    q + length,
                                    failed,
                                ),
                            }
                        } else {
                            jpeg_walk(d, start, limit, allow_partial, q + length, true, saw_sos, q + length, failed)
                        }
                    }
                }
            },
        }
    }
}

/// A JPEG runs from its start-of-image marker to its end-of-image marker.
pub open spec fn spec_carve_jpeg(d: Seq<u8>, start: int, max: int, allow_partial: bool, failed: bool) -> Option<
    CarveResult,
> {
    if !readable(d, start, 3) || !jpeg_signature_at(d, start) {
        None
    } else if start + max > u64::MAX {
        None
    } else {
        jpeg_walk(d, start, start + max, allow_partial, start + 2, false, false, start + 3, failed)
    }
}

fn jpeg_unfinished_result(
    data: &[u8],
    start: u64,
    position: u64,
    limit: u64,
    allow_partial: bool,
    saw_sos: bool,
    saw_segment: bool,
    last_structured_position: u64,
    failed: bool,
) -> (r: Option<CarveResult>)
    requires
        start + 3 <= u64::MAX,
    ensures
        r == jpeg_unfinished(
            data@,
            start as int,
            position as int,
            limit as int,
            allow_partial,
            saw_sos,
            saw_segment,
            last_structured_position as int,
            failed,
        ),
{
    if !allow_partial {
        return None;
    }
    if saw_sos {
        let end = match partial_end_before_next_signature(data, position, limit, failed) {
            Some(e) => e,
            None => limit,
        };
        let length = end.saturating_sub(start);
        if length >= MIN_PARTIAL_IMAGE_BYTES {
            return Some(CarveResult::partial(length, 68));
        }
        return None;
    }
    if saw_segment {
        let from = if last_structured_position > start + 3 {
            last_structured_position
        } else {
            start + 3
        };
        let end = if from < limit {
            from
        } else {
            limit
        };
        let length = end.saturating_sub(start);
        if length >= MIN_PARTIAL_IMAGE_BYTES {
            return Some(CarveResult::corrupted(length, 42));
        }
        return None;
    }
    None
}

fn jpeg_damaged_result(
    data: &[u8],
    start: u64,
    position: u64,
    limit: u64,
    allow_partial: bool,
    saw_segment: bool,
    last_structured_position: u64,
    failed: bool,
) -> (r: Option<CarveResult>)
    ensures
        r == jpeg_damaged(
            data@,
            start as int,
            position as int,
            limit as int,
            allow_partial,
            saw_segment,
            last_structured_position as int,
            failed,
        ),
{
    if !allow_partial || !saw_segment {
        return None;
    }
    let from = if last_structured_position > position {
        last_structured_position
    } else {
        position
    };
    let fallback = if from < limit {
        from
    } else {
        limit
    };
    let end = match partial_end_before_next_signature(data, fallback, limit, failed) {
        Some(e) => e,
        None => fallback,
    };
    let length = end.saturating_sub(start);
    if length >= MIN_PARTIAL_IMAGE_BYTES {
        Some(CarveResult::corrupted(length, 45))
    } else {
        None
    }
}

/// Carves the JPEG at `start`; `failed` says that `data` ends at a read failure, so that a
/// buffered read reaching its end fails instead of coming back short.
pub fn carve_jpeg(data: &[u8], start: u64, max_file_size: u64, allow_partial: bool, failed: bool) -> (r: Option<
    CarveResult,
>)
    ensures
        r == spec_carve_jpeg(data@, start as int, max_file_size as int, allow_partial, failed),
{
    proof {
        lemma_image_len(data);
    }
    if !can_read(data, start, 3) {
        return None;
    }
    let s = start as usize;
    if !(data[s] == 0xFF && data[s + 1] == 0xD8 && data[s + 2] == 0xFF) {
        return None;
    }
    let limit = match start.checked_add(max_file_size) {
        Some(limit) => limit,
        None => return None,
    };
    let mut position = start + 2;
    let mut saw_segment = false;
    let mut saw_sos = false;
    let mut last_structured_position = start + 3;
    let ghost spec_result = spec_carve_jpeg(data@, start as int, max_file_size as int, allow_partial, failed);
    loop
        invariant
            data@.len() == data.len(),
            start + 3 <= data@.len(),
            start as int + max_file_size as int == limit as int,
            spec_result == spec_carve_jpeg(data@, start as int, max_file_size as int, allow_partial, failed),
            spec_result == jpeg_walk(
                data@,
                start as int,
                limit as int,
                allow_partial,
                position as int,
                saw_segment,
                saw_sos,
                last_structured_position as int,
                failed,
            ),
            start < position,
        decreases (if position < limit { limit - position } else { 0 }),
    {
        if position >= limit || limit - position <= 1 || position >= data.len() as u64 {
            return jpeg_unfinished_result(
                data,
                start,
                position,
                limit,
                allow_partial,
                saw_sos,
                saw_segment,
                last_structured_position,
                failed,
            );
        }
        if data[position as usize] != 0xFF {
            position = position + 1;
            continue;
        }
        let ghost before_skip = position;
        proof {
            lemma_skip_ff_advance(data@, limit as int, position as int);
        }
        while position < limit && position < data.len() as u64 && data[position as usize] == 0xFF
            invariant
                data@.len() == data.len(),
                before_skip <= position,
                position <= limit || position == before_skip,
                skip_ff(data@, limit as int, position as int) == skip_ff(
                    data@,
                    limit as int,
                    before_skip as int,
                ),
            decreases limit - position,
        {
            position = position + 1;
        }
        if position < limit && position >= data.len() as u64 {
            return None;
        }
        if position >= limit || position >= data.len() as u64 {
            return jpeg_unfinished_result(
                data,
                start,
                position,
                limit,
                allow_partial,
                saw_sos,
                saw_segment,
                last_structured_position,
                failed,
            );
        }
        let marker = data[position as usize];
        position = position + 1;
        if marker == 0xD9 {
            let length = position - start;
            if length >= 4 {
                return Some(CarveResult::complete(length, 65));
            }
            return None;
        }
        if marker == 0xD8 || marker == 0x01 || (0xD0 <= marker && marker <= 0xD7) {
            continue;
        }
        if marker == 0xDA {
            saw_sos = true;
        }
        if !can_read(data, position, 2) {
            return jpeg_unfinished_result(
                data,
                start,
                position,
                limit,
                allow_partial,
                saw_sos,
                saw_segment,
                last_structured_position,
                failed,
            );
        }
        let segment_length = read_be_u16(data, position);
        if segment_length < 2 || position > limit || segment_length > limit - position {
            return jpeg_damaged_result(
                data,
                start,
                position,
                limit,
                allow_partial,
                saw_segment,
                last_structured_position,
                failed,
            );
        }
        position = position + segment_length;
        last_structured_position = position;
        if marker == 0xDA {
            if let Some(end) = scan_jpeg_entropy(data, position, limit, failed) {
                proof {
                    lemma_ffd9_bounds(data@, position as int, position as int, readable_end(data@, limit as int));
                }
                return Some(CarveResult::complete(end - start, 98));
            }
            return jpeg_unfinished_result(
                data,
                start,
                position,
                limit,
                allow_partial,
                saw_sos,
                saw_segment,
                last_structured_position,
                failed,
            );
        }
        saw_segment = true;
    }
}

proof fn lemma_ffd9_bounds(d: Seq<u8>, from: int, i: int, e: int)
    ensures
        ffd9_search(d, from, i, e) matches Some(x) ==> i < x <= e,
    decreases e - i,
{
    if i < e && !(i > from && d[i - 1] == 0xFF && d[i] == 0xD9) {
        lemma_ffd9_bounds(d, from, i + 1, e);
    }
}


// ---------------------------------------------------------------- dispatch

/// Carving a candidate of `format` whose signature starts at `offset`, reading no further
/// than `max_file_size` bytes from it. `d` holds the bytes that can be read; `failed` says
/// that they end at a read failure rather than at the end of the volume.
#[verifier::opaque]
pub open spec fn spec_carve_at(
    d: Seq<u8>,
    offset: int,
    format: ImageFormat,
    max_file_size: int,
    allow_partial: bool,
    failed: bool,
) -> Option<CarveResult> {
    match format {
        ImageFormat::Jpeg => spec_carve_jpeg(d, offset, max_file_size, allow_partial, failed),
        ImageFormat::Png => spec_carve_png(d, offset, max_file_size, allow_partial),
        ImageFormat::Webp => spec_carve_webp(d, offset, max_file_size),
        ImageFormat::Heic => spec_carve_heic(d, offset, max_file_size),
        ImageFormat::Bmp => spec_carve_bmp(d, offset, max_file_size),
        ImageFormat::Gif => spec_carve_gif(d, offset, max_file_size),
    }
}

/// Carves the candidate of `format` at `offset` in `data`, the readable bytes of the
/// volume; `failed` says that they end at a read failure.
pub fn carve_at(
    data: &[u8],
    offset: u64,
    format: ImageFormat,
    max_file_size: u64,
    allow_partial: bool,
    failed: bool,
) -> (r: Option<CarveResult>)
    ensures
        r == spec_carve_at(data@, offset as int, format, max_file_size as int, allow_partial, failed),
        carve_within(r, max_file_size as int, allow_partial),
{
    proof {
        lemma_carve_at_within(data, offset, format, max_file_size, allow_partial, failed);
    }
    reveal(spec_carve_at);
    match format {
        ImageFormat::Jpeg => carve_jpeg(data, offset, max_file_size, allow_partial, failed),
        ImageFormat::Png => carve_png(data, offset, max_file_size, allow_partial),
        ImageFormat::Webp => carve_webp(data, offset, max_file_size),
        ImageFormat::Heic => carve_heic(data, offset, max_file_size),
        ImageFormat::Bmp => carve_bmp(data, offset, max_file_size),
        ImageFormat::Gif => carve_gif(data, offset, max_file_size),
    }
}

// ---------------------------------------------------------------- bounds

/// A carved candidate is found, partial or corrupted; partial only where partial results
/// were asked for; and at least one and at most `max` bytes long.
pub open spec fn carve_within(r: Option<CarveResult>, max: int, allow_partial: bool) -> bool {
    match r {
        Some(c) => {
            &&& (c.status is Found || c.status is Partial || c.status is Corrupted)
            &&& (c.status is Partial ==> allow_partial)
            &&& 0 < c.length <= max
        },
        None => true,
    }
}

proof fn lemma_gif_blocks_within(d: Seq<u8>, start: int, limit: int, pos: int)
    requires
        0 <= start <= pos,
        limit - start <= u64::MAX,
    ensures
        carve_within(gif_blocks(d, start, limit, pos), limit - start, false),
    decreases (if pos < limit { limit - pos } else { 0 }),
{
    if pos < limit && 0 <= pos < d.len() && d[pos] != 0x3B {
        if d[pos] == 0x2C {
            if readable(d, pos + 1, 9) {
                let flags = d[pos + 9];
                let after = pos + 10 + (if flags & 0x80u8 != 0 { gif_table_bytes(flags) } else { 0 })
                    + 1;
                lemma_gif_sub_blocks_advance(d, limit, after);
                if let Some(next) = gif_sub_blocks(d, limit, after) {
                    lemma_gif_blocks_within(d, start, limit, next);
                }
            }
        } else if d[pos] == 0x21 {
            lemma_gif_sub_blocks_advance(d, limit, pos + 2);
            if let Some(next) = gif_sub_blocks(d, limit, pos + 2) {
                lemma_gif_blocks_within(d, start, limit, next);
            }
        }
    }
}

proof fn lemma_heic_boxes_within(
    d: Seq<u8>,
    start: int,
    limit: int,
    pos: int,
    more_boxes: bool,
    saw_mdat: bool,
)
    requires
        0 <= start < pos <= limit,
        limit - start <= u64::MAX,
    ensures
        carve_within(heic_boxes(d, start, limit, pos, more_boxes, saw_mdat), limit - start, false),
    decreases (if pos < limit { limit - pos } else { 0 }),
{
    if !(pos + 8 > limit || !readable(d, pos, 8)) {
        let size32 = be_u32(d, pos);
        if !(size32 == 1 && !readable(d, pos + 8, 8)) {
            let size = if size32 == 1 { be_u64(d, pos + 8) } else { size32 };
            let header = if size32 == 1 { 16int } else { 8int };
            if !(size == 0 || size < header || pos + size > limit || !box_type_ok(d, pos + 4)) {
                lemma_heic_boxes_within(
                    d,
                    start,
                    limit,
                    pos + size,
                    true,
                    saw_mdat || bytes4(d, pos + 4, 0x6D, 0x64, 0x61, 0x74),
                );
            }
        }
    }
}

proof fn lemma_png_chunks_within(
    d: Seq<u8>,
    start: int,
    limit: int,
    max: int,
    allow_partial: bool,
    pos: int,
    integrity_ok: bool,
    saw_ihdr: bool,
    saw_idat: bool,
    last_good: int,
)
    requires
        0 <= start <= last_good,
        start < pos,
        last_good <= limit || last_good - start < 16,
        limit - start <= u64::MAX,
    ensures
        carve_within(
            png_chunks(d, start, limit, max, allow_partial, pos, integrity_ok, saw_ihdr, saw_idat, last_good),
            limit - start,
            allow_partial,
        ),
    decreases (if pos < limit { limit - pos } else { 0 }),
{
    if !(pos + 12 > limit || !readable(d, pos, 8)) {
        let len = be_u32(d, pos);
        if (ascii_alpha(d[pos + 4]) && ascii_alpha(d[pos + 5]) && ascii_alpha(d[pos + 6])
            && ascii_alpha(d[pos + 7])) && !(len > max || pos + 12 + len > limit || !readable(
            d,
            pos + 8,
            len + 4,
        )) {
            let ok = integrity_ok && png_crc_ok(d, pos, len);
            let is_ihdr = bytes4(d, pos + 4, 0x49, 0x48, 0x44, 0x52);
            let idat = saw_idat || (!is_ihdr && bytes4(d, pos + 4, 0x49, 0x44, 0x41, 0x54));
            let next = pos + 12 + len;
            lemma_png_chunks_within(d, start, limit, max, allow_partial, next, ok, true, idat, next);
        }
    }
}

proof fn lemma_partial_windows_within(d: Seq<u8>, start: int, end_all: int, pos: int, limit: int, failed: bool)
    requires
        pos == start || pos <= end_all,
    ensures
        partial_windows(d, start, end_all, pos, limit, failed) matches Some(x) ==> x <= end_all,
    decreases end_all - pos,
{
    if pos < end_all {
        let e = if pos + CARVE_BUFFER_SIZE < end_all { pos + CARVE_BUFFER_SIZE } else { end_all };
        let lo = if pos - SIGNATURE_TAIL > start { pos - SIGNATURE_TAIL } else { start };
        lemma_first_detect_bounds(d, lo, e);
        lemma_partial_windows_within(d, start, end_all, e, limit, failed);
    }
}

proof fn lemma_partial_end_within(d: Seq<u8>, start: int, limit: int, failed: bool)
    ensures
        spec_partial_end(d, start, limit, failed) matches Some(x) ==> x <= limit,
{
    lemma_partial_windows_within(d, start, readable_end(d, limit), start, limit, failed);
}

proof fn lemma_jpeg_walk_within(
    d: Seq<u8>,
    start: int,
    limit: int,
    allow_partial: bool,
    pos: int,
    saw_segment: bool,
    saw_sos: bool,
    last_structured: int,
    failed: bool,
)
    requires
        0 <= start <= pos,
        d.len() <= u64::MAX,
        limit - start <= u64::MAX,
    ensures
        carve_within(
            jpeg_walk(d, start, limit, allow_partial, pos, saw_segment, saw_sos, last_structured, failed),
            limit - start,
            allow_partial,
        ),
    decreases (if pos < limit { limit - pos } else { 0 }),
{
    lemma_partial_end_within(d, pos, limit, failed);
    if !(pos + 1 < limit) || !(0 <= pos < d.len()) {
    } else if d[pos] != 0xFF {
        lemma_jpeg_walk_within(d, start, limit, allow_partial, pos + 1, saw_segment, saw_sos, last_structured, failed);
    } else {
        lemma_skip_ff_advance(d, limit, pos);
        if let Some(p) = skip_ff(d, limit, pos) {
            lemma_partial_end_within(d, p, limit, failed);
            if 0 <= p < d.len() {
                let marker = d[p];
                let q = p + 1;
                lemma_partial_end_within(d, q, limit, failed);
                if marker == 0xD9 {
                } else if marker == 0xD8 || marker == 0x01 || (0xD0 <= marker <= 0xD7) {
                    lemma_jpeg_walk_within(d, start, limit, allow_partial, q, saw_segment, saw_sos, last_structured, failed);
                } else if readable(d, q, 2) {
                    let length = be_u16(d, q);
                    let from = if last_structured > q { last_structured } else { q };
                    let fallback = if from < limit { from } else { limit };
                    lemma_partial_end_within(d, fallback, limit, failed);
                    lemma_partial_end_within(d, q + length, limit, failed);
                    if !(length < 2 || q + length > limit) {
                        if marker == 0xDA {
                            lemma_ffd9_bounds(d, q + length, q + length, readable_end(d, limit));
                        } else {
                            lemma_jpeg_walk_within(d, start, limit, allow_partial, q + length, true, saw_sos, q + length, failed);
                        }
                    }
                }
            }
        }
    }
}

/// Every candidate that carving returns is found, partial or corrupted, and partial only
/// when partial results were asked for. Its length is positive and at most
/// `max_file_size`: carving never reads a marker at or past the limit.
pub proof fn lemma_carve_at_within(
    data: &[u8],
    offset: u64,
    format: ImageFormat,
    max_file_size: u64,
    allow_partial: bool,
    failed: bool,
)
    ensures
        carve_within(
            spec_carve_at(data@, offset as int, format, max_file_size as int, allow_partial, failed),
            max_file_size as int,
            allow_partial,
        ),
{
    reveal(spec_carve_at);
    lemma_image_len(data);
    let d = data@;
    let start = offset as int;
    let max = max_file_size as int;
    match format {
        ImageFormat::Jpeg => {
            if readable(d, start, 3) && jpeg_signature_at(d, start) && start + max <= u64::MAX {
                lemma_jpeg_walk_within(d, start, start + max, allow_partial, start + 2, false, false, start + 3, failed);
            }
        },
        ImageFormat::Png => {
            if readable(d, start, 8) && png_signature_at(d, start) && start + max <= u64::MAX {
                lemma_png_chunks_within(d, start, start + max, max, allow_partial, start + 8, true, false, false, start + 8);
            }
        },
        ImageFormat::Webp => {},
        ImageFormat::Heic => {
            if readable(d, start, 16) && start + max <= u64::MAX {
                let first = be_u32(d, start);
                if 16 <= first <= max {
                    lemma_heic_boxes_within(d, start, start + max, start + first, false, false);
                }
            }
        },
        ImageFormat::Bmp => {},
        ImageFormat::Gif => {
            if readable(d, start, 13) && gif_signature_at(d, start) && start + max <= u64::MAX {
                let flags = d[start + 10];
                let pos = start + 13 + (if flags & 0x80u8 != 0 { gif_table_bytes(flags) } else { 0 });
                lemma_gif_blocks_within(d, start, start + max, pos);
            }
        },
    }
}

} // verus!
