//! What carving promises of well-formed images, stated over their bytes: where an image
//! ends, and which layouts of a format carve as complete.

use vstd::prelude::*;
use crate::bytes::{be_u32, be_u64, le_u32, readable};
use crate::carvers::{
    any_heic_brand, ascii_alpha, corrupted, partial, gif_blocks, gif_sub_blocks, gif_table_bytes, spec_carve_gif, box_type_ok, png_chunks, spec_carve_png, heic_boxes, spec_carve_heic, complete, entropy_end, jpeg_damaged, jpeg_unfinished, jpeg_walk, readable_end, skip_ff,
    spec_carve_bmp, spec_carve_jpeg, spec_carve_webp, spec_scan_jpeg_entropy, ffd9_search,
};
use crate::checksums::crc32_of;
use crate::domain::CandidateStatus;
use crate::signatures::{bytes4, heic_brand_at};

verus! {

// ---------------------------------------------------------------- BMP and WebP

/// A BMP header that starts with `BM`, gives a file size of at least 26 bytes and at most
/// `max`, and a pixel offset of at least 18 bytes inside the file, carves as a complete image
/// of that size, whatever DIB header it names, as long as that header is at least 12 bytes
/// long (core, info, V4 and V5 headers alike).
pub proof fn law_bmp_header_gives_length(d: Seq<u8>, start: int, max: int)
    requires
        readable(d, start, 18),
        d[start] == 0x42,
        d[start + 1] == 0x4D,
        26 <= le_u32(d, start + 2) <= max,
        18 <= le_u32(d, start + 10) < le_u32(d, start + 2),
        le_u32(d, start + 14) >= 12,
    ensures
        spec_carve_bmp(d, start, max) == Some(complete(le_u32(d, start + 2), 90)),
{
}

/// A BMP carve is never longer or shorter than the header's file size, and only a header
/// with a plausible pixel offset and DIB header size is accepted.
pub proof fn law_bmp_carve_reads_header(d: Seq<u8>, start: int, max: int)
    ensures
        spec_carve_bmp(d, start, max) matches Some(r) ==> {
            &&& readable(d, start, 18)
            &&& d[start] == 0x42 && d[start + 1] == 0x4D
            &&& r == complete(le_u32(d, start + 2), 90)
            &&& 26 <= le_u32(d, start + 2) <= max
            &&& 18 <= le_u32(d, start + 10) < le_u32(d, start + 2)
            &&& le_u32(d, start + 14) >= 12
        },
{
}

/// A `RIFF` container of form `WEBP` carves as a complete image of its RIFF size plus the
/// eight bytes of the RIFF header, when that total is at least 12 and at most `max`.
pub proof fn law_webp_riff_size_gives_length(d: Seq<u8>, start: int, max: int)
    requires
        readable(d, start, 12),
        d[start] == 0x52 && d[start + 1] == 0x49 && d[start + 2] == 0x46 && d[start + 3] == 0x46,
        d[start + 8] == 0x57 && d[start + 9] == 0x45 && d[start + 10] == 0x42 && d[start + 11]
            == 0x50,
        12 <= le_u32(d, start + 4) + 8 <= max,
    ensures
        spec_carve_webp(d, start, max) == Some(complete(le_u32(d, start + 4) + 8, 95)),
{
}

// ---------------------------------------------------------------- JPEG

/// `FF D9` (end of image) ends at `j`, counting from the byte of `FF`.
pub open spec fn eoi_pair_at(d: Seq<u8>, j: int) -> bool {
    d[j - 1] == 0xFF && d[j] == 0xD9
}

proof fn lemma_search_finds_first_eoi(d: Seq<u8>, from: int, i: int, e: int)
    requires
        from <= i,
    ensures
        ffd9_search(d, from, i, e) matches Some(x) ==> {
            &&& i < x <= e
            &&& from < x - 1
            &&& eoi_pair_at(d, x - 1)
            &&& forall|j: int| i <= j < x - 1 && from < j ==> !#[trigger] eoi_pair_at(d, j)
        },
        ffd9_search(d, from, i, e) is None ==> forall|j: int|
            i <= j < e && from < j ==> !#[trigger] eoi_pair_at(d, j),
    decreases e - i,
{
    if i < e && !(i > from && d[i - 1] == 0xFF && d[i] == 0xD9) {
        lemma_search_finds_first_eoi(d, from, i + 1, e);
    }
}

/// The entropy-coded data of a JPEG scan that starts at `from` ends just after the first
/// end-of-image pair `FF D9` whose `D9` lies after `from` and before `limit`: the end found
/// follows such a pair, no such pair comes before it, and where none is found the readable
/// data holds none. Restart markers `FF D0` to `FF D7` inside scan data never end it. A scan
/// that fails to read gives either nothing or that same end.
pub proof fn law_jpeg_scan_data_ends_at_first_eoi(d: Seq<u8>, from: int, limit: int, failed: bool)
    requires
        0 <= from,
    ensures
        entropy_end(d, from, limit) matches Some(e) ==> {
            &&& from + 2 <= e <= d.len()
            &&& e <= limit
            &&& d[e - 2] == 0xFF && d[e - 1] == 0xD9
            &&& forall|j: int| from < j < e - 1 ==> !#[trigger] eoi_pair_at(d, j)
        },
        entropy_end(d, from, limit) is None ==> forall|j: int|
            from < j < d.len() && j < limit ==> !#[trigger] eoi_pair_at(d, j),
        spec_scan_jpeg_entropy(d, from, limit, failed) matches Some(e) ==> entropy_end(
            d,
            from,
            limit,
        ) == Some(e),
        !failed ==> spec_scan_jpeg_entropy(d, from, limit, failed) == entropy_end(d, from, limit),
{
    lemma_search_finds_first_eoi(d, from, from, readable_end(d, limit));
}

proof fn lemma_skip_ff_after_ff(d: Seq<u8>, limit: int, pos: int)
    requires
        pos < limit,
        0 <= pos < d.len(),
        d[pos] == 0xFF,
    ensures
        skip_ff(d, limit, pos) matches Some(p) ==> pos < p && d[p - 1] == 0xFF,
    decreases limit - pos,
{
    let n = pos + 1;
    assert(skip_ff(d, limit, pos) == skip_ff(d, limit, n));
    if n < limit && 0 <= n < d.len() && d[n] == 0xFF {
        lemma_skip_ff_after_ff(d, limit, n);
    }
}

proof fn lemma_jpeg_walk_found_ends_at_eoi(
    d: Seq<u8>,
    start: int,
    limit: int,
    allow_partial: bool,
    pos: int,
    saw_segment: bool,
    saw_sos: bool,
    last_structured: int,
    failed: bool,
)
    requires
        0 <= start <= pos,
        limit - start <= u64::MAX,
    ensures
        jpeg_walk(d, start, limit, allow_partial, pos, saw_segment, saw_sos, last_structured, failed)
            matches Some(r) ==> (r.status is Found ==> {
            &&& 4 <= r.length
            &&& start + r.length <= d.len()
            &&& d[start + r.length - 2] == 0xFF
            &&& d[start + r.length - 1] == 0xD9
        }),
    decreases (if pos < limit { limit - pos } else { 0 }),
{
    if !(pos + 1 < limit) || !(0 <= pos < d.len()) {
        lemma_unfinished_not_found(d, start, pos, limit, allow_partial, saw_sos, saw_segment, last_structured, failed);
    } else if d[pos] != 0xFF {
        lemma_jpeg_walk_found_ends_at_eoi(
            d,
            start,
            limit,
            allow_partial,
            pos + 1,
            saw_segment,
            saw_sos,
            last_structured,
            failed,
        );
    } else {
        lemma_skip_ff_after_ff(d, limit, pos);
        crate::carvers::lemma_skip_ff_advance(d, limit, pos);
        if let Some(p) = skip_ff(d, limit, pos) {
            lemma_unfinished_not_found(d, start, p, limit, allow_partial, saw_sos, saw_segment, last_structured, failed);
            if 0 <= p < d.len() && p < limit {
                let marker = d[p];
                let q = p + 1;
                if marker == 0xD9 {
                } else if marker == 0xD8 || marker == 0x01 || (0xD0 <= marker <= 0xD7) {
                    lemma_jpeg_walk_found_ends_at_eoi(
                        d,
                        start,
                        limit,
                        allow_partial,
                        q,
                        saw_segment,
                        saw_sos,
                        last_structured,
                        failed,
                    );
                } else {
                    lemma_unfinished_not_found(d, start, q, limit, allow_partial, saw_sos || marker == 0xDA, saw_segment, last_structured, failed);
                    if readable(d, q, 2) {
                        let length = crate::bytes::be_u16(d, q);
                        lemma_damaged_not_found(d, start, q, limit, allow_partial, saw_segment, last_structured, failed);
                        if !(length < 2 || q + length > limit) {
                            if marker == 0xDA {
                                law_jpeg_scan_data_ends_at_first_eoi(d, q + length, limit, failed);
                                lemma_unfinished_not_found(d, start, q + length, limit, allow_partial, true, saw_segment, q + length, failed);
                            } else {
                                lemma_jpeg_walk_found_ends_at_eoi(
                                    d,
                                    start,
                                    limit,
                                    allow_partial,
                                    q + length,
                                    true,
                                    saw_sos,
                                    q + length,
                                    failed,
                                );
                            }
                        }
                    }
                }
            }
        }
    }
}

proof fn lemma_unfinished_not_found(
    d: Seq<u8>,
    start: int,
    pos: int,
    limit: int,
    allow_partial: bool,
    saw_sos: bool,
    saw_segment: bool,
    last_structured: int,
    failed: bool,
)
    ensures
        jpeg_unfinished(d, start, pos, limit, allow_partial, saw_sos, saw_segment, last_structured, failed)
            matches Some(r) ==> !(r.status is Found),
{
}

proof fn lemma_damaged_not_found(
    d: Seq<u8>,
    start: int,
    pos: int,
    limit: int,
    allow_partial: bool,
    saw_segment: bool,
    last_structured: int,
    failed: bool,
)
    ensures
        jpeg_damaged(d, start, pos, limit, allow_partial, saw_segment, last_structured, failed)
            matches Some(r) ==> !(r.status is Found),
{
}

/// A JPEG carved as complete ends with the end-of-image marker `FF D9`, at least four
/// bytes after its start: an image cut at any other byte, such as a restart marker inside
/// its scan data, is never reported complete.
pub proof fn law_jpeg_complete_ends_with_eoi(
    d: Seq<u8>,
    start: int,
    max: int,
    allow_partial: bool,
    failed: bool,
)
    ensures
        spec_carve_jpeg(d, start, max, allow_partial, failed) matches Some(r) ==> (r.status
            == CandidateStatus::Found ==> {
            &&& 4 <= r.length
            &&& start + r.length <= d.len()
            &&& d[start + r.length - 2] == 0xFF
            &&& d[start + r.length - 1] == 0xD9
        }),
{
    if readable(d, start, 3) && crate::signatures::jpeg_signature_at(d, start) && start + max
        <= u64::MAX {
        lemma_jpeg_walk_found_ends_at_eoi(d, start, start + max, allow_partial, start + 2, false, false, start + 3, failed);
    }
}

proof fn lemma_search_reaches_eoi(d: Seq<u8>, from: int, i: int, end: int, x: int)
    requires
        from <= i < x <= end,
        from + 1 < x,
        eoi_pair_at(d, x - 1),
        forall|j: int| from < j < x - 1 ==> !#[trigger] eoi_pair_at(d, j),
    ensures
        ffd9_search(d, from, i, end) == Some(x),
    decreases end - i,
{
    if !(i > from && d[i - 1] == 0xFF && d[i] == 0xD9) {
        if from < i && i < x - 1 {
            assert(!eoi_pair_at(d, i));
        }
        if i == x - 1 {
            assert(i > from && d[i - 1] == 0xFF && d[i] == 0xD9);
        }
        lemma_search_reaches_eoi(d, from, i + 1, end, x);
    } else if i < x - 1 {
        assert(eoi_pair_at(d, i));
    }
}

/// The JPEG marker at `segs[i]` (`FF` and a marker byte) opens a segment with a length
/// field: it is no fill byte, start or end of image, `TEM` or restart marker.
pub open spec fn jpeg_segment_marker_at(d: Seq<u8>, segs: Seq<int>, i: int) -> bool {
    let m = d[segs[i] + 1];
    &&& d[segs[i]] == 0xFF
    &&& m != 0xFF && m != 0xD8 && m != 0xD9 && m != 0x01
    &&& !(0xD0 <= m <= 0xD7)
    &&& 2 <= crate::bytes::be_u16(d, segs[i] + 2)
}

/// The segment at `segs[i]` is not start-of-scan and the next marker follows it directly,
/// after as many bytes as its length field says, whatever they hold.
pub open spec fn jpeg_segment_between(d: Seq<u8>, segs: Seq<int>, i: int) -> bool {
    &&& jpeg_segment_marker_at(d, segs, i)
    &&& d[segs[i] + 1] != 0xDA
    &&& segs[i + 1] == segs[i] + 2 + crate::bytes::be_u16(d, segs[i] + 2)
}

proof fn lemma_jpeg_segments_to_eoi(
    d: Seq<u8>,
    start: int,
    limit: int,
    allow_partial: bool,
    segs: Seq<int>,
    i: int,
    saw_segment: bool,
    last_structured: int,
    e: int,
)
    requires
        0 <= start <= segs[i],
        0 <= i < segs.len(),
        forall|j: int| 0 <= j < segs.len() - 1 ==> #[trigger] jpeg_segment_between(d, segs, j),
        jpeg_segment_marker_at(d, segs, segs.len() - 1),
        d[segs.last() + 1] == 0xDA,
        segs.last() + 2 + crate::bytes::be_u16(d, segs.last() + 2) + 2 <= e,
        eoi_pair_at(d, e - 1),
        forall|j: int| segs.last() + 2 + crate::bytes::be_u16(d, segs.last() + 2) < j < e - 1
            ==> !#[trigger] eoi_pair_at(d, j),
        e <= d.len(),
        e <= limit,
    ensures
        segs[i] + 4 <= e,
        jpeg_walk(d, start, limit, allow_partial, segs[i], saw_segment, false, last_structured, false)
            == Some(complete(e - start, 98)),
    decreases segs.len() - i,
{
    let pos = segs[i];
    let q = pos + 2;
    if i < segs.len() - 1 {
        assert(jpeg_segment_between(d, segs, i));
        lemma_jpeg_segments_to_eoi(d, start, limit, allow_partial, segs, i + 1, true, segs[i + 1], e);
    } else {
        let s = q + crate::bytes::be_u16(d, q);
        lemma_search_reaches_eoi(d, s, s, readable_end(d, limit), e);
    }
    assert(jpeg_segment_marker_at(d, segs, i));
    assert(skip_ff(d, limit, pos + 1) == Some(pos + 1));
    assert(skip_ff(d, limit, pos) == Some(pos + 1));
}

/// A JPEG made of its start-of-image marker, header segments, each skipped by its length
/// field whatever its payload holds (an embedded thumbnail's `FF D9` too), a start-of-scan
/// segment, and scan data that runs to the first `FF D9` after it, carves as a complete
/// image that runs through that end-of-image marker, when it fits in `max` and reads well.
pub proof fn law_jpeg_complete_through_scan_data(
    d: Seq<u8>,
    start: int,
    max: int,
    allow_partial: bool,
    segs: Seq<int>,
    e: int,
)
    requires
        0 <= start,
        d[start] == 0xFF && d[start + 1] == 0xD8,
        1 <= segs.len(),
        segs[0] == start + 2,
        forall|j: int| 0 <= j < segs.len() - 1 ==> #[trigger] jpeg_segment_between(d, segs, j),
        jpeg_segment_marker_at(d, segs, segs.len() - 1),
        d[segs.last() + 1] == 0xDA,
        segs.last() + 2 + crate::bytes::be_u16(d, segs.last() + 2) + 2 <= e,
        eoi_pair_at(d, e - 1),
        forall|j: int| segs.last() + 2 + crate::bytes::be_u16(d, segs.last() + 2) < j < e - 1
            ==> !#[trigger] eoi_pair_at(d, j),
        e <= d.len(),
        e - start <= max,
        start + max <= u64::MAX,
    ensures
        spec_carve_jpeg(d, start, max, allow_partial, false) == Some(complete(e - start, 98)),
{
    lemma_jpeg_segments_to_eoi(d, start, start + max, allow_partial, segs, 0, false, start + 3, e);
    if segs.len() > 1 {
        assert(jpeg_segment_between(d, segs, 0));
    }
    assert(d[segs[0]] == 0xFF);
}

// ---------------------------------------------------------------- HEIC / AVIF

/// The box that starts at `ends[i]` is a plausible top-level box that runs to
/// `ends[i + 1]`: its 32-bit size says so, or it is 1 and the 64-bit size after the type
/// says so.
pub open spec fn iso_box_between(d: Seq<u8>, ends: Seq<int>, i: int) -> bool {
    &&& ((ends[i] + 8 <= ends[i + 1] && be_u32(d, ends[i]) == ends[i + 1] - ends[i]) || (ends[i]
        + 16 <= ends[i + 1] && be_u32(d, ends[i]) == 1 && be_u64(d, ends[i] + 8) == ends[i + 1]
        - ends[i]))
    &&& box_type_ok(d, ends[i] + 4)
}

/// The box that starts at `pos` is an `mdat` box.
pub open spec fn mdat_at(d: Seq<u8>, pos: int) -> bool {
    bytes4(d, pos + 4, 0x6D, 0x64, 0x61, 0x74)
}

/// One of the boxes at `ends[i]`, `ends[i + 1]`, ... before the last position is `mdat`.
pub open spec fn mdat_among(d: Seq<u8>, ends: Seq<int>, i: int) -> bool {
    exists|k: int| i <= k < ends.len() - 1 && #[trigger] mdat_at(d, ends[k])
}

proof fn lemma_heic_boxes_to_end(
    d: Seq<u8>,
    start: int,
    limit: int,
    ends: Seq<int>,
    i: int,
    more_boxes: bool,
    saw_mdat: bool,
)
    requires
        0 <= start <= ends[i],
        0 <= i < ends.len(),
        ends.last() == d.len(),
        d.len() <= limit,
        forall|j: int| 0 <= j < ends.len() - 1 ==> #[trigger] iso_box_between(d, ends, j),
    ensures
        ends[i] <= d.len(),
        heic_boxes(d, start, limit, ends[i], more_boxes, saw_mdat) == (if (more_boxes || i
            < ends.len() - 1) && (saw_mdat || mdat_among(d, ends, i)) {
            Some(complete(d.len() - start, 75))
        } else {
            None
        }),
    decreases ends.len() - i,
{
    if i < ends.len() - 1 {
        assert(iso_box_between(d, ends, i));
        let pos = ends[i];
        let next_saw = saw_mdat || mdat_at(d, pos);
        if mdat_among(d, ends, i) && !mdat_at(d, pos) {
            let k = choose|k: int| i <= k < ends.len() - 1 && #[trigger] mdat_at(d, ends[k]);
            assert(i + 1 <= k < ends.len() - 1 && mdat_at(d, ends[k]));
        }
        if mdat_among(d, ends, i + 1) {
            let k = choose|k: int| i + 1 <= k < ends.len() - 1 && #[trigger] mdat_at(d, ends[k]);
            assert(i <= k < ends.len() - 1 && mdat_at(d, ends[k]));
        }
        if mdat_at(d, pos) {
            assert(i <= i < ends.len() - 1 && mdat_at(d, ends[i]));
        }
        lemma_heic_boxes_to_end(d, start, limit, ends, i + 1, true, next_saw);
    } else {
        assert(!mdat_among(d, ends, i));
    }
}

/// A HEIF/AVIF file laid out as an `ftyp` box of at most 1 MiB whose major brand is a
/// HEIF/AVIF brand, followed by plausible top-level boxes up to the end of the data, carves
/// as complete through its last box when one of those boxes is `mdat`, wherever it stands
/// among them, and the file fits in `max`; with no `mdat` box it is not an image.
pub proof fn law_heic_complete_with_mdat_anywhere(d: Seq<u8>, start: int, max: int, ends: Seq<int>)
    requires
        0 <= start,
        2 <= ends.len(),
        bytes4(d, start + 4, 0x66, 0x74, 0x79, 0x70),
        be_u32(d, start) == ends[0] - start,
        16 <= ends[0] - start <= 1048576,
        heic_brand_at(d, start + 8),
        forall|j: int| 0 <= j < ends.len() - 1 ==> #[trigger] iso_box_between(d, ends, j),
        ends.last() == d.len(),
        d.len() - start <= max,
        start + max <= u64::MAX,
    ensures
        mdat_among(d, ends, 0) ==> spec_carve_heic(d, start, max) == Some(
            complete(d.len() - start, 75),
        ),
        !mdat_among(d, ends, 0) ==> spec_carve_heic(d, start, max) is None,
{
    lemma_heic_boxes_to_end(d, start, start + max, ends, 0, false, false);
    assert(any_heic_brand(d, start + 8, ends[0]));
}

// ---------------------------------------------------------------- PNG

/// The chunk that starts at `ends[i]` runs to `ends[i + 1]`: its length field counts the
/// data between its 8-byte head and its 4-byte CRC.
pub open spec fn png_chunk_between(d: Seq<u8>, ends: Seq<int>, i: int) -> bool {
    &&& ends[i] + 12 <= ends[i + 1]
    &&& be_u32(d, ends[i]) == ends[i + 1] - ends[i] - 12
}

/// The CRC of the chunk that runs from `ends[i]` to `ends[i + 1]` is that of its type and
/// data.
pub open spec fn png_crc_matches(d: Seq<u8>, ends: Seq<int>, i: int) -> bool {
    crc32_of(d.subrange(ends[i] + 4, ends[i + 1] - 4)) as int == be_u32(d, ends[i + 1] - 4)
}

/// Every chunk from the one at `ends[i]` on carries a matching CRC.
pub open spec fn png_crcs_match_from(d: Seq<u8>, ends: Seq<int>, i: int) -> bool {
    forall|j: int| i <= j < ends.len() - 1 ==> #[trigger] png_crc_matches(d, ends, j)
}

/// The chunk at `pos` has the type `a b c e`.
pub open spec fn png_type_at(d: Seq<u8>, pos: int, a: u8, b: u8, c: u8, e: u8) -> bool {
    bytes4(d, pos + 4, a, b, c, e)
}

/// The chunk at `pos` has a type of four ASCII letters other than `IHDR` and `IEND`.
pub open spec fn png_inner_chunk_type(d: Seq<u8>, pos: int) -> bool {
    &&& ascii_alpha(d[pos + 4]) && ascii_alpha(d[pos + 5]) && ascii_alpha(d[pos + 6])
        && ascii_alpha(d[pos + 7])
    &&& !png_type_at(d, pos, 0x49, 0x48, 0x44, 0x52)
    &&& !png_type_at(d, pos, 0x49, 0x45, 0x4E, 0x44)
}

/// A PNG laid out by `ends`: the chunks between the signature and the end run from
/// `ends[i]` to `ends[i + 1]`; the first is `IHDR` with 13 data bytes, the last an empty
/// `IEND`, and those between carry other types, one of them at least `IDAT`.
pub open spec fn png_layout(d: Seq<u8>, start: int, ends: Seq<int>) -> bool {
    &&& 4 <= ends.len()
    &&& ends[0] == start + 8
    &&& forall|j: int| 0 <= j < ends.len() - 1 ==> #[trigger] png_chunk_between(d, ends, j)
    &&& png_type_at(d, ends[0], 0x49, 0x48, 0x44, 0x52)
    &&& ends[1] == ends[0] + 25
    &&& forall|j: int| 1 <= j < ends.len() - 2 ==> #[trigger] png_inner_chunk_type(d, ends[j])
    &&& png_type_at(d, ends[ends.len() - 2], 0x49, 0x45, 0x4E, 0x44)
    &&& ends.last() == ends[ends.len() - 2] + 12
    &&& exists|k: int| 1 <= k < ends.len() - 2 && #[trigger] png_type_at(d, ends[k], 0x49, 0x44, 0x41, 0x54)
}

proof fn lemma_png_chunks_to_iend(
    d: Seq<u8>,
    start: int,
    limit: int,
    max: int,
    allow_partial: bool,
    ends: Seq<int>,
    i: int,
    integrity_ok: bool,
    saw_idat: bool,
    last_good: int,
)
    requires
        0 <= start,
        png_layout(d, start, ends),
        1 <= i < ends.len() - 1,
        start + 8 <= ends[i],
        ends.last() <= d.len(),
        ends.last() <= limit,
        ends.last() - start <= max,
        saw_idat || exists|k: int| i <= k < ends.len() - 2 && #[trigger] png_type_at(d, ends[k], 0x49, 0x44, 0x41, 0x54),
    ensures
        ends[i] <= ends.last(),
        png_chunks(d, start, limit, max, allow_partial, ends[i], integrity_ok, true, saw_idat, last_good)
            == Some(
            if integrity_ok && png_crcs_match_from(d, ends, i) {
                complete(ends.last() - start, 100)
            } else {
                corrupted(ends.last() - start, 70)
            },
        ),
    decreases ends.len() - i,
{
    let pos = ends[i];
    assert(png_chunk_between(d, ends, i));
    let ok = integrity_ok && png_crc_matches(d, ends, i);
    if i < ends.len() - 2 {
        assert(png_inner_chunk_type(d, ends[i]));
        let next_idat = saw_idat || png_type_at(d, pos, 0x49, 0x44, 0x41, 0x54);
        if !saw_idat {
            let k = choose|k: int| i <= k < ends.len() - 2 && #[trigger] png_type_at(d, ends[k], 0x49, 0x44, 0x41, 0x54);
            if k != i {
                assert(i + 1 <= k < ends.len() - 2 && png_type_at(d, ends[k], 0x49, 0x44, 0x41, 0x54));
            }
        }
        lemma_png_chunks_to_iend(d, start, limit, max, allow_partial, ends, i + 1, ok, next_idat, ends[i + 1]);
        assert(png_crcs_match_from(d, ends, i) == (png_crc_matches(d, ends, i) && png_crcs_match_from(
            d,
            ends,
            i + 1,
        )));
    } else {
        if !saw_idat {
            let k = choose|k: int| i <= k < ends.len() - 2 && #[trigger] png_type_at(d, ends[k], 0x49, 0x44, 0x41, 0x54);
            assert(false);
        }
        assert(png_crcs_match_from(d, ends, i) == png_crc_matches(d, ends, i));
    }
}

/// A PNG made of its signature, an `IHDR` chunk with 13 data bytes, any number of chunks of
/// other types among which at least one `IDAT`, and an empty `IEND` chunk carves as an image
/// that runs through `IEND`, with or without partial results asked for: complete when every
/// chunk's CRC matches, corrupted otherwise. How the image data is split over `IDAT` chunks,
/// and which ancillary chunks come with it, does not matter.
pub proof fn law_png_complete_through_iend(d: Seq<u8>, start: int, max: int, allow_partial: bool, ends: Seq<int>)
    requires
        0 <= start,
        bytes4(d, start, 0x89, 0x50, 0x4E, 0x47),
        bytes4(d, start + 4, 0x0D, 0x0A, 0x1A, 0x0A),
        png_layout(d, start, ends),
        ends.last() <= d.len(),
        ends.last() - start <= max,
        start + max <= u64::MAX,
    ensures
        png_crcs_match_from(d, ends, 0) ==> spec_carve_png(d, start, max, allow_partial) == Some(
            complete(ends.last() - start, 100),
        ),
        !png_crcs_match_from(d, ends, 0) ==> spec_carve_png(d, start, max, allow_partial) == Some(
            corrupted(ends.last() - start, 70),
        ),
{
    let limit = start + max;
    assert(png_chunk_between(d, ends, 0));
    let ok = png_crc_matches(d, ends, 0);
    lemma_png_chunks_to_iend(d, start, limit, max, allow_partial, ends, 1, ok, false, ends[1]);
    assert(png_crcs_match_from(d, ends, 0) == (png_crc_matches(d, ends, 0) && png_crcs_match_from(
        d,
        ends,
        1,
    )));
}

/// A PNG cut short laid out by `ends`: an `IHDR` chunk with 13 data bytes, then chunks of
/// other types than `IHDR` and `IEND`, the data ending with the last of them.
pub open spec fn png_cut_layout(d: Seq<u8>, start: int, ends: Seq<int>) -> bool {
    &&& 2 <= ends.len()
    &&& ends[0] == start + 8
    &&& forall|j: int| 0 <= j < ends.len() - 1 ==> #[trigger] png_chunk_between(d, ends, j)
    &&& png_type_at(d, ends[0], 0x49, 0x48, 0x44, 0x52)
    &&& ends[1] == ends[0] + 25
    &&& forall|j: int| 1 <= j < ends.len() - 1 ==> #[trigger] png_inner_chunk_type(d, ends[j])
    &&& ends.last() == d.len()
}

/// One of the chunks at `ends[i]`, `ends[i + 1]`, ... before the last position is `IDAT`.
pub open spec fn idat_among(d: Seq<u8>, ends: Seq<int>, i: int) -> bool {
    exists|k: int| i <= k < ends.len() - 1 && #[trigger] png_type_at(d, ends[k], 0x49, 0x44, 0x41, 0x54)
}

proof fn lemma_png_chunks_cut(
    d: Seq<u8>,
    start: int,
    limit: int,
    max: int,
    allow_partial: bool,
    ends: Seq<int>,
    i: int,
    integrity_ok: bool,
    saw_idat: bool,
    last_good: int,
)
    requires
        0 <= start,
        png_cut_layout(d, start, ends),
        1 <= i < ends.len(),
        start + 33 <= ends[i],
        i == 1 || last_good == ends[i],
        i == 1 ==> last_good == ends[1] && !saw_idat,
        ends.last() <= limit,
        ends.last() - start <= max,
    ensures
        ends[i] <= ends.last(),
        png_chunks(d, start, limit, max, allow_partial, ends[i], integrity_ok, true, saw_idat, last_good)
            == (if !allow_partial {
            None
        } else if saw_idat || idat_among(d, ends, i) {
            Some(
                partial(
                    ends.last() - start,
                    if integrity_ok && png_crcs_match_from(d, ends, i) { 66 } else { 50 },
                ),
            )
        } else {
            Some(corrupted(ends.last() - start, 40))
        }),
    decreases ends.len() - i,
{
    let pos = ends[i];
    if i < ends.len() - 1 {
        assert(png_chunk_between(d, ends, i));
        assert(png_inner_chunk_type(d, ends[i]));
        let ok = integrity_ok && png_crc_matches(d, ends, i);
        let next_idat = saw_idat || png_type_at(d, pos, 0x49, 0x44, 0x41, 0x54);
        if idat_among(d, ends, i) && !png_type_at(d, pos, 0x49, 0x44, 0x41, 0x54) {
            let k = choose|k: int| i <= k < ends.len() - 1 && #[trigger] png_type_at(d, ends[k], 0x49, 0x44, 0x41, 0x54);
            assert(i + 1 <= k < ends.len() - 1 && png_type_at(d, ends[k], 0x49, 0x44, 0x41, 0x54));
        }
        if idat_among(d, ends, i + 1) {
            let k = choose|k: int| i + 1 <= k < ends.len() - 1 && #[trigger] png_type_at(d, ends[k], 0x49, 0x44, 0x41, 0x54);
            assert(i <= k < ends.len() - 1 && png_type_at(d, ends[k], 0x49, 0x44, 0x41, 0x54));
        }
        if png_type_at(d, pos, 0x49, 0x44, 0x41, 0x54) {
            assert(i <= i < ends.len() - 1 && png_type_at(d, ends[i], 0x49, 0x44, 0x41, 0x54));
        }
        lemma_png_chunks_cut(d, start, limit, max, allow_partial, ends, i + 1, ok, next_idat, ends[i + 1]);
        assert(png_crcs_match_from(d, ends, i) == (png_crc_matches(d, ends, i) && png_crcs_match_from(
            d,
            ends,
            i + 1,
        )));
    } else {
        assert(!idat_among(d, ends, i));
        assert(png_crcs_match_from(d, ends, i));
    }
}

/// A PNG whose data ends after whole chunks, with no `IEND`, is kept only when partial
/// results are asked for, as far as its last whole chunk: partial once image data (`IDAT`)
/// was seen, with a higher confidence when every CRC matched, and corrupted with headers
/// alone.
pub proof fn law_png_cut_short(d: Seq<u8>, start: int, max: int, allow_partial: bool, ends: Seq<int>)
    requires
        0 <= start,
        bytes4(d, start, 0x89, 0x50, 0x4E, 0x47),
        bytes4(d, start + 4, 0x0D, 0x0A, 0x1A, 0x0A),
        png_cut_layout(d, start, ends),
        ends.last() - start <= max,
        start + max <= u64::MAX,
    ensures
        spec_carve_png(d, start, max, allow_partial) == (if !allow_partial {
            None
        } else if idat_among(d, ends, 1) {
            Some(
                partial(
                    ends.last() - start,
                    if png_crcs_match_from(d, ends, 0) { 66 } else { 50 },
                ),
            )
        } else {
            Some(corrupted(ends.last() - start, 40))
        }),
{
    let limit = start + max;
    assert(png_chunk_between(d, ends, 0));
    let ok = png_crc_matches(d, ends, 0);
    lemma_png_chunks_cut(d, start, limit, max, allow_partial, ends, 1, ok, false, ends[1]);
    assert(png_crcs_match_from(d, ends, 0) == (png_crc_matches(d, ends, 0) && png_crcs_match_from(
        d,
        ends,
        1,
    )));
}

// ---------------------------------------------------------------- GIF

/// Bytes of the colour table that a GIF packed-fields byte announces: none unless its top
/// bit is set, else three bytes for each of its 2^(n+1) colours, n being its low three bits.
pub open spec fn colour_table_size(flags: u8) -> int {
    if flags & 0x80u8 != 0 {
        3 * (vstd::arithmetic::power2::pow2(((flags & 7u8) + 1) as nat) as int)
    } else {
        0
    }
}

/// A chain of GIF data sub-blocks whose size bytes stand at the positions of `c`: each
/// block but the last is as long as its size byte says, and the last is the empty
/// terminator.
pub open spec fn sub_block_chain(d: Seq<u8>, c: Seq<int>) -> bool {
    &&& 1 <= c.len()
    &&& forall|j: int| 0 <= j < c.len() - 1 ==> d[#[trigger] c[j]] != 0 && c[j + 1] == c[j] + 1 + d[c[j]]
    &&& d[c.last()] == 0
}

/// The block at `blocks[i]` is an image descriptor, with its local colour table and its
/// LZW code size byte, or an extension with its label, then data sub-blocks at `chains[i]`
/// that end just before `blocks[i + 1]`.
pub open spec fn gif_block_between(d: Seq<u8>, blocks: Seq<int>, chains: Seq<Seq<int>>, i: int) -> bool {
    &&& (d[blocks[i]] == 0x2C && chains[i][0] == blocks[i] + 10 + colour_table_size(d[blocks[i] + 9]) + 1)
        || (d[blocks[i]] == 0x21 && chains[i][0] == blocks[i] + 2)
    &&& sub_block_chain(d, chains[i])
    &&& blocks[i + 1] == chains[i].last() + 1
}

proof fn lemma_colour_table_size(flags: u8)
    requires
        flags & 0x80u8 != 0,
    ensures
        colour_table_size(flags) == gif_table_bytes(flags),
{
    let n = flags & 7u8;
    assert(n < 8) by (bit_vector)
        requires
            n == flags & 7u8,
    ;
    vstd::arithmetic::power2::lemma2_to64();
}

proof fn lemma_chain_ascends(d: Seq<u8>, c: Seq<int>, j: int)
    requires
        sub_block_chain(d, c),
        0 <= j < c.len(),
    ensures
        c[j] <= c.last(),
    decreases c.len() - j,
{
    if j < c.len() - 1 {
        assert(d[c[j]] != 0 && c[j + 1] == c[j] + 1 + d[c[j]]);
        lemma_chain_ascends(d, c, j + 1);
    }
}

proof fn lemma_sub_block_chain(d: Seq<u8>, limit: int, c: Seq<int>, j: int)
    requires
        sub_block_chain(d, c),
        0 <= j < c.len(),
        0 <= c[j],
        c.last() < limit,
        c.last() < d.len(),
    ensures
        c[j] <= c.last(),
        gif_sub_blocks(d, limit, c[j]) == Some(c.last() + 1),
    decreases c.len() - j,
{
    if j < c.len() - 1 {
        assert(d[c[j]] != 0 && c[j + 1] == c[j] + 1 + d[c[j]]);
        lemma_sub_block_chain(d, limit, c, j + 1);
    }
}

proof fn lemma_gif_blocks_to_trailer(
    d: Seq<u8>,
    start: int,
    limit: int,
    blocks: Seq<int>,
    chains: Seq<Seq<int>>,
    i: int,
)
    requires
        0 <= start <= blocks[i],
        0 <= i < blocks.len(),
        blocks.len() == chains.len() + 1,
        forall|j: int| 0 <= j < blocks.len() - 1 ==> #[trigger] gif_block_between(d, blocks, chains, j),
        d[blocks.last()] == 0x3B,
        blocks.last() < d.len(),
        blocks.last() < limit,
    ensures
        blocks[i] <= blocks.last(),
        gif_blocks(d, start, limit, blocks[i]) == Some(complete(blocks.last() + 1 - start, 96)),
    decreases blocks.len() - i,
{
    if i < blocks.len() - 1 {
        assert(gif_block_between(d, blocks, chains, i));
        let pos = blocks[i];
        let c = chains[i];
        if d[pos] == 0x2C {
            let flags = d[pos + 9];
            if flags & 0x80u8 != 0 {
                lemma_colour_table_size(flags);
            }
        }
        lemma_chain_ascends(d, c, 0);
        lemma_gif_blocks_to_trailer(d, start, limit, blocks, chains, i + 1);
        lemma_sub_block_chain(d, limit, c, 0);
    }
}

/// A GIF made of its `GIF87a` or `GIF89a` header, its logical screen descriptor and the
/// global colour table that it announces, then image descriptors, each with the local colour
/// table that its packed byte announces, its LZW code size byte and its data sub-blocks, and
/// extensions with their sub-blocks, in any order, then the trailer `3B`, carves as a
/// complete image that runs through the trailer when that fits in `max`.
pub proof fn law_gif_complete_through_trailer(
    d: Seq<u8>,
    start: int,
    max: int,
    blocks: Seq<int>,
    chains: Seq<Seq<int>>,
)
    requires
        0 <= start,
        bytes4(d, start, 0x47, 0x49, 0x46, 0x38),
        d[start + 4] == 0x37 || d[start + 4] == 0x39,
        d[start + 5] == 0x61,
        blocks.len() == chains.len() + 1,
        blocks[0] == start + 13 + colour_table_size(d[start + 10]),
        forall|j: int| 0 <= j < blocks.len() - 1 ==> #[trigger] gif_block_between(d, blocks, chains, j),
        d[blocks.last()] == 0x3B,
        blocks.last() < d.len(),
        blocks.last() + 1 - start <= max,
        start + max <= u64::MAX,
    ensures
        spec_carve_gif(d, start, max) == Some(complete(blocks.last() + 1 - start, 96)),
{
    let flags = d[start + 10];
    if flags & 0x80u8 != 0 {
        lemma_colour_table_size(flags);
    }
    lemma_gif_blocks_to_trailer(d, start, start + max, blocks, chains, 0);
}

} // verus!
