use crc32fast::Hasher;
use photorescue::carvers::{
    carve_at, carve_bmp, carve_gif, carve_heic, carve_jpeg, carve_png, carve_webp,
};
use photorescue::domain::{CandidateStatus, ImageFormat};
use photorescue::signatures::detect_format;

fn png_chunk(kind: &[u8; 4], data: &[u8]) -> Vec<u8> {
    let mut chunk = Vec::new();
    chunk.extend_from_slice(&(data.len() as u32).to_be_bytes());
    chunk.extend_from_slice(kind);
    chunk.extend_from_slice(data);
    let mut hasher = Hasher::new();
    hasher.update(kind);
    hasher.update(data);
    chunk.extend_from_slice(&hasher.finalize().to_be_bytes());
    chunk
}

#[test]
fn identifies_supported_signatures() {
    assert_eq!(detect_format(b"\xff\xd8\xff\xe0"), Some(ImageFormat::Jpeg));
    assert_eq!(detect_format(b"\x89PNG\r\n\x1a\n"), Some(ImageFormat::Png));
    assert_eq!(
        detect_format(b"RIFF\x04\0\0\0WEBP"),
        Some(ImageFormat::Webp)
    );
    assert_eq!(detect_format(b"GIF89a"), Some(ImageFormat::Gif));
    assert_eq!(detect_format(b"BMwhatever"), Some(ImageFormat::Bmp));
    assert_eq!(
        detect_format(b"\0\0\0\x18ftypheic"),
        Some(ImageFormat::Heic)
    );
}

#[test]
fn truncated_or_unknown_signatures_are_not_detected() {
    assert_eq!(detect_format(b"\x89PNG\r\n\x1a"), None);
    assert_eq!(detect_format(b"\xff\xd8"), None);
    assert_eq!(detect_format(b"RIFF\x04\0\0\0WEB"), None);
    assert_eq!(detect_format(b"GIF88a"), None);
    assert_eq!(detect_format(b"\0\0\0\x18ftypmp42"), None);
    assert_eq!(detect_format(b""), None);
    assert_eq!(detect_format(b"GIF87a"), Some(ImageFormat::Gif));
    assert_eq!(detect_format(b"\0\0\0\x18ftypavif"), Some(ImageFormat::Heic));
}

#[test]
fn parses_png_until_iend_and_checks_crc() {
    let mut png = b"\x89PNG\r\n\x1a\n".to_vec();
    png.extend_from_slice(&png_chunk(b"IHDR", &[0; 13]));
    png.extend_from_slice(&png_chunk(b"IDAT", &[]));
    png.extend_from_slice(&png_chunk(b"IEND", &[]));
    let result = carve_png(&png, 0, 1024, false).unwrap();
    assert_eq!(result.length, png.len() as u64);
    assert_eq!(result.status, CandidateStatus::Found);
}

#[test]
fn png_with_a_bad_crc_is_corrupted() {
    let mut png = b"\x89PNG\r\n\x1a\n".to_vec();
    png.extend_from_slice(&png_chunk(b"IHDR", &[0; 13]));
    let mut idat = png_chunk(b"IDAT", &[7, 8, 9]);
    let last = idat.len() - 1;
    idat[last] ^= 0xFF;
    png.extend_from_slice(&idat);
    png.extend_from_slice(&png_chunk(b"IEND", &[]));
    let result = carve_png(&png, 0, 1024, false).unwrap();
    assert_eq!(result.length, png.len() as u64);
    assert_eq!(result.status, CandidateStatus::Corrupted);
    assert_eq!(result.confidence, 70);
}

#[test]
fn png_without_image_data_is_corrupted() {
    let mut png = b"\x89PNG\r\n\x1a\n".to_vec();
    png.extend_from_slice(&png_chunk(b"IHDR", &[0; 13]));
    png.extend_from_slice(&png_chunk(b"IEND", &[]));
    let result = carve_png(&png, 0, 1024, false).unwrap();
    assert_eq!(result.status, CandidateStatus::Corrupted);
    assert_eq!(result.confidence, 45);
}

#[test]
fn jpeg_parser_ignores_an_embedded_thumbnail_footer_before_scan_data() {
    let jpeg = vec![
        0xFF, 0xD8, 0xFF, 0xE1, 0x00, 0x06, 0xFF, 0xD8, 0xFF, 0xD9, 0xFF, 0xDA, 0x00, 0x02,
        0x11, 0x22, 0xFF, 0x00, 0x33, 0xFF, 0xD9,
    ];
    let result = carve_jpeg(&jpeg, 0, 1024, false, false).unwrap();
    assert_eq!(result.length, jpeg.len() as u64);
    assert_eq!(result.status, CandidateStatus::Found);
}

#[test]
fn normal_jpeg_without_footer_is_ignored() {
    let jpeg = vec![
        0xFF, 0xD8, 0xFF, 0xE0, 0x00, 0x04, 0x00, 0x00, 0xFF, 0xDA, 0x00, 0x02, 0x11, 0x22,
        0x33, 0x44, 0x55, 0x66,
    ];
    assert!(carve_jpeg(&jpeg, 0, 1024, false, false).is_none());
}

#[test]
fn deep_jpeg_without_footer_becomes_partial() {
    let jpeg = vec![
        0xFF, 0xD8, 0xFF, 0xE0, 0x00, 0x04, 0x00, 0x00, 0xFF, 0xDA, 0x00, 0x02, 0x11, 0x22,
        0x33, 0x44, 0x55, 0x66,
    ];
    let result = carve_jpeg(&jpeg, 0, 1024, true, false).unwrap();
    assert_eq!(result.length, jpeg.len() as u64);
    assert_eq!(result.status, CandidateStatus::Partial);
}

#[test]
fn deep_jpeg_stops_at_the_next_signature() {
    let mut data = vec![
        0xFF, 0xD8, 0xFF, 0xE0, 0x00, 0x04, 0x00, 0x00, 0xFF, 0xDA, 0x00, 0x02, 0x11, 0x22,
        0x33, 0x44, 0x55, 0x66, 0x77, 0x88,
    ];
    data.extend_from_slice(b"GIF89a");
    data.extend_from_slice(&[0; 10]);
    let result = carve_jpeg(&data, 0, 1024, true, false).unwrap();
    assert_eq!(result.length, 20);
    assert_eq!(result.status, CandidateStatus::Partial);
    assert_eq!(result.confidence, 68);
}

#[test]
fn deep_png_without_iend_becomes_partial() {
    let mut png = b"\x89PNG\r\n\x1a\n".to_vec();
    png.extend_from_slice(&png_chunk(b"IHDR", &[0; 13]));
    png.extend_from_slice(&png_chunk(b"IDAT", &[1, 2, 3]));
    let result = carve_png(&png, 0, 1024, true).unwrap();
    assert_eq!(result.length, png.len() as u64);
    assert_eq!(result.status, CandidateStatus::Partial);
}

#[test]
fn parses_gif_blocks_instead_of_stopping_on_any_trailer_byte() {
    let gif = vec![
        b'G', b'I', b'F', b'8', b'9', b'a', 1, 0, 1, 0, 0, 0, 0, 0x21, 0xFE, 2, 0x3B, 0x41, 0,
        0x3B,
    ];
    let result = carve_gif(&gif, 0, 1024).unwrap();
    assert_eq!(result.length, gif.len() as u64);
}

#[test]
fn gif_with_colour_table_and_image_descriptor() {
    let mut gif = b"GIF87a".to_vec();
    gif.extend_from_slice(&[2, 0, 2, 0, 0x80, 0, 0]);
    gif.extend_from_slice(&[0; 6]);
    gif.extend_from_slice(&[0x2C, 0, 0, 0, 0, 2, 0, 2, 0, 0]);
    gif.extend_from_slice(&[2, 2, 0x44, 0x01, 0]);
    gif.push(0x3B);
    gif.extend_from_slice(&[0xEE; 4]);
    let result = carve_gif(&gif, 0, 1024).unwrap();
    assert_eq!(result.length, gif.len() as u64 - 4);
    assert_eq!(result.confidence, 96);
    assert!(carve_gif(&gif, 0, 20).is_none());
}

#[test]
fn parses_bmp_size_and_pixel_offset() {
    let mut bmp = vec![0_u8; 64];
    bmp[..2].copy_from_slice(b"BM");
    bmp[2..6].copy_from_slice(&64_u32.to_le_bytes());
    bmp[10..14].copy_from_slice(&54_u32.to_le_bytes());
    bmp[14..18].copy_from_slice(&40_u32.to_le_bytes());
    let result = carve_bmp(&bmp, 0, 1024).unwrap();
    assert_eq!(result.length, 64);
}

#[test]
fn bmp_larger_than_the_limit_is_refused() {
    let mut bmp = vec![0_u8; 64];
    bmp[..2].copy_from_slice(b"BM");
    bmp[2..6].copy_from_slice(&64_u32.to_le_bytes());
    bmp[10..14].copy_from_slice(&54_u32.to_le_bytes());
    bmp[14..18].copy_from_slice(&40_u32.to_le_bytes());
    assert!(carve_bmp(&bmp, 0, 63).is_none());
    bmp[10..14].copy_from_slice(&64_u32.to_le_bytes());
    assert!(carve_bmp(&bmp, 0, 1024).is_none());
}

#[test]
fn parses_heic_top_level_boxes() {
    let mut heic = Vec::new();
    heic.extend_from_slice(&24_u32.to_be_bytes());
    heic.extend_from_slice(b"ftyp");
    heic.extend_from_slice(b"heic");
    heic.extend_from_slice(&0_u32.to_be_bytes());
    heic.extend_from_slice(b"heic");
    heic.extend_from_slice(b"mif1");
    heic.extend_from_slice(&12_u32.to_be_bytes());
    heic.extend_from_slice(b"mdat");
    heic.extend_from_slice(&[1, 2, 3, 4]);
    let result = carve_heic(&heic, 0, 1024).unwrap();
    assert_eq!(result.length, heic.len() as u64);
}

#[test]
fn heic_without_media_data_is_refused() {
    let mut heic = Vec::new();
    heic.extend_from_slice(&16_u32.to_be_bytes());
    heic.extend_from_slice(b"ftyp");
    heic.extend_from_slice(b"avif");
    heic.extend_from_slice(&0_u32.to_be_bytes());
    heic.extend_from_slice(&12_u32.to_be_bytes());
    heic.extend_from_slice(b"meta");
    heic.extend_from_slice(&[1, 2, 3, 4]);
    assert!(carve_heic(&heic, 0, 1024).is_none());
}

#[test]
fn webp_length_comes_from_the_riff_header() {
    let mut webp = b"RIFF".to_vec();
    webp.extend_from_slice(&20_u32.to_le_bytes());
    webp.extend_from_slice(b"WEBP");
    webp.extend_from_slice(&[0; 20]);
    let result = carve_webp(&webp, 0, 1024).unwrap();
    assert_eq!(result.length, 28);
    assert_eq!(result.confidence, 95);
    assert!(carve_webp(&webp, 0, 27).is_none());
    assert!(carve_webp(&webp[..11], 0, 1024).is_none());
}

#[test]
fn carve_at_dispatches_on_the_format_and_offset() {
    let mut data = vec![0xAA; 5];
    data.extend_from_slice(b"RIFF");
    data.extend_from_slice(&4_u32.to_le_bytes());
    data.extend_from_slice(b"WEBP");
    let result = carve_at(&data, 5, ImageFormat::Webp, 1024, false, false).unwrap();
    assert_eq!(result.length, 12);
    assert_eq!(result.status, CandidateStatus::Found);
    assert!(carve_at(&data, 5, ImageFormat::Png, 1024, true, false).is_none());
}

#[test]
fn a_jpeg_marker_at_the_limit_is_not_read() {
    let data = [0xFF, 0xD8, 0xFF, 0xFF, 0xD9];
    assert!(carve_at(&data, 0, ImageFormat::Jpeg, 4, false, false).is_none());
    assert!(carve_at(&data, 0, ImageFormat::Jpeg, 4, true, false).is_none());
    let whole = carve_at(&data, 0, ImageFormat::Jpeg, 5, false, false).unwrap();
    assert_eq!(whole.length, 5);
    assert_eq!(whole.status, CandidateStatus::Found);
}

#[test]
fn normal_carving_never_reports_partial_images() {
    let jpeg = [
        0xFF, 0xD8, 0xFF, 0xE0, 0x00, 0x04, 0x00, 0x00, 0xFF, 0xDA, 0x00, 0x02, 0x11, 0x22, 0x33,
        0x44, 0x55, 0x66,
    ];
    assert!(carve_at(&jpeg, 0, ImageFormat::Jpeg, 1024, false, false).is_none());
    let deep = carve_at(&jpeg, 0, ImageFormat::Jpeg, 1024, true, false).unwrap();
    assert_eq!(deep.status, CandidateStatus::Partial);
    assert!(deep.length as usize <= jpeg.len());
}

#[test]
fn a_recognised_signature_stays_recognised_whatever_follows() {
    let mut bytes = vec![0x42, 0x4D];
    assert_eq!(detect_format(&bytes), Some(ImageFormat::Bmp));
    bytes.extend_from_slice(&[0x89, 0x50, 0x4E, 0x47, 0x0D, 0x0A, 0x1A, 0x0A, 0, 0, 0, 0]);
    assert_eq!(detect_format(&bytes), Some(ImageFormat::Bmp));
    assert_eq!(detect_format(&bytes[..12]), Some(ImageFormat::Bmp));
}

#[test]
fn jpeg_reads_that_reach_a_failed_sector_fail() {
    let mut jpeg = vec![0xFF, 0xD8, 0xFF, 0xE0, 0x00, 0x04, 0x00, 0x00, 0xFF, 0xDA, 0x00, 0x02];
    jpeg.extend_from_slice(&[0x11; 40]);
    jpeg.extend_from_slice(&[0xFF, 0xD9]);
    let whole = carve_jpeg(&jpeg, 0, 1024, true, false).unwrap();
    assert_eq!(whole.status, CandidateStatus::Found);
    assert_eq!(whole.length, 54);
    let cut = &jpeg[..30];
    let ended = carve_jpeg(cut, 0, 1024, true, false).unwrap();
    assert_eq!(ended.status, CandidateStatus::Partial);
    assert_eq!(ended.length, 30);
    let failed = carve_jpeg(cut, 0, 1024, true, true).unwrap();
    assert_eq!(failed.status, CandidateStatus::Partial);
    assert_eq!(failed.length, 1024);
}
