use photorescue::domain::{CandidateStatus, ImageFormat, ScanMode};

#[test]
fn format_extensions_are_stable() {
    assert_eq!(ImageFormat::Jpeg.extension(), "jpg");
    assert_eq!(ImageFormat::Heic.mime_type(), "image/heic");
}

#[test]
fn status_serializes_for_the_database_contract() {
    assert_eq!(CandidateStatus::Corrupted.as_str(), "corrupted");
    assert_eq!(CandidateStatus::Partial.as_str(), "partial");
}

#[test]
fn scan_mode_serializes_for_commands() {
    assert_eq!(ScanMode::Deep.as_str(), "deep");
}

#[test]
fn scan_mode_defaults_to_normal() {
    assert_eq!(ScanMode::default(), ScanMode::Normal);
    assert_eq!(ScanMode::Normal.as_str(), "normal");
}

#[test]
fn every_format_has_its_extension_and_mime_type() {
    let expected = [
        (ImageFormat::Jpeg, "jpg", "image/jpeg"),
        (ImageFormat::Png, "png", "image/png"),
        (ImageFormat::Webp, "webp", "image/webp"),
        (ImageFormat::Heic, "heic", "image/heic"),
        (ImageFormat::Bmp, "bmp", "image/bmp"),
        (ImageFormat::Gif, "gif", "image/gif"),
    ];
    for (format, extension, mime) in expected {
        assert_eq!(format.extension(), extension);
        assert_eq!(format.mime_type(), mime);
    }
}
