use photorescue::domain::{CandidateStatus, ImageFormat, RecoveryCandidate};
use photorescue::index::{candidate_from_row, candidate_row, parse_format, parse_status, IndexError};
use uuid::Uuid;

#[test]
fn parses_persisted_values() {
    assert_eq!(parse_format("jpeg").unwrap(), ImageFormat::Jpeg);
    assert_eq!(
        parse_status("recovered").unwrap(),
        CandidateStatus::Recovered
    );
    assert_eq!(parse_status("partial").unwrap(), CandidateStatus::Partial);
    assert!(parse_status("unknown").is_err());
}

#[test]
fn unknown_format_is_reported_with_its_text() {
    match parse_format("tiff") {
        Err(IndexError::InvalidValue(text)) => assert_eq!(text, "tiff"),
        other => panic!("unexpected {other:?}"),
    }
    assert_eq!(parse_format("jpg").unwrap(), ImageFormat::Jpeg);
    assert_eq!(parse_format("gif").unwrap(), ImageFormat::Gif);
}

fn sample_candidate() -> RecoveryCandidate {
    RecoveryCandidate {
        id: Uuid::new_v4(),
        scan_id: Uuid::new_v4(),
        format: ImageFormat::Webp,
        offset: u64::MAX - 5,
        estimated_size: 1 << 40,
        confidence: 200,
        status: CandidateStatus::Corrupted,
        possible_original_name: Some("IMG_0001.webp".to_owned()),
        recovered_path: None,
    }
}

#[test]
fn a_saved_candidate_reads_back_unchanged() {
    let candidate = sample_candidate();
    let row = candidate_row(&candidate);
    assert_eq!(row.format, "webp");
    assert_eq!(row.status, "corrupted");
    assert_eq!(row.id, candidate.id.to_string());
    assert_eq!(row.offset, (u64::MAX - 5) as i64);
    let back = candidate_from_row(&row).unwrap();
    assert_eq!(back.id, candidate.id);
    assert_eq!(back.scan_id, candidate.scan_id);
    assert_eq!(back.format, candidate.format);
    assert_eq!(back.offset, candidate.offset);
    assert_eq!(back.estimated_size, candidate.estimated_size);
    assert_eq!(back.confidence, candidate.confidence);
    assert_eq!(back.status, candidate.status);
    assert_eq!(back.possible_original_name, candidate.possible_original_name);
    assert_eq!(back.recovered_path, candidate.recovered_path);
}

#[test]
fn a_row_with_a_bad_identifier_or_status_is_refused() {
    let mut row = candidate_row(&sample_candidate());
    row.status = "lost".to_owned();
    match candidate_from_row(&row) {
        Err(IndexError::InvalidValue(text)) => assert_eq!(text, "lost"),
        other => panic!("unexpected {other:?}"),
    }
    row.id = "not-a-uuid".to_owned();
    assert!(matches!(candidate_from_row(&row), Err(IndexError::Uuid(_))));
}
