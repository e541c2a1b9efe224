use photorescue::domain::{CandidateStatus, ImageFormat, ScanMode};
use photorescue::scanner::{ReadFailure, ScanConfig, ScanError, ScanEvent, SignatureScanner};
use std::cell::Cell;
use uuid::Uuid;

fn minimal_webp() -> Vec<u8> {
    let mut data = b"RIFF".to_vec();
    data.extend_from_slice(&4_u32.to_le_bytes());
    data.extend_from_slice(b"WEBP");
    data
}

fn candidates_of(events: &[ScanEvent]) -> Vec<photorescue::domain::RecoveryCandidate> {
    events
        .iter()
        .filter_map(|event| match event {
            ScanEvent::Candidate(candidate) => Some(candidate.clone()),
            _ => None,
        })
        .collect()
}

#[test]
fn scanner_finds_a_real_signature_inside_raw_bytes() {
    let scan_id = Uuid::new_v4();
    let mut raw = vec![0xAA; 4096];
    raw.extend_from_slice(&minimal_webp());
    raw.extend_from_slice(&vec![0xBB; 4096]);
    let total = raw.len() as u64;
    let scanner = SignatureScanner::new(
        scan_id,
        ScanConfig {
            chunk_size: 512,
            ..ScanConfig::default()
        },
    );

    let (events, result, _) = scanner.scan(&raw, &[], total, || false);
    let summary = result.unwrap();
    let candidates = candidates_of(&events);

    assert_eq!(summary.counts.found_count, 1);
    assert_eq!(summary.counts.complete_count, 1);
    assert_eq!(candidates[0].offset, 4096);
    assert_eq!(candidates[0].format, ImageFormat::Webp);
}

#[test]
fn deep_scan_classifies_a_jpeg_without_footer_as_partial() {
    let scan_id = Uuid::new_v4();
    let mut raw = vec![0xAA; 256];
    raw.extend_from_slice(&[
        0xFF, 0xD8, 0xFF, 0xE0, 0x00, 0x04, 0x00, 0x00, 0xFF, 0xDA, 0x00, 0x02, 0x11, 0x22,
        0x33, 0x44, 0x55, 0x66,
    ]);
    raw.extend_from_slice(&vec![0xBB; 256]);
    let total = raw.len() as u64;
    let scanner = SignatureScanner::new(
        scan_id,
        ScanConfig {
            chunk_size: 128,
            ..ScanConfig::for_mode(ScanMode::Deep)
        },
    );

    let (events, result, _) = scanner.scan(&raw, &[], total, || false);
    let summary = result.unwrap();
    let candidates = candidates_of(&events);

    assert_eq!(summary.counts.found_count, 1);
    assert_eq!(summary.counts.partial_count, 1);
    assert_eq!(candidates[0].status, CandidateStatus::Partial);
    assert_eq!(candidates[0].format, ImageFormat::Jpeg);
}

#[test]
fn scan_reports_progress_and_reaches_the_end() {
    let raw = vec![0x11; 1000];
    let scanner = SignatureScanner::new(
        Uuid::new_v4(),
        ScanConfig {
            chunk_size: 256,
            progress_interval: 1,
            ..ScanConfig::default()
        },
    );
    let (events, result, _) = scanner.scan(&raw, &[], 1000, || false);
    let summary = result.unwrap();
    assert_eq!(summary.bytes_scanned, 1000);
    assert!(!summary.cancelled);
    assert_eq!(summary.counts.found_count, 0);
    match events.last() {
        Some(ScanEvent::Progress {
            bytes_scanned,
            total_bytes,
            ..
        }) => {
            assert_eq!(*bytes_scanned, 1000);
            assert_eq!(*total_bytes, 1000);
        }
        other => panic!("unexpected {other:?}"),
    }
}

#[test]
fn scan_candidates_carry_the_scan_id() {
    let scan_id = Uuid::new_v4();
    let mut raw = vec![0; 100];
    raw.extend_from_slice(&minimal_webp());
    let scanner = SignatureScanner::new(scan_id, ScanConfig::default());
    let (events, _, _) = scanner.scan(&raw, &[], raw.len() as u64, || false);
    let candidates = candidates_of(&events);
    assert_eq!(candidates.len(), 1);
    assert_eq!(candidates[0].scan_id, scan_id);
    assert_eq!(candidates[0].estimated_size, 12);
    assert_eq!(candidates[0].offset, 100);
}

#[test]
fn a_chunk_size_of_64_bytes_or_less_is_refused() {
    let scanner = SignatureScanner::new(
        Uuid::new_v4(),
        ScanConfig {
            chunk_size: 64,
            ..ScanConfig::default()
        },
    );
    let (events, result, _) = scanner.scan(&[0; 10], &[], 10, || false);
    assert!(events.is_empty());
    assert!(matches!(result, Err(ScanError::InvalidChunkSize)));
}

#[test]
fn too_many_candidates_stop_the_scan() {
    let mut raw = Vec::new();
    for _ in 0..3 {
        raw.extend_from_slice(&minimal_webp());
    }
    let scanner = SignatureScanner::new(
        Uuid::new_v4(),
        ScanConfig {
            max_candidates: 2,
            ..ScanConfig::default()
        },
    );
    let (events, result, _) = scanner.scan(&raw, &[], raw.len() as u64, || false);
    assert!(matches!(result, Err(ScanError::CandidateLimit(2))));
    assert_eq!(candidates_of(&events).len(), 2);
}

#[test]
fn a_cancelled_scan_stops_early() {
    let raw = vec![0; 4096];
    let calls = Cell::new(0_u32);
    let scanner = SignatureScanner::new(
        Uuid::new_v4(),
        ScanConfig {
            chunk_size: 512,
            ..ScanConfig::default()
        },
    );
    let (_, result, _) = scanner.scan(&raw, &[], 4096, || {
        calls.set(calls.get() + 1);
        calls.get() > 3
    });
    let summary = result.unwrap();
    assert!(summary.cancelled);
    assert_eq!(summary.bytes_scanned, 2);
}

#[test]
fn deep_and_normal_configurations() {
    let deep = ScanConfig::for_mode(ScanMode::Deep);
    assert!(deep.allow_partial);
    assert!(deep.tolerate_read_errors);
    assert!(!deep.skip_carved_ranges);
    assert_eq!(deep.chunk_size, 4 * 1024 * 1024);
    assert_eq!(deep.max_file_size, 768 * 1024 * 1024);
    assert_eq!(deep.max_candidates, 250_000);
    let normal = ScanConfig::for_mode(ScanMode::Normal);
    assert!(!normal.allow_partial);
    assert!(normal.skip_carved_ranges);
    assert_eq!(normal.chunk_size, 8 * 1024 * 1024);
    assert_eq!(normal.max_candidates, 100_000);
    assert_eq!(normal.progress_interval, 16 * 1024 * 1024);
}

#[test]
fn summary_and_progress_counts_tally_the_reported_candidates() {
    let scan_id = Uuid::new_v4();
    let mut raw = vec![0xAA; 300];
    raw.extend_from_slice(&minimal_webp());
    raw.extend_from_slice(&vec![0xBB; 300]);
    raw.extend_from_slice(&minimal_webp());
    raw.extend_from_slice(&vec![0xCC; 300]);
    let total = raw.len() as u64;
    let scanner = SignatureScanner::new(
        scan_id,
        ScanConfig { chunk_size: 256, progress_interval: 1, ..ScanConfig::default() },
    );
    let (events, result, _) = scanner.scan(&raw, &[], total, || false);
    let summary = result.unwrap();
    assert_eq!(summary.counts.found_count, 2);
    assert_eq!(summary.counts.complete_count, 2);
    let mut seen = 0;
    let mut progress_reports = 0;
    for event in &events {
        match event {
            ScanEvent::Candidate(candidate) => {
                seen += 1;
                assert!(candidate.offset < total);
                assert!(candidate.estimated_size <= summary_limit());
            }
            ScanEvent::Progress { counts, .. } => {
                progress_reports += 1;
                assert_eq!(counts.found_count, seen);
            }
            ScanEvent::ReadError { .. } => {}
        }
    }
    assert_eq!(seen, 2);
    assert!(progress_reports > 0);
}

fn summary_limit() -> u64 {
    ScanConfig::default().max_file_size
}

#[test]
fn read_errors_stop_a_normal_scan() {
    let raw = vec![0xAA; 2048];
    let scanner = SignatureScanner::new(Uuid::new_v4(), ScanConfig { chunk_size: 512, ..ScanConfig::default() });
    let failures = vec![ReadFailure { offset: 700, message: "setor ilegivel".to_owned() }];
    let (events, result, _) = scanner.scan(&raw, &failures, 2048, || false);
    match result {
        Err(ScanError::Read { offset, message }) => {
            assert_eq!(offset, 480);
            assert_eq!(message, "setor ilegivel");
        }
        other => panic!("unexpected result: {other:?}"),
    }
    assert!(events.iter().all(|event| !matches!(event, ScanEvent::ReadError { .. })));
}

#[test]
fn a_deep_scan_reports_read_errors_and_skips_the_chunk() {
    let mut raw = vec![0xAA; 2048];
    raw.extend_from_slice(&minimal_webp());
    raw.extend_from_slice(&vec![0xBB; 100]);
    let total = raw.len() as u64;
    let scanner = SignatureScanner::new(
        Uuid::new_v4(),
        ScanConfig { chunk_size: 512, ..ScanConfig::for_mode(ScanMode::Deep) },
    );
    let failures = vec![ReadFailure { offset: 100, message: "CRC".to_owned() }];
    let (events, result, _) = scanner.scan(&raw, &failures, total, || false);
    let summary = result.unwrap();
    assert_eq!(summary.counts.read_error_count, 1);
    assert_eq!(summary.counts.found_count, 1);
    match (&events[0], &events[1]) {
        (ScanEvent::ReadError { offset, message }, ScanEvent::Progress { bytes_scanned, counts, .. }) => {
            assert_eq!(*offset, 0);
            assert_eq!(message, "CRC");
            assert_eq!(*bytes_scanned, 512);
            assert_eq!(counts.read_error_count, 1);
        }
        other => panic!("unexpected events: {other:?}"),
    }
    let candidates = candidates_of(&events);
    assert_eq!(candidates.len(), 1);
    assert_eq!(candidates[0].offset, 2048);
}

#[test]
fn a_complete_scan_covers_every_byte_across_chunk_boundaries() {
    let mut raw = vec![0xAA; 475];
    raw.extend_from_slice(&minimal_webp());
    raw.extend_from_slice(&vec![0xBB; 3000]);
    let total = raw.len() as u64;
    let scanner = SignatureScanner::new(
        Uuid::new_v4(),
        ScanConfig { chunk_size: 480, ..ScanConfig::default() },
    );
    let (events, result, _) = scanner.scan(&raw, &[], total, || false);
    let summary = result.unwrap();
    assert_eq!(summary.bytes_scanned, total);
    assert!(!summary.cancelled);
    let candidates = candidates_of(&events);
    assert_eq!(candidates.len(), 1);
    assert_eq!(candidates[0].offset, 475);
}

#[test]
fn a_read_failure_during_carving_is_handled_as_a_failed_read() {
    let mut raw = vec![0xAA; 256];
    raw.extend_from_slice(&[0xFF, 0xD8, 0xFF, 0xE0, 0x00, 0x04, 0x00, 0x00, 0xFF, 0xDA, 0x00, 0x02]);
    raw.extend_from_slice(&vec![0x11; 200]);
    raw.extend_from_slice(&[0xFF, 0xD9]);
    raw.extend_from_slice(&vec![0xBB; 100]);
    let total = raw.len() as u64;
    let config = ScanConfig { chunk_size: 128, ..ScanConfig::for_mode(ScanMode::Deep) };

    let (events, result, _) = SignatureScanner::new(Uuid::new_v4(), config).scan(&raw, &[], total, || false);
    result.unwrap();
    let whole = candidates_of(&events);
    assert_eq!(whole.len(), 1);
    assert_eq!(whole[0].status, CandidateStatus::Found);
    assert_eq!(whole[0].estimated_size, 214);

    let failures = vec![ReadFailure { offset: 400, message: "setor".to_owned() }];
    let (events, result, _) = SignatureScanner::new(Uuid::new_v4(), config).scan(&raw, &failures, total, || false);
    assert_eq!(result.unwrap().counts.read_error_count, 1);
    let cut = candidates_of(&events);
    assert_eq!(cut.len(), 1);
    assert_eq!(cut[0].offset, 256);
    assert_eq!(cut[0].status, CandidateStatus::Partial);
    assert_eq!(cut[0].estimated_size, 314);
}

#[test]
fn a_callback_that_always_cancels_stops_before_anything() {
    let raw = vec![0xAA; 1024];
    let scanner = SignatureScanner::new(Uuid::new_v4(), ScanConfig { chunk_size: 128, ..ScanConfig::default() });
    let (events, result, _) = scanner.scan(&raw, &[], 1024, || true);
    assert!(events.is_empty());
    let summary = result.unwrap();
    assert!(summary.cancelled);
    assert_eq!(summary.bytes_scanned, 0);
    assert_eq!(summary.counts.found_count, 0);
}

#[test]
fn a_signature_across_a_chunk_boundary_is_found_once() {
    let id = Uuid::new_v4();
    let mut data = vec![0_u8; 120];
    data.extend_from_slice(&minimal_webp());
    data.extend_from_slice(&[0_u8; 68]);
    let scanner = SignatureScanner::new(id, ScanConfig { chunk_size: 128, ..ScanConfig::default() });
    let (events, result, _) = scanner.scan(&data, &[], 200, || false);
    let summary = result.unwrap();
    assert_eq!(summary.bytes_scanned, 200);
    assert!(!summary.cancelled);
    assert_eq!(summary.counts.found_count, 1);
    assert_eq!(summary.counts.complete_count, 1);
    let found = candidates_of(&events);
    assert_eq!(found.len(), 1);
    assert_eq!(found[0].offset, 120);
    assert_eq!(found[0].format, ImageFormat::Webp);
    assert_eq!(found[0].estimated_size, 12);
    assert_eq!(found[0].confidence, 95);
    assert_eq!(found[0].scan_id, id);
}

#[test]
fn the_first_cancel_answer_ends_the_scan_where_it_was_asked() {
    let mut raw = vec![0xAA; 100];
    raw.extend_from_slice(&minimal_webp());
    raw.extend_from_slice(&vec![0xBB; 500]);
    let total = raw.len() as u64;
    let scanner = SignatureScanner::new(Uuid::new_v4(), ScanConfig { chunk_size: 128, ..ScanConfig::default() });

    let (events, result, polls) = scanner.scan(&raw, &[], total, || false);
    assert!(!result.unwrap().cancelled);
    assert!(!polls.is_empty());
    assert!(polls.iter().all(|answer| !answer));
    let asked = polls.len();
    assert_eq!(candidates_of(&events).len(), 1);

    for stop_at in [1, 50, 102, 103, asked] {
        let calls = Cell::new(0_usize);
        let (events, result, polls) = scanner.scan(&raw, &[], total, || {
            calls.set(calls.get() + 1);
            calls.get() == stop_at
        });
        let summary = result.unwrap();
        assert!(summary.cancelled);
        assert_eq!(polls.len(), stop_at);
        assert_eq!(calls.get(), stop_at);
        assert!(polls[stop_at - 1]);
        assert!(polls[..stop_at - 1].iter().all(|answer| !answer));
        let found = candidates_of(&events);
        if stop_at <= 102 {
            assert!(found.is_empty());
        } else {
            assert_eq!(found.len(), 1);
        }
    }
}

#[test]
fn skipped_ranges_give_candidates_that_never_overlap() {
    let mut raw = vec![0xAA; 50];
    for _ in 0..3 {
        raw.extend_from_slice(&minimal_webp());
    }
    raw.extend_from_slice(&vec![0xBB; 50]);
    let total = raw.len() as u64;
    let scanner = SignatureScanner::new(Uuid::new_v4(), ScanConfig { chunk_size: 128, ..ScanConfig::default() });
    let (events, result, _) = scanner.scan(&raw, &[], total, || false);
    result.unwrap();
    let found = candidates_of(&events);
    assert_eq!(found.len(), 3);
    for pair in found.windows(2) {
        assert!(pair[0].offset + pair[0].estimated_size <= pair[1].offset);
    }
}
