use photorescue::domain::{CandidateStatus, VolumeInfo};
use photorescue::platform::volume_for_letter;
use photorescue::recovery::{RecoveredFile, RecoveryError};
use photorescue::scanner::{ScanCounts, ScanError, ScanEvent, ScanSummary};
use photorescue::session::{find_volume, recorded_outcome, session_folder_name, ScanReport, ScanState};
use uuid::Uuid;

fn volumes() -> Vec<VolumeInfo> {
    vec![
        volume_for_letter('C', 1000, Some(512), false),
        volume_for_letter('E', 2000, None, true),
    ]
}

#[test]
fn finds_the_requested_volume_ignoring_case() {
    let found = find_volume(&volumes(), "e:").unwrap();
    assert_eq!(found.root_path, "E:\\");
    assert_eq!(found.total_bytes, 2000);
    assert!(found.is_removable);
    assert!(find_volume(&volumes(), "D:").is_none());
}

#[test]
fn session_folder_is_named_after_the_scan() {
    let id = Uuid::parse_str("67e55044-10b1-426f-9247-bb680e5fe0c8").unwrap();
    assert_eq!(session_folder_name(&id), "scan-67e55044-10b1-426f-9247-bb680e5fe0c8");
}

#[test]
fn reports_follow_the_scan_stage() {
    let start = ScanReport::starting(4096);
    assert_eq!(start.state, ScanState::Starting);
    assert_eq!(start.state.as_str(), "starting");
    assert_eq!(start.bytes_scanned, 0);

    let counts = ScanCounts { found_count: 3, complete_count: 2, partial_count: 1, corrupted_count: 0, read_error_count: 0 };
    let progress = ScanEvent::Progress { bytes_scanned: 512, total_bytes: 4096, counts };
    let report = ScanReport::for_event(&progress).unwrap();
    assert_eq!(report.state.as_str(), "scanning");
    assert_eq!(report.bytes_scanned, 512);
    assert_eq!(report.counts.found_count, 3);
    let error_event = ScanEvent::ReadError { offset: 7, message: "bad sector".to_owned() };
    assert!(ScanReport::for_event(&error_event).is_none());

    let done: Result<ScanSummary, ScanError> = Ok(ScanSummary { bytes_scanned: 4096, counts, cancelled: false });
    let end = ScanReport::at_end(&done, 4096);
    assert_eq!(end.state.as_str(), "completed");
    assert_eq!(end.counts.partial_count, 1);

    let cancelled: Result<ScanSummary, ScanError> = Ok(ScanSummary { bytes_scanned: 100, counts, cancelled: true });
    let end = ScanReport::at_end(&cancelled, 4096);
    assert_eq!(end.state.as_str(), "cancelled");
    assert_eq!(end.bytes_scanned, 100);

    let failed: Result<ScanSummary, ScanError> = Err(ScanError::CandidateLimit(10));
    let end = ScanReport::at_end(&failed, 4096);
    assert_eq!(end.state, ScanState::Failed);
    assert_eq!(end.bytes_scanned, 0);
    assert_eq!(end.counts.found_count, 0);
    assert_eq!(ScanReport::failed(4096).state.as_str(), "failed");
}

#[test]
fn recovery_attempts_record_their_outcome() {
    let file = RecoveredFile {
        candidate_id: Uuid::new_v4(),
        path: "E:\\Recuperados_Integralmente\\recovered_0000000000000000.jpg".to_owned(),
        bytes_written: 10,
        sha256: String::new(),
    };
    let (status, path) = recorded_outcome(&Ok(file));
    assert_eq!(status, CandidateStatus::Recovered);
    assert_eq!(path.unwrap(), "E:\\Recuperados_Integralmente\\recovered_0000000000000000.jpg");
    let (status, path) = recorded_outcome(&Err(RecoveryError::UnknownVolume("X".to_owned())));
    assert_eq!(status, CandidateStatus::Failed);
    assert!(path.is_none());
}
