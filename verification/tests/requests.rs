use photorescue::domain::{CandidateStatus, ImageFormat, RecoveryCandidate};
use photorescue::logging::log_line;
use photorescue::requests::{find_candidate_in, select_candidates, supported_filters, PreviewData};
use uuid::Uuid;

fn candidate(offset: u64) -> RecoveryCandidate {
    RecoveryCandidate {
        id: Uuid::new_v4(),
        scan_id: Uuid::new_v4(),
        format: ImageFormat::Bmp,
        offset,
        estimated_size: 64,
        confidence: 90,
        status: CandidateStatus::Found,
        possible_original_name: None,
        recovered_path: None,
    }
}

#[test]
fn previews_are_base64_data_urls() {
    let preview = PreviewData::for_image(ImageFormat::Png, b"abcd");
    assert_eq!(preview.data_url, "data:image/png;base64,YWJjZA==");
    let preview = PreviewData::for_image(ImageFormat::Jpeg, b"");
    assert_eq!(preview.data_url, "data:image/jpeg;base64,");
}

#[test]
fn supported_filters_list_every_extension() {
    assert_eq!(supported_filters(), "jpg,png,webp,heic,bmp,gif");
}

#[test]
fn selection_keeps_the_requested_candidates_in_order() {
    let all = vec![candidate(1), candidate(2), candidate(3)];
    let ids = vec![all[2].id, all[0].id, Uuid::new_v4()];
    let selected = select_candidates(all.clone(), &ids);
    assert_eq!(selected.len(), 2);
    assert_eq!(selected[0].offset, 1);
    assert_eq!(selected[1].offset, 3);
    assert!(select_candidates(all, &Vec::new()).is_empty());
}

#[test]
fn candidates_are_found_by_identifier() {
    let all = vec![candidate(10), candidate(20)];
    let wanted = all[1].id;
    assert_eq!(find_candidate_in(all.clone(), wanted).unwrap().offset, 20);
    assert!(find_candidate_in(all, Uuid::new_v4()).is_none());
}

#[test]
fn log_lines_keep_messages_on_one_line() {
    assert_eq!(
        log_line("2024-01-01T00:00:00+00:00", "INFO", "a\r\nb\nc"),
        "2024-01-01T00:00:00+00:00 [INFO] a  b c\n"
    );
}

#[test]
fn previews_only_candidates_up_to_twenty_mebibytes() {
    let mut small = candidate(0);
    small.estimated_size = 20 * 1024 * 1024;
    assert_eq!(photorescue::requests::preview_length(&small), Some(20 * 1024 * 1024));
    let mut large = candidate(0);
    large.estimated_size = 20 * 1024 * 1024 + 1;
    assert_eq!(photorescue::requests::preview_length(&large), None);
}

#[test]
fn a_recovery_must_select_at_least_one_candidate() {
    let all = vec![candidate(1), candidate(2)];
    let ids = vec![all[1].id];
    let chosen = photorescue::requests::recovery_selection(all.clone(), &ids).unwrap();
    assert_eq!(chosen.len(), 1);
    assert_eq!(chosen[0].offset, 2);
    assert!(photorescue::requests::recovery_selection(all, &vec![Uuid::new_v4()]).is_none());
}
