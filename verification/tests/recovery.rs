use photorescue::domain::{CandidateStatus, ImageFormat, RecoveryCandidate};
use photorescue::recovery::{
    ensure_different_volume, recovery_bucket_name, safe_recovery_name, unique_recovery_name,
    volume_key, RecoveredFile, RecoveryError, RecoveryService,
};
use uuid::Uuid;

#[test]
fn blocks_destination_on_the_scanned_volume() {
    let error = ensure_different_volume(r"C:\", r"c:\Recovered").unwrap_err();
    assert!(matches!(error, RecoveryError::SameVolume { .. }));
}

#[test]
fn accepts_a_different_destination_volume() {
    ensure_different_volume(r"C:\", r"E:\Recovered").unwrap();
}

#[test]
fn generated_names_are_deterministic_and_safe() {
    assert_eq!(
        safe_recovery_name(ImageFormat::Jpeg, 0x1234),
        "recovered_0000000000001234.jpg"
    );
}

#[test]
fn bucket_names_follow_candidate_status() {
    assert_eq!(
        recovery_bucket_name(CandidateStatus::Found),
        "Recuperados_Integralmente"
    );
    assert_eq!(
        recovery_bucket_name(CandidateStatus::Partial),
        "Recuperados_Parcialmente"
    );
    assert_eq!(
        recovery_bucket_name(CandidateStatus::Corrupted),
        "Possivelmente_Corrompidos"
    );
}

#[test]
fn recovered_and_failed_candidates_share_buckets() {
    assert_eq!(
        recovery_bucket_name(CandidateStatus::Recovered),
        "Recuperados_Integralmente"
    );
    assert_eq!(
        recovery_bucket_name(CandidateStatus::Failed),
        "Possivelmente_Corrompidos"
    );
}

#[test]
fn volume_keys_of_drives_devices_and_shares() {
    assert_eq!(volume_key(r"c:\Photos").as_deref(), Some("C:"));
    assert_eq!(volume_key("d:/Photos/2024").as_deref(), Some("D:"));
    assert_eq!(volume_key(r"\\.\E:").as_deref(), Some("E:"));
    assert_eq!(
        volume_key(r"\\server\share\dir\file").as_deref(),
        Some(r"\\server\share")
    );
    assert_eq!(volume_key("//nas//media/x").as_deref(), Some(r"\\nas\media"));
    assert_eq!(volume_key(r"\\server"), None);
    assert_eq!(volume_key("relative/path"), None);
    assert_eq!(volume_key("1:/x"), None);
}

#[test]
fn unknown_volumes_are_refused_with_the_path() {
    match ensure_different_volume("photos", r"E:\Recovered") {
        Err(RecoveryError::UnknownVolume(path)) => assert_eq!(path, "photos"),
        other => panic!("unexpected {other:?}"),
    }
    match ensure_different_volume(r"C:\", "out") {
        Err(RecoveryError::UnknownVolume(path)) => assert_eq!(path, "out"),
        other => panic!("unexpected {other:?}"),
    }
    match ensure_different_volume(r"\\Nas\Share", r"\\nas\share\backup") {
        Err(RecoveryError::SameVolume {
            source_volume,
            destination_volume,
        }) => {
            assert_eq!(source_volume, r"\\Nas\Share");
            assert_eq!(destination_volume, r"\\nas\share");
        }
        other => panic!("unexpected {other:?}"),
    }
}

#[test]
fn hexadecimal_names_use_sixteen_upper_case_digits() {
    assert_eq!(
        safe_recovery_name(ImageFormat::Heic, u64::MAX),
        "recovered_FFFFFFFFFFFFFFFF.heic"
    );
    assert_eq!(
        safe_recovery_name(ImageFormat::Png, 0xAB_CDEF),
        "recovered_0000000000ABCDEF.png"
    );
}

#[test]
fn recovery_names_skip_existing_files() {
    let taken = vec![
        "recovered_0000000000000000.png".to_owned(),
        "recovered_0000000000000000_001.png".to_owned(),
    ];
    assert_eq!(
        unique_recovery_name(ImageFormat::Png, 0, &taken).as_deref(),
        Some("recovered_0000000000000000_002.png")
    );
    assert_eq!(
        unique_recovery_name(ImageFormat::Png, 0, &Vec::new()).as_deref(),
        Some("recovered_0000000000000000.png")
    );
}

#[test]
fn recovery_targets_follow_status_and_free_names() {
    let candidate = RecoveryCandidate {
        id: Uuid::new_v4(),
        scan_id: Uuid::new_v4(),
        format: ImageFormat::Gif,
        offset: 0x10,
        estimated_size: 20,
        confidence: 96,
        status: CandidateStatus::Partial,
        possible_original_name: None,
        recovered_path: None,
    };
    let taken = vec!["recovered_0000000000000010.gif".to_owned()];
    let target = RecoveryService::target_for(&candidate, &taken).unwrap();
    assert_eq!(target.bucket, "Recuperados_Parcialmente");
    assert_eq!(target.file_name, "recovered_0000000000000010_001.gif");
}

#[test]
fn recovered_files_carry_size_and_sha256() {
    let id = Uuid::new_v4();
    let file = RecoveredFile::for_written_bytes(id, "out.jpg".to_owned(), b"abc");
    assert_eq!(file.candidate_id, id);
    assert_eq!(file.bytes_written, 3);
    assert_eq!(
        file.sha256,
        "ba7816bf8f01cfea414140de5dae2223b00361a396177a9cb410ff61f20015ad"
    );
}

#[test]
fn different_offsets_or_formats_never_share_a_name() {
    assert_ne!(safe_recovery_name(ImageFormat::Png, 0x10), safe_recovery_name(ImageFormat::Png, 0x11));
    assert_ne!(safe_recovery_name(ImageFormat::Png, 0x10), safe_recovery_name(ImageFormat::Gif, 0x10));
    assert_eq!(safe_recovery_name(ImageFormat::Heic, u64::MAX), "recovered_FFFFFFFFFFFFFFFF.heic");
}

#[test]
fn the_volume_check_refuses_a_path_as_its_own_destination_in_either_order() {
    assert!(ensure_different_volume(r"\\server\share\x", r"\\SERVER\Share\y").is_err());
    assert!(ensure_different_volume(r"D:\", r"d:/photos").is_err());
    assert!(ensure_different_volume(r"\\.\D:", r"E:\").is_ok());
    assert!(ensure_different_volume(r"E:\", r"\\.\D:").is_ok());
}

#[test]
fn a_name_taken_in_another_case_is_not_reused() {
    let taken = vec!["RECOVERED_0000000000001234.JPG".to_owned()];
    assert_eq!(
        unique_recovery_name(ImageFormat::Jpeg, 0x1234, &taken).unwrap(),
        "recovered_0000000000001234_001.jpg"
    );
}

#[test]
fn a_path_inside_a_folder_lies_on_the_folder_volume() {
    assert_eq!(volume_key(r"\\srv\share").as_deref(), Some(r"\\srv\share"));
    assert_eq!(volume_key(r"\\srv\share\photos\2024").as_deref(), Some(r"\\srv\share"));
    assert_eq!(volume_key(r"c:\x").as_deref(), Some("C:"));
    assert_eq!(volume_key(r"c:\x\y\z").as_deref(), Some("C:"));
    assert_eq!(volume_key(r"\\srv"), None);
}

#[test]
fn recovered_names_use_only_safe_characters() {
    let taken: Vec<String> = (0..12)
        .map(|k| if k == 0 { safe_recovery_name(ImageFormat::Webp, 77) } else { format!("recovered_000000000000004D_{k:03}.webp") })
        .collect();
    let name = unique_recovery_name(ImageFormat::Webp, 77, &taken).unwrap();
    assert_eq!(name, "recovered_000000000000004D_012.webp");
    assert!(name.chars().all(|c| c.is_ascii_alphanumeric() || c == '_' || c == '.'));
}

#[test]
fn absolute_paths_name_their_volume_and_root() {
    assert!(photorescue::recovery::is_absolute_path(r"D:\Recovered"));
    assert!(photorescue::recovery::is_absolute_path("d:/photos"));
    assert!(photorescue::recovery::is_absolute_path(r"\\server\share\x"));
    assert!(!photorescue::recovery::is_absolute_path("D:photos"));
    assert!(!photorescue::recovery::is_absolute_path(r"\photos"));
    assert!(!photorescue::recovery::is_absolute_path("photos"));
    assert!(!photorescue::recovery::is_absolute_path(""));
}
