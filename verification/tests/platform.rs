use photorescue::platform::{align_down, align_up, AlignedVolumeReader, SeekTarget, VolumeReadError};

fn strict_source(
    data: &[u8],
    alignment: u64,
) -> impl Fn(u64, usize) -> Result<Vec<u8>, std::io::Error> + '_ {
    move |start, length| {
        if start % alignment != 0 || (length as u64) % alignment != 0 {
            return Err(std::io::Error::from_raw_os_error(87));
        }
        let start = start as usize;
        let end = (start + length).min(data.len());
        Ok(data[start..end].to_vec())
    }
}

#[test]
fn logical_unaligned_reads_use_aligned_physical_io() {
    let data: Vec<u8> = (0..16 * 1024).map(|index| (index % 251) as u8).collect();
    let mut reader = AlignedVolumeReader::new(data.len() as u64, 512);
    let offset = 8 * 1024 - 32;
    reader.seek(SeekTarget::Start(offset as u64)).unwrap();
    let output = reader.read(1024, strict_source(&data, 512)).unwrap();
    assert_eq!(output, data[offset..offset + output.len()]);
    assert_eq!(output.len(), 1024);
}

#[test]
fn reads_across_the_end_of_an_aligned_cache_window() {
    let data: Vec<u8> = (0..4096).map(|index| (index % 239) as u8).collect();
    let mut reader = AlignedVolumeReader::new(data.len() as u64, 512);
    reader.seek(SeekTarget::Start(500)).unwrap();
    let output = reader.read(700, strict_source(&data, 512)).unwrap();
    assert_eq!(output, data[500..1200]);
}

#[test]
fn reads_stop_at_the_end_of_the_volume() {
    let data: Vec<u8> = (0..1000).map(|index| (index % 7) as u8).collect();
    let mut reader = AlignedVolumeReader::new(1000, 512);
    reader.seek(SeekTarget::End(-10)).unwrap();
    let output = reader
        .read(64, |start, length| {
            let start = start as usize;
            Ok(data[start..(start + length).min(1000)].to_vec())
        })
        .unwrap();
    assert_eq!(output, data[990..1000]);
    assert_eq!(reader.position(), 1000);
    assert!(reader.read(64, |_, _| Ok(Vec::new())).unwrap().is_empty());
}

#[test]
fn seeks_outside_the_volume_are_refused() {
    let mut reader = AlignedVolumeReader::new(100, 0);
    assert_eq!(reader.seek(SeekTarget::Start(101)), None);
    assert_eq!(reader.seek(SeekTarget::Current(-1)), None);
    assert_eq!(reader.seek(SeekTarget::End(0)), Some(100));
    assert_eq!(reader.seek(SeekTarget::Current(-40)), Some(60));
    assert_eq!(reader.position(), 60);
}

#[test]
fn device_errors_are_passed_on() {
    let mut reader = AlignedVolumeReader::new(4096, 512);
    let result = reader.read(10, |_, _| Err(std::io::Error::from_raw_os_error(5)));
    assert!(matches!(result, Err(VolumeReadError::Device(_))));
}

#[test]
fn alignment_helpers_round_to_multiples() {
    assert_eq!(align_down(1000, 512), 512);
    assert_eq!(align_down(1024, 512), 1024);
    assert_eq!(align_up(1000, 512), 1024);
    assert_eq!(align_up(1024, 512), 1024);
    assert_eq!(align_up(u64::MAX - 1, 512), u64::MAX);
}

#[test]
fn volumes_are_described_by_their_drive_letter() {
    let volume = photorescue::platform::volume_for_letter('F', 64, None, true);
    assert_eq!(volume.id, "F:");
    assert_eq!(volume.root_path, "F:\\");
    assert_eq!(volume.device_path, "\\\\.\\F:");
    assert_eq!(volume.display_name, "Unidade F:");
    assert_eq!(volume.sector_size, photorescue::platform::FALLBACK_SECTOR_SIZE);
    assert_eq!(photorescue::platform::volume_for_letter('C', 1, Some(512), false).sector_size, 512);
}

#[test]
fn elevation_script_quotes_the_executable_path() {
    assert_eq!(
        photorescue::platform::elevation_script("C:\\Program Files\\O'Brien\\app.exe"),
        "Start-Process -FilePath 'C:\\Program Files\\O''Brien\\app.exe' -Verb RunAs"
    );
}

#[test]
fn the_reader_behaves_as_a_cursor_over_the_volume() {
    let data: Vec<u8> = (0..3000).map(|index| (index % 253) as u8).collect();
    let length = 2560_u64;
    let mut reader = AlignedVolumeReader::new(length, 512);
    let mut position = 0_usize;
    for (seek, want) in [(None, 700_usize), (Some(1000_u64), 600), (None, 1200), (Some(10), 1)] {
        if let Some(target) = seek {
            assert_eq!(reader.seek(SeekTarget::Start(target)), Some(target));
            position = target as usize;
        }
        let out = reader.read(want, strict_source(&data, 512)).unwrap();
        let expected = want.min(length as usize - position);
        assert_eq!(out.len(), expected);
        assert_eq!(out, data[position..position + expected]);
        position += expected;
        assert_eq!(reader.position(), position as u64);
    }
}
