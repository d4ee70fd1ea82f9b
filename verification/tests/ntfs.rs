//! Scenarios for USN record decoding and volume error messages.

use std::collections::{BTreeMap, BTreeSet};

use electron_detector::ntfs::{
    fsctl_error, hresult_from_win32, parse_record_v2, refresh_required_message, FsctlFailure,
    NtfsVolume, ERROR_ACCESS_DENIED, FILE_ATTRIBUTE_DIRECTORY, USN_RECORD_V2_SIZE,
};

fn test_record_v2(reference: u64, parent: u64, attributes: u32, name: &str) -> Vec<u8> {
    let name_bytes: Vec<_> = name.encode_utf16().flat_map(u16::to_le_bytes).collect();
    let record_len = USN_RECORD_V2_SIZE + name_bytes.len();
    let mut record = vec![0u8; record_len];

    record[0..4].copy_from_slice(&(record_len as u32).to_le_bytes());
    record[4..6].copy_from_slice(&2u16.to_le_bytes());
    record[8..16].copy_from_slice(&reference.to_le_bytes());
    record[16..24].copy_from_slice(&parent.to_le_bytes());
    record[52..56].copy_from_slice(&attributes.to_le_bytes());
    record[56..58].copy_from_slice(&(name_bytes.len() as u16).to_le_bytes());
    record[58..60].copy_from_slice(&(USN_RECORD_V2_SIZE as u16).to_le_bytes());
    record[USN_RECORD_V2_SIZE..].copy_from_slice(&name_bytes);
    record
}

#[test]
fn formats_refresh_permission_message() {
    assert_eq!(
        refresh_required_message(r"C:\"),
        r"administrator permission is required to refresh NTFS index for C:\"
    );
}

#[test]
fn maps_fsctl_access_denied_to_refresh_required_message() {
    let volume = NtfsVolume {
        root: r"C:\".to_string(),
        device: r"\\.\C:".to_string(),
    };
    let err = FsctlFailure {
        code: hresult_from_win32(ERROR_ACCESS_DENIED),
        message: "Access is denied. (0x80070005)".to_string(),
    };

    assert_eq!(
        fsctl_error(&volume, &err, "query USN journal"),
        r"administrator permission is required to refresh NTFS index for C:\"
    );
}

#[test]
fn rejects_record_names_inside_v2_header() {
    let mut record = vec![0u8; USN_RECORD_V2_SIZE + 2];
    let record_len = record.len() as u32;
    record[0..4].copy_from_slice(&record_len.to_le_bytes());
    record[4..6].copy_from_slice(&2u16.to_le_bytes());
    record[56..58].copy_from_slice(&2u16.to_le_bytes());
    record[58..60].copy_from_slice(&58u16.to_le_bytes());

    let err = parse_record_v2(
        &record,
        &mut BTreeMap::new(),
        &mut BTreeSet::new(),
        &mut BTreeSet::new(),
    )
    .unwrap_err();

    assert_eq!(err, "received malformed USN record name");
}

#[test]
fn keeps_resources_directory_only_for_path_reconstruction() {
    let record = test_record_v2(10, 5, FILE_ATTRIBUTE_DIRECTORY, "resources");
    let mut entries = BTreeMap::new();
    let mut interesting = BTreeSet::new();
    let mut root_exes = BTreeSet::new();

    parse_record_v2(&record, &mut entries, &mut interesting, &mut root_exes).unwrap();

    assert!(entries.contains_key(&10));
    assert!(interesting.is_empty());
}

#[test]
fn records_non_electron_exe_for_app_name_lookup() {
    let record = test_record_v2(10, 5, 0, "ATLaserTrackClient.exe");
    let mut entries = BTreeMap::new();
    let mut interesting = BTreeSet::new();
    let mut root_exes = BTreeSet::new();

    parse_record_v2(&record, &mut entries, &mut interesting, &mut root_exes).unwrap();

    assert!(entries.contains_key(&10));
    assert!(interesting.is_empty());
    assert!(root_exes.contains(&10));
}
