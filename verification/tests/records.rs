//! USN buffers, path reconstruction, enumeration decisions and volume helpers.

use std::collections::{BTreeMap, BTreeSet};

use electron_detector::ntfs::{
    candidates_from_index, drive_indices, drives_to_scan, enum_step, is_fixed_drive, parse_record_v2, exe_parent, from_wide_z, fsctl_error,
    hresult_from_win32, is_expected_enum_end, is_ntfs_name, parse_records, read_u16, read_u32,
    read_u64, resolve_path, to_wide, utf16_name, volume_of_drive, EnumAction, EnumOutcome, Entry,
    FsctlFailure, NtfsVolume, ERROR_ACCESS_DENIED, ERROR_HANDLE_EOF, ERROR_NO_MORE_FILES,
    FILE_ATTRIBUTE_DIRECTORY, USN_RECORD_V2_SIZE,
};

fn record(major: u16, reference: u64, parent: u64, attributes: u32, name: &str) -> Vec<u8> {
    let name_bytes: Vec<u8> = name.encode_utf16().flat_map(u16::to_le_bytes).collect();
    let len = USN_RECORD_V2_SIZE + name_bytes.len();
    let mut r = vec![0u8; len];
    r[0..4].copy_from_slice(&(len as u32).to_le_bytes());
    r[4..6].copy_from_slice(&major.to_le_bytes());
    r[8..16].copy_from_slice(&reference.to_le_bytes());
    r[16..24].copy_from_slice(&parent.to_le_bytes());
    r[52..56].copy_from_slice(&attributes.to_le_bytes());
    r[56..58].copy_from_slice(&(name_bytes.len() as u16).to_le_bytes());
    r[58..60].copy_from_slice(&(USN_RECORD_V2_SIZE as u16).to_le_bytes());
    r[USN_RECORD_V2_SIZE..].copy_from_slice(&name_bytes);
    r
}

fn buffer(next: u64, records: &[Vec<u8>]) -> Vec<u8> {
    let mut b = next.to_le_bytes().to_vec();
    for r in records {
        b.extend_from_slice(r);
    }
    b
}

fn app_layout() -> Vec<Vec<u8>> {
    vec![
        record(2, 5, 5, FILE_ATTRIBUTE_DIRECTORY, "."),
        record(2, 1, 5, FILE_ATTRIBUTE_DIRECTORY, "App"),
        record(2, 2, 1, FILE_ATTRIBUTE_DIRECTORY, "resources"),
        record(2, 3, 2, 0, "app.asar"),
        record(2, 4, 1, 0, "App.exe"),
        record(2, 6, 1, 0, "notes.txt"),
    ]
}

fn volume_c() -> NtfsVolume {
    NtfsVolume {
        root: r"C:\".to_string(),
        device: r"\\.\C:".to_string(),
    }
}

#[test]
fn reads_little_endian_fields() {
    let bytes = [0x34u8, 0x12, 0x78, 0x56, 1, 2, 3, 4, 5, 6, 7, 8];
    assert_eq!(read_u16(&bytes, 0), Ok(0x1234));
    assert_eq!(read_u32(&bytes, 0), Ok(0x5678_1234));
    assert_eq!(read_u64(&bytes, 4), Ok(0x0807_0605_0403_0201));
}

#[test]
fn refuses_truncated_fields() {
    let truncated = "received truncated USN record".to_string();
    assert_eq!(read_u16(&[1u8], 0), Err(truncated.clone()));
    assert_eq!(read_u32(&[1u8, 2, 3, 4], 1), Err(truncated.clone()));
    assert_eq!(read_u64(&[0u8; 8], 1), Err(truncated.clone()));
    assert_eq!(read_u64(&[0u8; 4], 9), Err(truncated));
}

#[test]
fn decodes_utf16_names_with_surrogate_pairs() {
    let bytes: Vec<u8> = "Code 😀.exe".encode_utf16().flat_map(u16::to_le_bytes).collect();
    assert_eq!(utf16_name(&bytes), Ok("Code 😀.exe".to_string()));
    assert_eq!(utf16_name(&[]), Ok(String::new()));
}

#[test]
fn refuses_names_with_unpaired_surrogates() {
    let err = utf16_name(&[0x00, 0xd8, 0x41, 0x00]).unwrap_err();
    assert!(err.starts_with("failed to decode USN record name: "));
    assert!(err.len() > "failed to decode USN record name: ".len());
}

#[test]
fn parse_records_keeps_directories_interesting_files_and_executables() {
    let buf = buffer(77, &app_layout());
    let mut entries = BTreeMap::new();
    let mut interesting = BTreeSet::new();
    let mut root_exes = BTreeSet::new();

    parse_records(&buf, &mut entries, &mut interesting, &mut root_exes).unwrap();

    let keys: Vec<u64> = entries.keys().copied().collect();
    assert_eq!(keys, vec![1, 2, 3, 4, 5]);
    assert_eq!(
        entries.get(&3),
        Some(&Entry {
            parent: 2,
            name: "app.asar".to_string()
        })
    );
    assert_eq!(interesting.into_iter().collect::<Vec<_>>(), vec![3]);
    assert_eq!(root_exes.into_iter().collect::<Vec<_>>(), vec![4]);
}

#[test]
fn parse_records_refuses_short_record_lengths() {
    let mut short = record(2, 3, 2, 0, "app.asar");
    short[0..4].copy_from_slice(&10u32.to_le_bytes());
    let buf = buffer(0, &[short]);
    let err = parse_records(
        &buf,
        &mut BTreeMap::new(),
        &mut BTreeSet::new(),
        &mut BTreeSet::new(),
    )
    .unwrap_err();
    assert_eq!(err, "received malformed USN record");
}

#[test]
fn parse_records_refuses_records_past_the_buffer() {
    let mut long = record(2, 3, 2, 0, "app.asar");
    long[0..4].copy_from_slice(&500u32.to_le_bytes());
    let buf = buffer(0, &[long]);
    let err = parse_records(
        &buf,
        &mut BTreeMap::new(),
        &mut BTreeSet::new(),
        &mut BTreeSet::new(),
    )
    .unwrap_err();
    assert_eq!(err, "received malformed USN record");
}

#[test]
fn parse_records_stops_at_zero_length_and_skips_other_versions() {
    let mut zero = record(2, 9, 2, 0, "app.asar");
    zero[0..4].copy_from_slice(&0u32.to_le_bytes());
    let buf = buffer(
        0,
        &[record(3, 3, 2, 0, "app.asar"), record(2, 4, 1, 0, "App.exe"), zero],
    );
    let mut entries = BTreeMap::new();
    let mut interesting = BTreeSet::new();
    let mut root_exes = BTreeSet::new();

    parse_records(&buf, &mut entries, &mut interesting, &mut root_exes).unwrap();

    assert_eq!(entries.keys().copied().collect::<Vec<_>>(), vec![4]);
    assert!(interesting.is_empty());
    assert_eq!(root_exes.into_iter().collect::<Vec<_>>(), vec![4]);
}

#[test]
fn parse_records_reports_undecodable_names() {
    let mut bad = record(2, 3, 2, 0, "ab");
    bad[USN_RECORD_V2_SIZE..USN_RECORD_V2_SIZE + 2].copy_from_slice(&[0x00, 0xdc]);
    let buf = buffer(0, &[bad]);
    let err = parse_records(
        &buf,
        &mut BTreeMap::new(),
        &mut BTreeSet::new(),
        &mut BTreeSet::new(),
    )
    .unwrap_err();
    assert!(err.starts_with("failed to decode USN record name: "));
}

#[test]
fn resolves_paths_through_parent_references() {
    let mut entries = BTreeMap::new();
    let mut interesting = BTreeSet::new();
    let mut root_exes = BTreeSet::new();
    parse_records(&buffer(0, &app_layout()), &mut entries, &mut interesting, &mut root_exes).unwrap();

    assert_eq!(
        resolve_path(r"C:\", &entries, 3),
        Some(r"C:\App\resources\app.asar".to_string())
    );
    assert_eq!(resolve_path(r"C:\", &entries, 1), Some(r"C:\App".to_string()));
    assert_eq!(resolve_path(r"C:\", &entries, 5), None);
    assert_eq!(resolve_path(r"C:\", &entries, 42), None);
}

#[test]
fn resolve_path_stops_on_reference_cycles() {
    let mut entries = BTreeMap::new();
    entries.insert(
        1,
        Entry {
            parent: 2,
            name: "a".to_string(),
        },
    );
    entries.insert(
        2,
        Entry {
            parent: 1,
            name: "b".to_string(),
        },
    );
    assert_eq!(resolve_path(r"C:\", &entries, 1), Some(r"C:\b\a".to_string()));
}

#[test]
fn candidates_from_index_adds_executables_in_app_roots() {
    let mut entries = BTreeMap::new();
    let mut interesting = BTreeSet::new();
    let mut root_exes = BTreeSet::new();
    let mut layout = app_layout();
    layout.push(record(2, 7, 5, FILE_ATTRIBUTE_DIRECTORY, "Tools"));
    layout.push(record(2, 8, 7, 0, "Tool.exe"));
    parse_records(&buffer(0, &layout), &mut entries, &mut interesting, &mut root_exes).unwrap();

    let candidates = candidates_from_index(r"C:\", &entries, &interesting, &root_exes);

    assert_eq!(
        candidates,
        vec![
            r"C:\App\App.exe".to_string(),
            r"C:\App\resources\app.asar".to_string()
        ]
    );
}

#[test]
fn candidates_from_index_is_empty_without_interesting_files() {
    let candidates =
        candidates_from_index(r"C:\", &BTreeMap::new(), &BTreeSet::new(), &BTreeSet::new());
    assert!(candidates.is_empty());
}

#[test]
fn finds_the_parent_of_non_electron_executables() {
    let chars = |s: &str| s.chars().collect::<Vec<char>>();
    assert_eq!(exe_parent(&chars(r"C:\App\App.exe")), Some(6));
    assert_eq!(exe_parent(&chars(r"C:\App\\App.EXE")), Some(6));
    assert_eq!(exe_parent(&chars(r"C:\App\electron.exe")), None);
    assert_eq!(exe_parent(&chars(r"C:\App\app.asar")), None);
    assert_eq!(exe_parent(&chars("App.exe")), None);
    assert_eq!(exe_parent(&chars(r"\App.exe")), None);
}

#[test]
fn enum_step_finishes_on_short_buffers_and_end_codes() {
    let volume = volume_c();
    let buf = vec![0u8; 16];
    let mut entries = BTreeMap::new();
    let mut interesting = BTreeSet::new();
    let mut root_exes = BTreeSet::new();

    let short = enum_step(
        &volume,
        &buf,
        EnumOutcome::Returned(8),
        &mut entries,
        &mut interesting,
        &mut root_exes,
    );
    assert!(matches!(short, EnumAction::Finished));

    for code in [ERROR_HANDLE_EOF, ERROR_NO_MORE_FILES] {
        let failure = FsctlFailure {
            code: hresult_from_win32(code),
            message: "end".to_string(),
        };
        assert!(is_expected_enum_end(&failure));
        let action = enum_step(
            &volume,
            &buf,
            EnumOutcome::Failed(failure),
            &mut entries,
            &mut interesting,
            &mut root_exes,
        );
        assert!(matches!(action, EnumAction::Finished));
    }
    assert!(entries.is_empty());
}

#[test]
fn enum_step_continues_from_the_leading_reference() {
    let volume = volume_c();
    let buf = buffer(0x0102_0304, &app_layout());
    let mut padded = buf.clone();
    padded.extend_from_slice(&[0xAA; 32]);
    let mut entries = BTreeMap::new();
    let mut interesting = BTreeSet::new();
    let mut root_exes = BTreeSet::new();

    let action = enum_step(
        &volume,
        &padded,
        EnumOutcome::Returned(buf.len() as u32),
        &mut entries,
        &mut interesting,
        &mut root_exes,
    );

    match action {
        EnumAction::Continue(next) => assert_eq!(next, 0x0102_0304),
        _ => panic!("expected the enumeration to continue"),
    }
    assert_eq!(entries.len(), 5);
    assert_eq!(interesting.into_iter().collect::<Vec<_>>(), vec![3]);
}

#[test]
fn enum_step_aborts_on_malformed_records_and_other_failures() {
    let volume = volume_c();
    let mut short = record(2, 3, 2, 0, "app.asar");
    short[0..4].copy_from_slice(&12u32.to_le_bytes());
    let buf = buffer(9, &[short]);
    let mut entries = BTreeMap::new();
    let mut interesting = BTreeSet::new();
    let mut root_exes = BTreeSet::new();

    let malformed = enum_step(
        &volume,
        &buf,
        EnumOutcome::Returned(buf.len() as u32),
        &mut entries,
        &mut interesting,
        &mut root_exes,
    );
    match malformed {
        EnumAction::Abort(m) => assert_eq!(m, "received malformed USN record"),
        _ => panic!("expected a malformed record to abort"),
    }

    let denied = enum_step(
        &volume,
        &buf,
        EnumOutcome::Failed(FsctlFailure {
            code: hresult_from_win32(ERROR_ACCESS_DENIED),
            message: "Access is denied.".to_string(),
        }),
        &mut entries,
        &mut interesting,
        &mut root_exes,
    );
    match denied {
        EnumAction::Abort(m) => assert_eq!(
            m,
            r"administrator permission is required to refresh NTFS index for C:\"
        ),
        _ => panic!("expected access denied to abort"),
    }

    let other = enum_step(
        &volume,
        &buf,
        EnumOutcome::Failed(FsctlFailure {
            code: hresult_from_win32(87),
            message: "The parameter is incorrect.".to_string(),
        }),
        &mut entries,
        &mut interesting,
        &mut root_exes,
    );
    match other {
        EnumAction::Abort(m) => assert_eq!(
            m,
            r"failed to enumerate NTFS records for C:\: The parameter is incorrect."
        ),
        _ => panic!("expected another failure to abort"),
    }
}

#[test]
fn fsctl_error_names_operation_volume_and_error() {
    let err = FsctlFailure {
        code: hresult_from_win32(21),
        message: "The device is not ready.".to_string(),
    };
    assert_eq!(
        fsctl_error(&volume_c(), &err, "query USN journal"),
        r"failed to query USN journal for C:\: The device is not ready."
    );
}

#[test]
fn maps_win32_codes_to_hresults() {
    assert_eq!(hresult_from_win32(ERROR_ACCESS_DENIED), 0x8007_0005u32 as i32);
    assert_eq!(hresult_from_win32(ERROR_HANDLE_EOF), 0x8007_0026u32 as i32);
    assert_eq!(hresult_from_win32(0), 0);
}

#[test]
fn lists_drives_from_the_logical_drive_mask() {
    assert_eq!(drive_indices(0b101), vec![0, 2]);
    assert_eq!(drive_indices(0), Vec::<u32>::new());
    assert_eq!(drive_indices(u32::MAX), (0..26).collect::<Vec<u32>>());
}

#[test]
fn names_drive_roots_and_devices() {
    let v = volume_of_drive(2);
    assert_eq!(v.root, r"C:\");
    assert_eq!(v.device, r"\\.\C:");
    let z = volume_of_drive(25);
    assert_eq!(z.root, r"Z:\");
}

#[test]
fn recognises_ntfs_in_any_case() {
    assert!(is_ntfs_name("NTFS"));
    assert!(is_ntfs_name("ntfs"));
    assert!(!is_ntfs_name("FAT32"));
    assert!(!is_ntfs_name("NTFS "));
}

#[test]
fn encodes_and_decodes_wide_strings() {
    assert_eq!(to_wide(r"C:\"), vec![67, 58, 92, 0]);
    assert_eq!(from_wide_z(&[78, 84, 70, 83, 0, 0, 0]), "NTFS");
    assert_eq!(from_wide_z(&[78, 84]), "NT");
    assert_eq!(from_wide_z(&[0xd800, 65, 0]), "\u{fffd}A");
}

#[test]
fn wide_strings_round_trip() {
    for text in ["", r"C:\", "Código 😀 app"] {
        assert_eq!(from_wide_z(&to_wide(text)), text);
    }
}

#[test]
fn volume_candidates_are_electron_relevant() {
    let mut entries = BTreeMap::new();
    let mut interesting = BTreeSet::new();
    let mut root_exes = BTreeSet::new();
    let mut layout = app_layout();
    layout.push(record(2, 9, 5, 0, "package.json"));
    layout.push(record(2, 10, 5, 0, "Loose.exe"));
    parse_records(&buffer(0, &layout), &mut entries, &mut interesting, &mut root_exes).unwrap();

    let candidates = candidates_from_index(r"C:\", &entries, &interesting, &root_exes);

    assert_eq!(
        candidates,
        vec![
            r"C:\App\App.exe".to_string(),
            r"C:\App\resources\app.asar".to_string()
        ]
    );
}

#[test]
fn refuses_records_shorter_than_the_header_as_truncated() {
    for len in [8usize, 15, 20, 52, 55, 59] {
        let err = parse_record_v2(
            &vec![0u8; len],
            &mut BTreeMap::new(),
            &mut BTreeSet::new(),
            &mut BTreeSet::new(),
        )
        .unwrap_err();
        assert_eq!(err, "received truncated USN record", "{len}");
    }
}

#[test]
fn scans_fixed_drives_of_a_nonzero_mask() {
    assert_eq!(drives_to_scan(0), Err("failed to list logical drives".to_string()));
    assert_eq!(drives_to_scan(0b1100), Ok(vec![2, 3]));
    assert!(is_fixed_drive(3));
    assert!(!is_fixed_drive(2));
}
