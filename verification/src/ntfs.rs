//! The decisions of an installed-app refresh from NTFS MFT and USN records:
//! decoding USN record buffers, rebuilding paths from parent references,
//! picking Electron candidates and mapping volume errors to messages.
//!
//! The volume handles and the `DeviceIoControl` calls that fill the buffers
//! belong to the program around this library.

use vstd::prelude::*;

use std::collections::{BTreeMap, BTreeSet};

use crate::detect::{
    apps_view, candidate_kind, dedup_key, entry_app, installed_apps_from_candidates,
    installed_apps_spec, lists_key, app_roots_seq, spec_candidate_kind, spec_exe_stem,
};
use crate::text::{
    chars_of, concat_str, eq_ic, extend_vec, insert_sorted, is_delim, last_delim, lemma_last_delim,
    lower, lower_vec, range_eq, range_eq_ic, rfind_delim, slice_vec, sorted_listing, strictly_sorted,
    strings_of, strs_view, trim_end_len, trim_end_seps, vecs_contain, vviews, Delims,
};

verus! {

// ---------------------------------------------------------------------------
// Messages and Win32 error codes
// ---------------------------------------------------------------------------

pub open spec fn spec_refresh_required_message(root: Seq<char>) -> Seq<char> {
    "administrator permission is required to refresh NTFS index for "@ + root
}

/// Formats the permission error shown when a volume requires elevation.
pub fn refresh_required_message(root: &str) -> (r: String)
    ensures
        r@ == spec_refresh_required_message(root@),
{
    concat_str("administrator permission is required to refresh NTFS index for ", root)
}

/// Win32 `ERROR_ACCESS_DENIED`.
pub const ERROR_ACCESS_DENIED: u32 = 5;

/// Win32 `ERROR_NO_MORE_FILES`.
pub const ERROR_NO_MORE_FILES: u32 = 18;

/// Win32 `ERROR_HANDLE_EOF`.
pub const ERROR_HANDLE_EOF: u32 = 38;

/// The HRESULT that carries a Win32 error code (`HRESULT::from_win32`).
pub open spec fn spec_hresult_from_win32(code: u32) -> i32 {
    if (code as i32) <= 0 {
        code as i32
    } else {
        ((code & 0xffff) | 0x7_0000 | 0x8000_0000) as i32
    }
}

/// Maps a Win32 error code to its HRESULT, as `HRESULT::from_win32` does.
pub fn hresult_from_win32(code: u32) -> (r: i32)
    ensures
        r == spec_hresult_from_win32(code),
{
    if (code as i32) <= 0 {
        code as i32
    } else {
        ((code & 0xffff) | 0x7_0000 | 0x8000_0000) as i32
    }
}

/// A failed volume control call, as the plain values the decisions need:
/// the error's HRESULT and its display text.
pub struct FsctlFailure {
    pub code: i32,
    pub message: String,
}

/// An NTFS volume: its root path and device path.
pub struct NtfsVolume {
    pub root: String,
    pub device: String,
}

/// Whether `err` carries the Win32 error `code`.
pub fn is_win32_error(err: &FsctlFailure, code: u32) -> (r: bool)
    ensures
        r == (err.code == spec_hresult_from_win32(code)),
{
    err.code == hresult_from_win32(code)
}

pub open spec fn spec_is_expected_enum_end(code: i32) -> bool {
    code == spec_hresult_from_win32(ERROR_HANDLE_EOF) || code == spec_hresult_from_win32(
        ERROR_NO_MORE_FILES,
    )
}

/// Whether a failed enumeration call only reports the end of the records.
pub fn is_expected_enum_end(err: &FsctlFailure) -> (r: bool)
    ensures
        r == spec_is_expected_enum_end(err.code),
{
    is_win32_error(err, ERROR_HANDLE_EOF) || is_win32_error(err, ERROR_NO_MORE_FILES)
}

pub open spec fn spec_fsctl_error(root: Seq<char>, code: i32, message: Seq<char>, operation: Seq<char>) -> Seq<char> {
    if code == spec_hresult_from_win32(ERROR_ACCESS_DENIED) {
        spec_refresh_required_message(root)
    } else {
        "failed to "@ + operation + " for "@ + root + ": "@ + message
    }
}

/// The message for a failed volume control call: access denied asks for
/// elevation, anything else names the operation, the volume and the error.
pub fn fsctl_error(volume: &NtfsVolume, err: &FsctlFailure, operation: &str) -> (r: String)
    ensures
        r@ == spec_fsctl_error(volume.root@, err.code, err.message@, operation@),
{
    if is_win32_error(err, ERROR_ACCESS_DENIED) {
        refresh_required_message(volume.root.as_str())
    } else {
        let a = concat_str("failed to ", operation);
        let b = concat_str(a.as_str(), " for ");
        let c = concat_str(b.as_str(), volume.root.as_str());
        let d = concat_str(c.as_str(), ": ");
        concat_str(d.as_str(), err.message.as_str())
    }
}

// ---------------------------------------------------------------------------
// Little-endian fields
// ---------------------------------------------------------------------------

/// The unsigned little-endian integer of `n` bytes at `at`.
pub open spec fn le_bytes(b: Seq<u8>, at: int, n: nat) -> int
    decreases n,
{
    if n == 0 {
        0
    } else {
        b[at] + 256 * le_bytes(b, at + 1, (n - 1) as nat)
    }
}

pub open spec fn truncated_message() -> Seq<char> {
    "received truncated USN record"@
}

/// Reads the little-endian `u16` at `at`.
pub fn read_u16(bytes: &[u8], at: usize) -> (r: Result<u16, String>)
    ensures
        match r {
            Ok(v) => at + 2 <= bytes@.len() && v == le_bytes(bytes@, at as int, 2),
            Err(e) => at + 2 > bytes@.len() && e@ == truncated_message(),
        },
{
    if at > bytes.len() || bytes.len() - at < 2 {
        return Err("received truncated USN record".to_owned());
    }
    let v = (bytes[at] as u16) + (bytes[at + 1] as u16) * 0x100;
    proof {
        reveal_with_fuel(le_bytes, 3);
    }
    Ok(v)
}

/// Reads the little-endian `u32` at `at`.
pub fn read_u32(bytes: &[u8], at: usize) -> (r: Result<u32, String>)
    ensures
        match r {
            Ok(v) => at + 4 <= bytes@.len() && v == le_bytes(bytes@, at as int, 4),
            Err(e) => at + 4 > bytes@.len() && e@ == truncated_message(),
        },
{
    if at > bytes.len() || bytes.len() - at < 4 {
        return Err("received truncated USN record".to_owned());
    }
    let v = (bytes[at] as u32) + (bytes[at + 1] as u32) * 0x100 + (bytes[at + 2] as u32) * 0x1_0000
        + (bytes[at + 3] as u32) * 0x100_0000;
    proof {
        reveal_with_fuel(le_bytes, 5);
    }
    Ok(v)
}

/// Reads the little-endian `u64` at `at`.
pub fn read_u64(bytes: &[u8], at: usize) -> (r: Result<u64, String>)
    ensures
        match r {
            Ok(v) => at + 8 <= bytes@.len() && v == le_bytes(bytes@, at as int, 8),
            Err(e) => at + 8 > bytes@.len() && e@ == truncated_message(),
        },
{
    if at > bytes.len() || bytes.len() - at < 8 {
        return Err("received truncated USN record".to_owned());
    }
    let v = (bytes[at] as u64) + (bytes[at + 1] as u64) * 0x100 + (bytes[at + 2] as u64)
        * 0x1_0000 + (bytes[at + 3] as u64) * 0x100_0000 + (bytes[at + 4] as u64) * 0x1_0000_0000
        + (bytes[at + 5] as u64) * 0x100_0000_0000 + (bytes[at + 6] as u64) * 0x1_0000_0000_0000
        + (bytes[at + 7] as u64) * 0x100_0000_0000_0000;
    proof {
        reveal_with_fuel(le_bytes, 9);
    }
    Ok(v)
}

// ---------------------------------------------------------------------------
// UTF-16 names
// ---------------------------------------------------------------------------

/// The characters a UTF-16 sequence encodes, or `None` when it holds an
/// unpaired surrogate.
pub open spec fn utf16_decode(u: Seq<u16>) -> Option<Seq<char>>
    decreases u.len(),
{
    if u.len() == 0 {
        Some(Seq::empty())
    } else if u[0] < 0xd800 || u[0] > 0xdfff {
        match utf16_decode(u.drop_first()) {
            Some(rest) => Some(seq![u[0] as char] + rest),
            None => None,
        }
    } else if u[0] <= 0xdbff && u.len() >= 2 && 0xdc00 <= u[1] && u[1] <= 0xdfff {
        let c = 0x1_0000 + (u[0] - 0xd800) * 0x400 + (u[1] - 0xdc00);
        match utf16_decode(u.skip(2)) {
            Some(rest) => Some(seq![c as char] + rest),
            None => None,
        }
    } else {
        None
    }
}

/// `String::from_utf16`: decodes UTF-16, failing on unpaired surrogates; the
/// error carries the display text of the standard library's error, which is
/// not stated here.
#[verifier::external_body]
fn string_from_utf16(units: &[u16]) -> (r: Result<String, String>)
    ensures
        match r {
            Ok(s) => utf16_decode(units@) == Some(s@),
            Err(_) => utf16_decode(units@) is None,
        },
{
    match String::from_utf16(units) {
        Ok(s) => Ok(s),
        Err(e) => Err(e.to_string()),
    }
}

/// The UTF-16 code units of a little-endian byte sequence (a trailing odd byte
/// is ignored).
pub open spec fn utf16_units(b: Seq<u8>) -> Seq<u16> {
    Seq::new(b.len() / 2, |i: int| le_bytes(b, 2 * i, 2) as u16)
}

pub open spec fn decode_failure_prefix() -> Seq<char> {
    "failed to decode USN record name: "@
}

/// Decodes a little-endian UTF-16 file name.
pub fn utf16_name(bytes: &[u8]) -> (r: Result<String, String>)
    ensures
        match r {
            Ok(s) => utf16_decode(utf16_units(bytes@)) == Some(s@),
            Err(e) => utf16_decode(utf16_units(bytes@)) is None && e@.len() >= decode_failure_prefix().len()
                && e@.take(decode_failure_prefix().len() as int) == decode_failure_prefix(),
        },
{
    let mut wide: Vec<u16> = Vec::new();
    let n = bytes.len() / 2;
    let mut i: usize = 0;
    while i < n
        invariant
            n == bytes@.len() / 2,
            bytes@.len() <= usize::MAX,
            0 <= i <= n,
            wide@ == utf16_units(bytes@).take(i as int),
        decreases n - i,
    {
        let unit = (bytes[2 * i] as u16) + (bytes[2 * i + 1] as u16) * 0x100;
        proof {
            reveal_with_fuel(le_bytes, 3);
        }
        wide.push(unit);
        assert(wide@ =~= utf16_units(bytes@).take(i + 1));
        i += 1;
    }
    assert(wide@ == utf16_units(bytes@));
    match string_from_utf16(wide.as_slice()) {
        Ok(s) => Ok(s),
        Err(e) => {
            let m = concat_str("failed to decode USN record name: ", e.as_str());
            proof {
                reveal_strlit("failed to decode USN record name: ");
                assert(m@.take(decode_failure_prefix().len() as int) =~= decode_failure_prefix());
            }
            Err(m)
        },
    }
}

} // verus!

verus! {

// ---------------------------------------------------------------------------
// USN records
// ---------------------------------------------------------------------------

/// Size of the fixed part of a `USN_RECORD_V2`.
pub const USN_RECORD_V2_SIZE: usize = 60;

/// `FILE_ATTRIBUTE_DIRECTORY`.
pub const FILE_ATTRIBUTE_DIRECTORY: u32 = 0x10;

/// A file record kept for path reconstruction: its parent reference and name.
#[derive(Debug, Clone, PartialEq, Eq)]
pub struct Entry {
    pub parent: u64,
    pub name: String,
}

/// What the record scan has gathered: entries by reference, references of
/// interesting files, references of executables that may name an app.
pub struct IndexView {
    pub entries: Map<u64, (u64, Seq<char>)>,
    pub interesting: Set<u64>,
    pub root_exes: Set<u64>,
}

pub open spec fn index_view(
    entries: BTreeMap<u64, Entry>,
    interesting: BTreeSet<u64>,
    root_exes: BTreeSet<u64>,
) -> IndexView {
    IndexView {
        entries: entries@.map_values(|e: Entry| (e.parent, e.name@)),
        interesting: interesting@,
        root_exes: root_exes@,
    }
}

pub open spec fn spec_is_interesting_file(name: Seq<char>) -> bool {
    ||| eq_ic(name, "app.asar"@)
    ||| eq_ic(name, "electron.exe"@)
    ||| eq_ic(name, "package.json"@)
}

pub open spec fn spec_is_root_exe(name: Seq<char>) -> bool {
    match spec_exe_stem(name) {
        Some(stem) => !eq_ic(stem, "electron"@),
        None => false,
    }
}

/// The scan state after one record: directories, interesting files and
/// executables are kept for path reconstruction; interesting files and
/// executables are also listed by reference.
pub open spec fn apply_record(
    v: IndexView,
    reference: u64,
    parent: u64,
    attributes: u32,
    name: Seq<char>,
) -> IndexView {
    let dir = attributes & 0x10 != 0;
    let interesting = spec_is_interesting_file(name);
    let exe = spec_is_root_exe(name);
    IndexView {
        entries: if dir || interesting || exe {
            v.entries.insert(reference, (parent, name))
        } else {
            v.entries
        },
        interesting: if interesting {
            v.interesting.insert(reference)
        } else {
            v.interesting
        },
        root_exes: if exe {
            v.root_exes.insert(reference)
        } else {
            v.root_exes
        },
    }
}

/// Why a record buffer was refused.
pub enum RecordFault {
    Truncated,
    MalformedRecord,
    MalformedName,
    UndecodableName,
}

pub open spec fn fault_message(f: RecordFault, m: Seq<char>) -> bool {
    match f {
        RecordFault::Truncated => m == truncated_message(),
        RecordFault::MalformedRecord => m == "received malformed USN record"@,
        RecordFault::MalformedName => m == "received malformed USN record name"@,
        RecordFault::UndecodableName => m.len() >= decode_failure_prefix().len() && m.take(
            decode_failure_prefix().len() as int,
        ) == decode_failure_prefix(),
    }
}

pub open spec fn rec_name_len(rec: Seq<u8>) -> int {
    le_bytes(rec, 56, 2)
}

pub open spec fn rec_name_offset(rec: Seq<u8>) -> int {
    le_bytes(rec, 58, 2)
}

/// The name lies after the fixed header, inside the record, in whole code units.
pub open spec fn name_in_bounds(rec: Seq<u8>) -> bool {
    &&& rec_name_offset(rec) >= 60
    &&& rec_name_offset(rec) + rec_name_len(rec) <= rec.len()
    &&& rec_name_len(rec) % 2 == 0
}

/// The outcome of one version-2 record on the scan state.
pub open spec fn record_v2_outcome(rec: Seq<u8>, v: IndexView) -> Result<IndexView, RecordFault> {
    if rec.len() < 60 {
        Err(RecordFault::Truncated)
    } else if !name_in_bounds(rec) {
        Err(RecordFault::MalformedName)
    } else {
        let bytes = rec.subrange(rec_name_offset(rec), rec_name_offset(rec) + rec_name_len(rec));
        match utf16_decode(utf16_units(bytes)) {
            None => Err(RecordFault::UndecodableName),
            Some(name) => Ok(
                apply_record(
                    v,
                    le_bytes(rec, 8, 8) as u64,
                    le_bytes(rec, 16, 8) as u64,
                    le_bytes(rec, 52, 4) as u32,
                    name,
                ),
            ),
        }
    }
}

/// What one record adds to the scan: it is listed as interesting exactly when
/// its name is `app.asar`, `electron.exe` or `package.json` (ASCII case
/// ignored), and such a file, a directory or an executable other than
/// `electron.exe` is kept in the entries under its reference with its parent
/// and name; nothing else changes.
pub proof fn law_record_keeps_interesting_names(
    v: IndexView,
    reference: u64,
    parent: u64,
    attributes: u32,
    name: Seq<char>,
)
    ensures
        apply_record(v, reference, parent, attributes, name).interesting == (if eq_ic(name, "app.asar"@) || eq_ic(
            name,
            "electron.exe"@,
        ) || eq_ic(name, "package.json"@) {
            v.interesting.insert(reference)
        } else {
            v.interesting
        }),
        eq_ic(name, "app.asar"@) || eq_ic(name, "electron.exe"@) || eq_ic(name, "package.json"@) || attributes & 0x10
            != 0 ==> apply_record(v, reference, parent, attributes, name).entries == v.entries.insert(
            reference,
            (parent, name),
        ),
        apply_record(v, reference, parent, attributes, name).root_exes == (match spec_exe_stem(name) {
            Some(stem) => if eq_ic(stem, "electron"@) {
                v.root_exes
            } else {
                v.root_exes.insert(reference)
            },
            None => v.root_exes,
        }),
{
}

/// Decodes one `USN_RECORD_V2` and records what the scan keeps of it. A record
/// shorter than the fixed header is refused as truncated; lengths below 8 and
/// from 24 to 51, at which a field's offset lies past the record's end, are
/// left out.
pub fn parse_record_v2(
    record: &[u8],
    entries: &mut BTreeMap<u64, Entry>,
    interesting: &mut BTreeSet<u64>,
    root_exes: &mut BTreeSet<u64>,
) -> (r: Result<(), String>)
    requires
        record@.len() >= 8,
        !(24 <= record@.len() < 52),
    ensures
        match (r, record_v2_outcome(record@, index_view(*old(entries), *old(interesting), *old(root_exes)))) {
            (Ok(()), Ok(v)) => index_view(*final(entries), *final(interesting), *final(root_exes)) == v,
            (Err(e), Err(f)) => fault_message(f, e@) && index_view(*final(entries), *final(interesting), *final(root_exes))
                == index_view(*old(entries), *old(interesting), *old(root_exes)),
            _ => false,
        },
{
    let reference = read_u64(record, 8)?;
    let parent = read_u64(record, 16)?;
    let attributes = read_u32(record, 52)?;
    let name_length = read_u16(record, 56)? as usize;
    let name_offset = read_u16(record, 58)? as usize;

    if name_offset < USN_RECORD_V2_SIZE || name_offset + name_length > record.len() || name_length % 2 != 0 {
        return Err("received malformed USN record name".to_owned());
    }

    let name = utf16_name(vstd::slice::slice_subrange(record, name_offset, name_offset + name_length))?;
    let chars = chars_of(name.as_str());
    let n = chars.len();
    assert(chars@.subrange(0, n as int) == chars@);
    let is_directory = attributes & FILE_ATTRIBUTE_DIRECTORY != 0;
    let is_interesting_file = range_eq_ic(&chars, 0, n, "app.asar") || range_eq_ic(&chars, 0, n, "electron.exe")
        || range_eq_ic(&chars, 0, n, "package.json");
    let is_root_exe = match crate::detect::exe_stem(&chars, 0, n) {
        Some(e) => !range_eq_ic(&chars, 0, e, "electron"),
        None => false,
    };

    let ghost old_entries = entries@;
    if is_directory || is_interesting_file || is_root_exe {
        entries.insert(reference, Entry { parent, name });
        assert(entries@.map_values(|e: Entry| (e.parent, e.name@)) =~= old_entries.map_values(
            |e: Entry| (e.parent, e.name@),
        ).insert(reference, (parent, chars@)));
    }
    if is_interesting_file {
        interesting.insert(reference);
    }
    if is_root_exe {
        root_exes.insert(reference);
    }
    Ok(())
}

/// The outcome of the records of `buf` from offset `off` on the scan state.
pub open spec fn records_from(buf: Seq<u8>, off: int, v: IndexView) -> Result<IndexView, RecordFault>
    decreases buf.len() - off,
{
    if off < 0 || off + 60 > buf.len() {
        Ok(v)
    } else {
        let len = le_bytes(buf, off, 4);
        if len == 0 {
            Ok(v)
        } else if off + len > buf.len() || len < 60 {
            Err(RecordFault::MalformedRecord)
        } else if le_bytes(buf, off + 4, 2) == 2 {
            match record_v2_outcome(buf.subrange(off, off + len), v) {
                Ok(v2) => records_from(buf, off + len, v2),
                Err(f) => Err(f),
            }
        } else {
            records_from(buf, off + len, v)
        }
    }
}

/// Walking the records of `buf` from `off` (each led by its length, stopping
/// at a zero length or where no header fits) meets a record whose length is
/// below the fixed header or runs past the buffer.
pub open spec fn walk_hits_bad_length(buf: Seq<u8>, off: int) -> bool
    decreases buf.len() - off,
{
    if off < 0 || off + 60 > buf.len() {
        false
    } else {
        let len = le_bytes(buf, off, 4);
        if len == 0 {
            false
        } else if off + len > buf.len() || len < 60 {
            true
        } else {
            walk_hits_bad_length(buf, off + len)
        }
    }
}

/// Every version-2 record the walk from `off` reaches before a bad length
/// has its name inside its bounds and decodable.
pub open spec fn walk_names_ok(buf: Seq<u8>, off: int) -> bool
    decreases buf.len() - off,
{
    if off < 0 || off + 60 > buf.len() {
        true
    } else {
        let len = le_bytes(buf, off, 4);
        if len == 0 || off + len > buf.len() || len < 60 {
            true
        } else {
            let rec = buf.subrange(off, off + len);
            &&& (le_bytes(buf, off + 4, 2) == 2 ==> name_in_bounds(rec) && utf16_decode(
                utf16_units(rec.subrange(rec_name_offset(rec), rec_name_offset(rec) + rec_name_len(rec))),
            ) is Some)
            &&& walk_names_ok(buf, off + len)
        }
    }
}

/// With every walked name sound, the record walk fails exactly when it meets
/// a bad record length, and then as a malformed record.
pub proof fn law_record_walk_fails_on_bad_length(buf: Seq<u8>, off: int, v: IndexView)
    requires
        walk_names_ok(buf, off),
    ensures
        records_from(buf, off, v) is Err <==> walk_hits_bad_length(buf, off),
        records_from(buf, off, v) is Err ==> records_from(buf, off, v) == Err::<IndexView, RecordFault>(
            RecordFault::MalformedRecord,
        ),
    decreases buf.len() - off,
{
    if off >= 0 && off + 60 <= buf.len() {
        let len = le_bytes(buf, off, 4);
        if len != 0 && !(off + len > buf.len() || len < 60) {
            if le_bytes(buf, off + 4, 2) == 2 {
                let rec = buf.subrange(off, off + len);
                match record_v2_outcome(rec, v) {
                    Ok(v2) => law_record_walk_fails_on_bad_length(buf, off + len, v2),
                    Err(_) => {},
                }
            } else {
                law_record_walk_fails_on_bad_length(buf, off + len, v);
            }
        }
    }
}

/// Decodes the records of an enumeration buffer (after its leading next-start
/// reference) and records what the scan keeps of them.
pub fn parse_records(
    buffer: &[u8],
    entries: &mut BTreeMap<u64, Entry>,
    interesting: &mut BTreeSet<u64>,
    root_exes: &mut BTreeSet<u64>,
) -> (r: Result<(), String>)
    ensures
        match (r, records_from(buffer@, 8, index_view(*old(entries), *old(interesting), *old(root_exes)))) {
            (Ok(()), Ok(v)) => index_view(*final(entries), *final(interesting), *final(root_exes)) == v,
            (Err(e), Err(f)) => fault_message(f, e@),
            _ => false,
        },
{
    let ghost v0 = index_view(*entries, *interesting, *root_exes);
    let mut offset: usize = 8;
    loop
        invariant_except_break
            8 <= offset,
            v0 == index_view(*old(entries), *old(interesting), *old(root_exes)),
            records_from(buffer@, 8, v0) == records_from(buffer@, offset as int, index_view(*entries, *interesting, *root_exes)),
        ensures
            v0 == index_view(*old(entries), *old(interesting), *old(root_exes)),
            records_from(buffer@, 8, v0) == Ok::<IndexView, RecordFault>(index_view(*entries, *interesting, *root_exes)),
        decreases buffer@.len() - offset,
    {
        if buffer.len() < USN_RECORD_V2_SIZE || offset > buffer.len() - USN_RECORD_V2_SIZE {
            break;
        }
        let record_length = read_u32(buffer, offset)? as usize;
        if record_length == 0 {
            break;
        }
        let ghost cur = index_view(*entries, *interesting, *root_exes);
        assert(record_length as int == le_bytes(buffer@, offset as int, 4));
        if record_length > buffer.len() - offset || record_length < USN_RECORD_V2_SIZE {
            assert(records_from(buffer@, offset as int, cur) == Err::<IndexView, RecordFault>(RecordFault::MalformedRecord));
            return Err("received malformed USN record".to_owned());
        }
        let major_version = read_u16(buffer, offset + 4)?;
        if major_version == 2 {
            let record = vstd::slice::slice_subrange(buffer, offset, offset + record_length);
            proof {
                reveal_with_fuel(le_bytes, 9);
                assert(le_bytes(record@, 8, 8) == le_bytes(buffer@, offset + 8, 8));
                assert(le_bytes(record@, 16, 8) == le_bytes(buffer@, offset + 16, 8));
                assert(le_bytes(record@, 52, 4) == le_bytes(buffer@, offset + 52, 4));
                assert(le_bytes(record@, 56, 2) == le_bytes(buffer@, offset + 56, 2));
                assert(le_bytes(record@, 58, 2) == le_bytes(buffer@, offset + 58, 2));
            }
            assert(record@ == buffer@.subrange(offset as int, offset + record_length));
            let res = parse_record_v2(record, entries, interesting, root_exes);
            match res {
                Ok(()) => {},
                Err(e) => {
                    assert(records_from(buffer@, offset as int, cur) == record_v2_outcome(record@, cur));
                    return Err(e);
                },
            }
        }
        offset += record_length;
    }
    Ok(())
}

} // verus!

verus! {

// ---------------------------------------------------------------------------
// Path reconstruction
// ---------------------------------------------------------------------------

pub proof fn lemma_difference_shrinks(d: Set<u64>, seen: Set<u64>, x: u64)
    requires
        d.finite(),
        d.contains(x),
        !seen.contains(x),
    ensures
        d.difference(seen.insert(x)).len() < d.difference(seen).len(),
{
    assert(d.difference(seen.insert(x)) =~= d.difference(seen).remove(x));
}

/// The names met walking from `cur` up through parent references, child
/// first; the walk stops at a root, at a self-parent, at an unknown parent or
/// at a reference already seen; `None` when it starts on an unknown reference.
pub open spec fn walk(m: Map<u64, (u64, Seq<char>)>, cur: u64, seen: Set<u64>) -> Option<Seq<Seq<char>>>
    decreases m.dom().difference(seen).len(),
    when m.dom().finite()
{
    if seen.contains(cur) {
        Some(Seq::empty())
    } else if !m.dom().contains(cur) {
        None
    } else {
        let parent = m[cur].0;
        let name = m[cur].1;
        let here: Seq<Seq<char>> = if name == "."@ {
            Seq::empty()
        } else {
            seq![name]
        };
        if parent == cur || parent == 0 || !m.dom().contains(parent) {
            Some(here)
        } else {
            proof {
                lemma_difference_shrinks(m.dom(), seen, cur);
            }
            match walk(m, parent, seen.insert(cur)) {
                Some(rest) => Some(here + rest),
                None => None,
            }
        }
    }
}

/// Names given child first, joined root-most first with backslashes.
pub open spec fn join_rev(names: Seq<Seq<char>>) -> Seq<char>
    decreases names.len(),
{
    if names.len() == 0 {
        Seq::empty()
    } else if names.len() == 1 {
        names[0]
    } else {
        join_rev(names.drop_first()) + "\\"@ + names[0]
    }
}

/// The full path of `reference` under the volume root.
pub open spec fn spec_resolve_path(root: Seq<char>, m: Map<u64, (u64, Seq<char>)>, reference: u64) -> Option<Seq<char>> {
    match walk(m, reference, Set::empty()) {
        None => None,
        Some(names) => if names.len() == 0 {
            None
        } else {
            Some(root + join_rev(names))
        },
    }
}

pub open spec fn entries_view(entries: BTreeMap<u64, Entry>) -> Map<u64, (u64, Seq<char>)> {
    entries@.map_values(|e: Entry| (e.parent, e.name@))
}

/// Rebuilds the path of `reference` from parent references.
pub fn resolve_path(root: &str, entries: &BTreeMap<u64, Entry>, reference: u64) -> (r: Option<String>)
    ensures
        match r {
            Some(p) => spec_resolve_path(root@, entries_view(*entries), reference) == Some(p@),
            None => spec_resolve_path(root@, entries_view(*entries), reference) is None,
        },
{
    let ghost m = entries_view(*entries);
    assert(m.dom() =~= entries@.dom());
    let mut current = reference;
    let mut names: Vec<Vec<char>> = Vec::new();
    let mut seen: BTreeSet<u64> = BTreeSet::new();
    assert(seen@ =~= Set::<u64>::empty());
    loop
        invariant_except_break
            m == entries_view(*entries),
            m.dom().finite(),
            walk(m, reference, Set::empty()) == match walk(m, current, seen@) {
                Some(rest) => Some(crate::text::vviews(names@) + rest),
                None => None,
            },
        ensures
            m == entries_view(*entries),
            walk(m, reference, Set::empty()) == Some(crate::text::vviews(names@)),
        decreases m.dom().difference(seen@).len(),
    {
        let ghost seen0 = seen@;
        if !seen.insert(current) {
            assert(crate::text::vviews(names@) + Seq::<Seq<char>>::empty() =~= crate::text::vviews(names@));
            break;
        }
        let entry = match entries.get(&current) {
            Some(e) => e,
            None => {
                return None;
            },
        };
        let name = chars_of(entry.name.as_str());
        let ghost here: Seq<Seq<char>> = if name@ == "."@ { Seq::empty() } else { seq![name@] };
        let ghost old_names = crate::text::vviews(names@);
        let n = name.len();
        assert(name@.subrange(0, n as int) == name@);
        if !range_eq(&name, 0, n, ".") {
            names.push(name);
        }
        assert(crate::text::vviews(names@) =~= old_names + here);
        let parent = entry.parent;
        if parent == current || parent == 0 || !entries.contains_key(&parent) {
            assert(crate::text::vviews(names@) =~= old_names + here + Seq::<Seq<char>>::empty());
            assert(walk(m, current, seen0) == Some(here));
            break;
        }
        proof {
            lemma_difference_shrinks(m.dom(), seen0, current);
            assert(old_names + (here + (match walk(m, parent, seen@) {
                Some(rest) => rest,
                None => Seq::empty(),
            })) =~= crate::text::vviews(names@) + (match walk(m, parent, seen@) {
                Some(rest) => rest,
                None => Seq::empty(),
            }));
        }
        current = parent;
    }
    if names.len() == 0 {
        return None;
    }
    let mut path = chars_of(root);
    let mut k = names.len();
    let ghost nv = crate::text::vviews(names@);
    proof {
        lemma_join_rev_step(nv, (nv.len() - 1) as int);
    }
    extend_vec(&mut path, &names[k - 1]);
    k -= 1;
    while k > 0
        invariant
            0 <= k < names@.len(),
            nv == crate::text::vviews(names@),
            path@ == root@ + join_rev(nv.skip(k as int)),
        decreases k,
    {
        proof {
            lemma_join_rev_step(nv, k - 1);
        }
        let ghost before = path@;
        path.push('\\');
        extend_vec(&mut path, &names[k - 1]);
        proof {
            reveal_strlit("\\");
            assert(path@ =~= before + "\\"@ + nv[k - 1]);
        }
        k -= 1;
    }
    assert(nv.skip(0) == nv);
    Some(crate::text::string_of(&path))
}

proof fn lemma_join_rev_step(names: Seq<Seq<char>>, k: int)
    requires
        0 <= k < names.len(),
    ensures
        join_rev(names.skip(k)) == if k == names.len() - 1 {
            names[k]
        } else {
            join_rev(names.skip(k + 1)) + "\\"@ + names[k]
        },
{
    let t = names.skip(k);
    assert(t[0] == names[k]);
    assert(t.drop_first() == names.skip(k + 1));
}

} // verus!

verus! {

/// The elements of a set of references.
fn set_elements(s: &BTreeSet<u64>) -> (v: Vec<u64>)
    ensures
        forall|x: u64| #[trigger] v@.contains(x) <==> s@.contains(x),
{
    let ghost full = vstd::std_specs::iter::IteratorSpec::remaining(&vstd::std_specs::btree::spec_btree_keys_iter(s));
    let mut v: Vec<u64> = Vec::new();
    for x in it: s.iter()
        invariant
            it.seq() == full,
            full.unref().to_set() == s@,
            v@ =~= it.seq().take(it.index()).unref(),
    {
        v.push(*x);
    }
    assert(v@ =~= full.unref());
    assert forall|x: u64| #[trigger] v@.contains(x) <==> s@.contains(x) by {
        assert(v@.to_set().contains(x) == v@.contains(x));
    }
    v
}

// ---------------------------------------------------------------------------
// Candidate selection
// ---------------------------------------------------------------------------

/// The directory of an executable other than `electron.exe`.
pub open spec fn spec_exe_parent(p: Seq<char>) -> Option<Seq<char>> {
    let s = last_delim(p, Delims::Path);
    if s < 0 {
        None
    } else {
        match spec_exe_stem(p.skip(s + 1)) {
            None => None,
            Some(stem) => if eq_ic(stem, "electron"@) {
                None
            } else {
                let root = trim_end_seps(p.take(s));
                if root.len() == 0 {
                    None
                } else {
                    Some(root)
                }
            },
        }
    }
}

/// The directory of an executable other than `electron.exe`: its length.
pub fn exe_parent(v: &Vec<char>) -> (r: Option<usize>)
    ensures
        match r {
            None => spec_exe_parent(v@) is None,
            Some(l) => l <= v@.len() && spec_exe_parent(v@) == Some(v@.take(l as int)),
        },
{
    assert(v@.take(v@.len() as int) == v@);
    let s = match rfind_delim(v, v.len(), Delims::Path) {
        Some(s) => s,
        None => {
            return None;
        },
    };
    assert(v@.subrange(s + 1, v@.len() as int) == v@.skip(s + 1));
    let stem_end = match crate::detect::exe_stem(v, s + 1, v.len()) {
        Some(e) => e,
        None => {
            return None;
        },
    };
    if range_eq_ic(v, s + 1, stem_end, "electron") {
        return None;
    }
    let root_len = trim_end_len(v, s);
    if root_len == 0 {
        return None;
    }
    Some(root_len)
}

/// Paths of interesting files that classify as Electron candidates.
pub open spec fn interesting_candidates(root: Seq<char>, m: Map<u64, (u64, Seq<char>)>, refs: Set<u64>) -> Set<Seq<char>> {
    Set::new(|p: Seq<char>| exists|r: u64|
        refs.contains(r) && #[trigger] spec_resolve_path(root, m, r) == Some(p) && spec_candidate_kind(p) is Some)
}

/// The lower-cased paths of the installed apps grouped from `q`.
pub open spec fn app_root_keys(q: Seq<Seq<char>>) -> Set<Seq<char>> {
    Set::new(|d: Seq<char>| exists|j: int| 0 <= j < app_roots_seq(q).len() && #[trigger] dedup_key(q, j) == d)
}

/// Paths of executables that sit directly in an app root.
pub open spec fn exe_candidates(
    root: Seq<char>,
    m: Map<u64, (u64, Seq<char>)>,
    refs: Set<u64>,
    keys: Set<Seq<char>>,
) -> Set<Seq<char>> {
    Set::new(|p: Seq<char>| exists|r: u64|
        refs.contains(r) && #[trigger] spec_resolve_path(root, m, r) == Some(p) && match spec_exe_parent(p) {
            Some(rt) => keys.contains(lower(rt)),
            None => false,
        })
}

/// `listing` is what a volume contributes: interesting candidates, listed in
/// order as `q1`, and the executables found in the roots of the apps grouped
/// from `q1`.
pub open spec fn volume_candidates(
    root: Seq<char>,
    m: Map<u64, (u64, Seq<char>)>,
    interesting: Set<u64>,
    root_exes: Set<u64>,
    listing: Seq<Seq<char>>,
) -> bool {
    exists|q1: Seq<Seq<char>>|
        sorted_listing(q1, interesting_candidates(root, m, interesting)) && sorted_listing(
            listing,
            interesting_candidates(root, m, interesting).union(
                exe_candidates(root, m, root_exes, app_root_keys(q1)),
            ),
        )
}

/// The Electron candidates of one volume, in order, from the scanned records.
pub fn candidates_from_index(
    root: &str,
    entries: &BTreeMap<u64, Entry>,
    interesting: &BTreeSet<u64>,
    root_exes: &BTreeSet<u64>,
) -> (r: Vec<String>)
    ensures
        volume_candidates(root@, entries_view(*entries), interesting@, root_exes@, strs_view(r@)),
{
    let ghost m = entries_view(*entries);
    let ghost c1 = interesting_candidates(root@, m, interesting@);
    let refs = set_elements(interesting);
    let mut set: Vec<Vec<char>> = Vec::new();
    let mut i: usize = 0;
    while i < refs.len()
        invariant
            0 <= i <= refs@.len(),
            m == entries_view(*entries),
            forall|x: u64| #[trigger] refs@.contains(x) <==> interesting@.contains(x),
            strictly_sorted(vviews(set@)),
            forall|p: Seq<char>| #[trigger] vviews(set@).contains(p) <==> exists|k: int|
                0 <= k < i && spec_resolve_path(root@, m, #[trigger] refs@[k]) == Some(p)
                    && spec_candidate_kind(p) is Some,
        decreases refs.len() - i,
    {
        let ghost before = vviews(set@);
        match resolve_path(root, entries, refs[i]) {
            Some(path) => {
                if candidate_kind(path.as_str()).is_some() {
                    let v = chars_of(path.as_str());
                    insert_sorted(&mut set, v);
                }
            },
            None => {},
        }
        assert forall|p: Seq<char>| #[trigger] vviews(set@).contains(p) <==> exists|k: int|
            0 <= k < i + 1 && spec_resolve_path(root@, m, #[trigger] refs@[k]) == Some(p)
                && spec_candidate_kind(p) is Some by {
            if before.contains(p) {
                let k = choose|k: int| 0 <= k < i && spec_resolve_path(root@, m, #[trigger] refs@[k]) == Some(p)
                    && spec_candidate_kind(p) is Some;
                assert(0 <= k < i + 1);
            }
            if exists|k: int| 0 <= k < i + 1 && spec_resolve_path(root@, m, #[trigger] refs@[k]) == Some(p)
                && spec_candidate_kind(p) is Some {
                let k = choose|k: int| 0 <= k < i + 1 && spec_resolve_path(root@, m, #[trigger] refs@[k]) == Some(p)
                    && spec_candidate_kind(p) is Some;
                if k < i {
                    assert(before.contains(p));
                }
            }
        }
        i += 1;
    }
    let ghost q1 = vviews(set@);
    assert forall|p: Seq<char>| #[trigger] q1.contains(p) <==> c1.contains(p) by {
        if q1.contains(p) {
            let k = choose|k: int| 0 <= k < refs@.len() && spec_resolve_path(root@, m, #[trigger] refs@[k]) == Some(p)
                && spec_candidate_kind(p) is Some;
            assert(refs@.contains(refs@[k]));
        }
        if c1.contains(p) {
            let r = choose|r: u64| interesting@.contains(r) && #[trigger] spec_resolve_path(root@, m, r) == Some(p)
                && spec_candidate_kind(p) is Some;
            assert(refs@.contains(r));
            let k = choose|k: int| 0 <= k < refs@.len() && refs@[k] == r;
            assert(spec_resolve_path(root@, m, refs@[k]) == Some(p));
        }
    }

    let first = strings_of(&set);
    let apps = installed_apps_from_candidates(first);
    let ghost keys_set = app_root_keys(q1);
    let mut keys: Vec<Vec<char>> = Vec::new();
    let mut a: usize = 0;
    while a < apps.len()
        invariant
            0 <= a <= apps@.len(),
            installed_apps_spec(q1, apps_view(apps@)),
            keys@.len() == a,
            forall|k: int| 0 <= k < a ==> (#[trigger] keys@[k])@ == lower(apps_view(apps@)[k].path),
        decreases apps.len() - a,
    {
        let path = chars_of(apps[a].path.as_str());
        assert(apps_view(apps@)[a as int] == apps@[a as int]@);
        keys.push(lower_vec(&path));
        a += 1;
    }
    assert forall|d: Seq<char>| #[trigger] vviews(keys@).contains(d) <==> keys_set.contains(d) by {
        let r = apps_view(apps@);
        if vviews(keys@).contains(d) {
            let k = choose|k: int| 0 <= k < vviews(keys@).len() && vviews(keys@)[k] == d;
            assert(keys@[k]@ == d);
            assert(r[k].sources == seq!["ntfs"@]);
            let j = choose|j: int| crate::detect::is_winner(q1, j) && entry_app(q1, j) == (r[k].name, r[k].path);
            assert(dedup_key(q1, j) == d);
        }
        if keys_set.contains(d) {
            let j = choose|j: int| 0 <= j < app_roots_seq(q1).len() && #[trigger] dedup_key(q1, j) == d;
            assert(lists_key(r, dedup_key(q1, j)));
            let k = choose|k: int| 0 <= k < r.len() && lower(#[trigger] r[k].path) == dedup_key(q1, j);
            assert(vviews(keys@)[k] == keys@[k]@);
        }
    }

    let exes = set_elements(root_exes);
    let mut e: usize = 0;
    while e < exes.len()
        invariant
            0 <= e <= exes@.len(),
            m == entries_view(*entries),
            forall|x: u64| #[trigger] exes@.contains(x) <==> root_exes@.contains(x),
            forall|d: Seq<char>| #[trigger] vviews(keys@).contains(d) <==> keys_set.contains(d),
            strictly_sorted(vviews(set@)),
            forall|p: Seq<char>| #[trigger] vviews(set@).contains(p) <==> c1.contains(p) || exists|k: int|
                0 <= k < e && spec_resolve_path(root@, m, #[trigger] exes@[k]) == Some(p)
                    && match spec_exe_parent(p) {
                    Some(rt) => keys_set.contains(lower(rt)),
                    None => false,
                },
        decreases exes.len() - e,
    {
        let ghost before = vviews(set@);
        match resolve_path(root, entries, exes[e]) {
            Some(path) => {
                let v = chars_of(path.as_str());
                match exe_parent(&v) {
                    Some(l) => {
                        let key = lower_vec(&slice_vec(&v, 0, l));
                        assert(v@.subrange(0, l as int) == v@.take(l as int));
                        if vecs_contain(&keys, &key) {
                            insert_sorted(&mut set, v);
                        }
                    },
                    None => {},
                }
            },
            None => {},
        }
        assert forall|p: Seq<char>| #[trigger] vviews(set@).contains(p) <==> c1.contains(p) || exists|k: int|
            0 <= k < e + 1 && spec_resolve_path(root@, m, #[trigger] exes@[k]) == Some(p)
                && match spec_exe_parent(p) {
                Some(rt) => keys_set.contains(lower(rt)),
                None => false,
            } by {
            if exists|k: int| 0 <= k < e && spec_resolve_path(root@, m, #[trigger] exes@[k]) == Some(p)
                && match spec_exe_parent(p) {
                Some(rt) => keys_set.contains(lower(rt)),
                None => false,
            } {
                let k = choose|k: int| 0 <= k < e && spec_resolve_path(root@, m, #[trigger] exes@[k]) == Some(p)
                    && match spec_exe_parent(p) {
                    Some(rt) => keys_set.contains(lower(rt)),
                    None => false,
                };
                assert(0 <= k < e + 1);
            }
            if exists|k: int| 0 <= k < e + 1 && spec_resolve_path(root@, m, #[trigger] exes@[k]) == Some(p)
                && match spec_exe_parent(p) {
                Some(rt) => keys_set.contains(lower(rt)),
                None => false,
            } {
                let k = choose|k: int| 0 <= k < e + 1 && spec_resolve_path(root@, m, #[trigger] exes@[k]) == Some(p)
                    && match spec_exe_parent(p) {
                    Some(rt) => keys_set.contains(lower(rt)),
                    None => false,
                };
                if k < e {
                    assert(before.contains(p));
                }
            }
        }
        e += 1;
    }
    let ghost c2 = exe_candidates(root@, m, root_exes@, keys_set);
    assert forall|p: Seq<char>| #[trigger] vviews(set@).contains(p) <==> c1.union(c2).contains(p) by {
        if exists|k: int| 0 <= k < exes@.len() && spec_resolve_path(root@, m, #[trigger] exes@[k]) == Some(p)
            && match spec_exe_parent(p) {
            Some(rt) => keys_set.contains(lower(rt)),
            None => false,
        } {
            let k = choose|k: int| 0 <= k < exes@.len() && spec_resolve_path(root@, m, #[trigger] exes@[k]) == Some(p)
                && match spec_exe_parent(p) {
                Some(rt) => keys_set.contains(lower(rt)),
                None => false,
            };
            assert(exes@.contains(exes@[k]));
            assert(c2.contains(p));
        }
        if c2.contains(p) {
            let r = choose|r: u64| root_exes@.contains(r) && #[trigger] spec_resolve_path(root@, m, r) == Some(p)
                && match spec_exe_parent(p) {
                Some(rt) => keys_set.contains(lower(rt)),
                None => false,
            };
            assert(exes@.contains(r));
            let k = choose|k: int| 0 <= k < exes@.len() && exes@[k] == r;
            assert(spec_resolve_path(root@, m, exes@[k]) == Some(p));
        }
    }
    let out = strings_of(&set);
    assert(sorted_listing(q1, c1));
    assert(sorted_listing(strs_view(out@), c1.union(c2)));
    out
}

/// What a volume contributes holds only Electron-relevant paths: each one
/// classifies as an Electron candidate, or is an executable (other than
/// `electron.exe`) directly inside the root of an app found on that volume.
pub proof fn law_volume_candidates_relevant(
    root: Seq<char>,
    m: Map<u64, (u64, Seq<char>)>,
    interesting: Set<u64>,
    root_exes: Set<u64>,
    listing: Seq<Seq<char>>,
)
    requires
        volume_candidates(root, m, interesting, root_exes, listing),
    ensures
        forall|i: int| 0 <= i < listing.len() ==> {
            ||| spec_candidate_kind(#[trigger] listing[i]) is Some
            ||| exists|q1: Seq<Seq<char>>| sorted_listing(q1, interesting_candidates(root, m, interesting))
                && match spec_exe_parent(listing[i]) {
                Some(rt) => app_root_keys(q1).contains(lower(rt)),
                None => false,
            }
        },
{
    let q1 = choose|q1: Seq<Seq<char>>|
        sorted_listing(q1, interesting_candidates(root, m, interesting)) && sorted_listing(
            listing,
            interesting_candidates(root, m, interesting).union(
                exe_candidates(root, m, root_exes, app_root_keys(q1)),
            ),
        );
    assert forall|i: int| 0 <= i < listing.len() implies {
        ||| spec_candidate_kind(#[trigger] listing[i]) is Some
        ||| exists|q: Seq<Seq<char>>| sorted_listing(q, interesting_candidates(root, m, interesting))
            && match spec_exe_parent(listing[i]) {
            Some(rt) => app_root_keys(q).contains(lower(rt)),
            None => false,
        }
    } by {
        let p = listing[i];
        assert(listing.contains(p));
        if interesting_candidates(root, m, interesting).contains(p) {
            let r = choose|r: u64|
                interesting.contains(r) && #[trigger] spec_resolve_path(root, m, r) == Some(p)
                    && spec_candidate_kind(p) is Some;
        } else {
            assert(exe_candidates(root, m, root_exes, app_root_keys(q1)).contains(p));
            let r = choose|r: u64|
                root_exes.contains(r) && #[trigger] spec_resolve_path(root, m, r) == Some(p)
                    && match spec_exe_parent(p) {
                    Some(rt) => app_root_keys(q1).contains(lower(rt)),
                    None => false,
                };
        }
    }
}

// ---------------------------------------------------------------------------
// Enumeration decisions
// ---------------------------------------------------------------------------

/// What one `FSCTL_ENUM_USN_DATA` call produced: the number of bytes written
/// into the buffer, or the failure.
pub enum EnumOutcome {
    Returned(u32),
    Failed(FsctlFailure),
}

/// What the enumeration does next: stop, ask again from the given file
/// reference, or give up with a message.
pub enum EnumAction {
    Finished,
    Continue(u64),
    Abort(String),
}

/// Decides what to do with one enumeration result, recording the records of a
/// filled buffer.
pub fn enum_step(
    volume: &NtfsVolume,
    buffer: &[u8],
    outcome: EnumOutcome,
    entries: &mut BTreeMap<u64, Entry>,
    interesting: &mut BTreeSet<u64>,
    root_exes: &mut BTreeSet<u64>,
) -> (r: EnumAction)
    requires
        outcome matches EnumOutcome::Returned(n) ==> n <= buffer@.len(),
    ensures
        match outcome {
            EnumOutcome::Returned(n) => if n <= 8 {
                r is Finished && index_view(*final(entries), *final(interesting), *final(root_exes))
                    == index_view(*old(entries), *old(interesting), *old(root_exes))
            } else {
                match records_from(
                    buffer@.take(n as int),
                    8,
                    index_view(*old(entries), *old(interesting), *old(root_exes)),
                ) {
                    Ok(v) => r == EnumAction::Continue(le_bytes(buffer@, 0, 8) as u64)
                        && index_view(*final(entries), *final(interesting), *final(root_exes)) == v,
                    Err(f) => r matches EnumAction::Abort(m) && fault_message(f, m@),
                }
            },
            EnumOutcome::Failed(err) => index_view(*final(entries), *final(interesting), *final(root_exes))
                == index_view(*old(entries), *old(interesting), *old(root_exes)) && if spec_is_expected_enum_end(err.code) {
                r is Finished
            } else {
                r matches EnumAction::Abort(m) && m@ == spec_fsctl_error(
                    volume.root@,
                    err.code,
                    err.message@,
                    "enumerate NTFS records"@,
                )
            },
        },
{
    match outcome {
        EnumOutcome::Returned(returned) => {
            if returned as usize <= 8 {
                return EnumAction::Finished;
            }
            let next = match read_u64(buffer, 0) {
                Ok(v) => v,
                Err(e) => {
                    return EnumAction::Abort(e);
                },
            };
            let filled = vstd::slice::slice_subrange(buffer, 0, returned as usize);
            assert(filled@ == buffer@.take(returned as int));
            match parse_records(filled, entries, interesting, root_exes) {
                Ok(()) => EnumAction::Continue(next),
                Err(e) => EnumAction::Abort(e),
            }
        },
        EnumOutcome::Failed(err) => {
            if is_expected_enum_end(&err) {
                EnumAction::Finished
            } else {
                EnumAction::Abort(fsctl_error(volume, &err, "enumerate NTFS records"))
            }
        },
    }
}

// ---------------------------------------------------------------------------
// Volumes and wide strings
// ---------------------------------------------------------------------------

/// The drives whose bits are set in a `GetLogicalDrives` mask (0 for A:), in order.
pub fn drive_indices(mask: u32) -> (r: Vec<u32>)
    ensures
        forall|k: int| 0 <= k < r@.len() ==> #[trigger] r@[k] < 26,
        forall|i: u32| i < 26 ==> (#[trigger] r@.contains(i) <==> mask & (1u32 << i) != 0),
        forall|a: int, b: int| 0 <= a < b < r@.len() ==> #[trigger] r@[a] < #[trigger] r@[b],
{
    let mut r: Vec<u32> = Vec::new();
    let mut index: u32 = 0;
    while index < 26
        invariant
            index <= 26,
            forall|k: int| 0 <= k < r@.len() ==> #[trigger] r@[k] < index,
            forall|i: u32| i < index ==> (#[trigger] r@.contains(i) <==> mask & (1u32 << i) != 0),
            forall|a: int, b: int| 0 <= a < b < r@.len() ==> #[trigger] r@[a] < #[trigger] r@[b],
        decreases 26 - index,
    {
        let ghost before = r@;
        if mask & (1u32 << index) != 0 {
            r.push(index);
        }
        assert forall|i: u32| i < index + 1 implies (#[trigger] r@.contains(i) <==> mask & (1u32 << i)
            != 0) by {
            if i < index {
                if r@.contains(i) && !before.contains(i) {
                    let k = choose|k: int| 0 <= k < r@.len() && r@[k] == i;
                    assert(k == before.len());
                }
                if before.contains(i) {
                    let k = choose|k: int| 0 <= k < before.len() && before[k] == i;
                    assert(r@[k] == i);
                }
            } else {
                if mask & (1u32 << index) != 0 {
                    assert(r@[before.len() as int] == i);
                } else {
                    assert(r@ == before);
                }
            }
        }
        index += 1;
    }
    r
}

/// The drives a refresh looks at, from a `GetLogicalDrives` mask: an error
/// when the mask is 0 (the call failed), else the drives whose bits are set.
pub fn drives_to_scan(mask: u32) -> (r: Result<Vec<u32>, String>)
    ensures
        match r {
            Err(e) => mask == 0 && e@ == "failed to list logical drives"@,
            Ok(v) => mask != 0 && (forall|k: int| 0 <= k < v@.len() ==> #[trigger] v@[k] < 26)
                && (forall|i: u32| i < 26 ==> (#[trigger] v@.contains(i) <==> mask & (1u32 << i) != 0))
                && (forall|a: int, b: int| 0 <= a < b < v@.len() ==> #[trigger] v@[a] < #[trigger] v@[b]),
        },
{
    if mask == 0 {
        return Err("failed to list logical drives".to_owned());
    }
    Ok(drive_indices(mask))
}

/// `DRIVE_FIXED`, the `GetDriveTypeW` answer for a fixed disk.
pub const DRIVE_FIXED: u32 = 3;

/// Only fixed disks are scanned.
pub fn is_fixed_drive(drive_type: u32) -> (r: bool)
    ensures
        r == (drive_type == DRIVE_FIXED),
{
    drive_type == DRIVE_FIXED
}

/// The letter of drive `index` (0 for A:).
pub open spec fn drive_letter(index: u32) -> char {
    (65 + index) as char
}

/// The root (`X:\`) and device path (`\\.\X:`) of drive `index`.
pub fn volume_of_drive(index: u32) -> (v: NtfsVolume)
    requires
        index < 26,
    ensures
        v.root@ == seq![drive_letter(index), ':', '\\'],
        v.device@ == seq!['\\', '\\', '.', '\\', drive_letter(index), ':'],
{
    let letter = ((65 + index) as u8) as char;
    let mut r: Vec<char> = Vec::new();
    r.push(letter);
    r.push(':');
    r.push('\\');
    let mut d: Vec<char> = Vec::new();
    d.push('\\');
    d.push('\\');
    d.push('.');
    d.push('\\');
    d.push(letter);
    d.push(':');
    assert(r@ =~= seq![drive_letter(index), ':', '\\']);
    assert(d@ =~= seq!['\\', '\\', '.', '\\', drive_letter(index), ':']);
    NtfsVolume { root: crate::text::string_of(&r), device: crate::text::string_of(&d) }
}

/// Whether a file system name is NTFS (ASCII case ignored).
pub fn is_ntfs_name(name: &str) -> (r: bool)
    ensures
        r == eq_ic(name@, "NTFS"@),
{
    let v = chars_of(name);
    assert(v@.subrange(0, v@.len() as int) == v@);
    range_eq_ic(&v, 0, v.len(), "NTFS")
}

/// The UTF-16 code units of a character.
pub open spec fn utf16_of_char(c: char) -> Seq<u16> {
    if (c as u32) < 0x1_0000 {
        seq![(c as u32) as u16]
    } else {
        seq![
            (0xd800 + ((c as u32) - 0x1_0000) / 0x400) as u16,
            (0xdc00 + ((c as u32) - 0x1_0000) % 0x400) as u16,
        ]
    }
}

/// The UTF-16 encoding of a character sequence.
pub open spec fn utf16_encode(s: Seq<char>) -> Seq<u16>
    decreases s.len(),
{
    if s.len() == 0 {
        Seq::empty()
    } else {
        utf16_encode(s.drop_last()) + utf16_of_char(s.last())
    }
}

/// The NUL-terminated UTF-16 encoding of a string, as the Windows API wants it.
pub fn to_wide(text: &str) -> (r: Vec<u16>)
    ensures
        r@ == utf16_encode(text@).push(0u16),
{
    let v = chars_of(text);
    let mut r: Vec<u16> = Vec::new();
    let mut i: usize = 0;
    while i < v.len()
        invariant
            0 <= i <= v@.len(),
            r@ == utf16_encode(v@.take(i as int)),
        decreases v.len() - i,
    {
        let c = v[i];
        proof {
            vstd::utf8::char_is_scalar(c);
        }
        let u = c as u32;
        assert(v@.take(i + 1).drop_last() == v@.take(i as int));
        if u < 0x1_0000 {
            r.push(u as u16);
        } else {
            assert(u <= 0x10ffff);
            r.push((0xd800 + (u - 0x1_0000) / 0x400) as u16);
            r.push((0xdc00 + (u - 0x1_0000) % 0x400) as u16);
        }
        assert(v@.take(i + 1).last() == c);
        assert(utf16_encode(v@.take(i + 1)) == utf16_encode(v@.take(i as int)) + utf16_of_char(c));
        assert(r@ =~= utf16_encode(v@.take(i + 1)));
        i += 1;
    }
    assert(v@.take(v@.len() as int) == v@);
    r.push(0u16);
    r
}

/// The characters of UTF-16 text with each unpaired surrogate replaced by
/// U+FFFD.
pub open spec fn utf16_decode_lossy(u: Seq<u16>) -> Seq<char>
    decreases u.len(),
{
    if u.len() == 0 {
        Seq::empty()
    } else if u[0] < 0xd800 || u[0] > 0xdfff {
        seq![u[0] as char] + utf16_decode_lossy(u.drop_first())
    } else if u[0] <= 0xdbff && u.len() >= 2 && 0xdc00 <= u[1] && u[1] <= 0xdfff {
        let c = 0x1_0000 + (u[0] - 0xd800) * 0x400 + (u[1] - 0xdc00);
        seq![c as char] + utf16_decode_lossy(u.skip(2))
    } else {
        seq!['\u{fffd}'] + utf16_decode_lossy(u.drop_first())
    }
}

/// `String::from_utf16_lossy`: decodes UTF-16, replacing each unpaired
/// surrogate with U+FFFD.
#[verifier::external_body]
fn string_from_utf16_lossy(units: &[u16]) -> (r: String)
    ensures
        r@ == utf16_decode_lossy(units@),
{
    String::from_utf16_lossy(units)
}

/// The units before the first NUL (all of them when there is none).
pub open spec fn before_nul(w: Seq<u16>) -> Seq<u16>
    decreases w.len(),
{
    if w.len() == 0 {
        w
    } else if w[0] == 0 {
        Seq::empty()
    } else {
        seq![w[0]] + before_nul(w.drop_first())
    }
}

/// Decodes a NUL-terminated UTF-16 buffer.
pub fn from_wide_z(wide: &[u16]) -> (r: String)
    ensures
        r@ == utf16_decode_lossy(before_nul(wide@)),
{
    let mut end: usize = 0;
    assert(wide@.skip(0) == wide@);
    while end < wide.len() && wide[end] != 0
        invariant
            end <= wide@.len(),
            before_nul(wide@) == wide@.take(end as int) + before_nul(wide@.skip(end as int)),
        decreases wide.len() - end,
    {
        assert(wide@.skip(end as int).drop_first() == wide@.skip(end + 1));
        assert(wide@.take(end + 1) == wide@.take(end as int).push(wide@[end as int]));
        assert(wide@.take(end as int) + before_nul(wide@.skip(end as int)) =~= wide@.take(end + 1)
            + before_nul(wide@.skip(end + 1)));
        end += 1;
    }
    assert(before_nul(wide@.skip(end as int)) =~= Seq::<u16>::empty());
    assert(wide@.take(end as int) + Seq::<u16>::empty() =~= wide@.take(end as int));
    string_from_utf16_lossy(vstd::slice::slice_subrange(wide, 0, end))
}

} // verus!

verus! {

// ---------------------------------------------------------------------------
// Wide strings round trip
// ---------------------------------------------------------------------------

proof fn lemma_encode_front(s: Seq<char>)
    requires
        s.len() > 0,
    ensures
        utf16_encode(s) == utf16_of_char(s[0]) + utf16_encode(s.drop_first()),
    decreases s.len(),
{
    if s.len() == 1 {
        assert(s.drop_last() =~= Seq::<char>::empty());
        assert(s.drop_first() =~= Seq::<char>::empty());
        assert(s.drop_last().len() == 0);
        assert(utf16_encode(s.drop_last()) == Seq::<u16>::empty());
        assert(s.last() == s[0]);
        assert(utf16_encode(s) == Seq::<u16>::empty() + utf16_of_char(s[0]));
        assert(Seq::<u16>::empty() + utf16_of_char(s[0]) =~= utf16_of_char(s[0]));
        assert(utf16_encode(s.drop_first()) =~= Seq::<u16>::empty());
        assert(utf16_of_char(s[0]) + Seq::<u16>::empty() =~= utf16_of_char(s[0]));
    } else {
        let init = s.drop_last();
        lemma_encode_front(init);
        assert(init.drop_first() =~= s.drop_first().drop_last());
        assert(s.drop_first().last() == s.last());
        assert(utf16_encode(s) =~= utf16_of_char(s[0]) + utf16_encode(s.drop_first()));
    }
}

proof fn lemma_char_units(c: char)
    ensures
        c != '\0' ==> forall|k: int| 0 <= k < utf16_of_char(c).len() ==> #[trigger] utf16_of_char(c)[k] != 0,
        forall|rest: Seq<u16>| #[trigger] utf16_decode_lossy(utf16_of_char(c) + rest) == seq![c] + utf16_decode_lossy(rest),
{
    vstd::utf8::char_is_scalar(c);
    let u = c as u32;
    vstd::utf8::char_u32_cast(c, u);
    if u < 0x1_0000 {
        assert(utf16_of_char(c) == seq![u as u16]);
        assert forall|rest: Seq<u16>| #[trigger] utf16_decode_lossy(utf16_of_char(c) + rest) == seq![c] + utf16_decode_lossy(rest) by {
            let w = utf16_of_char(c) + rest;
            assert(w[0] == u as u16);
            assert(w.drop_first() =~= rest);
            assert((w[0] as char) == c);
        }
    } else {
        let x = u - 0x1_0000;
        let hi = (0xd800 + x / 0x400) as u16;
        let lo = (0xdc00 + x % 0x400) as u16;
        assert(x == (x / 0x400) * 0x400 + x % 0x400 && 0 <= x % 0x400 < 0x400 && x / 0x400 < 0x400) by (nonlinear_arith)
            requires
                0 <= x <= 0xf_ffff,
        ;
        assert(utf16_of_char(c) == seq![hi, lo]);
        assert forall|rest: Seq<u16>| #[trigger] utf16_decode_lossy(utf16_of_char(c) + rest) == seq![c] + utf16_decode_lossy(rest) by {
            let w = utf16_of_char(c) + rest;
            assert(w[0] == hi && w[1] == lo);
            assert(w.skip(2) =~= rest);
            let d = 0x1_0000 + (w[0] - 0xd800) * 0x400 + (w[1] - 0xdc00);
            assert(d == u);
            assert((d as char) == c);
        }
    }
}

proof fn lemma_encode_no_zero(s: Seq<char>)
    requires
        forall|i: int| 0 <= i < s.len() ==> #[trigger] s[i] != '\0',
    ensures
        forall|k: int| 0 <= k < utf16_encode(s).len() ==> #[trigger] utf16_encode(s)[k] != 0,
    decreases s.len(),
{
    if s.len() > 0 {
        let init = s.drop_last();
        assert forall|i: int| 0 <= i < init.len() implies #[trigger] init[i] != '\0' by {
            assert(init[i] == s[i]);
        }
        lemma_encode_no_zero(init);
        lemma_char_units(s.last());
        let e = utf16_encode(s);
        assert(e == utf16_encode(init) + utf16_of_char(s.last()));
        assert forall|k: int| 0 <= k < e.len() implies #[trigger] e[k] != 0 by {
            if k < utf16_encode(init).len() {
                assert(e[k] == utf16_encode(init)[k]);
            } else {
                assert(e[k] == utf16_of_char(s.last())[k - utf16_encode(init).len()]);
            }
        }
    }
}

proof fn lemma_before_nul_terminated(w: Seq<u16>)
    requires
        forall|k: int| 0 <= k < w.len() ==> #[trigger] w[k] != 0,
    ensures
        before_nul(w.push(0u16)) == w,
    decreases w.len(),
{
    if w.len() == 0 {
        assert(w.push(0u16)[0] == 0);
    } else {
        let t = w.drop_first();
        assert forall|k: int| 0 <= k < t.len() implies #[trigger] t[k] != 0 by {
            assert(t[k] == w[k + 1]);
        }
        lemma_before_nul_terminated(t);
        assert(w.push(0u16).drop_first() =~= t.push(0u16));
        assert(w =~= seq![w[0]] + t);
    }
}

proof fn lemma_decode_encode(s: Seq<char>)
    ensures
        utf16_decode_lossy(utf16_encode(s)) == s,
    decreases s.len(),
{
    if s.len() == 0 {
        assert(utf16_encode(s) =~= Seq::<u16>::empty());
    } else {
        lemma_encode_front(s);
        lemma_char_units(s[0]);
        lemma_decode_encode(s.drop_first());
        assert(utf16_decode_lossy(utf16_of_char(s[0]) + utf16_encode(s.drop_first())) == seq![s[0]]
            + utf16_decode_lossy(utf16_encode(s.drop_first())));
        assert(s =~= seq![s[0]] + s.drop_first());
    }
}

/// The wide-string conversions round trip: decoding the NUL-terminated
/// encoding that `to_wide` makes of a text without NUL characters, as
/// `from_wide_z` does, gives the text back.
pub proof fn law_wide_round_trip(s: Seq<char>)
    requires
        forall|i: int| 0 <= i < s.len() ==> #[trigger] s[i] != '\0',
    ensures
        utf16_decode_lossy(before_nul(utf16_encode(s).push(0u16))) == s,
{
    lemma_encode_no_zero(s);
    lemma_before_nul_terminated(utf16_encode(s));
    lemma_decode_encode(s);
}

} // verus!
