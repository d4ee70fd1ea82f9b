# electron-detector

Detects Electron applications on a Windows machine: the apps that are running
(from process metadata) and the apps that are installed (from a cached scan of
NTFS MFT and USN records). Detection looks at Electron packaging layouts such
as `resources\app.asar`, `resources\app\package.json` and
`resources\electron.exe`, not at app names.

## Layout

- `src/` is the library, written in Verus and verified:
  - `detect.rs` classifies candidate paths and groups them into installed apps;
  - `process.rs` judges running processes and groups them into running apps;
  - `ntfs.rs` decodes USN record buffers, rebuilds paths from parent
    references, picks each volume's candidates, decides each step of the record
    enumeration and maps volume errors to messages;
  - `cli.rs` parses the flags, `cache.rs` builds the cache a refresh stores,
    `lib.rs` renders the text report, and `text.rs` holds the character and
    string helpers the others share.
- `app/` is the command around it: argument handling, the PowerShell process
  query, the cache file, the JSON forms of the library's types and the Win32
  calls of a refresh.
- `tests/` exercises the library on concrete inputs.

Each public function of the library states in its contract what it returns,
with one kind of exception: where the answer rests on the file system
(whether `resources\app.asar` sits beside a running executable), the
contract states which path is asked about and what holds whatever the answer
is. The properties that span functions (apps listed once per root and in
order, every qualifying root reported, hosts and uninstallers never reported
and never changing the result, flags parsed exactly, wide strings round trip,
record walks failing exactly on bad lengths, cached candidates always
Electron-relevant, paths hidden from plain text output) are public proof
functions named `law_*`.
