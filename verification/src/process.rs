//! Detects running Electron apps from Windows process metadata.
//!
//! Querying Windows for its processes and decoding the JSON it prints belong
//! to the program around this library; here the metadata is judged.

use vstd::prelude::*;

use crate::detect::{source_list, AppView, ElectronApp};
use crate::text::{
    chars_of, concat_str, contains_seq, eq_ic, find_slot, last_delim, last_index_of, lemma_insert_at_slot,
    lemma_last_delim, lower, lower_vec, range_eq, range_eq_ic, rfind_char, rfind_delim, slice_vec,
    span_text, split_pieces, split_spans, starts_with, strictly_sorted, string_of, trim_bounds,
    trim_ws, vec_contains, vec_starts_with, vviews, Delims,
};

verus! {

/// Windows process metadata used to detect running Electron apps.
#[derive(Debug, Clone, PartialEq, Eq)]
pub struct ProcessInfo {
    /// Process image name reported by Windows.
    pub name: String,
    /// Full executable path when Windows exposes it (empty otherwise).
    pub executable_path: String,
    /// Full command line when Windows exposes it (empty otherwise).
    pub command_line: String,
}

/// The text of a process record: name, executable path, command line.
pub struct ProcView {
    pub name: Seq<char>,
    pub exe: Seq<char>,
    pub cmd: Seq<char>,
}

impl View for ProcessInfo {
    type V = ProcView;

    open spec fn view(&self) -> ProcView {
        ProcView { name: self.name@, exe: self.executable_path@, cmd: self.command_line@ }
    }
}

pub open spec fn procs_view(v: Seq<ProcessInfo>) -> Seq<ProcView> {
    v.map_values(|p: ProcessInfo| p@)
}

// ---------------------------------------------------------------------------
// Judging one process
// ---------------------------------------------------------------------------

/// Shells and developer tools that may mention Electron without being it.
pub open spec fn spec_is_ignored_host_process(lower_name: Seq<char>) -> bool {
    ||| lower_name == "cmd.exe"@
    ||| lower_name == "powershell.exe"@
    ||| lower_name == "pwsh.exe"@
    ||| lower_name == "node.exe"@
    ||| lower_name == "cargo.exe"@
    ||| lower_name == "rustc.exe"@
    ||| lower_name == "conhost.exe"@
}

/// The stem of the last component of a path: the file name up to its last
/// dot, or the whole name when it has none; `None` for an empty file name.
pub open spec fn spec_file_stem(p: Seq<char>) -> Option<Seq<char>> {
    let name = p.skip(last_delim(p, Delims::Path) + 1);
    if name.len() == 0 {
        None
    } else {
        let d = last_index_of(name, '.');
        if d < 0 {
            Some(name)
        } else {
            Some(name.take(d))
        }
    }
}

/// The stem of the executable path, else of the image name.
pub open spec fn spec_process_stem(p: ProcView) -> Option<Seq<char>> {
    match spec_file_stem(p.exe) {
        Some(s) => Some(s),
        None => spec_file_stem(p.name),
    }
}

/// The name shown for a process.
pub open spec fn spec_display_name(p: ProcView) -> Seq<char> {
    match spec_process_stem(p) {
        Some(s) => s,
        None => trim_ws(p.name),
    }
}

/// The key that deduplicates running apps: the trimmed executable path, or
/// the display name when there is none, lower-cased.
pub open spec fn spec_dedupe_key(p: ProcView) -> Seq<char> {
    if trim_ws(p.exe).len() == 0 {
        lower(spec_display_name(p))
    } else {
        lower(trim_ws(p.exe))
    }
}

/// Some piece of `s` between command-line delimiters equals `lit` up to ASCII case.
pub open spec fn has_piece_ic(s: Seq<char>, d: Delims, lit: Seq<char>) -> bool {
    exists|k: int|
        0 <= k < split_spans(s, d).len() && eq_ic(#[trigger] span_text(s, split_spans(s, d)[k]), lit)
}

/// The name or executable path has an `electron` or `electron.exe` piece.
pub open spec fn spec_has_electron_runtime_identity(p: ProcView) -> bool {
    ||| has_piece_ic(p.name, Delims::Arg, "electron"@)
    ||| has_piece_ic(p.name, Delims::Arg, "electron.exe"@)
    ||| has_piece_ic(p.exe, Delims::Arg, "electron"@)
    ||| has_piece_ic(p.exe, Delims::Arg, "electron.exe"@)
}

/// The command line names `--app-path` and has a `resources` piece followed
/// directly by an `app` piece.
pub open spec fn spec_contains_app_path_argument(text: Seq<char>) -> bool {
    let sp = split_spans(text, Delims::ArgEq);
    &&& contains_seq(lower(text), "--app-path"@)
    &&& exists|k: int|
        0 <= k && k + 1 < sp.len() && eq_ic(#[trigger] span_text(text, sp[k]), "resources"@) && eq_ic(
            span_text(text, sp[k + 1]),
            "app"@,
        )
}

/// The judgement on one process, given whether `resources\app.asar` sits
/// next to its executable.
pub open spec fn spec_is_electron_process(p: ProcView, adjacent_app_asar: bool) -> bool {
    if spec_is_ignored_host_process(lower(p.name)) {
        false
    } else if (match spec_process_stem(p) {
        Some(s) => starts_with(lower(s), "uninstall"@),
        None => false,
    }) {
        false
    } else {
        ||| spec_has_electron_runtime_identity(p)
        ||| adjacent_app_asar
        ||| has_piece_ic(p.cmd, Delims::Arg, "app.asar"@)
        ||| spec_contains_app_path_argument(p.cmd)
        ||| contains_seq(p.cmd, "prod=Electron"@)
    }
}

/// Whether the judgement reads the file system: only when nothing before
/// the adjacent-archive check settled it.
pub open spec fn needs_adjacency(p: ProcView) -> bool {
    &&& !spec_is_ignored_host_process(lower(p.name))
    &&& !(match spec_process_stem(p) {
        Some(s) => starts_with(lower(s), "uninstall"@),
        None => false,
    })
    &&& !spec_has_electron_runtime_identity(p)
}

fn is_ignored_host_process(lower_name: &Vec<char>) -> (r: bool)
    ensures
        r == spec_is_ignored_host_process(lower_name@),
{
    let n = lower_name.len();
    assert(lower_name@.subrange(0, n as int) == lower_name@);
    range_eq(lower_name, 0, n, "cmd.exe") || range_eq(lower_name, 0, n, "powershell.exe") || range_eq(
        lower_name,
        0,
        n,
        "pwsh.exe",
    ) || range_eq(lower_name, 0, n, "node.exe") || range_eq(lower_name, 0, n, "cargo.exe")
        || range_eq(lower_name, 0, n, "rustc.exe") || range_eq(lower_name, 0, n, "conhost.exe")
}

/// The stem of the last component of `v`, as a span of `v`.
fn file_stem(v: &Vec<char>) -> (r: Option<(usize, usize)>)
    ensures
        match r {
            None => spec_file_stem(v@) is None,
            Some((a, b)) => a <= b <= v@.len() && spec_file_stem(v@) == Some(v@.subrange(a as int, b as int)),
        },
{
    assert(v@.take(v@.len() as int) == v@);
    let start = match rfind_delim(v, v.len(), Delims::Path) {
        Some(s) => s + 1,
        None => 0,
    };
    proof {
        lemma_last_delim(v@, Delims::Path);
    }
    assert(v@.skip(last_delim(v@, Delims::Path) + 1) == v@.subrange(start as int, v@.len() as int));
    if start == v.len() {
        return None;
    }
    match rfind_char(v, start, v.len(), '.') {
        Some(d) => {
            assert(v@.subrange(start as int, v@.len() as int).take(d as int) == v@.subrange(
                start as int,
                start + d,
            ));
            Some((start, start + d))
        },
        None => Some((start, v.len())),
    }
}

/// The stem of the executable path, else of the image name, copied out.
fn process_stem(exe: &Vec<char>, name: &Vec<char>) -> (r: Option<Vec<char>>)
    ensures
        match r {
            None => spec_process_stem(ProcView { name: name@, exe: exe@, cmd: Seq::empty() }) is None,
            Some(s) => spec_process_stem(ProcView { name: name@, exe: exe@, cmd: Seq::empty() })
                == Some(s@),
        },
{
    match file_stem(exe) {
        Some((a, b)) => Some(slice_vec(exe, a, b)),
        None => match file_stem(name) {
            Some((a, b)) => Some(slice_vec(name, a, b)),
            None => None,
        },
    }
}

proof fn lemma_stem_ignores_cmd(p: ProcView)
    ensures
        spec_process_stem(p) == spec_process_stem(ProcView { name: p.name, exe: p.exe, cmd: Seq::empty() }),
{
}

/// The name shown for a process.
fn display_name(exe: &Vec<char>, name: &Vec<char>) -> (r: Vec<char>)
    ensures
        r@ == spec_display_name(ProcView { name: name@, exe: exe@, cmd: Seq::empty() }),
{
    match process_stem(exe, name) {
        Some(s) => s,
        None => {
            let (a, b) = trim_bounds(name);
            slice_vec(name, a, b)
        },
    }
}

proof fn lemma_display_ignores_cmd(p: ProcView)
    ensures
        spec_display_name(p) == spec_display_name(ProcView { name: p.name, exe: p.exe, cmd: Seq::empty() }),
        spec_dedupe_key(p) == spec_dedupe_key(ProcView { name: p.name, exe: p.exe, cmd: Seq::empty() }),
{
}

/// The deduplication key of a process.
fn dedupe_key(exe: &Vec<char>, name: &Vec<char>) -> (r: Vec<char>)
    ensures
        r@ == spec_dedupe_key(ProcView { name: name@, exe: exe@, cmd: Seq::empty() }),
{
    let (a, b) = trim_bounds(exe);
    if a == b {
        lower_vec(&display_name(exe, name))
    } else {
        lower_vec(&slice_vec(exe, a, b))
    }
}

/// Whether some piece of `v` between `d` delimiters equals `lit` up to ASCII case.
fn any_piece_eq_ic(v: &Vec<char>, d: Delims, lit: &str) -> (r: bool)
    ensures
        r == has_piece_ic(v@, d, lit@),
{
    let spans = split_pieces(v, d);
    proof {
        crate::text::lemma_split_bounds(v@, 0, d);
    }
    let mut k: usize = 0;
    while k < spans.len()
        invariant
            crate::text::ispans(spans@) == split_spans(v@, d),
            forall|m: int| 0 <= m < split_spans(v@, d).len() ==> 0 <= (#[trigger] split_spans(v@, d)[m]).0 <= split_spans(v@, d)[m].1 <= v@.len(),
            0 <= k <= spans@.len(),
            forall|m: int| 0 <= m < k ==> !eq_ic(#[trigger] span_text(v@, split_spans(v@, d)[m]), lit@),
        decreases spans.len() - k,
    {
        assert(crate::text::ispans(spans@)[k as int] == split_spans(v@, d)[k as int]);
        if range_eq_ic(v, spans[k].0, spans[k].1, lit) {
            assert(eq_ic(span_text(v@, split_spans(v@, d)[k as int]), lit@));
            return true;
        }
        k += 1;
    }
    false
}

fn has_electron_runtime_identity(exe: &Vec<char>, name: &Vec<char>) -> (r: bool)
    ensures
        r == spec_has_electron_runtime_identity(ProcView { name: name@, exe: exe@, cmd: Seq::empty() }),
{
    any_piece_eq_ic(name, Delims::Arg, "electron") || any_piece_eq_ic(name, Delims::Arg, "electron.exe")
        || any_piece_eq_ic(exe, Delims::Arg, "electron") || any_piece_eq_ic(exe, Delims::Arg, "electron.exe")
}

/// Whether the command line has an `app.asar` piece.
fn contains_app_asar_component(text: &Vec<char>) -> (r: bool)
    ensures
        r == has_piece_ic(text@, Delims::Arg, "app.asar"@),
{
    any_piece_eq_ic(text, Delims::Arg, "app.asar")
}

/// Whether the command line passes `--app-path` pointing into `resources\app`.
fn contains_app_path_argument(text: &Vec<char>) -> (r: bool)
    ensures
        r == spec_contains_app_path_argument(text@),
{
    if !vec_contains(&lower_vec(text), "--app-path") {
        return false;
    }
    let spans = split_pieces(text, Delims::ArgEq);
    let ghost sp = split_spans(text@, Delims::ArgEq);
    proof {
        crate::text::lemma_split_bounds(text@, 0, Delims::ArgEq);
    }
    let mut k: usize = 0;
    while k < spans.len() && k + 1 < spans.len()
        invariant
            crate::text::ispans(spans@) == sp,
            sp == split_spans(text@, Delims::ArgEq),
            contains_seq(lower(text@), "--app-path"@),
            forall|m: int| 0 <= m < sp.len() ==> 0 <= (#[trigger] sp[m]).0 <= sp[m].1 <= text@.len(),
            0 <= k <= spans@.len(),
            forall|m: int|
                0 <= m < k && m + 1 < sp.len() ==> !(eq_ic(#[trigger] span_text(text@, sp[m]), "resources"@)
                    && eq_ic(span_text(text@, sp[m + 1]), "app"@)),
        decreases spans.len() - k,
    {
        assert(crate::text::ispans(spans@)[k as int] == sp[k as int]);
        assert(crate::text::ispans(spans@)[k + 1] == sp[k + 1]);
        if range_eq_ic(text, spans[k].0, spans[k].1, "resources") && range_eq_ic(
            text,
            spans[k + 1].0,
            spans[k + 1].1,
            "app",
        ) {
            assert(eq_ic(span_text(text@, sp[k as int]), "resources"@));
            assert(eq_ic(span_text(text@, sp[k + 1]), "app"@));
            return true;
        }
        k += 1;
    }
    false
}

/// `Path::parent`: the path without its final component, or `None` when it
/// ends in a root or prefix or is empty. Stated, on every platform: the empty
/// path has no parent, and a parent is a proper prefix of the path (what is
/// cut off is the final component and the separators before it). Which
/// characters separate components is the platform's rule, so where the cut
/// falls is not stated.
#[verifier::external_body]
fn path_parent(path: &str) -> (r: Option<String>)
    ensures
        path@.len() == 0 ==> r is None,
        r matches Some(p) ==> p@.len() < path@.len() && p@ == path@.take(p@.len() as int),
{
    std::path::Path::new(path).parent().map(|parent| parent.to_string_lossy().into_owned())
}

/// A separator that `Path::join` may put between a base and a relative part:
/// none (the base is empty, ends in a separator or is a bare drive such as
/// `C:`), or the platform's main separator, `/` or `\`.
pub open spec fn is_join_sep(s: Seq<char>) -> bool {
    s == Seq::<char>::empty() || s == seq!['/'] || s == seq!['\\']
}

/// `r` is `base`, then a join separator, then `part`.
pub open spec fn joined_with(r: Seq<char>, base: Seq<char>, part: Seq<char>) -> bool {
    exists|s: Seq<char>| is_join_sep(s) && r == base + s + part
}

/// A single relative path component on every platform: no separator, no
/// drive colon, no `?` of a verbatim prefix.
pub open spec fn plain_component(part: Seq<char>) -> bool {
    forall|i: int| 0 <= i < part.len() ==> {
        &&& #[trigger] part[i] != '/'
        &&& part[i] != '\\'
        &&& part[i] != ':'
        &&& part[i] != '?'
    }
}

/// `Path::join`: `part` adjoined to `base`. Stated: for a plain relative
/// component and a base without a verbatim (`\\?\`) prefix, the result is
/// the base, a join separator and the part. Otherwise (an absolute part
/// replaces the base, a verbatim base is normalised) nothing is stated.
#[verifier::external_body]
fn path_join(base: &str, part: &str) -> (r: String)
    ensures
        plain_component(part@) && !base@.contains('?') ==> joined_with(r@, base@, part@),
{
    std::path::Path::new(base).join(part).to_string_lossy().into_owned()
}

/// `Path::is_file`: whether a regular file is at `path`. The answer depends
/// on the file system at the time of the call, so nothing is stated of it.
#[verifier::external_body]
fn path_is_file(path: &str) -> bool {
    std::path::Path::new(path).is_file()
}

/// The archive an Electron app keeps in directory `root`:
/// `root`, `resources` and `app.asar` joined by the platform's rules.
pub fn adjacent_archive_path(root: &str) -> (r: String)
    ensures
        !root@.contains('?') ==> exists|s1: Seq<char>, s2: Seq<char>|
            is_join_sep(s1) && is_join_sep(s2) && r@ == root@ + s1 + "resources"@ + s2 + "app.asar"@,
{
    let resources = path_join(root, "resources");
    let archive = path_join(resources.as_str(), "app.asar");
    proof {
        reveal_strlit("resources");
        reveal_strlit("app.asar");
        if !root@.contains('?') {
            assert(plain_component("resources"@));
            assert(plain_component("app.asar"@));
            let s1 = choose|s: Seq<char>| is_join_sep(s) && resources@ == root@ + s + "resources"@;
            assert(!resources@.contains('?')) by {
                if resources@.contains('?') {
                    let i = choose|i: int| 0 <= i < resources@.len() && resources@[i] == '?';
                    if i < root@.len() {
                        assert(root@[i] == '?');
                        assert(root@.contains('?'));
                    } else if i < root@.len() + s1.len() {
                        assert(s1[i - root@.len()] == '?');
                    } else {
                        assert("resources"@[i - root@.len() - s1.len()] == '?');
                    }
                }
            }
            let s2 = choose|s: Seq<char>| is_join_sep(s) && archive@ == resources@ + s + "app.asar"@;
            assert(archive@ == root@ + s1 + "resources"@ + s2 + "app.asar"@);
        }
    }
    archive
}

/// The archive beside an executable: `resources\app.asar` in its directory,
/// `None` when the path has no directory.
pub fn adjacent_archive_of(executable_path: &str) -> (r: Option<String>)
    ensures
        executable_path@.len() == 0 ==> r is None,
        r matches Some(a) ==> exists|root: Seq<char>|
            root.len() < executable_path@.len() && root == executable_path@.take(root.len() as int) && (
            !root.contains('?') ==> exists|s1: Seq<char>, s2: Seq<char>|
                is_join_sep(s1) && is_join_sep(s2) && a@ == root + s1 + "resources"@ + s2 + "app.asar"@),
{
    match path_parent(executable_path) {
        Some(root) => {
            let a = adjacent_archive_path(root.as_str());
            assert(root@.len() < executable_path@.len() && root@ == executable_path@.take(root@.len() as int));
            Some(a)
        },
        None => None,
    }
}

/// Whether `resources\app.asar` sits beside the executable: the file system
/// is asked about the path `adjacent_archive_of` gives, and never for an
/// empty executable path, which has no directory to look in.
fn has_adjacent_app_asar(executable_path: &str) -> (r: bool)
    ensures
        executable_path@.len() == 0 ==> !r,
{
    match adjacent_archive_of(executable_path) {
        Some(archive) => path_is_file(archive.as_str()),
        None => false,
    }
}

/// The judgement on one process before the file system is asked: `Some` when
/// it is settled, `None` when it rests on the adjacent-archive check.
fn judge_without_disk(p: &ProcessInfo) -> (r: Option<bool>)
    ensures
        r is None <==> needs_adjacency(p@) && !spec_is_electron_process(p@, false),
        r matches Some(b) ==> b == spec_is_electron_process(p@, false) && b == spec_is_electron_process(
            p@,
            true,
        ),
{
    let name = chars_of(p.name.as_str());
    let exe = chars_of(p.executable_path.as_str());
    let cmd = chars_of(p.command_line.as_str());
    proof {
        lemma_stem_ignores_cmd(p@);
    }
    if is_ignored_host_process(&lower_vec(&name)) {
        return Some(false);
    }
    match process_stem(&exe, &name) {
        Some(s) => {
            if vec_starts_with(&lower_vec(&s), "uninstall") {
                return Some(false);
            }
        },
        None => {},
    }
    if has_electron_runtime_identity(&exe, &name) {
        return Some(true);
    }
    if contains_app_asar_component(&cmd) || contains_app_path_argument(&cmd) || vec_contains(
        &cmd,
        "prod=Electron",
    ) {
        return Some(true);
    }
    None
}

/// Whether a process is an Electron app, given whether `resources\app.asar`
/// sits next to its executable.
pub fn is_electron_process(p: &ProcessInfo, adjacent_app_asar: bool) -> (r: bool)
    ensures
        r == spec_is_electron_process(p@, adjacent_app_asar),
{
    match judge_without_disk(p) {
        Some(b) => b,
        None => adjacent_app_asar,
    }
}

// ---------------------------------------------------------------------------
// Grouping processes
// ---------------------------------------------------------------------------

/// The app a running process stands for.
pub open spec fn process_app(p: ProcView) -> AppView {
    AppView { name: spec_display_name(p), path: p.exe, sources: seq!["running"@] }
}

/// Process `j` is reported: an Electron process with a non-empty display name.
pub open spec fn qualifies(ps: Seq<ProcView>, adj: Seq<bool>, j: int) -> bool {
    &&& 0 <= j < ps.len()
    &&& spec_is_electron_process(ps[j], adj[j])
    &&& spec_display_name(ps[j]).len() > 0
}

/// Process `j` is the first reported one with its deduplication key.
pub open spec fn first_with_key(ps: Seq<ProcView>, adj: Seq<bool>, j: int) -> bool {
    &&& qualifies(ps, adj, j)
    &&& forall|j2: int| 0 <= j2 < j && qualifies(ps, adj, j2) ==> spec_dedupe_key(#[trigger] ps[j2]) != spec_dedupe_key(ps[j])
}

/// Some process among the first `n` is the first reported one with key `key`
/// and stands for `app`.
pub open spec fn witnessed(ps: Seq<ProcView>, adj: Seq<bool>, n: int, key: Seq<char>, app: AppView) -> bool {
    exists|j: int| 0 <= j < n && #[trigger] first_with_key(ps, adj, j) && spec_dedupe_key(ps[j]) == key && app == process_app(ps[j])
}

/// `keys` and `r` list the first reported process of each deduplication key,
/// by increasing key.
pub open spec fn running_apps_listing(ps: Seq<ProcView>, adj: Seq<bool>, keys: Seq<Seq<char>>, r: Seq<AppView>) -> bool {
    &&& keys.len() == r.len()
    &&& strictly_sorted(keys)
    &&& forall|i: int| 0 <= i < r.len() ==> witnessed(ps, adj, ps.len() as int, #[trigger] keys[i], r[i])
    &&& forall|j: int| qualifies(ps, adj, j) ==> keys.contains(#[trigger] spec_dedupe_key(ps[j]))
}

/// `r` lists the running apps of the processes `ps`, given for each process
/// whether `resources\app.asar` sits next to its executable.
pub open spec fn running_apps_spec(ps: Seq<ProcView>, adj: Seq<bool>, r: Seq<AppView>) -> bool {
    exists|keys: Seq<Seq<char>>| running_apps_listing(ps, adj, keys, r)
}

/// Detects Electron apps from process metadata, given for each process
/// whether `resources\app.asar` sits next to its executable.
pub fn apps_from_processes_with(processes: Vec<ProcessInfo>, adjacent: &Vec<bool>) -> (apps: Vec<ElectronApp>)
    requires
        adjacent@.len() == processes@.len(),
    ensures
        running_apps_spec(procs_view(processes@), adjacent@, crate::detect::apps_view(apps@)),
{
    let ghost ps = procs_view(processes@);
    let ghost adj = adjacent@;
    let mut keys: Vec<Vec<char>> = Vec::new();
    let mut apps: Vec<ElectronApp> = Vec::new();
    let mut j: usize = 0;
    while j < processes.len()
        invariant
            0 <= j <= processes@.len(),
            ps == procs_view(processes@),
            adj == adjacent@,
            adj.len() == ps.len(),
            keys@.len() == apps@.len(),
            strictly_sorted(vviews(keys@)),
            forall|i: int| 0 <= i < apps@.len() ==> witnessed(ps, adj, j as int, #[trigger] vviews(keys@)[i], apps@[i]@),
            forall|j2: int| 0 <= j2 < j && qualifies(ps, adj, j2) ==> vviews(keys@).contains(#[trigger] spec_dedupe_key(ps[j2])),
        decreases processes.len() - j,
    {
        let p = &processes[j];
        assert(p@ == ps[j as int]);
        let ghost keys0 = vviews(keys@);
        let ghost apps0 = apps@;
        if is_electron_process(p, adjacent[j]) {
            let name = chars_of(p.name.as_str());
            let exe = chars_of(p.executable_path.as_str());
            proof {
                lemma_display_ignores_cmd(p@);
            }
            let shown = display_name(&exe, &name);
            if shown.len() > 0 {
                let key = dedupe_key(&exe, &name);
                let (slot, found) = find_slot(&keys, &key);
                if !found {
                    let ghost q = vviews(keys@);
                    let ghost old_apps = apps@;
                    proof {
                        lemma_insert_at_slot(q, slot as int, key@);
                        assert forall|j2: int| 0 <= j2 < j && qualifies(ps, adj, j2) implies spec_dedupe_key(
                            #[trigger] ps[j2],
                        ) != spec_dedupe_key(ps[j as int]) by {
                            assert(q.contains(spec_dedupe_key(ps[j2])));
                        }
                        assert(first_with_key(ps, adj, j as int));
                    }
                    let app = ElectronApp {
                        name: string_of(&shown),
                        path: p.executable_path.clone(),
                        sources: source_list("running"),
                    };
                    let ghost kv = key@;
                    keys.insert(slot, key);
                    apps.insert(slot, app);
                    assert(vviews(keys@) =~= q.insert(slot as int, kv));
                    assert forall|i: int| 0 <= i < apps@.len() implies witnessed(ps, adj, j + 1, #[trigger] vviews(keys@)[i], apps@[i]@) by {
                        if i < slot {
                            assert(vviews(keys@)[i] == q[i] && apps@[i] == old_apps[i]);
                            assert(witnessed(ps, adj, j as int, q[i], old_apps[i]@));
                            let j2 = choose|j2: int| 0 <= j2 < j && #[trigger] first_with_key(ps, adj, j2) && spec_dedupe_key(ps[j2]) == q[i] && old_apps[i]@ == process_app(ps[j2]);
                            assert(0 <= j2 < j + 1);
                        } else if i > slot {
                            assert(vviews(keys@)[i] == q[i - 1] && apps@[i] == old_apps[i - 1]);
                            assert(witnessed(ps, adj, j as int, q[i - 1], old_apps[i - 1]@));
                            let j2 = choose|j2: int| 0 <= j2 < j && #[trigger] first_with_key(ps, adj, j2) && spec_dedupe_key(ps[j2]) == q[i - 1] && old_apps[i - 1]@ == process_app(ps[j2]);
                            assert(0 <= j2 < j + 1);
                        } else {
                            assert(vviews(keys@)[i] == kv);
                            assert(apps@[i]@ == process_app(ps[j as int]));
                            assert(first_with_key(ps, adj, j as int));
                        }
                    }
                }
            }
        }
        proof {
            if vviews(keys@) == keys0 && apps@ == apps0 {
                assert forall|i: int| 0 <= i < apps@.len() implies witnessed(ps, adj, j + 1, #[trigger] vviews(keys@)[i], apps@[i]@) by {
                    assert(witnessed(ps, adj, j as int, keys0[i], apps0[i]@));
                    let j2 = choose|j2: int| 0 <= j2 < j && #[trigger] first_with_key(ps, adj, j2) && spec_dedupe_key(ps[j2]) == keys0[i] && apps0[i]@ == process_app(ps[j2]);
                    assert(0 <= j2 < j + 1);
                }
            }
        }
        j += 1;
    }
    proof {
        let r = crate::detect::apps_view(apps@);
        let kq = vviews(keys@);
        assert forall|i: int| 0 <= i < r.len() implies witnessed(ps, adj, ps.len() as int, #[trigger] kq[i], r[i]) by {
            assert(r[i] == apps@[i]@);
        }
        assert(kq.len() == r.len());
        assert(strictly_sorted(kq));
        assert forall|j2: int| qualifies(ps, adj, j2) implies kq.contains(#[trigger] spec_dedupe_key(ps[j2])) by {
            assert(0 <= j2 < processes@.len());
        }
        assert(running_apps_listing(ps, adj, kq, r));
    }
    apps
}

/// Detects Electron apps from process metadata; the file system is asked
/// about an adjacent `resources\app.asar` only for processes that nothing
/// else settles.
pub fn apps_from_processes(processes: Vec<ProcessInfo>) -> (apps: Vec<ElectronApp>)
    ensures
        exists|adj: Seq<bool>|
            {
                &&& adj.len() == processes@.len()
                &&& forall|j: int| 0 <= j < adj.len() && processes@[j].executable_path@.len() == 0 ==> !#[trigger] adj[j]
                &&& forall|j: int| 0 <= j < adj.len() && !needs_adjacency(processes@[j]@) ==> !#[trigger] adj[j]
                &&& running_apps_spec(procs_view(processes@), adj, crate::detect::apps_view(apps@))
            },
{
    let mut adjacent: Vec<bool> = Vec::new();
    let mut j: usize = 0;
    while j < processes.len()
        invariant
            0 <= j <= processes@.len(),
            adjacent@.len() == j,
            forall|k: int| 0 <= k < j && processes@[k].executable_path@.len() == 0 ==> !#[trigger] adjacent@[k],
            forall|k: int| 0 <= k < j && !needs_adjacency(processes@[k]@) ==> !#[trigger] adjacent@[k],
        decreases processes.len() - j,
    {
        let p = &processes[j];
        let needs_disk = judge_without_disk(p).is_none();
        if needs_disk {
            adjacent.push(has_adjacent_app_asar(p.executable_path.as_str()));
        } else {
            adjacent.push(false);
        }
        j += 1;
    }
    apps_from_processes_with(processes, &adjacent)
}

// ---------------------------------------------------------------------------
// Query failures
// ---------------------------------------------------------------------------

/// The text `String::from_utf8_lossy` makes of some bytes.
pub uninterp spec fn utf8_lossy(b: Seq<u8>) -> Seq<char>;

/// `String::from_utf8_lossy`: decodes UTF-8, replacing invalid sequences
/// with U+FFFD; the result is named, and for valid UTF-8 it is the decoded text.
#[verifier::external_body]
fn decode_utf8_lossy(bytes: &[u8]) -> (r: String)
    ensures
        r@ == utf8_lossy(bytes@),
        vstd::utf8::valid_utf8(bytes@) ==> r@ == vstd::utf8::decode_utf8(bytes@),
{
    String::from_utf8_lossy(bytes).into_owned()
}

/// The message for a failed PowerShell query, from its exit status and the
/// decoded error and standard output.
pub open spec fn spec_query_failure(status: Seq<char>, stderr: Seq<char>, stdout: Seq<char>) -> Seq<char> {
    let detail = if trim_ws(stderr).len() == 0 {
        trim_ws(stdout)
    } else {
        trim_ws(stderr)
    };
    if detail.len() == 0 {
        "PowerShell process query failed ("@ + status + ")"@
    } else {
        "PowerShell process query failed ("@ + status + "): "@ + detail
    }
}

/// The message for a failed PowerShell query: the trimmed error output, else
/// the trimmed standard output, after the exit status.
pub fn query_failure_message(status: &str, stderr_text: &str, stdout_text: &str) -> (r: String)
    ensures
        r@ == spec_query_failure(status@, stderr_text@, stdout_text@),
{
    let err = chars_of(stderr_text);
    let out = chars_of(stdout_text);
    let (ea, eb) = trim_bounds(&err);
    let detail = if ea == eb {
        let (oa, ob) = trim_bounds(&out);
        slice_vec(&out, oa, ob)
    } else {
        slice_vec(&err, ea, eb)
    };
    let head = concat_str("PowerShell process query failed (", status);
    if detail.len() == 0 {
        concat_str(head.as_str(), ")")
    } else {
        let with_colon = concat_str(head.as_str(), "): ");
        let d = string_of(&detail);
        concat_str(with_colon.as_str(), d.as_str())
    }
}

/// Formats the error for a failed PowerShell process query.
pub fn format_powershell_query_error(status: &str, stderr: &[u8], stdout: &[u8]) -> (r: String)
    ensures
        r@ == spec_query_failure(status@, utf8_lossy(stderr@), utf8_lossy(stdout@)),
{
    let stderr_text = decode_utf8_lossy(stderr);
    let stdout_text = decode_utf8_lossy(stdout);
    query_failure_message(status, stderr_text.as_str(), stdout_text.as_str())
}

} // verus!

verus! {

// ---------------------------------------------------------------------------
// Properties of the running-app list
// ---------------------------------------------------------------------------

/// The deduplication key of a listed running app, read off its name and path.
pub open spec fn app_dedupe_key(a: AppView) -> Seq<char> {
    if trim_ws(a.path).len() == 0 {
        lower(a.name)
    } else {
        lower(trim_ws(a.path))
    }
}

/// Every running app comes from a process that is neither a shell or tool
/// host nor an uninstaller, and carries the source `running`.
pub proof fn law_running_apps_exclude_hosts(ps: Seq<ProcView>, adj: Seq<bool>, r: Seq<AppView>)
    requires
        running_apps_spec(ps, adj, r),
    ensures
        forall|i: int|
            0 <= i < r.len() ==> (#[trigger] r[i]).sources == seq!["running"@] && exists|j: int|
                0 <= j < ps.len() && r[i] == process_app(ps[j]) && !spec_is_ignored_host_process(
                    lower(ps[j].name),
                ) && !(match spec_process_stem(ps[j]) {
                    Some(s) => starts_with(lower(s), "uninstall"@),
                    None => false,
                }),
{
    let keys = choose|keys: Seq<Seq<char>>| running_apps_listing(ps, adj, keys, r);
    assert forall|i: int| 0 <= i < r.len() implies (#[trigger] r[i]).sources == seq!["running"@] && exists|j: int|
        0 <= j < ps.len() && r[i] == process_app(ps[j]) && !spec_is_ignored_host_process(lower(ps[j].name))
            && !(match spec_process_stem(ps[j]) {
            Some(s) => starts_with(lower(s), "uninstall"@),
            None => false,
        }) by {
        assert(witnessed(ps, adj, ps.len() as int, keys[i], r[i]));
        let j = choose|j: int| 0 <= j < ps.len() && #[trigger] first_with_key(ps, adj, j) && spec_dedupe_key(ps[j]) == keys[i] && r[i] == process_app(ps[j]);
        assert(spec_is_electron_process(ps[j], adj[j]));
    }
}

/// Running apps are listed once per executable path (once per name for
/// processes without one), ASCII case ignored.
pub proof fn law_running_apps_distinct(ps: Seq<ProcView>, adj: Seq<bool>, r: Seq<AppView>)
    requires
        running_apps_spec(ps, adj, r),
    ensures
        forall|i: int, k: int|
            0 <= i < r.len() && 0 <= k < r.len() && i != k ==> app_dedupe_key(#[trigger] r[i]) != app_dedupe_key(
                #[trigger] r[k],
            ),
{
    let keys = choose|keys: Seq<Seq<char>>| running_apps_listing(ps, adj, keys, r);
    assert forall|i: int| 0 <= i < r.len() implies app_dedupe_key(#[trigger] r[i]) == keys[i] by {
        assert(witnessed(ps, adj, ps.len() as int, keys[i], r[i]));
        let j = choose|j: int| 0 <= j < ps.len() && #[trigger] first_with_key(ps, adj, j) && spec_dedupe_key(ps[j]) == keys[i] && r[i] == process_app(ps[j]);
    }
    assert forall|i: int, k: int|
        0 <= i < r.len() && 0 <= k < r.len() && i != k implies app_dedupe_key(#[trigger] r[i]) != app_dedupe_key(
        #[trigger] r[k],
    ) by {
        assert(app_dedupe_key(r[i]) == keys[i] && app_dedupe_key(r[k]) == keys[k]);
        if i < k {
            assert(crate::text::seq_lt(keys[i], keys[k]));
            crate::text::lemma_lt_irreflexive(keys[i]);
        } else {
            assert(crate::text::seq_lt(keys[k], keys[i]));
            crate::text::lemma_lt_irreflexive(keys[k]);
        }
    }
}

/// At most one process is the first reported one with a given key.
proof fn lemma_first_with_key_unique(ps: Seq<ProcView>, adj: Seq<bool>, j1: int, j2: int)
    requires
        first_with_key(ps, adj, j1),
        first_with_key(ps, adj, j2),
        spec_dedupe_key(ps[j1]) == spec_dedupe_key(ps[j2]),
    ensures
        j1 == j2,
{
    if j1 < j2 {
        assert(qualifies(ps, adj, j1));
        assert(spec_dedupe_key(ps[j1]) != spec_dedupe_key(ps[j2]));
    } else if j2 < j1 {
        assert(qualifies(ps, adj, j2));
        assert(spec_dedupe_key(ps[j2]) != spec_dedupe_key(ps[j1]));
    }
}

/// The running apps are determined by the processes and the adjacency
/// answers: two lists that both meet the contract of
/// `apps_from_processes_with` are the same list.
pub proof fn law_running_apps_determined(ps: Seq<ProcView>, adj: Seq<bool>, r1: Seq<AppView>, r2: Seq<AppView>)
    requires
        running_apps_spec(ps, adj, r1),
        running_apps_spec(ps, adj, r2),
    ensures
        r1 == r2,
{
    let k1 = choose|keys: Seq<Seq<char>>| running_apps_listing(ps, adj, keys, r1);
    let k2 = choose|keys: Seq<Seq<char>>| running_apps_listing(ps, adj, keys, r2);
    assert forall|x: Seq<char>| #[trigger] k1.contains(x) <==> k2.contains(x) by {
        if k1.contains(x) {
            let i = choose|i: int| 0 <= i < k1.len() && k1[i] == x;
            assert(witnessed(ps, adj, ps.len() as int, k1[i], r1[i]));
            let j = choose|j: int| 0 <= j < ps.len() && #[trigger] first_with_key(ps, adj, j)
                && spec_dedupe_key(ps[j]) == k1[i] && r1[i] == process_app(ps[j]);
            assert(qualifies(ps, adj, j));
        }
        if k2.contains(x) {
            let i = choose|i: int| 0 <= i < k2.len() && k2[i] == x;
            assert(witnessed(ps, adj, ps.len() as int, k2[i], r2[i]));
            let j = choose|j: int| 0 <= j < ps.len() && #[trigger] first_with_key(ps, adj, j)
                && spec_dedupe_key(ps[j]) == k2[i] && r2[i] == process_app(ps[j]);
            assert(qualifies(ps, adj, j));
        }
    }
    crate::text::lemma_sorted_listing_unique(k1, k2);
    assert forall|i: int| 0 <= i < r1.len() implies r1[i] == r2[i] by {
        assert(witnessed(ps, adj, ps.len() as int, k1[i], r1[i]));
        assert(witnessed(ps, adj, ps.len() as int, k2[i], r2[i]));
        let j1 = choose|j: int| 0 <= j < ps.len() && #[trigger] first_with_key(ps, adj, j)
            && spec_dedupe_key(ps[j]) == k1[i] && r1[i] == process_app(ps[j]);
        let j2 = choose|j: int| 0 <= j < ps.len() && #[trigger] first_with_key(ps, adj, j)
            && spec_dedupe_key(ps[j]) == k2[i] && r2[i] == process_app(ps[j]);
        lemma_first_with_key_unique(ps, adj, j1, j2);
    }
    assert(r1 =~= r2);
}

/// Running apps come in increasing order of their deduplication key, there
/// are no more of them than processes, and each is the first reported
/// process with its key: the source `running`, that process's executable path
/// and its non-empty display name.
pub proof fn law_running_apps_listing(ps: Seq<ProcView>, adj: Seq<bool>, r: Seq<AppView>)
    requires
        running_apps_spec(ps, adj, r),
    ensures
        forall|i: int, k: int|
            0 <= i < k < r.len() ==> crate::text::seq_lt(app_dedupe_key(#[trigger] r[i]), app_dedupe_key(#[trigger] r[k])),
        r.len() <= ps.len(),
        forall|i: int| 0 <= i < r.len() ==> {
            &&& (#[trigger] r[i]).sources == seq!["running"@]
            &&& r[i].name.len() > 0
            &&& exists|j: int| {
                &&& 0 <= j < ps.len()
                &&& #[trigger] first_with_key(ps, adj, j)
                &&& spec_dedupe_key(ps[j]) == app_dedupe_key(r[i])
                &&& r[i].path == ps[j].exe
                &&& r[i].name == spec_display_name(ps[j])
            }
        },
{
    let keys = choose|keys: Seq<Seq<char>>| running_apps_listing(ps, adj, keys, r);
    let js = Seq::new(r.len(), |i: int| choose|j: int| 0 <= j < ps.len() && #[trigger] first_with_key(ps, adj, j)
        && spec_dedupe_key(ps[j]) == keys[i] && r[i] == process_app(ps[j]));
    assert forall|i: int| 0 <= i < r.len() implies {
        &&& 0 <= #[trigger] js[i] < ps.len()
        &&& first_with_key(ps, adj, js[i])
        &&& spec_dedupe_key(ps[js[i]]) == keys[i]
        &&& r[i] == process_app(ps[js[i]])
        &&& app_dedupe_key(r[i]) == keys[i]
    } by {
        assert(witnessed(ps, adj, ps.len() as int, keys[i], r[i]));
    }
    assert forall|i: int| 0 <= i < r.len() implies {
        &&& (#[trigger] r[i]).sources == seq!["running"@]
        &&& r[i].name.len() > 0
        &&& exists|j: int| {
            &&& 0 <= j < ps.len()
            &&& #[trigger] first_with_key(ps, adj, j)
            &&& spec_dedupe_key(ps[j]) == app_dedupe_key(r[i])
            &&& r[i].path == ps[j].exe
            &&& r[i].name == spec_display_name(ps[j])
        }
    } by {
        assert(0 <= js[i] < ps.len());
        assert(qualifies(ps, adj, js[i]));
    }
    assert forall|i: int, k: int| 0 <= i < k < r.len() implies crate::text::seq_lt(
        app_dedupe_key(#[trigger] r[i]),
        app_dedupe_key(#[trigger] r[k]),
    ) by {
        assert(0 <= js[i] < ps.len() && 0 <= js[k] < ps.len());
    }
    assert forall|i: int, k: int| 0 <= i < js.len() && 0 <= k < js.len() && i != k implies #[trigger] js[i]
        != #[trigger] js[k] by {
        assert(0 <= js[i] < ps.len() && 0 <= js[k] < ps.len());
        if js[i] == js[k] {
            if i < k {
                crate::text::lemma_lt_irreflexive(keys[i]);
            } else {
                crate::text::lemma_lt_irreflexive(keys[k]);
            }
        }
    }
    crate::text::lemma_distinct_in_range(js, ps.len() as int);
}

/// A process that is a shell or tool host, or an uninstaller.
pub open spec fn is_excluded_process(q: ProcView) -> bool {
    ||| spec_is_ignored_host_process(lower(q.name))
    ||| match spec_process_stem(q) {
        Some(s) => starts_with(lower(s), "uninstall"@),
        None => false,
    }
}

/// Adding a shell or tool host, or an uninstaller, anywhere among the
/// processes leaves the running apps unchanged, whatever its command line
/// says and whatever sits next to its executable.
pub proof fn law_excluded_process_changes_nothing(
    ps: Seq<ProcView>,
    adj: Seq<bool>,
    q: ProcView,
    b: bool,
    i: int,
    r: Seq<AppView>,
    r2: Seq<AppView>,
)
    requires
        adj.len() == ps.len(),
        0 <= i <= ps.len(),
        is_excluded_process(q),
        running_apps_spec(ps, adj, r),
        running_apps_spec(ps.insert(i, q), adj.insert(i, b), r2),
    ensures
        r2 == r,
{
    let ps2 = ps.insert(i, q);
    let adj2 = adj.insert(i, b);
    let keys = choose|keys: Seq<Seq<char>>| running_apps_listing(ps, adj, keys, r);
    assert(!spec_is_electron_process(q, b));
    assert forall|j2: int| 0 <= j2 < ps2.len() && j2 != i implies (#[trigger] ps2[j2]) == ps[if j2 < i {
        j2
    } else {
        j2 - 1
    }] && adj2[j2] == adj[if j2 < i {
        j2
    } else {
        j2 - 1
    }] by {}
    assert forall|j2: int| #[trigger] qualifies(ps2, adj2, j2) implies j2 != i && qualifies(ps, adj, if j2 < i {
        j2
    } else {
        j2 - 1
    }) by {
        if j2 == i {
            assert(ps2[i] == q && adj2[i] == b);
        }
    }
    assert forall|j: int| #[trigger] first_with_key(ps, adj, j) implies first_with_key(ps2, adj2, if j < i {
        j
    } else {
        j + 1
    }) by {
        let f = if j < i {
            j
        } else {
            j + 1
        };
        assert(ps2[f] == ps[j] && adj2[f] == adj[j]);
        assert forall|j2: int| 0 <= j2 < f && qualifies(ps2, adj2, j2) implies spec_dedupe_key(#[trigger] ps2[j2])
            != spec_dedupe_key(ps2[f]) by {
            let g = if j2 < i {
                j2
            } else {
                j2 - 1
            };
            assert(qualifies(ps, adj, g));
            assert(ps2[j2] == ps[g]);
        }
    }
    assert(running_apps_listing(ps2, adj2, keys, r)) by {
        assert forall|k: int| 0 <= k < r.len() implies witnessed(ps2, adj2, ps2.len() as int, #[trigger] keys[k], r[k]) by {
            assert(witnessed(ps, adj, ps.len() as int, keys[k], r[k]));
            let j = choose|j: int| 0 <= j < ps.len() && #[trigger] first_with_key(ps, adj, j)
                && spec_dedupe_key(ps[j]) == keys[k] && r[k] == process_app(ps[j]);
            let f = if j < i {
                j
            } else {
                j + 1
            };
            assert(first_with_key(ps2, adj2, f));
            assert(ps2[f] == ps[j]);
        }
        assert forall|j2: int| qualifies(ps2, adj2, j2) implies keys.contains(#[trigger] spec_dedupe_key(ps2[j2])) by {
            let g = if j2 < i {
                j2
            } else {
                j2 - 1
            };
            assert(qualifies(ps, adj, g));
            assert(ps2[j2] == ps[g]);
        }
    }
    law_running_apps_determined(ps2, adj2, r, r2);
}

/// A process that is neither a host nor an uninstaller, with a display name,
/// whose executable has `resources\app.asar` beside it is reported: some
/// running app carries its deduplication key.
pub proof fn law_adjacent_archive_reports(ps: Seq<ProcView>, adj: Seq<bool>, r: Seq<AppView>, j: int)
    requires
        running_apps_spec(ps, adj, r),
        0 <= j < ps.len(),
        !is_excluded_process(ps[j]),
        adj[j],
        spec_display_name(ps[j]).len() > 0,
    ensures
        exists|i: int| 0 <= i < r.len() && app_dedupe_key(#[trigger] r[i]) == spec_dedupe_key(ps[j]),
{
    let keys = choose|keys: Seq<Seq<char>>| running_apps_listing(ps, adj, keys, r);
    assert(spec_is_electron_process(ps[j], adj[j]));
    assert(qualifies(ps, adj, j));
    assert(keys.contains(spec_dedupe_key(ps[j])));
    let i = choose|i: int| 0 <= i < keys.len() && keys[i] == spec_dedupe_key(ps[j]);
    assert(witnessed(ps, adj, ps.len() as int, keys[i], r[i]));
    let j2 = choose|j2: int| 0 <= j2 < ps.len() && #[trigger] first_with_key(ps, adj, j2)
        && spec_dedupe_key(ps[j2]) == keys[i] && r[i] == process_app(ps[j2]);
    assert(app_dedupe_key(r[i]) == keys[i]);
}

} // verus!
