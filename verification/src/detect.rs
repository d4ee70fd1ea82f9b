//! Classifies Electron install path candidates without filesystem access and
//! groups them into installed apps.

use vstd::prelude::*;

use crate::text::{
    chars_of, comps, component_spans, copy_vec, delim, eq_ic, is_ascii_digit, is_ascii_hexdigit, is_delim,
    ispans, last_delim, lemma_last_delim, lower, lower_vec, range_eq, range_eq_ic, rfind_delim,
    slice_vec, span_text, trim_end_len, trim_end_seps, vec_eq, ascii_digit, ascii_hexdigit,
    Delims,
};

verus! {

/// Identifies the Electron signal found in a candidate path.
#[derive(Debug, Clone, Copy, PartialEq, Eq, Structural)]
pub enum CandidateKind {
    /// A bundled Electron app archive named app.asar.
    AppAsar,
    /// An unpacked Electron app package file under resources/app.
    AppPackageJson,
    /// An Electron executable named electron.exe.
    ElectronExe,
    /// A path containing a resources directory component.
    ResourcesDir,
}

/// Describes an Electron app inferred from candidate paths or processes.
#[derive(Debug, Clone, PartialEq, Eq)]
pub struct ElectronApp {
    /// Display name inferred from the app root directory or executable.
    pub name: String,
    /// App root path, or executable path for running apps.
    pub path: String,
    /// Detection source labels that contributed this app.
    pub sources: Vec<String>,
}

/// The mathematical content of an `ElectronApp`.
pub struct AppView {
    pub name: Seq<char>,
    pub path: Seq<char>,
    pub sources: Seq<Seq<char>>,
}

impl View for ElectronApp {
    type V = AppView;

    open spec fn view(&self) -> AppView {
        AppView {
            name: self.name@,
            path: self.path@,
            sources: self.sources@.map_values(|s: String| s@),
        }
    }
}

/// The views of a sequence of apps.
pub open spec fn apps_view(v: Seq<ElectronApp>) -> Seq<AppView> {
    v.map_values(|a: ElectronApp| a@)
}

// ---------------------------------------------------------------------------
// Classification of one path
// ---------------------------------------------------------------------------

/// The `k`-th component of path `p`.
pub open spec fn part(p: Seq<char>, k: int) -> Seq<char> {
    span_text(p, comps(p)[k])
}

/// `p` ends in the components `resources`, `app`, `package.json` (ASCII case ignored).
pub open spec fn spec_is_resources_app_package(p: Seq<char>) -> bool {
    let n = comps(p).len();
    &&& n >= 3
    &&& eq_ic(part(p, n - 3), "resources"@)
    &&& eq_ic(part(p, n - 2), "app"@)
    &&& eq_ic(part(p, n - 1), "package.json"@)
}

/// Some component of `p` equals `lit` up to ASCII case.
pub open spec fn has_part_ic(p: Seq<char>, lit: Seq<char>) -> bool {
    exists|k: int| 0 <= k < comps(p).len() && eq_ic(#[trigger] part(p, k), lit)
}

/// The Electron signal that path `p` carries, if any.
pub open spec fn spec_candidate_kind(p: Seq<char>) -> Option<CandidateKind> {
    let n = comps(p).len();
    if n == 0 {
        None
    } else if spec_is_resources_app_package(p) {
        Some(CandidateKind::AppPackageJson)
    } else if eq_ic(part(p, n - 1), "app.asar"@) {
        Some(CandidateKind::AppAsar)
    } else if eq_ic(part(p, n - 1), "electron.exe"@) {
        Some(CandidateKind::ElectronExe)
    } else if has_part_ic(p, "resources"@) {
        Some(CandidateKind::ResourcesDir)
    } else {
        None
    }
}

/// The index of the first component at or after `k` that equals `lit` up to
/// ASCII case, or the number of components.
pub open spec fn first_part_ic(p: Seq<char>, lit: Seq<char>, k: int) -> int
    decreases comps(p).len() - k,
{
    if k >= comps(p).len() {
        comps(p).len() as int
    } else if eq_ic(part(p, k), lit) {
        k
    } else {
        first_part_ic(p, lit, k + 1)
    }
}

/// The app root before the first `resources` component and the name of the
/// component just before it.
pub open spec fn spec_app_root(p: Seq<char>) -> Option<(Seq<char>, Seq<char>)> {
    let c = comps(p);
    let j = first_part_ic(p, "resources"@, 0);
    if j >= c.len() || j <= 0 {
        None
    } else {
        let root = trim_end_seps(p.take(c[j].0));
        if root.len() == 0 {
            None
        } else {
            Some((root, part(p, j - 1)))
        }
    }
}

/// The stem of a file name ending in `.exe` (ASCII case ignored).  A four-byte
/// suffix equal to `.exe` consists of four ASCII characters, so counting
/// characters gives the byte-level answer.
pub open spec fn spec_exe_stem(f: Seq<char>) -> Option<Seq<char>> {
    if f.len() >= 4 && eq_ic(f.skip(f.len() - 4), ".exe"@) {
        Some(f.take(f.len() - 4))
    } else {
        None
    }
}

/// The directory and stem of a path whose last component is an executable
/// other than `electron.exe`.
pub open spec fn spec_root_exe_name(p: Seq<char>) -> Option<(Seq<char>, Seq<char>)> {
    let c = comps(p);
    let n = c.len();
    if n == 0 {
        None
    } else {
        match spec_exe_stem(part(p, n - 1)) {
            None => None,
            Some(stem) => if eq_ic(stem, "electron"@) || n < 2 {
                None
            } else {
                let root = trim_end_seps(p.take(c[n - 1].0));
                if root.len() == 0 {
                    None
                } else {
                    Some((root, stem))
                }
            },
        }
    }
}

pub open spec fn spec_is_hexish_name(n: Seq<char>) -> bool {
    n.len() >= 8 && forall|i: int| 0 <= i < n.len() ==> is_ascii_hexdigit(#[trigger] n[i])
}

/// `app`, `app-<digit>...` or a hash-like name: the real name is the parent's.
pub open spec fn spec_should_use_parent_root_name(n: Seq<char>) -> bool {
    ||| n == "app"@
    ||| n.len() >= 5 && n.take(4) == "app-"@ && is_ascii_digit(n[4])
    ||| spec_is_hexish_name(n)
}

pub open spec fn spec_is_generic_root_name(n: Seq<char>) -> bool {
    ||| n == "app"@
    ||| eq_ic(n, "win-unpacked"@)
    ||| spec_should_use_parent_root_name(n)
}

/// The parent directory of `path` (trailing separators removed) and its last
/// component.
pub open spec fn spec_parent_root_name(path: Seq<char>) -> Option<(Seq<char>, Seq<char>)> {
    let s = last_delim(path, Delims::Path);
    if s < 0 {
        None
    } else {
        let parent = trim_end_seps(path.take(s));
        let name = parent.skip(last_delim(parent, Delims::Path) + 1);
        if parent.len() == 0 || name.len() == 0 {
            None
        } else {
            Some((parent, name))
        }
    }
}

// ---------------------------------------------------------------------------
// First-wins tables keyed by lower-cased roots
// ---------------------------------------------------------------------------

/// A table row: lower-cased key, root as written, display name.
pub type Row = (Seq<char>, Seq<char>, Seq<char>);

/// The root and name stored under `k`.
pub open spec fn lookup(t: Seq<Row>, k: Seq<char>) -> Option<(Seq<char>, Seq<char>)>
    decreases t.len(),
{
    if t.len() == 0 {
        None
    } else if t.last().0 == k {
        Some((t.last().1, t.last().2))
    } else {
        lookup(t.drop_last(), k)
    }
}

/// Adds a row under the lower-cased root unless that key is already present.
pub open spec fn insert_first(t: Seq<Row>, r: Option<(Seq<char>, Seq<char>)>) -> Seq<Row> {
    match r {
        Some((root, name)) => if lookup(t, lower(root)) is None {
            t.push((lower(root), root, name))
        } else {
            t
        },
        None => t,
    }
}

/// Executables found beside app roots, first occurrence per lower-cased directory.
pub open spec fn root_exes_seq(paths: Seq<Seq<char>>) -> Seq<Row>
    decreases paths.len(),
{
    if paths.len() == 0 {
        Seq::empty()
    } else {
        insert_first(root_exes_seq(paths.drop_last()), spec_root_exe_name(paths.last()))
    }
}

/// A candidate kind that proves an app root.
pub open spec fn is_app_signal(k: Option<CandidateKind>) -> bool {
    match k {
        Some(CandidateKind::AppAsar) | Some(CandidateKind::AppPackageJson) | Some(
            CandidateKind::ElectronExe,
        ) => true,
        _ => false,
    }
}

/// The app root a path contributes, if it carries an app signal.
pub open spec fn app_root_of(p: Seq<char>) -> Option<(Seq<char>, Seq<char>)> {
    if is_app_signal(spec_candidate_kind(p)) {
        spec_app_root(p)
    } else {
        None
    }
}

/// App roots, first occurrence per lower-cased root.
pub open spec fn app_roots_seq(paths: Seq<Seq<char>>) -> Seq<Row>
    decreases paths.len(),
{
    if paths.len() == 0 {
        Seq::empty()
    } else {
        insert_first(app_roots_seq(paths.drop_last()), app_root_of(paths.last()))
    }
}

/// The executable row stored for the parent directory of a lower-cased root.
pub open spec fn spec_parent_root_exe(key: Seq<char>, t: Seq<Row>) -> Option<(Seq<char>, Seq<char>)> {
    let s = last_delim(key, Delims::Path);
    if s < 0 {
        None
    } else {
        lookup(t, key.take(s))
    }
}

/// The display name and path of an app root once generic names are replaced.
pub open spec fn refine_app(key: Seq<char>, root: Seq<char>, name: Seq<char>, exes: Seq<Row>) -> (
    Seq<char>,
    Seq<char>,
) {
    let name1 = if spec_is_generic_root_name(name) {
        match lookup(exes, key) {
            Some((_, n)) => n,
            None => name,
        }
    } else {
        name
    };
    if spec_should_use_parent_root_name(name1) {
        match spec_parent_root_exe(key, exes) {
            Some((pr, n)) => (n, pr),
            None => match spec_parent_root_name(root) {
                Some((pr, n)) => (n, pr),
                None => (name1, root),
            },
        }
    } else {
        (name1, root)
    }
}

/// Name and path of the `j`-th app root.
pub open spec fn entry_app(paths: Seq<Seq<char>>, j: int) -> (Seq<char>, Seq<char>) {
    let a = app_roots_seq(paths)[j];
    refine_app(a.0, a.1, a.2, root_exes_seq(paths))
}

/// The key that deduplicates the `j`-th app root.
pub open spec fn dedup_key(paths: Seq<Seq<char>>, j: int) -> Seq<char> {
    lower(entry_app(paths, j).1)
}

/// The `j`-th app root has the smallest root key among those sharing its
/// deduplication key.
pub open spec fn is_winner(paths: Seq<Seq<char>>, j: int) -> bool {
    let a = app_roots_seq(paths);
    &&& 0 <= j < a.len()
    &&& forall|j2: int|
        0 <= j2 < a.len() && #[trigger] dedup_key(paths, j2) == dedup_key(paths, j) ==> j2 == j
            || crate::text::seq_lt(a[j].0, a[j2].0)
}

/// `r` lists the installed apps of `paths`: one per deduplication key, the
/// one whose root key sorts first, in order of deduplication key.
pub open spec fn installed_apps_spec(paths: Seq<Seq<char>>, r: Seq<AppView>) -> bool {
    let a = app_roots_seq(paths);
    &&& forall|i: int, k: int|
        0 <= i < k < r.len() ==> crate::text::seq_lt(
            lower(#[trigger] r[i].path),
            lower(#[trigger] r[k].path),
        )
    &&& forall|i: int|
        0 <= i < r.len() ==> (#[trigger] r[i]).sources == seq!["ntfs"@] && exists|j: int|
            is_winner(paths, j) && entry_app(paths, j) == (r[i].name, r[i].path)
    &&& forall|j: int| 0 <= j < a.len() ==> lists_key(r, #[trigger] dedup_key(paths, j))
}

/// Some app of `r` has the lower-cased path `d`.
pub open spec fn lists_key(r: Seq<AppView>, d: Seq<char>) -> bool {
    exists|i: int| 0 <= i < r.len() && lower(#[trigger] r[i].path) == d
}

// ---------------------------------------------------------------------------
// Executable classification
// ---------------------------------------------------------------------------

/// Whether a character separates path components.
pub fn is_path_separator(c: char) -> (r: bool)
    ensures
        r == is_delim(Delims::Path, c),
{
    delim(Delims::Path, c)
}

/// The spans computed by `component_spans` for `v`.
pub open spec fn spans_of(v: Seq<char>, spans: Seq<(usize, usize)>) -> bool {
    &&& ispans(spans) == comps(v)
    &&& forall|k: int| 0 <= k < spans.len() ==> (#[trigger] spans[k]).0 < spans[k].1 <= v.len()
}

proof fn lemma_part(v: Seq<char>, spans: Seq<(usize, usize)>, k: int)
    requires
        spans_of(v, spans),
        0 <= k < spans.len(),
    ensures
        part(v, k) == v.subrange(spans[k].0 as int, spans[k].1 as int),
        comps(v)[k] == (spans[k].0 as int, spans[k].1 as int),
{
    assert(ispans(spans)[k] == comps(v)[k]);
}

fn part_eq_ic(v: &Vec<char>, spans: &Vec<(usize, usize)>, k: usize, lit: &str) -> (r: bool)
    requires
        spans_of(v@, spans@),
        k < spans@.len(),
    ensures
        r == eq_ic(part(v@, k as int), lit@),
{
    proof {
        lemma_part(v@, spans@, k as int);
    }
    range_eq_ic(v, spans[k].0, spans[k].1, lit)
}

fn is_resources_app_package(v: &Vec<char>, spans: &Vec<(usize, usize)>) -> (r: bool)
    requires
        spans_of(v@, spans@),
    ensures
        r == spec_is_resources_app_package(v@),
{
    let n = spans.len();
    assert(comps(v@).len() == n) by {
        assert(ispans(spans@).len() == spans@.len());
    }
    if n < 3 {
        return false;
    }
    part_eq_ic(v, spans, n - 3, "resources") && part_eq_ic(v, spans, n - 2, "app") && part_eq_ic(
        v,
        spans,
        n - 1,
        "package.json",
    )
}

fn any_part_eq_ic(v: &Vec<char>, spans: &Vec<(usize, usize)>, lit: &str) -> (r: bool)
    requires
        spans_of(v@, spans@),
    ensures
        r == has_part_ic(v@, lit@),
{
    assert(comps(v@).len() == spans@.len()) by {
        assert(ispans(spans@).len() == spans@.len());
    }
    let mut k: usize = 0;
    while k < spans.len()
        invariant
            spans_of(v@, spans@),
            comps(v@).len() == spans@.len(),
            0 <= k <= spans@.len(),
            forall|m: int| 0 <= m < k ==> !eq_ic(#[trigger] part(v@, m), lit@),
        decreases spans.len() - k,
    {
        if part_eq_ic(v, spans, k, lit) {
            return true;
        }
        k += 1;
    }
    false
}

fn first_part_eq_ic(v: &Vec<char>, spans: &Vec<(usize, usize)>, lit: &str) -> (r: usize)
    requires
        spans_of(v@, spans@),
    ensures
        r == first_part_ic(v@, lit@, 0),
        r <= spans@.len(),
{
    assert(comps(v@).len() == spans@.len()) by {
        assert(ispans(spans@).len() == spans@.len());
    }
    let mut k: usize = 0;
    while k < spans.len()
        invariant
            spans_of(v@, spans@),
            comps(v@).len() == spans@.len(),
            0 <= k <= spans@.len(),
            first_part_ic(v@, lit@, 0) == first_part_ic(v@, lit@, k as int),
        decreases spans.len() - k,
    {
        if part_eq_ic(v, spans, k, lit) {
            return k;
        }
        k += 1;
    }
    k
}

fn candidate_kind_of(v: &Vec<char>, spans: &Vec<(usize, usize)>) -> (r: Option<CandidateKind>)
    requires
        spans_of(v@, spans@),
    ensures
        r == spec_candidate_kind(v@),
{
    let n = spans.len();
    assert(comps(v@).len() == n) by {
        assert(ispans(spans@).len() == spans@.len());
    }
    if n == 0 {
        None
    } else if is_resources_app_package(v, spans) {
        Some(CandidateKind::AppPackageJson)
    } else if part_eq_ic(v, spans, n - 1, "app.asar") {
        Some(CandidateKind::AppAsar)
    } else if part_eq_ic(v, spans, n - 1, "electron.exe") {
        Some(CandidateKind::ElectronExe)
    } else if any_part_eq_ic(v, spans, "resources") {
        Some(CandidateKind::ResourcesDir)
    } else {
        None
    }
}

/// Classifies a path string as an Electron candidate, without touching the filesystem.
pub fn candidate_kind(path: &str) -> (r: Option<CandidateKind>)
    ensures
        r == spec_candidate_kind(path@),
{
    let v = chars_of(path);
    let spans = component_spans(&v);
    candidate_kind_of(&v, &spans)
}

/// The app root before the first `resources` component: the length of the
/// root and the span of the component just before `resources`.
fn app_root_before_resources(v: &Vec<char>, spans: &Vec<(usize, usize)>) -> (r: Option<
    (usize, usize, usize),
>)
    requires
        spans_of(v@, spans@),
    ensures
        match r {
            None => spec_app_root(v@) is None,
            Some((root_len, ns, ne)) => root_len <= v@.len() && ns <= ne <= v@.len()
                && spec_app_root(v@) == Some((v@.take(root_len as int), v@.subrange(ns as int, ne as int))),
        },
{
    let j = first_part_eq_ic(v, spans, "resources");
    assert(comps(v@).len() == spans@.len()) by {
        assert(ispans(spans@).len() == spans@.len());
    }
    if j >= spans.len() || j == 0 {
        return None;
    }
    proof {
        lemma_part(v@, spans@, j as int);
        lemma_part(v@, spans@, j - 1);
    }
    let start = spans[j].0;
    let root_len = trim_end_len(v, start);
    if root_len == 0 {
        return None;
    }
    Some((root_len, spans[j - 1].0, spans[j - 1].1))
}

/// The end of the stem of `v[start..end]` when it ends in `.exe`.
pub(crate) fn exe_stem(v: &Vec<char>, start: usize, end: usize) -> (r: Option<usize>)
    requires
        start <= end <= v@.len(),
    ensures
        match r {
            None => spec_exe_stem(v@.subrange(start as int, end as int)) is None,
            Some(e) => start <= e <= end && spec_exe_stem(v@.subrange(start as int, end as int))
                == Some(v@.subrange(start as int, e as int)),
        },
{
    let ghost f = v@.subrange(start as int, end as int);
    if end - start < 4 {
        return None;
    }
    let suffix_start = end - 4;
    assert(f.skip(f.len() - 4) == v@.subrange(suffix_start as int, end as int));
    assert(f.take(f.len() - 4) == v@.subrange(start as int, suffix_start as int));
    if range_eq_ic(v, suffix_start, end, ".exe") {
        Some(suffix_start)
    } else {
        None
    }
}

/// The directory and stem of a path whose last component is an executable
/// other than `electron.exe`: the directory's length and the stem's span.
fn root_exe_name(v: &Vec<char>, spans: &Vec<(usize, usize)>) -> (r: Option<(usize, usize, usize)>)
    requires
        spans_of(v@, spans@),
    ensures
        match r {
            None => spec_root_exe_name(v@) is None,
            Some((root_len, ss, se)) => root_len <= v@.len() && ss <= se <= v@.len()
                && spec_root_exe_name(v@) == Some(
                (v@.take(root_len as int), v@.subrange(ss as int, se as int)),
            ),
        },
{
    let n = spans.len();
    assert(comps(v@).len() == n) by {
        assert(ispans(spans@).len() == spans@.len());
    }
    if n == 0 {
        return None;
    }
    proof {
        lemma_part(v@, spans@, n - 1);
    }
    let (file_start, file_end) = spans[n - 1];
    let stem_end = match exe_stem(v, file_start, file_end) {
        Some(e) => e,
        None => {
            return None;
        },
    };
    if range_eq_ic(v, file_start, stem_end, "electron") || n < 2 {
        return None;
    }
    let root_len = trim_end_len(v, file_start);
    if root_len == 0 {
        return None;
    }
    Some((root_len, file_start, stem_end))
}

fn is_hexish_name(name: &Vec<char>) -> (r: bool)
    ensures
        r == spec_is_hexish_name(name@),
{
    if name.len() < 8 {
        return false;
    }
    let mut i: usize = 0;
    while i < name.len()
        invariant
            0 <= i <= name@.len(),
            forall|k: int| 0 <= k < i ==> is_ascii_hexdigit(#[trigger] name@[k]),
        decreases name.len() - i,
    {
        if !ascii_hexdigit(name[i]) {
            return false;
        }
        i += 1;
    }
    true
}

fn should_use_parent_root_name(name: &Vec<char>) -> (r: bool)
    ensures
        r == spec_should_use_parent_root_name(name@),
{
    if range_eq(name, 0, name.len(), "app") {
        assert(name@.subrange(0, name@.len() as int) == name@);
        return true;
    }
    assert(name@.subrange(0, name@.len() as int) == name@);
    if name.len() >= 5 && range_eq(name, 0, 4, "app-") && ascii_digit(name[4]) {
        assert(name@.subrange(0, 4) == name@.take(4));
        return true;
    }
    if name.len() >= 5 {
        assert(name@.subrange(0, 4) == name@.take(4));
    }
    is_hexish_name(name)
}

fn is_generic_root_name(name: &Vec<char>) -> (r: bool)
    ensures
        r == spec_is_generic_root_name(name@),
{
    assert(name@.subrange(0, name@.len() as int) == name@);
    range_eq(name, 0, name.len(), "app") || range_eq_ic(name, 0, name.len(), "win-unpacked")
        || should_use_parent_root_name(name)
}

/// The parent directory of `path` and its last component: the parent's length
/// and the start of its last component.
fn parent_root_name(path: &Vec<char>) -> (r: Option<(usize, usize)>)
    ensures
        match r {
            None => spec_parent_root_name(path@) is None,
            Some((pl, ns)) => ns <= pl <= path@.len() && spec_parent_root_name(path@) == Some(
                (path@.take(pl as int), path@.subrange(ns as int, pl as int)),
            ),
        },
{
    let s = match rfind_delim(path, path.len(), Delims::Path) {
        Some(s) => s,
        None => {
            assert(path@.take(path@.len() as int) == path@);
            return None;
        },
    };
    assert(path@.take(path@.len() as int) == path@);
    proof {
        lemma_last_delim(path@, Delims::Path);
    }
    let pl = trim_end_len(path, s);
    let ghost parent = path@.take(pl as int);
    assert(parent == trim_end_seps(path@.take(s as int)));
    let ns = match rfind_delim(path, pl, Delims::Path) {
        Some(k) => k + 1,
        None => 0,
    };
    proof {
        lemma_last_delim(parent, Delims::Path);
    }
    assert(parent.skip(last_delim(parent, Delims::Path) + 1) == path@.subrange(ns as int, pl as int));
    if pl == 0 || ns == pl {
        return None;
    }
    Some((pl, ns))
}

} // verus!

verus! {

// ---------------------------------------------------------------------------
// Grouping candidates into apps
// ---------------------------------------------------------------------------

/// A row of a first-wins table.
struct Named {
    key: Vec<char>,
    root: Vec<char>,
    name: Vec<char>,
}

spec fn rows(t: Seq<Named>) -> Seq<Row> {
    t.map_values(|e: Named| (e.key@, e.root@, e.name@))
}

proof fn lemma_lookup_none(t: Seq<Row>, k: Seq<char>)
    requires
        lookup(t, k) is None,
    ensures
        forall|i: int| 0 <= i < t.len() ==> (#[trigger] t[i]).0 != k,
    decreases t.len(),
{
    if t.len() > 0 {
        lemma_lookup_none(t.drop_last(), k);
        assert forall|i: int| 0 <= i < t.len() implies (#[trigger] t[i]).0 != k by {
            if i < t.len() - 1 {
                assert(t[i] == t.drop_last()[i]);
            }
        }
    }
}

/// Rows of a first-wins table have distinct keys.
pub open spec fn distinct_keys(t: Seq<Row>) -> bool {
    forall|i: int, j: int| 0 <= i < t.len() && 0 <= j < t.len() && i != j ==> (#[trigger] t[i]).0
        != (#[trigger] t[j]).0
}

proof fn lemma_insert_first_distinct(t: Seq<Row>, r: Option<(Seq<char>, Seq<char>)>)
    requires
        distinct_keys(t),
    ensures
        distinct_keys(insert_first(t, r)),
{
    if let Some((root, name)) = r {
        if lookup(t, lower(root)) is None {
            lemma_lookup_none(t, lower(root));
            let t2 = t.push((lower(root), root, name));
            assert forall|i: int, j: int|
                0 <= i < t2.len() && 0 <= j < t2.len() && i != j implies (#[trigger] t2[i]).0 != (
            #[trigger] t2[j]).0 by {
                if i < t.len() && j < t.len() {
                    assert(t2[i] == t[i] && t2[j] == t[j]);
                } else if i < t.len() {
                    assert(t2[i] == t[i]);
                } else {
                    assert(t2[j] == t[j]);
                }
            }
        }
    }
}

/// Each row of the app-root table comes from a candidate: its root and name
/// are what that candidate contributes, its key the lower-cased root.
proof fn lemma_app_rows_from(paths: Seq<Seq<char>>)
    ensures
        app_roots_seq(paths).len() <= paths.len(),
        forall|j: int| 0 <= j < app_roots_seq(paths).len() ==> {
            &&& (#[trigger] app_roots_seq(paths)[j]).0 == lower(app_roots_seq(paths)[j].1)
            &&& exists|k: int| 0 <= k < paths.len() && app_root_of(#[trigger] paths[k]) == Some(
                (app_roots_seq(paths)[j].1, app_roots_seq(paths)[j].2))
        },
    decreases paths.len(),
{
    if paths.len() > 0 {
        let init = paths.drop_last();
        lemma_app_rows_from(init);
        let t = app_roots_seq(init);
        let t2 = app_roots_seq(paths);
        assert forall|j: int| 0 <= j < t2.len() implies {
            &&& (#[trigger] t2[j]).0 == lower(t2[j].1)
            &&& exists|k: int| 0 <= k < paths.len() && app_root_of(#[trigger] paths[k]) == Some((t2[j].1, t2[j].2))
        } by {
            if j < t.len() {
                assert(t2[j] == t[j]);
                let k = choose|k: int| 0 <= k < init.len() && app_root_of(#[trigger] init[k]) == Some((t[j].1, t[j].2));
                assert(paths[k] == init[k]);
            } else {
                assert(app_root_of(paths[paths.len() - 1]) == Some((t2[j].1, t2[j].2)));
            }
        }
    }
}

/// Each row of the executable table comes from a candidate in the same way.
proof fn lemma_exe_rows_from(paths: Seq<Seq<char>>)
    ensures
        forall|j: int| 0 <= j < root_exes_seq(paths).len() ==> {
            &&& (#[trigger] root_exes_seq(paths)[j]).0 == lower(root_exes_seq(paths)[j].1)
            &&& exists|k: int| 0 <= k < paths.len() && spec_root_exe_name(#[trigger] paths[k]) == Some(
                (root_exes_seq(paths)[j].1, root_exes_seq(paths)[j].2))
        },
    decreases paths.len(),
{
    if paths.len() > 0 {
        let init = paths.drop_last();
        lemma_exe_rows_from(init);
        let t = root_exes_seq(init);
        let t2 = root_exes_seq(paths);
        assert forall|j: int| 0 <= j < t2.len() implies {
            &&& (#[trigger] t2[j]).0 == lower(t2[j].1)
            &&& exists|k: int| 0 <= k < paths.len() && spec_root_exe_name(#[trigger] paths[k]) == Some((t2[j].1, t2[j].2))
        } by {
            if j < t.len() {
                assert(t2[j] == t[j]);
                let k = choose|k: int| 0 <= k < init.len() && spec_root_exe_name(#[trigger] init[k]) == Some((t[j].1, t[j].2));
                assert(paths[k] == init[k]);
            } else {
                assert(spec_root_exe_name(paths[paths.len() - 1]) == Some((t2[j].1, t2[j].2)));
            }
        }
    }
}

/// A row found by `lookup` is a row of the table, stored under the key.
proof fn lemma_lookup_some(t: Seq<Row>, k: Seq<char>)
    ensures
        lookup(t, k) matches Some((a, b)) ==> exists|i: int| 0 <= i < t.len() && #[trigger] t[i] == (k, a, b),
    decreases t.len(),
{
    if t.len() > 0 && t.last().0 != k {
        lemma_lookup_some(t.drop_last(), k);
        if let Some((a, b)) = lookup(t, k) {
            let i = choose|i: int| 0 <= i < t.drop_last().len() && #[trigger] t.drop_last()[i] == (k, a, b);
            assert(t[i] == t.drop_last()[i]);
        }
    } else if t.len() > 0 {
        assert(t[t.len() - 1] == t.last());
    }
}

proof fn lemma_app_roots_distinct(paths: Seq<Seq<char>>)
    ensures
        distinct_keys(app_roots_seq(paths)),
    decreases paths.len(),
{
    if paths.len() > 0 {
        lemma_app_roots_distinct(paths.drop_last());
        lemma_insert_first_distinct(app_roots_seq(paths.drop_last()), app_root_of(paths.last()));
    }
}

/// The index of the row stored under `key`.
fn lookup_row(t: &Vec<Named>, key: &Vec<char>) -> (r: Option<usize>)
    ensures
        match r {
            None => lookup(rows(t@), key@) is None,
            Some(i) => i < t@.len() && lookup(rows(t@), key@) == Some(
                (t@[i as int].root@, t@[i as int].name@),
            ),
        },
{
    let mut i = t.len();
    assert(rows(t@).take(t@.len() as int) == rows(t@));
    while i > 0
        invariant
            i <= t@.len(),
            lookup(rows(t@), key@) == lookup(rows(t@).take(i as int), key@),
        decreases i,
    {
        let ghost pre = rows(t@).take(i as int);
        assert(pre.last() == rows(t@)[i - 1]);
        assert(pre.drop_last() == rows(t@).take(i - 1));
        if vec_eq(&t[i - 1].key, key) {
            return Some(i - 1);
        }
        i -= 1;
    }
    None
}

/// Adds the row `(lower(root), root, name)` unless its key is present.
fn insert_row(t: &mut Vec<Named>, root: Vec<char>, name: Vec<char>)
    ensures
        rows(final(t)@) == insert_first(rows(old(t)@), Some((root@, name@))),
{
    let key = lower_vec(&root);
    match lookup_row(t, &key) {
        Some(_) => {},
        None => {
            let ghost old_rows = rows(t@);
            t.push(Named { key, root, name });
            assert(rows(t@) == old_rows.push((key@, root@, name@)));
        },
    }
}

/// The row stored for the parent directory of a lower-cased root key.
fn parent_root_exe(key: &Vec<char>, exes: &Vec<Named>) -> (r: Option<usize>)
    ensures
        match r {
            None => spec_parent_root_exe(key@, rows(exes@)) is None,
            Some(i) => i < exes@.len() && spec_parent_root_exe(key@, rows(exes@)) == Some(
                (exes@[i as int].root@, exes@[i as int].name@),
            ),
        },
{
    assert(key@.take(key@.len() as int) == key@);
    let s = match rfind_delim(key, key.len(), Delims::Path) {
        Some(s) => s,
        None => {
            return None;
        },
    };
    let parent = slice_vec(key, 0, s);
    assert(parent@ == key@.take(s as int));
    lookup_row(exes, &parent)
}

/// The display name and path of an app root, generic names replaced.
fn refine(e: &Named, exes: &Vec<Named>) -> (r: (Vec<char>, Vec<char>))
    ensures
        (r.0@, r.1@) == refine_app(e.key@, e.root@, e.name@, rows(exes@)),
{
    let mut name = copy_vec(&e.name);
    if is_generic_root_name(&e.name) {
        match lookup_row(exes, &e.key) {
            Some(i) => {
                name = copy_vec(&exes[i].name);
            },
            None => {},
        }
    }
    if should_use_parent_root_name(&name) {
        match parent_root_exe(&e.key, exes) {
            Some(i) => {
                return (copy_vec(&exes[i].name), copy_vec(&exes[i].root));
            },
            None => {},
        }
        match parent_root_name(&e.root) {
            Some((pl, ns)) => {
                let n = slice_vec(&e.root, ns, pl);
                let p = slice_vec(&e.root, 0, pl);
                assert(p@ == e.root@.take(pl as int));
                return (n, p);
            },
            None => {},
        }
    }
    (name, copy_vec(&e.root))
}

/// An app root with its final name and path.
struct Fixed {
    key: Vec<char>,
    name: Vec<char>,
    path: Vec<char>,
    dkey: Vec<char>,
}

spec fn keys_distinct(f: Seq<Fixed>) -> bool {
    forall|a: int, b: int|
        0 <= a < f.len() && 0 <= b < f.len() && a != b ==> (#[trigger] f[a]).key@ != (
        #[trigger] f[b]).key@
}

/// Among the first `n` entries, `j` has the smallest key for its dedup key.
spec fn prefix_winner(f: Seq<Fixed>, j: int, n: int) -> bool {
    forall|j2: int|
        0 <= j2 < n && (#[trigger] f[j2]).dkey@ == f[j].dkey@ ==> j2 == j || crate::text::seq_lt(
            f[j].key@,
            f[j2].key@,
        )
}

/// `out` lists the winners among the first `n` entries by increasing dedup key.
spec fn ordered_winners(f: Seq<Fixed>, out: Seq<usize>, n: int) -> bool {
    &&& forall|i: int| 0 <= i < out.len() ==> (#[trigger] out[i]) < n
    &&& forall|i: int, k: int|
        0 <= i < k < out.len() ==> crate::text::seq_lt(
            f[#[trigger] out[i] as int].dkey@,
            f[#[trigger] out[k] as int].dkey@,
        )
    &&& forall|i: int| 0 <= i < out.len() ==> prefix_winner(f, #[trigger] out[i] as int, n)
    &&& forall|j: int| 0 <= j < n ==> listed(f, out, #[trigger] f[j].dkey@)
}

spec fn listed(f: Seq<Fixed>, out: Seq<usize>, d: Seq<char>) -> bool {
    exists|i: int| 0 <= i < out.len() && f[#[trigger] out[i] as int].dkey@ == d
}

} // verus!

verus! {

/// Entries of `out` with different positions have different dedup keys.
proof fn lemma_ordered_distinct(f: Seq<Fixed>, out: Seq<usize>, n: int, a: int, b: int)
    requires
        ordered_winners(f, out, n),
        0 <= a < out.len(),
        0 <= b < out.len(),
        a != b,
    ensures
        f[out[a] as int].dkey@ != f[out[b] as int].dkey@,
{
    if a < b {
        assert(crate::text::seq_lt(f[out[a] as int].dkey@, f[out[b] as int].dkey@));
        crate::text::lemma_lt_irreflexive(f[out[a] as int].dkey@);
    } else {
        assert(crate::text::seq_lt(f[out[b] as int].dkey@, f[out[a] as int].dkey@));
        crate::text::lemma_lt_irreflexive(f[out[b] as int].dkey@);
    }
}

/// Entry `n` shares the dedup key of `out[p]` and does not beat it.
proof fn lemma_keep(f: Seq<Fixed>, out: Seq<usize>, n: int, p: int)
    requires
        ordered_winners(f, out, n),
        keys_distinct(f),
        0 <= n < f.len(),
        0 <= p < out.len(),
        f[out[p] as int].dkey@ == f[n].dkey@,
        !crate::text::seq_lt(f[n].key@, f[out[p] as int].key@),
    ensures
        ordered_winners(f, out, n + 1),
{
    let w = out[p] as int;
    assert(f[w].key@ != f[n].key@);
    crate::text::lemma_lt_total(f[w].key@, f[n].key@);
    assert forall|i: int| 0 <= i < out.len() implies prefix_winner(f, #[trigger] out[i] as int, n + 1) by {
        assert(prefix_winner(f, out[i] as int, n));
        if i != p {
            lemma_ordered_distinct(f, out, n, i, p);
        }
    }
    assert forall|j: int| 0 <= j < n + 1 implies listed(f, out, #[trigger] f[j].dkey@) by {
        if j == n {
            assert(f[out[p] as int].dkey@ == f[j].dkey@);
        }
    }
}

/// Entry `n` shares the dedup key of `out[p]` and beats it.
proof fn lemma_replace(f: Seq<Fixed>, out: Seq<usize>, n: int, p: int)
    requires
        n <= usize::MAX,
        ordered_winners(f, out, n),
        0 <= n < f.len(),
        0 <= p < out.len(),
        f[out[p] as int].dkey@ == f[n].dkey@,
        crate::text::seq_lt(f[n].key@, f[out[p] as int].key@),
    ensures
        ordered_winners(f, out.update(p, n as usize), n + 1),
{
    let o2 = out.update(p, n as usize);
    let w = out[p] as int;
    assert forall|i: int, k: int| 0 <= i < k < o2.len() implies crate::text::seq_lt(
        f[#[trigger] o2[i] as int].dkey@,
        f[#[trigger] o2[k] as int].dkey@,
    ) by {
        assert(crate::text::seq_lt(f[out[i] as int].dkey@, f[out[k] as int].dkey@));
    }
    assert forall|i: int| 0 <= i < o2.len() implies prefix_winner(f, #[trigger] o2[i] as int, n + 1) by {
        if i == p {
            assert forall|j2: int|
                0 <= j2 < n + 1 && (#[trigger] f[j2]).dkey@ == f[n].dkey@ implies j2 == n
                || crate::text::seq_lt(f[n].key@, f[j2].key@) by {
                if j2 < n {
                    assert(prefix_winner(f, w, n));
                    if j2 != w {
                        crate::text::lemma_lt_transitive(f[n].key@, f[w].key@, f[j2].key@);
                    }
                }
            }
        } else {
            assert(prefix_winner(f, out[i] as int, n));
            lemma_ordered_distinct(f, out, n, i, p);
        }
    }
    assert forall|j: int| 0 <= j < n + 1 implies listed(f, o2, #[trigger] f[j].dkey@) by {
        if j == n {
            assert(f[o2[p] as int].dkey@ == f[j].dkey@);
        } else {
            assert(listed(f, out, f[j].dkey@));
            let i = choose|i: int| 0 <= i < out.len() && f[#[trigger] out[i] as int].dkey@ == f[j].dkey@;
            if i == p {
                assert(f[o2[p] as int].dkey@ == f[j].dkey@);
            } else {
                assert(f[o2[i] as int].dkey@ == f[j].dkey@);
            }
        }
    }
}

/// Entry `n` has a dedup key not yet listed; it goes in at position `p`.
proof fn lemma_insert(f: Seq<Fixed>, out: Seq<usize>, n: int, p: int)
    requires
        n <= usize::MAX,
        ordered_winners(f, out, n),
        0 <= n < f.len(),
        0 <= p <= out.len(),
        forall|i: int| 0 <= i < p ==> crate::text::seq_lt(f[#[trigger] out[i] as int].dkey@, f[n].dkey@),
        p < out.len() ==> !crate::text::seq_lt(f[out[p] as int].dkey@, f[n].dkey@),
        p < out.len() ==> f[out[p] as int].dkey@ != f[n].dkey@,
    ensures
        ordered_winners(f, out.insert(p, n as usize), n + 1),
{
    let o2 = out.insert(p, n as usize);
    let d = f[n].dkey@;
    if p < out.len() {
        crate::text::lemma_lt_total(f[out[p] as int].dkey@, d);
    }
    // Every listed key sorts before or after `d`, on the side of its position.
    assert forall|i: int| 0 <= i < out.len() implies (i < p ==> crate::text::seq_lt(
        f[#[trigger] out[i] as int].dkey@,
        d,
    )) && (i >= p ==> crate::text::seq_lt(d, f[out[i] as int].dkey@)) by {
        if i > p {
            assert(crate::text::seq_lt(f[out[p] as int].dkey@, f[out[i] as int].dkey@));
            crate::text::lemma_lt_transitive(d, f[out[p] as int].dkey@, f[out[i] as int].dkey@);
        }
    }
    assert forall|i: int| 0 <= i < out.len() implies f[#[trigger] out[i] as int].dkey@ != d by {
        if i < p {
            crate::text::lemma_lt_irreflexive(d);
        } else {
            crate::text::lemma_lt_irreflexive(d);
        }
    }
    assert forall|i: int| 0 <= i < o2.len() implies (#[trigger] o2[i]) < n + 1 by {
        if i < p {
            assert(o2[i] == out[i]);
        } else if i > p {
            assert(o2[i] == out[i - 1]);
        }
    }
    assert forall|i: int, k: int| 0 <= i < k < o2.len() implies crate::text::seq_lt(
        f[#[trigger] o2[i] as int].dkey@,
        f[#[trigger] o2[k] as int].dkey@,
    ) by {
        if k < p {
            assert(o2[i] == out[i] && o2[k] == out[k]);
        } else if k == p {
            assert(o2[i] == out[i]);
        } else if i < p {
            assert(o2[i] == out[i] && o2[k] == out[k - 1]);
            crate::text::lemma_lt_transitive(f[out[i] as int].dkey@, d, f[out[k - 1] as int].dkey@);
        } else if i == p {
            assert(o2[k] == out[k - 1]);
        } else {
            assert(o2[i] == out[i - 1] && o2[k] == out[k - 1]);
        }
    }
    assert forall|i: int| 0 <= i < o2.len() implies prefix_winner(f, #[trigger] o2[i] as int, n + 1) by {
        if i == p {
            assert forall|j2: int|
                0 <= j2 < n + 1 && (#[trigger] f[j2]).dkey@ == f[n].dkey@ implies j2 == n
                || crate::text::seq_lt(f[n].key@, f[j2].key@) by {
                if j2 < n {
                    assert(listed(f, out, f[j2].dkey@));
                }
            }
        } else {
            let oi = if i < p { i } else { i - 1 };
            assert(o2[i] == out[oi]);
            assert(prefix_winner(f, out[oi] as int, n));
            assert(f[out[oi] as int].dkey@ != d);
        }
    }
    assert forall|j: int| 0 <= j < n + 1 implies listed(f, o2, #[trigger] f[j].dkey@) by {
        if j == n {
            assert(f[o2[p] as int].dkey@ == f[j].dkey@);
        } else {
            assert(listed(f, out, f[j].dkey@));
            let i = choose|i: int| 0 <= i < out.len() && f[#[trigger] out[i] as int].dkey@ == f[j].dkey@;
            if i < p {
                assert(o2[i] == out[i]);
            } else {
                assert(o2[i + 1] == out[i]);
            }
        }
    }
}

/// The winners among all entries, by increasing dedup key.
fn order_winners(f: &Vec<Fixed>) -> (out: Vec<usize>)
    requires
        keys_distinct(f@),
    ensures
        ordered_winners(f@, out@, f@.len() as int),
{
    let mut out: Vec<usize> = Vec::new();
    let mut n: usize = 0;
    while n < f.len()
        invariant
            n <= f@.len(),
            keys_distinct(f@),
            ordered_winners(f@, out@, n as int),
        decreases f.len() - n,
    {
        let mut p: usize = 0;
        while p < out.len() && crate::text::vec_lt(&f[out[p]].dkey, &f[n].dkey)
            invariant
                n < f@.len(),
                p <= out@.len(),
                ordered_winners(f@, out@, n as int),
                forall|i: int|
                    0 <= i < p ==> crate::text::seq_lt(f@[#[trigger] out@[i] as int].dkey@, f@[n as int].dkey@),
            decreases out.len() - p,
        {
            p += 1;
        }
        if p < out.len() && vec_eq(&f[out[p]].dkey, &f[n].dkey) {
            if crate::text::vec_lt(&f[n].key, &f[out[p]].key) {
                proof {
                    lemma_replace(f@, out@, n as int, p as int);
                }
                out.set(p, n);
            } else {
                proof {
                    lemma_keep(f@, out@, n as int, p as int);
                }
            }
        } else {
            proof {
                lemma_insert(f@, out@, n as int, p as int);
            }
            out.insert(p, n);
        }
        n += 1;
    }
    out
}

} // verus!

verus! {

/// A one-element list of source labels.
pub fn source_list(label: &str) -> (v: Vec<String>)
    ensures
        v@.map_values(|s: String| s@) == seq![label@],
{
    let mut v: Vec<String> = Vec::new();
    v.push(label.to_owned());
    assert(v@.map_values(|s: String| s@) =~= seq![label@]);
    v
}

fn is_app_kind(k: Option<CandidateKind>) -> (r: bool)
    ensures
        r == is_app_signal(k),
{
    match k {
        Some(CandidateKind::AppAsar) | Some(CandidateKind::AppPackageJson) | Some(
            CandidateKind::ElectronExe,
        ) => true,
        _ => false,
    }
}

spec fn fixed_matches(f: Fixed, r: Row, exes: Seq<Row>) -> bool {
    &&& f.key@ == r.0
    &&& (f.name@, f.path@) == refine_app(r.0, r.1, r.2, exes)
    &&& f.dkey@ == lower(f.path@)
}

/// Groups Electron candidate paths into deduplicated installed apps.
///
/// Paths carrying an app signal (`app.asar`, `resources\app\package.json` or
/// `electron.exe`) give an app root, the first occurrence per lower-cased root
/// winning; executables beside a root supply better names for generic root
/// directories; apps are then deduplicated by lower-cased path, keeping the one
/// whose root sorts first, and listed by lower-cased path.
pub fn installed_apps_from_candidates(paths: Vec<String>) -> (apps: Vec<ElectronApp>)
    ensures
        installed_apps_spec(crate::text::strs_view(paths@), apps_view(apps@)),
{
    let ghost pv = crate::text::strs_view(paths@);
    let mut exes: Vec<Named> = Vec::new();
    let mut roots: Vec<Named> = Vec::new();
    let mut i: usize = 0;
    while i < paths.len()
        invariant
            i <= paths@.len(),
            pv == crate::text::strs_view(paths@),
            rows(exes@) == root_exes_seq(pv.take(i as int)),
            rows(roots@) == app_roots_seq(pv.take(i as int)),
        decreases paths.len() - i,
    {
        let v = chars_of(paths[i].as_str());
        let spans = component_spans(&v);
        assert(v@ == pv[i as int]);
        let ghost pre = pv.take(i + 1);
        assert(pre.drop_last() == pv.take(i as int));
        assert(pre.last() == pv[i as int]);
        match root_exe_name(&v, &spans) {
            Some((rl, ss, se)) => {
                let root = slice_vec(&v, 0, rl);
                assert(root@ == v@.take(rl as int));
                insert_row(&mut exes, root, slice_vec(&v, ss, se));
            },
            None => {},
        }
        let kind = candidate_kind_of(&v, &spans);
        if is_app_kind(kind) {
            match app_root_before_resources(&v, &spans) {
                Some((rl, ns, ne)) => {
                    let root = slice_vec(&v, 0, rl);
                    assert(root@ == v@.take(rl as int));
                    insert_row(&mut roots, root, slice_vec(&v, ns, ne));
                },
                None => {},
            }
        }
        i += 1;
    }
    assert(pv.take(paths@.len() as int) == pv);
    let ghost a = app_roots_seq(pv);
    let ghost x = root_exes_seq(pv);

    let mut fixed: Vec<Fixed> = Vec::new();
    let mut j: usize = 0;
    while j < roots.len()
        invariant
            j <= roots@.len(),
            fixed@.len() == j,
            rows(roots@) == a,
            rows(exes@) == x,
            forall|m: int| 0 <= m < j ==> fixed_matches(#[trigger] fixed@[m], a[m], x),
        decreases roots.len() - j,
    {
        let (name, path) = refine(&roots[j], &exes);
        let dkey = lower_vec(&path);
        let key = copy_vec(&roots[j].key);
        assert(a[j as int] == (roots@[j as int].key@, roots@[j as int].root@, roots@[j as int].name@));
        fixed.push(Fixed { key, name, path, dkey });
        j += 1;
    }
    proof {
        lemma_app_roots_distinct(pv);
        assert forall|p: int, q: int|
            0 <= p < fixed@.len() && 0 <= q < fixed@.len() && p != q implies (#[trigger] fixed@[p]).key@
            != (#[trigger] fixed@[q]).key@ by {
            assert(fixed_matches(fixed@[p], a[p], x));
            assert(fixed_matches(fixed@[q], a[q], x));
        }
    }
    let out = order_winners(&fixed);

    let mut apps: Vec<ElectronApp> = Vec::new();
    let mut k: usize = 0;
    while k < out.len()
        invariant
            k <= out@.len(),
            apps@.len() == k,
            ordered_winners(fixed@, out@, fixed@.len() as int),
            forall|m: int|
                0 <= m < k ==> (#[trigger] apps@[m])@ == (AppView {
                    name: fixed@[out@[m] as int].name@,
                    path: fixed@[out@[m] as int].path@,
                    sources: seq!["ntfs"@],
                }),
        decreases out.len() - k,
    {
        let o = out[k];
        assert(o < fixed@.len());
        let app = ElectronApp {
            name: crate::text::string_of(&fixed[o].name),
            path: crate::text::string_of(&fixed[o].path),
            sources: source_list("ntfs"),
        };
        apps.push(app);
        k += 1;
    }
    proof {
        let r = apps_view(apps@);
        let f = fixed@;
        assert forall|m: int| 0 <= m < f.len() implies #[trigger] dedup_key(pv, m) == f[m].dkey@
            && entry_app(pv, m) == (f[m].name@, f[m].path@) && a[m].0 == f[m].key@ by {
            assert(fixed_matches(f[m], a[m], x));
        }
        assert forall|i1: int, i2: int| 0 <= i1 < i2 < r.len() implies crate::text::seq_lt(
            lower(#[trigger] r[i1].path),
            lower(#[trigger] r[i2].path),
        ) by {
            assert(r[i1] == apps@[i1]@ && r[i2] == apps@[i2]@);
            assert(fixed_matches(f[out@[i1] as int], a[out@[i1] as int], x));
            assert(fixed_matches(f[out@[i2] as int], a[out@[i2] as int], x));
        }
        assert forall|i1: int| 0 <= i1 < r.len() implies (#[trigger] r[i1]).sources == seq!["ntfs"@]
            && exists|jj: int| is_winner(pv, jj) && entry_app(pv, jj) == (r[i1].name, r[i1].path) by {
            assert(r[i1] == apps@[i1]@);
            let w = out@[i1] as int;
            assert(prefix_winner(f, w, f.len() as int));
            assert forall|j2: int|
                0 <= j2 < a.len() && #[trigger] dedup_key(pv, j2) == dedup_key(pv, w) implies j2 == w
                || crate::text::seq_lt(a[w].0, a[j2].0) by {
                assert(f[j2].dkey@ == f[w].dkey@);
            }
            assert(is_winner(pv, w));
        }
        assert forall|jj: int| 0 <= jj < a.len() implies lists_key(r, #[trigger] dedup_key(pv, jj)) by {
            assert(listed(f, out@, f[jj].dkey@));
            let i1 = choose|i1: int| 0 <= i1 < out@.len() && f[#[trigger] out@[i1] as int].dkey@ == f[jj].dkey@;
            assert(r[i1] == apps@[i1]@);
            assert(fixed_matches(f[out@[i1] as int], a[out@[i1] as int], x));
        }
    }
    apps
}

} // verus!

verus! {

// ---------------------------------------------------------------------------
// Properties of the grouping
// ---------------------------------------------------------------------------

/// Installed apps are listed once per path, ASCII case ignored.
pub proof fn law_installed_paths_distinct(paths: Seq<Seq<char>>, r: Seq<AppView>)
    requires
        installed_apps_spec(paths, r),
    ensures
        forall|i: int, k: int|
            0 <= i < r.len() && 0 <= k < r.len() && i != k ==> lower(#[trigger] r[i].path) != lower(
                #[trigger] r[k].path,
            ),
{
    assert forall|i: int, k: int|
        0 <= i < r.len() && 0 <= k < r.len() && i != k implies lower(#[trigger] r[i].path) != lower(
        #[trigger] r[k].path,
    ) by {
        if i < k {
            crate::text::lemma_lt_irreflexive(lower(r[i].path));
        } else {
            crate::text::lemma_lt_irreflexive(lower(r[k].path));
        }
    }
}

proof fn lemma_no_roots(paths: Seq<Seq<char>>)
    requires
        forall|k: int| 0 <= k < paths.len() ==> !is_app_signal(spec_candidate_kind(#[trigger] paths[k])),
    ensures
        app_roots_seq(paths).len() == 0,
    decreases paths.len(),
{
    if paths.len() > 0 {
        let init = paths.drop_last();
        assert forall|k: int| 0 <= k < init.len() implies !is_app_signal(spec_candidate_kind(#[trigger] init[k])) by {
            assert(init[k] == paths[k]);
        }
        lemma_no_roots(init);
        assert(!is_app_signal(spec_candidate_kind(paths[paths.len() - 1])));
    }
}

/// Candidates without an app signal (a bare `resources` directory, any other
/// file) give no installed app.
pub proof fn law_no_signal_no_apps(paths: Seq<Seq<char>>, r: Seq<AppView>)
    requires
        installed_apps_spec(paths, r),
        forall|k: int| 0 <= k < paths.len() ==> !is_app_signal(spec_candidate_kind(#[trigger] paths[k])),
    ensures
        r.len() == 0,
{
    lemma_no_roots(paths);
    if r.len() > 0 {
        assert(r[0].sources == seq!["ntfs"@]);
    }
}

proof fn lemma_roots_grow(t: Seq<Row>, o: Option<(Seq<char>, Seq<char>)>)
    ensures
        insert_first(t, o).len() >= t.len(),
        o is Some ==> insert_first(t, o).len() > 0,
{
    if let Some((root, name)) = o {
        if lookup(t, lower(root)) is Some {
            assert(t.len() > 0);
        }
    }
}

proof fn lemma_roots_nonempty(paths: Seq<Seq<char>>, k: int)
    requires
        0 <= k < paths.len(),
        app_root_of(paths[k]) is Some,
    ensures
        app_roots_seq(paths).len() > 0,
    decreases paths.len(),
{
    let init = paths.drop_last();
    lemma_roots_grow(app_roots_seq(init), app_root_of(paths.last()));
    if k < paths.len() - 1 {
        assert(init[k] == paths[k]);
        lemma_roots_nonempty(init, k);
    }
}

/// A candidate with an app signal under a `resources` directory gives at
/// least one installed app.
pub proof fn law_signal_gives_app(paths: Seq<Seq<char>>, r: Seq<AppView>, k: int)
    requires
        installed_apps_spec(paths, r),
        0 <= k < paths.len(),
        app_root_of(paths[k]) is Some,
    ensures
        r.len() > 0,
{
    lemma_roots_nonempty(paths, k);
    assert(lists_key(r, dedup_key(paths, 0)));
}

proof fn lemma_winner_unique(paths: Seq<Seq<char>>, j1: int, j2: int)
    requires
        is_winner(paths, j1),
        is_winner(paths, j2),
        dedup_key(paths, j1) == dedup_key(paths, j2),
    ensures
        j1 == j2,
{
    let a = app_roots_seq(paths);
    if j1 != j2 {
        assert(crate::text::seq_lt(a[j1].0, a[j2].0));
        assert(crate::text::seq_lt(a[j2].0, a[j1].0));
        crate::text::lemma_lt_asymmetric(a[j1].0, a[j2].0);
    }
}

/// The lower-cased paths of a list of apps.
pub open spec fn lower_paths(r: Seq<AppView>) -> Seq<Seq<char>> {
    r.map_values(|a: AppView| lower(a.path))
}

proof fn lemma_lower_paths_listing(paths: Seq<Seq<char>>, r: Seq<AppView>)
    requires
        installed_apps_spec(paths, r),
    ensures
        crate::text::strictly_sorted(lower_paths(r)),
        forall|x: Seq<char>| #[trigger] lower_paths(r).contains(x) <==> exists|j: int|
            0 <= j < app_roots_seq(paths).len() && dedup_key(paths, j) == x,
{
    let q = lower_paths(r);
    assert forall|i: int, k: int| 0 <= i < k < q.len() implies crate::text::seq_lt(#[trigger] q[i], #[trigger] q[k]) by {
        assert(crate::text::seq_lt(lower(r[i].path), lower(r[k].path)));
    }
    assert forall|x: Seq<char>| #[trigger] q.contains(x) <==> exists|j: int|
        0 <= j < app_roots_seq(paths).len() && dedup_key(paths, j) == x by {
        if q.contains(x) {
            let i = choose|i: int| 0 <= i < q.len() && q[i] == x;
            assert(r[i].sources == seq!["ntfs"@]);
            let j = choose|j: int| is_winner(paths, j) && entry_app(paths, j) == (r[i].name, r[i].path);
            assert(dedup_key(paths, j) == x);
        }
        if exists|j: int| 0 <= j < app_roots_seq(paths).len() && dedup_key(paths, j) == x {
            let j = choose|j: int| 0 <= j < app_roots_seq(paths).len() && dedup_key(paths, j) == x;
            assert(lists_key(r, dedup_key(paths, j)));
            let i = choose|i: int| 0 <= i < r.len() && lower(#[trigger] r[i].path) == dedup_key(paths, j);
            assert(q[i] == x);
        }
    }
}

/// The installed apps are determined by the candidates: two lists that both
/// meet the contract of `installed_apps_from_candidates` are the same list.
pub proof fn law_installed_apps_determined(paths: Seq<Seq<char>>, r1: Seq<AppView>, r2: Seq<AppView>)
    requires
        installed_apps_spec(paths, r1),
        installed_apps_spec(paths, r2),
    ensures
        r1 == r2,
{
    lemma_lower_paths_listing(paths, r1);
    lemma_lower_paths_listing(paths, r2);
    let q1 = lower_paths(r1);
    let q2 = lower_paths(r2);
    assert forall|x: Seq<char>| #[trigger] q1.contains(x) <==> q2.contains(x) by {
        assert(q1.contains(x) == exists|j: int| 0 <= j < app_roots_seq(paths).len() && dedup_key(paths, j) == x);
        assert(q2.contains(x) == exists|j: int| 0 <= j < app_roots_seq(paths).len() && dedup_key(paths, j) == x);
    }
    crate::text::lemma_sorted_listing_unique(q1, q2);
    assert(r1.len() == r2.len()) by {
        assert(q1.len() == r1.len() && q2.len() == r2.len());
    }
    assert forall|i: int| 0 <= i < r1.len() implies r1[i] == r2[i] by {
        assert(q1[i] == q2[i]);
        assert(r1[i].sources == seq!["ntfs"@]);
        assert(r2[i].sources == seq!["ntfs"@]);
        let j1 = choose|j: int| is_winner(paths, j) && entry_app(paths, j) == (r1[i].name, r1[i].path);
        let j2 = choose|j: int| is_winner(paths, j) && entry_app(paths, j) == (r2[i].name, r2[i].path);
        assert(dedup_key(paths, j1) == q1[i]);
        assert(dedup_key(paths, j2) == q2[i]);
        lemma_winner_unique(paths, j1, j2);
    }
    assert(r1 =~= r2);
}

/// The path of every app root is non-empty once generic names are replaced.
proof fn lemma_entry_path_nonempty(paths: Seq<Seq<char>>, j: int)
    requires
        0 <= j < app_roots_seq(paths).len(),
    ensures
        entry_app(paths, j).1.len() > 0,
{
    lemma_app_rows_from(paths);
    lemma_exe_rows_from(paths);
    let a = app_roots_seq(paths)[j];
    let exes = root_exes_seq(paths);
    let k = choose|k: int| 0 <= k < paths.len() && app_root_of(#[trigger] paths[k]) == Some((a.1, a.2));
    assert(a.1.len() > 0);
    let s = last_delim(a.0, Delims::Path);
    if s >= 0 {
        lemma_lookup_some(exes, a.0.take(s));
        if let Some((pr, n)) = lookup(exes, a.0.take(s)) {
            let i = choose|i: int| 0 <= i < exes.len() && #[trigger] exes[i] == (a.0.take(s), pr, n);
            let k2 = choose|k2: int| 0 <= k2 < paths.len() && spec_root_exe_name(#[trigger] paths[k2]) == Some((exes[i].1, exes[i].2));
            assert(pr.len() > 0);
        }
    }
}

/// Installed apps come in increasing order of lower-cased path, each with a
/// non-empty path and the source `ntfs`, and there are no more of them than
/// candidates.
pub proof fn law_installed_apps_listing(paths: Seq<Seq<char>>, r: Seq<AppView>)
    requires
        installed_apps_spec(paths, r),
    ensures
        forall|i: int, k: int|
            0 <= i < k < r.len() ==> crate::text::seq_lt(lower(#[trigger] r[i].path), lower(#[trigger] r[k].path)),
        forall|i: int| 0 <= i < r.len() ==> (#[trigger] r[i]).path.len() > 0 && r[i].sources == seq!["ntfs"@],
        r.len() <= paths.len(),
{
    let a = app_roots_seq(paths);
    lemma_app_rows_from(paths);
    assert forall|i: int| 0 <= i < r.len() implies (#[trigger] r[i]).path.len() > 0 && r[i].sources == seq!["ntfs"@] by {
        let j = choose|j: int| is_winner(paths, j) && entry_app(paths, j) == (r[i].name, r[i].path);
        lemma_entry_path_nonempty(paths, j);
    }
    let js = Seq::new(r.len(), |i: int| choose|j: int| is_winner(paths, j) && entry_app(paths, j) == (r[i].name, r[i].path));
    assert forall|i: int| 0 <= i < js.len() implies 0 <= #[trigger] js[i] < a.len() && entry_app(paths, js[i]).1 == r[i].path by {
        assert(r[i].sources == seq!["ntfs"@]);
    }
    assert forall|i: int, k: int| 0 <= i < js.len() && 0 <= k < js.len() && i != k implies #[trigger] js[i] != #[trigger] js[k] by {
        assert(entry_app(paths, js[i]).1 == r[i].path);
        assert(entry_app(paths, js[k]).1 == r[k].path);
        if js[i] == js[k] {
            if i < k {
                assert(crate::text::seq_lt(lower(r[i].path), lower(r[k].path)));
                crate::text::lemma_lt_irreflexive(lower(r[i].path));
            } else {
                assert(crate::text::seq_lt(lower(r[k].path), lower(r[i].path)));
                crate::text::lemma_lt_irreflexive(lower(r[k].path));
            }
        }
    }
    crate::text::lemma_distinct_in_range(js, a.len() as int);
}

/// Once a root key is in the app-root table, later candidates keep it there.
proof fn lemma_root_listed(paths: Seq<Seq<char>>, k: int)
    requires
        0 <= k < paths.len(),
        app_root_of(paths[k]) is Some,
    ensures
        lookup(app_roots_seq(paths), lower((app_root_of(paths[k])->0).0)) is Some,
    decreases paths.len(),
{
    let key = lower((app_root_of(paths[k])->0).0);
    let init = paths.drop_last();
    let t = app_roots_seq(init);
    if k < paths.len() - 1 {
        assert(init[k] == paths[k]);
        lemma_root_listed(init, k);
    }
    match app_root_of(paths.last()) {
        Some((root, name)) => {
            if lookup(t, lower(root)) is None {
                let t2 = t.push((lower(root), root, name));
                assert(t2.drop_last() == t);
                assert(t2.last() == (lower(root), root, name));
            }
        },
        None => {},
    }
}

/// Every app root found among the candidates is reported, when no candidate
/// gives that root (ASCII case ignored) a generic directory name that would
/// send the name and path to a parent directory.
pub proof fn law_qualifying_root_reported(paths: Seq<Seq<char>>, r: Seq<AppView>, k: int)
    requires
        installed_apps_spec(paths, r),
        0 <= k < paths.len(),
        app_root_of(paths[k]) is Some,
        forall|k2: int|
            0 <= k2 < paths.len() && (#[trigger] app_root_of(paths[k2])) is Some && lower((app_root_of(paths[k2])->0).0)
                == lower((app_root_of(paths[k])->0).0) ==> !spec_is_generic_root_name((app_root_of(paths[k2])->0).1),
    ensures
        exists|i: int| 0 <= i < r.len() && lower(#[trigger] r[i].path) == lower((app_root_of(paths[k])->0).0),
{
    let key = lower((app_root_of(paths[k])->0).0);
    let a = app_roots_seq(paths);
    lemma_root_listed(paths, k);
    lemma_lookup_some(a, key);
    lemma_app_rows_from(paths);
    let (ar, an) = lookup(a, key)->0;
    let i = choose|i: int| 0 <= i < a.len() && #[trigger] a[i] == (key, ar, an);
    let k2 = choose|k2: int| 0 <= k2 < paths.len() && app_root_of(#[trigger] paths[k2]) == Some((a[i].1, a[i].2));
    assert(!spec_is_generic_root_name(an));
    assert(entry_app(paths, i) == (an, ar));
    assert(lists_key(r, dedup_key(paths, i)));
}

/// `root` is a directory of `p`: a proper prefix of it followed by a
/// separator.
pub open spec fn is_dir_prefix(root: Seq<char>, p: Seq<char>) -> bool {
    &&& root.len() < p.len()
    &&& p.take(root.len() as int) == root
    &&& is_delim(Delims::Path, p[root.len() as int])
}

/// Trimming trailing separators keeps a prefix and removes only separators,
/// the last one included.
proof fn lemma_trim_end(q: Seq<char>)
    ensures
        trim_end_seps(q).len() <= q.len(),
        trim_end_seps(q) == q.take(trim_end_seps(q).len() as int),
        forall|i: int| trim_end_seps(q).len() <= i < q.len() ==> is_delim(Delims::Path, #[trigger] q[i]),
        q.len() > 0 && is_delim(Delims::Path, q.last()) ==> trim_end_seps(q).len() < q.len(),
    decreases q.len(),
{
    if q.len() > 0 && is_delim(Delims::Path, q.last()) {
        lemma_trim_end(q.drop_last());
        let t = trim_end_seps(q);
        assert(t == q.drop_last().take(t.len() as int));
        assert(q.take(t.len() as int) =~= q.drop_last().take(t.len() as int));
        assert forall|i: int| t.len() <= i < q.len() implies is_delim(Delims::Path, #[trigger] q[i]) by {
            if i < q.len() - 1 {
                assert(q[i] == q.drop_last()[i]);
            }
        }
    } else {
        assert(q.take(q.len() as int) =~= q);
    }
}

/// The character just before a component other than the first is a
/// separator.
proof fn lemma_before_comp(p: Seq<char>, j: int)
    requires
        1 <= j < comps(p).len(),
    ensures
        comps(p)[j].0 >= 1,
        is_delim(Delims::Path, p[comps(p)[j].0 - 1]),
{
    crate::text::law_components_are_maximal_runs(p);
    let c = comps(p);
    let x = c[j].0 - 1;
    assert(c[j - 1].1 < c[j].0);
    assert(c[j - 1].0 < c[j - 1].1);
    if !is_delim(Delims::Path, p[x]) {
        let k = choose|k: int| 0 <= k < c.len() && (#[trigger] c[k]).0 <= x < c[k].1;
        if k >= j {
            if k > j {
                assert(c[j].1 < c[k].0);
            }
        } else if k < j - 1 {
            assert(c[k].1 < c[j - 1].0);
        }
    }
}

/// The root in front of the `j`-th component (not the first), trailing
/// separators trimmed, is a directory of `p`.
proof fn lemma_trimmed_root(p: Seq<char>, j: int)
    requires
        1 <= j < comps(p).len(),
        trim_end_seps(p.take(comps(p)[j].0)).len() > 0,
    ensures
        is_dir_prefix(trim_end_seps(p.take(comps(p)[j].0)), p),
{
    crate::text::lemma_comps_bounds(p, 0);
    lemma_before_comp(p, j);
    let st = comps(p)[j].0;
    let q = p.take(st);
    lemma_trim_end(q);
    assert(q.last() == p[st - 1]);
    let t = trim_end_seps(q);
    assert(q[t.len() as int] == p[t.len() as int]);
    assert(p.take(t.len() as int) =~= q.take(t.len() as int));
}

/// The parent found by `spec_parent_root_name` is a directory of the path.
proof fn lemma_parent_is_dir(x: Seq<char>)
    requires
        spec_parent_root_name(x) is Some,
    ensures
        is_dir_prefix((spec_parent_root_name(x)->0).0, x),
{
    let s = last_delim(x, Delims::Path);
    lemma_last_delim(x, Delims::Path);
    let q = x.take(s);
    lemma_trim_end(q);
    let t = trim_end_seps(q);
    if t.len() < s {
        assert(q[t.len() as int] == x[t.len() as int]);
    }
    assert(x.take(t.len() as int) =~= q.take(t.len() as int));
}

/// A directory of a directory of `p` is a directory of `p`.
proof fn lemma_dir_prefix_trans(a: Seq<char>, b: Seq<char>, p: Seq<char>)
    requires
        is_dir_prefix(a, b),
        is_dir_prefix(b, p),
    ensures
        is_dir_prefix(a, p),
{
    assert(p[a.len() as int] == p.take(b.len() as int)[a.len() as int]);
    assert(p.take(a.len() as int) =~= p.take(b.len() as int).take(a.len() as int));
}

/// Every installed app's path is a directory of some candidate: a proper
/// prefix of it followed by a separator.
pub proof fn law_app_paths_are_candidate_dirs(paths: Seq<Seq<char>>, r: Seq<AppView>)
    requires
        installed_apps_spec(paths, r),
    ensures
        forall|i: int| 0 <= i < r.len() ==> exists|k: int| 0 <= k < paths.len() && is_dir_prefix(#[trigger] r[i].path, paths[k]),
{
    lemma_app_rows_from(paths);
    lemma_exe_rows_from(paths);
    let exes = root_exes_seq(paths);
    assert forall|i: int| 0 <= i < r.len() implies exists|k: int| 0 <= k < paths.len() && is_dir_prefix(#[trigger] r[i].path, paths[k]) by {
        assert(r[i].sources == seq!["ntfs"@]);
        let j = choose|j: int| is_winner(paths, j) && entry_app(paths, j) == (r[i].name, r[i].path);
        let a = app_roots_seq(paths)[j];
        let k = choose|k: int| 0 <= k < paths.len() && app_root_of(#[trigger] paths[k]) == Some((a.1, a.2));
        let p = paths[k];
        let jr = first_part_ic(p, "resources"@, 0);
        lemma_trimmed_root(p, jr);
        assert(is_dir_prefix(a.1, p));
        let name1 = if spec_is_generic_root_name(a.2) {
            match lookup(exes, a.0) {
                Some((_, n)) => n,
                None => a.2,
            }
        } else {
            a.2
        };
        if spec_should_use_parent_root_name(name1) {
            let s = last_delim(a.0, Delims::Path);
            if s >= 0 && lookup(exes, a.0.take(s)) is Some {
                lemma_lookup_some(exes, a.0.take(s));
                let (pr, n) = lookup(exes, a.0.take(s))->0;
                let e = choose|e: int| 0 <= e < exes.len() && #[trigger] exes[e] == (a.0.take(s), pr, n);
                let k2 = choose|k2: int| 0 <= k2 < paths.len() && spec_root_exe_name(#[trigger] paths[k2]) == Some((exes[e].1, exes[e].2));
                let p2 = paths[k2];
                lemma_trimmed_root(p2, comps(p2).len() - 1);
                assert(is_dir_prefix(r[i].path, paths[k2]));
            } else if spec_parent_root_name(a.1) is Some {
                lemma_parent_is_dir(a.1);
                lemma_dir_prefix_trans(r[i].path, a.1, p);
            }
        }
    }
}

/// An executable other than `electron.exe` carries no app signal.
proof fn lemma_exe_not_signal(x: Seq<char>)
    requires
        spec_root_exe_name(x) is Some,
    ensures
        app_root_of(x) is None,
{
    let n = comps(x).len();
    let f = part(x, n - 1);
    let stem = spec_exe_stem(f)->0;
    reveal_strlit(".exe");
    reveal_strlit("app.asar");
    reveal_strlit("package.json");
    reveal_strlit("electron.exe");
    reveal_strlit("electron");
    let m = f.len() - 4;
    assert(f.skip(m)[0] == f[m]);
    assert(crate::text::lower_char(f[m]) == '.');
    if eq_ic(f, "app.asar"@) {
        assert(crate::text::lower_char(f[4]) == 'a');
    }
    if eq_ic(f, "package.json"@) {
        assert(crate::text::lower_char(f[8]) == 'j');
    }
    if eq_ic(f, "electron.exe"@) {
        assert(stem == f.take(8));
        assert forall|i: int| 0 <= i < stem.len() implies crate::text::lower_char(#[trigger] stem[i])
            == crate::text::lower_char("electron"@[i]) by {
            assert(stem[i] == f[i]);
            assert("electron.exe"@[i] == "electron"@[i]);
        }
        assert(eq_ic(stem, "electron"@));
    }
}

/// Once a directory is in the executable table, later candidates keep its
/// first entry.
proof fn lemma_exe_listed(paths: Seq<Seq<char>>, k: int)
    requires
        0 <= k < paths.len(),
        spec_root_exe_name(paths[k]) is Some,
    ensures
        lookup(root_exes_seq(paths), lower((spec_root_exe_name(paths[k])->0).0)) is Some,
    decreases paths.len(),
{
    let init = paths.drop_last();
    let t = root_exes_seq(init);
    if k < paths.len() - 1 {
        assert(init[k] == paths[k]);
        lemma_exe_listed(init, k);
    }
    match spec_root_exe_name(paths.last()) {
        Some((root, name)) => {
            if lookup(t, lower(root)) is None {
                let t2 = t.push((lower(root), root, name));
                assert(t2.drop_last() == t);
                assert(t2.last() == (lower(root), root, name));
            }
        },
        None => {},
    }
}

/// Executables name their directory first-wins: a later candidate that is an
/// executable (other than `electron.exe`) directly in a directory where an
/// earlier candidate already is one (ASCII case ignored) changes no
/// installed app.
pub proof fn law_later_executable_changes_nothing(
    paths: Seq<Seq<char>>,
    x: Seq<char>,
    k: int,
    r: Seq<AppView>,
    r2: Seq<AppView>,
)
    requires
        0 <= k < paths.len(),
        spec_root_exe_name(paths[k]) is Some,
        spec_root_exe_name(x) is Some,
        lower((spec_root_exe_name(paths[k])->0).0) == lower((spec_root_exe_name(x)->0).0),
        installed_apps_spec(paths, r),
        installed_apps_spec(paths.push(x), r2),
    ensures
        r2 == r,
{
    let p2 = paths.push(x);
    assert(p2.drop_last() == paths);
    assert(p2.last() == x);
    lemma_exe_not_signal(x);
    lemma_exe_listed(paths, k);
    assert(app_roots_seq(p2) == app_roots_seq(paths));
    assert(root_exes_seq(p2) == root_exes_seq(paths));
    assert forall|j: int| #[trigger] entry_app(p2, j) == entry_app(paths, j) by {}
    assert forall|j: int| #[trigger] dedup_key(p2, j) == dedup_key(paths, j) by {
        assert(entry_app(p2, j) == entry_app(paths, j));
    }
    let a = app_roots_seq(paths);
    assert forall|j: int| #[trigger] is_winner(p2, j) == is_winner(paths, j) by {
        assert(dedup_key(p2, j) == dedup_key(paths, j));
        if is_winner(p2, j) {
            assert forall|j2: int|
                0 <= j2 < a.len() && #[trigger] dedup_key(paths, j2) == dedup_key(paths, j) implies j2 == j
                    || crate::text::seq_lt(a[j].0, a[j2].0) by {
                assert(dedup_key(p2, j2) == dedup_key(paths, j2));
            }
        }
        if is_winner(paths, j) {
            assert forall|j2: int|
                0 <= j2 < a.len() && #[trigger] dedup_key(p2, j2) == dedup_key(p2, j) implies j2 == j
                    || crate::text::seq_lt(a[j].0, a[j2].0) by {
                assert(dedup_key(p2, j2) == dedup_key(paths, j2));
            }
        }
    }
    assert(installed_apps_spec(paths, r2)) by {
        assert forall|i: int| 0 <= i < r2.len() implies (#[trigger] r2[i]).sources == seq!["ntfs"@] && exists|j: int|
            is_winner(paths, j) && entry_app(paths, j) == (r2[i].name, r2[i].path) by {
            let j = choose|j: int| is_winner(p2, j) && entry_app(p2, j) == (r2[i].name, r2[i].path);
            assert(is_winner(paths, j));
            assert(entry_app(paths, j) == entry_app(p2, j));
        }
        assert forall|j: int| 0 <= j < app_roots_seq(paths).len() implies lists_key(r2, #[trigger] dedup_key(paths, j)) by {
            assert(lists_key(r2, dedup_key(p2, j)));
            assert(dedup_key(p2, j) == dedup_key(paths, j));
        }
    }
    law_installed_apps_determined(paths, r, r2);
}

/// A path with a component `resources` (ASCII case ignored), at any
/// position, is an Electron candidate: a resources directory, unless an
/// `app.asar`, `electron.exe` or `resources\app\package.json` signal applies.
pub proof fn law_resources_component_is_candidate(p: Seq<char>, x: int)
    requires
        0 <= x,
        x + 9 <= p.len(),
        eq_ic(p.subrange(x, x + 9), "resources"@),
        x == 0 || is_delim(Delims::Path, p[x - 1]),
        x + 9 == p.len() || is_delim(Delims::Path, p[x + 9]),
    ensures
        spec_candidate_kind(p) is Some,
{
    reveal_strlit("resources");
    let c = comps(p);
    assert forall|i: int| x <= i < x + 9 implies !is_delim(Delims::Path, #[trigger] p[i]) by {
        assert(p.subrange(x, x + 9)[i - x] == p[i]);
        assert(crate::text::lower_char(p[i]) == crate::text::lower_char("resources"@[i - x]));
    }
    crate::text::law_components_are_maximal_runs(p);
    crate::text::lemma_comps_cover(p, 0);
    assert(!is_delim(Delims::Path, p[x]));
    let k = choose|k: int| 0 <= k < c.len() && (#[trigger] c[k]).0 <= x < c[k].1;
    if c[k].0 < x {
        assert(!is_delim(Delims::Path, p[x - 1]));
    }
    assert(c[k].0 == x);
    if c[k].1 > x + 9 {
        assert(!is_delim(Delims::Path, p[x + 9]));
    }
    if c[k].1 < x + 9 {
        let y = c[k].1;
        assert(!is_delim(Delims::Path, p[y]));
        let k2 = choose|k2: int| 0 <= k2 < c.len() && (#[trigger] c[k2]).0 <= y < c[k2].1;
        if k2 < k {
            assert(c[k2].1 < c[k].0);
        } else if k2 > k {
            assert(c[k].1 < c[k2].0);
        }
    }
    assert(c[k] == (x, x + 9));
    assert(part(p, k) == p.subrange(x, x + 9));
    assert(has_part_ic(p, "resources"@));
}

} // verus!
