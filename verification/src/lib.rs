//! Verified detection of Electron applications from path and process metadata.
//!
//! `detect` classifies candidate paths and groups them into installed apps,
//! `process` judges running processes, `ntfs` decodes USN record buffers and
//! rebuilds candidate paths, `cli` parses flags and `cache` holds what a
//! refresh found.  This module renders the report.

pub mod cache;
pub mod cli;
pub mod detect;
pub mod ntfs;
pub mod process;
pub mod text;

use vstd::prelude::*;

use crate::cli::CliArgs;
use crate::detect::{AppView, ElectronApp};
use crate::text::{concat_str, string_of};

verus! {

/// Full detector report printed by the CLI.
#[derive(Debug)]
pub struct Report {
    /// Electron apps detected from currently running processes.
    pub running: Vec<ElectronApp>,
    /// Electron apps loaded from the installed app cache.
    pub installed: Vec<ElectronApp>,
    /// Non-fatal detector failures surfaced to users.
    pub warnings: Vec<String>,
}

/// The usage text.
pub const HELP_TEXT: &'static str = "electron-detector

Usage:
    electron-detector [OPTIONS]

Options:
    --refresh       Refresh the installed app cache
    --json          Print JSON output
    --paths         Show full paths in text output
    -h, --help      Print help
    -V, --version   Print version
";

/// The usage text printed for `--help`.
pub fn help_text() -> (r: String)
    ensures
        r@ == HELP_TEXT@,
{
    HELP_TEXT.to_owned()
}

/// What a run of the command does, as its flags ask: print the help, print
/// the version, or detect and report.
#[derive(Debug, Clone, Copy, PartialEq, Eq, Structural)]
pub enum Request {
    Help,
    Version,
    Detect,
}

/// Help wins over version, and either over detection.
pub fn request_of(args: &CliArgs) -> (r: Request)
    ensures
        r == (if args.help {
            Request::Help
        } else if args.version {
            Request::Version
        } else {
            Request::Detect
        }),
{
    if args.help {
        Request::Help
    } else if args.version {
        Request::Version
    } else {
        Request::Detect
    }
}

/// The warning shown when the installed-app cache cannot be loaded.
pub fn refresh_hint(err: &str) -> (r: String)
    ensures
        r@ == err@ + "; run electron-detector --refresh"@,
{
    concat_str(err, "; run electron-detector --refresh")
}

/// The decimal digits of `n`.
pub open spec fn decimal(n: nat) -> Seq<char>
    decreases n,
{
    if n < 10 {
        seq![(48 + n) as char]
    } else {
        decimal(n / 10) + seq![(48 + n % 10) as char]
    }
}

fn push_decimal(out: &mut Vec<char>, n: usize)
    ensures
        final(out)@ == old(out)@ + decimal(n as nat),
    decreases n,
{
    if n >= 10 {
        push_decimal(out, n / 10);
    }
    let d = (n % 10) as u8;
    out.push(((48 + d) as u8) as char);
    assert(final(out)@ =~= old(out)@ + decimal(n as nat)) by {
        assert(((48 + d) as u8) as char == (48 + (n as nat) % 10) as char);
    }
}

/// The decimal representation of `n`.
pub fn decimal_string(n: usize) -> (s: String)
    ensures
        s@ == decimal(n as nat),
{
    let mut v: Vec<char> = Vec::new();
    push_decimal(&mut v, n);
    assert(v@ =~= decimal(n as nat));
    string_of(&v)
}

/// The line listing one app.
pub open spec fn app_line(a: AppView, show_paths: bool) -> Seq<char> {
    if show_paths {
        "- "@ + a.name + " ("@ + a.path + ")\n"@
    } else {
        "- "@ + a.name + "\n"@
    }
}

/// The lines listing some apps.
pub open spec fn app_lines(apps: Seq<AppView>, show_paths: bool) -> Seq<char>
    decreases apps.len(),
{
    if apps.len() == 0 {
        Seq::empty()
    } else {
        app_lines(apps.drop_last(), show_paths) + app_line(apps.last(), show_paths)
    }
}

/// The lines listing some warnings.
pub open spec fn warning_lines(ws: Seq<Seq<char>>) -> Seq<char>
    decreases ws.len(),
{
    if ws.len() == 0 {
        Seq::empty()
    } else {
        warning_lines(ws.drop_last()) + "warning: "@ + ws.last() + "\n"@
    }
}

/// The text report.
pub open spec fn spec_format_text(
    running: Seq<AppView>,
    installed: Seq<AppView>,
    warnings: Seq<Seq<char>>,
    show_paths: bool,
) -> Seq<char> {
    "Running Electron apps: "@ + decimal(running.len()) + "\n"@ + app_lines(running, show_paths) + "\n"@
        + "Installed Electron apps: "@ + decimal(installed.len()) + "\n"@ + app_lines(installed, show_paths)
        + warning_lines(warnings)
}

/// The line listing one app, with its path when asked.
pub fn format_app_line(app: &ElectronApp, show_paths: bool) -> (r: String)
    ensures
        r@ == app_line(app@, show_paths),
{
    let a = concat_str("- ", app.name.as_str());
    if show_paths {
        let b = concat_str(a.as_str(), " (");
        let c = concat_str(b.as_str(), app.path.as_str());
        concat_str(c.as_str(), ")\n")
    } else {
        concat_str(a.as_str(), "\n")
    }
}

fn append_app_lines(out: &mut String, apps: &Vec<ElectronApp>, show_paths: bool)
    ensures
        final(out)@ == old(out)@ + app_lines(crate::detect::apps_view(apps@), show_paths),
{
    let ghost av = crate::detect::apps_view(apps@);
    let mut i: usize = 0;
    while i < apps.len()
        invariant
            0 <= i <= apps@.len(),
            av == crate::detect::apps_view(apps@),
            out@ == old(out)@ + app_lines(av.take(i as int), show_paths),
        decreases apps.len() - i,
    {
        let line = format_app_line(&apps[i], show_paths);
        let next = concat_str(out.as_str(), line.as_str());
        *out = next;
        assert(av.take(i + 1).drop_last() == av.take(i as int));
        assert(av.take(i + 1).last() == apps@[i as int]@);
        assert(out@ =~= old(out)@ + app_lines(av.take(i + 1), show_paths));
        i += 1;
    }
    assert(av.take(apps@.len() as int) == av);
}

/// Renders the report as text, listing paths only when asked.
pub fn format_text(report: &Report, show_paths: bool) -> (r: String)
    ensures
        r@ == spec_format_text(
            crate::detect::apps_view(report.running@),
            crate::detect::apps_view(report.installed@),
            crate::text::strs_view(report.warnings@),
            show_paths,
        ),
{
    let running_count = decimal_string(report.running.len());
    let mut output = concat_str("Running Electron apps: ", running_count.as_str());
    output = concat_str(output.as_str(), "\n");
    append_app_lines(&mut output, &report.running, show_paths);
    output = concat_str(output.as_str(), "\n");
    let installed_count = decimal_string(report.installed.len());
    output = concat_str(output.as_str(), "Installed Electron apps: ");
    output = concat_str(output.as_str(), installed_count.as_str());
    output = concat_str(output.as_str(), "\n");
    append_app_lines(&mut output, &report.installed, show_paths);
    let ghost ws = crate::text::strs_view(report.warnings@);
    let ghost head = output@;
    let mut i: usize = 0;
    while i < report.warnings.len()
        invariant
            0 <= i <= report.warnings@.len(),
            ws == crate::text::strs_view(report.warnings@),
            output@ == head + warning_lines(ws.take(i as int)),
        decreases report.warnings.len() - i,
    {
        output = concat_str(output.as_str(), "warning: ");
        output = concat_str(output.as_str(), report.warnings[i].as_str());
        output = concat_str(output.as_str(), "\n");
        assert(ws.take(i + 1).drop_last() == ws.take(i as int));
        assert(ws.take(i + 1).last() == report.warnings@[i as int]@);
        assert(output@ =~= head + warning_lines(ws.take(i + 1)));
        i += 1;
    }
    assert(ws.take(report.warnings@.len() as int) == ws);
    assert(output@ =~= spec_format_text(
        crate::detect::apps_view(report.running@),
        crate::detect::apps_view(report.installed@),
        ws,
        show_paths,
    ));
    output
}

/// The same names, whatever the paths.
pub open spec fn same_names(a: Seq<AppView>, b: Seq<AppView>) -> bool {
    &&& a.len() == b.len()
    &&& forall|i: int| 0 <= i < a.len() ==> (#[trigger] a[i]).name == b[i].name
}

proof fn lemma_app_lines_hide_paths(a: Seq<AppView>, b: Seq<AppView>)
    requires
        same_names(a, b),
    ensures
        app_lines(a, false) == app_lines(b, false),
    decreases a.len(),
{
    if a.len() > 0 {
        assert(a.last() == a[a.len() - 1]);
        assert(a.last().name == b.last().name);
        lemma_app_lines_hide_paths(a.drop_last(), b.drop_last());
    }
}

/// Without `--paths` the text report shows no path: reports whose apps have
/// the same names, whatever their paths and sources, read the same.
pub proof fn law_text_hides_paths(
    running1: Seq<AppView>,
    installed1: Seq<AppView>,
    running2: Seq<AppView>,
    installed2: Seq<AppView>,
    warnings: Seq<Seq<char>>,
)
    requires
        same_names(running1, running2),
        same_names(installed1, installed2),
    ensures
        spec_format_text(running1, installed1, warnings, false) == spec_format_text(
            running2,
            installed2,
            warnings,
            false,
        ),
{
    lemma_app_lines_hide_paths(running1, running2);
    lemma_app_lines_hide_paths(installed1, installed2);
}

/// The number that a string of decimal digits spells.
pub open spec fn digits_value(s: Seq<char>) -> int
    decreases s.len(),
{
    if s.len() == 0 {
        0
    } else {
        digits_value(s.drop_last()) * 10 + (s.last() as int - 48)
    }
}

/// Counts are written in decimal: `decimal(n)` is a non-empty string of the
/// digits `0` to `9`, without a leading zero unless `n` is 0, that spells
/// `n`.
pub proof fn law_decimal_spells_count(n: nat)
    ensures
        decimal(n).len() > 0,
        forall|i: int| 0 <= i < decimal(n).len() ==> '0' <= #[trigger] decimal(n)[i] <= '9',
        n > 0 ==> decimal(n)[0] != '0',
        digits_value(decimal(n)) == n,
    decreases n,
{
    if n >= 10 {
        law_decimal_spells_count(n / 10);
        let d = decimal(n);
        assert(d.drop_last() =~= decimal(n / 10));
        assert(d.last() == (48 + n % 10) as char);
        assert forall|i: int| 0 <= i < d.len() implies '0' <= #[trigger] d[i] <= '9' by {
            if i < d.len() - 1 {
                assert(d[i] == decimal(n / 10)[i]);
            }
        }
        assert(d[0] == decimal(n / 10)[0]);
        assert(n / 10 > 0);
        assert(d.last() as int - 48 == n % 10);
        assert(digits_value(d) == digits_value(decimal(n / 10)) * 10 + (d.last() as int - 48));
        assert((n / 10) * 10 + n % 10 == n) by (nonlinear_arith);
        assert(digits_value(d) == n);
    } else {
        let d = decimal(n);
        assert(d.drop_last() =~= Seq::<char>::empty());
        assert(d.last() as int == 48 + n);
        assert(digits_value(d.drop_last()) == 0);
        assert(digits_value(d) == n);
    }
}

/// The text report opens with the number of running apps and, after the
/// running section, gives the number of installed apps; everything from the
/// installed header on depends only on the installed apps, the warnings and
/// whether paths are shown, not on the running apps.
pub proof fn law_text_counts(
    running1: Seq<AppView>,
    running2: Seq<AppView>,
    installed: Seq<AppView>,
    warnings: Seq<Seq<char>>,
    show_paths: bool,
)
    ensures
        exists|mid1: Seq<char>, mid2: Seq<char>, tail: Seq<char>|
            {
                &&& spec_format_text(running1, installed, warnings, show_paths) == "Running Electron apps: "@
                    + decimal(running1.len()) + "\n"@ + mid1 + "\nInstalled Electron apps: "@ + decimal(installed.len())
                    + "\n"@ + tail
                &&& spec_format_text(running2, installed, warnings, show_paths) == "Running Electron apps: "@
                    + decimal(running2.len()) + "\n"@ + mid2 + "\nInstalled Electron apps: "@ + decimal(installed.len())
                    + "\n"@ + tail
            },
{
    let tail = app_lines(installed, show_paths) + warning_lines(warnings);
    let mid1 = app_lines(running1, show_paths);
    let mid2 = app_lines(running2, show_paths);
    reveal_strlit("\n");
    reveal_strlit("\nInstalled Electron apps: ");
    reveal_strlit("Installed Electron apps: ");
    assert("\nInstalled Electron apps: "@ =~= "\n"@ + "Installed Electron apps: "@);
    assert(spec_format_text(running1, installed, warnings, show_paths) =~= "Running Electron apps: "@ + decimal(
        running1.len(),
    ) + "\n"@ + mid1 + "\nInstalled Electron apps: "@ + decimal(installed.len()) + "\n"@ + tail);
    assert(spec_format_text(running2, installed, warnings, show_paths) =~= "Running Electron apps: "@ + decimal(
        running2.len(),
    ) + "\n"@ + mid2 + "\nInstalled Electron apps: "@ + decimal(installed.len()) + "\n"@ + tail);
}

} // verus!
