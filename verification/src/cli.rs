//! Parses command line flags for the Electron detector CLI.

use vstd::prelude::*;

use crate::text::{chars_of, concat_str, range_eq};

verus! {

/// Command line flags accepted by the Electron detector.
#[derive(Debug, Clone, Copy, PartialEq, Eq, Structural)]
pub struct CliArgs {
    /// Forces a fresh scan instead of using cached detector state.
    pub refresh: bool,
    /// Prints detector output as JSON when supported.
    pub json: bool,
    /// Includes full app paths in text output.
    pub paths: bool,
    /// Prints usage text without running detection.
    pub help: bool,
    /// Prints package version without running detection.
    pub version: bool,
}

/// No flag set.
pub open spec fn no_flags() -> CliArgs {
    CliArgs { refresh: false, json: false, paths: false, help: false, version: false }
}

/// The flags after reading one more argument, or the error it causes.
pub open spec fn apply_arg(a: CliArgs, arg: Seq<char>) -> Result<CliArgs, Seq<char>> {
    if arg == "-h"@ || arg == "--help"@ {
        Ok(CliArgs { help: true, ..a })
    } else if arg == "-V"@ || arg == "--version"@ {
        Ok(CliArgs { version: true, ..a })
    } else if arg == "--refresh"@ {
        Ok(CliArgs { refresh: true, ..a })
    } else if arg == "--json"@ {
        Ok(CliArgs { json: true, ..a })
    } else if arg == "--paths"@ {
        Ok(CliArgs { paths: true, ..a })
    } else {
        Err("unknown argument: "@ + arg)
    }
}

/// The flags given by the arguments `rest` (program name excluded), read left
/// to right; the first unknown argument is reported.
pub open spec fn parse_args(rest: Seq<Seq<char>>) -> Result<CliArgs, Seq<char>>
    decreases rest.len(),
{
    if rest.len() == 0 {
        Ok(no_flags())
    } else {
        match parse_args(rest.drop_last()) {
            Ok(a) => apply_arg(a, rest.last()),
            Err(e) => Err(e),
        }
    }
}

/// Once an argument is refused, later arguments do not change the outcome.
proof fn lemma_refusal_sticks(rest: Seq<Seq<char>>, k: int)
    requires
        0 <= k <= rest.len(),
        parse_args(rest.take(k)) is Err,
    ensures
        parse_args(rest) == parse_args(rest.take(k)),
    decreases rest.len() - k,
{
    if k < rest.len() {
        assert(rest.take(k + 1).drop_last() == rest.take(k));
        lemma_refusal_sticks(rest, k + 1);
    } else {
        assert(rest.take(k) == rest);
    }
}

/// The arguments after the program name.
pub open spec fn flag_args(args: Seq<&str>) -> Seq<Seq<char>> {
    if args.len() == 0 {
        Seq::empty()
    } else {
        args.skip(1).map_values(|s: &str| s@)
    }
}

impl CliArgs {
    /// Parses supported command line flags; the first argument is the program name.
    pub fn parse_from(args: &[&str]) -> (r: Result<CliArgs, String>)
        ensures
            match (r, parse_args(flag_args(args@))) {
                (Ok(a), Ok(b)) => a == b,
                (Err(e), Err(m)) => e@ == m,
                _ => false,
            },
    {
        let mut cli_args = CliArgs {
            refresh: false,
            json: false,
            paths: false,
            help: false,
            version: false,
        };
        if args.len() == 0 {
            return Ok(cli_args);
        }
        let ghost rest = flag_args(args@);
        let mut i: usize = 1;
        while i < args.len()
            invariant
                1 <= i <= args@.len(),
                rest == flag_args(args@),
                rest.len() == args@.len() - 1,
                parse_args(rest.take(i - 1)) == Ok::<CliArgs, Seq<char>>(cli_args),
            decreases args.len() - i,
        {
            let arg = args[i];
            let v = chars_of(arg);
            let n = v.len();
            let ghost pre = rest.take(i as int);
            assert(pre.drop_last() == rest.take(i - 1));
            assert(pre.last() == arg@);
            assert(v@.subrange(0, n as int) == v@);
            if range_eq(&v, 0, n, "-h") || range_eq(&v, 0, n, "--help") {
                cli_args.help = true;
            } else if range_eq(&v, 0, n, "-V") || range_eq(&v, 0, n, "--version") {
                cli_args.version = true;
            } else if range_eq(&v, 0, n, "--refresh") {
                cli_args.refresh = true;
            } else if range_eq(&v, 0, n, "--json") {
                cli_args.json = true;
            } else if range_eq(&v, 0, n, "--paths") {
                cli_args.paths = true;
            } else {
                proof {
                    lemma_refusal_sticks(rest, i as int);
                }
                return Err(concat_str("unknown argument: ", arg));
            }
            i += 1;
        }
        assert(rest.take(rest.len() as int) == rest);
        Ok(cli_args)
    }
}

} // verus!

verus! {

/// One of the supported spellings.
pub open spec fn is_known_arg(arg: Seq<char>) -> bool {
    ||| arg == "-h"@
    ||| arg == "--help"@
    ||| arg == "-V"@
    ||| arg == "--version"@
    ||| arg == "--refresh"@
    ||| arg == "--json"@
    ||| arg == "--paths"@
}

/// Parsing accepts exactly the supported flags: it succeeds exactly when
/// every argument is one of them, each flag is then set exactly when one of
/// its spellings occurs, and otherwise the first unsupported argument is
/// reported.
pub proof fn law_parse_flags(rest: Seq<Seq<char>>)
    ensures
        parse_args(rest) is Ok <==> forall|i: int| 0 <= i < rest.len() ==> is_known_arg(#[trigger] rest[i]),
        parse_args(rest) matches Ok(a) ==> {
            &&& a.help == (rest.contains("-h"@) || rest.contains("--help"@))
            &&& a.version == (rest.contains("-V"@) || rest.contains("--version"@))
            &&& a.refresh == rest.contains("--refresh"@)
            &&& a.json == rest.contains("--json"@)
            &&& a.paths == rest.contains("--paths"@)
        },
        parse_args(rest) matches Err(e) ==> exists|i: int|
            0 <= i < rest.len() && !is_known_arg(#[trigger] rest[i]) && (forall|k: int|
                0 <= k < i ==> is_known_arg(#[trigger] rest[k])) && e == "unknown argument: "@ + rest[i],
    decreases rest.len(),
{
    if rest.len() > 0 {
        let init = rest.drop_last();
        let last = rest.last();
        law_parse_flags(init);
        assert forall|x: Seq<char>| #[trigger] rest.contains(x) <==> (init.contains(x) || x == last) by {
            if rest.contains(x) {
                let i = choose|i: int| 0 <= i < rest.len() && rest[i] == x;
                if i < rest.len() - 1 {
                    assert(init[i] == x);
                }
            }
            if init.contains(x) {
                let i = choose|i: int| 0 <= i < init.len() && init[i] == x;
                assert(rest[i] == x);
            }
            if x == last {
                assert(rest[rest.len() - 1] == x);
            }
        }
        assert forall|i: int| 0 <= i < init.len() implies init[i] == rest[i] by {}
        reveal_strlit("-h");
        reveal_strlit("--help");
        reveal_strlit("-V");
        reveal_strlit("--version");
        reveal_strlit("--refresh");
        reveal_strlit("--json");
        reveal_strlit("--paths");
        assert("-h"@.len() == 2 && "-V"@.len() == 2 && "--help"@.len() == 6 && "--json"@.len() == 6);
        assert("--version"@.len() == 9 && "--refresh"@.len() == 9 && "--paths"@.len() == 7);
        assert("-h"@ != "-V"@) by {
            assert("-h"@[1] != "-V"@[1]);
        }
        assert("--help"@ != "--json"@) by {
            assert("--help"@[2] != "--json"@[2]);
        }
        assert("--version"@ != "--refresh"@) by {
            assert("--version"@[2] != "--refresh"@[2]);
        }
        match parse_args(init) {
            Ok(a) => {
                assert(rest.contains("-h"@) == (init.contains("-h"@) || last == "-h"@));
                assert(rest.contains("--help"@) == (init.contains("--help"@) || last == "--help"@));
                assert(rest.contains("-V"@) == (init.contains("-V"@) || last == "-V"@));
                assert(rest.contains("--version"@) == (init.contains("--version"@) || last == "--version"@));
                assert(rest.contains("--refresh"@) == (init.contains("--refresh"@) || last == "--refresh"@));
                assert(rest.contains("--json"@) == (init.contains("--json"@) || last == "--json"@));
                assert(rest.contains("--paths"@) == (init.contains("--paths"@) || last == "--paths"@));
                if !is_known_arg(last) {
                    assert(!is_known_arg(rest[rest.len() - 1]));
                    assert forall|k: int| 0 <= k < rest.len() - 1 implies is_known_arg(#[trigger] rest[k]) by {
                        assert(init[k] == rest[k]);
                    }
                }
            },
            Err(e) => {
                let i = choose|i: int|
                    0 <= i < init.len() && !is_known_arg(#[trigger] init[i]) && (forall|k: int|
                        0 <= k < i ==> is_known_arg(#[trigger] init[k])) && e == "unknown argument: "@ + init[i];
                assert(rest[i] == init[i]);
                assert forall|k: int| 0 <= k < i implies is_known_arg(#[trigger] rest[k]) by {
                    assert(init[k] == rest[k]);
                }
            },
        }
    } else {
        assert(!rest.contains("-h"@));
        assert(!rest.contains("--help"@));
        assert(!rest.contains("-V"@));
        assert(!rest.contains("--version"@));
        assert(!rest.contains("--refresh"@));
        assert(!rest.contains("--json"@));
        assert(!rest.contains("--paths"@));
    }
}

} // verus!
