//! The analyzer's command line: the QNX and Android log paths, then options
//! that each take a value (`--can`, `--eth`, `--eth-pcapng`, `--dbc`,
//! `--rules`, `--html`); anything else is skipped.

use vstd::prelude::*;
use crate::text::{chars_of, same_chars};

verus! {

/// Where the Ethernet frames are read from.
#[derive(Debug)]
pub enum EthSource {
    /// A text log (`--eth`).
    Text(String),
    /// A capture file (`--eth-pcapng`).
    Capture(String),
}

/// The parsed command line.
#[derive(Debug)]
pub struct CliArgs {
    pub qnx_path: String,
    pub android_path: String,
    /// Every `--can` file, in order: each is read, the last one is used.
    pub can_paths: Vec<String>,
    /// The last `--eth` or `--eth-pcapng` file.
    pub eth: Option<EthSource>,
    pub dbc_path: Option<String>,
    pub rules_path: Option<String>,
    pub html_path: Option<String>,
}

/// The options as values: `eth` holds whether the file is a capture, and
/// its path.
pub struct OptionsView {
    pub can_paths: Seq<Seq<char>>,
    pub eth: Option<(bool, Seq<char>)>,
    pub dbc_path: Option<Seq<char>>,
    pub rules_path: Option<Seq<char>>,
    pub html_path: Option<Seq<char>>,
}

pub open spec fn opt_string_view(o: Option<String>) -> Option<Seq<char>> {
    match o {
        Some(s) => Some(s@),
        None => None,
    }
}

pub open spec fn options_view(c: CliArgs) -> OptionsView {
    OptionsView {
        can_paths: c.can_paths.deep_view(),
        eth: match c.eth {
            Some(EthSource::Text(p)) => Some((false, p@)),
            Some(EthSource::Capture(p)) => Some((true, p@)),
            None => None,
        },
        dbc_path: opt_string_view(c.dbc_path),
        rules_path: opt_string_view(c.rules_path),
        html_path: opt_string_view(c.html_path),
    }
}

pub open spec fn no_options() -> OptionsView {
    OptionsView {
        can_paths: Seq::empty(),
        eth: None,
        dbc_path: None,
        rules_path: None,
        html_path: None,
    }
}

pub open spec fn is_option(a: Seq<char>) -> bool {
    a == "--can"@ || a == "--eth"@ || a == "--eth-pcapng"@ || a == "--dbc"@ || a == "--rules"@ || a
        == "--html"@
}

/// Reading the options from position `i` comes to an option with no value
/// after it, where it would never move on.
pub open spec fn walk_stalls(args: Seq<Seq<char>>, i: int) -> bool
    decreases args.len() - i,
{
    if i < 0 || i >= args.len() {
        false
    } else if is_option(args[i]) {
        if i + 1 < args.len() {
            walk_stalls(args, i + 2)
        } else {
            true
        }
    } else {
        walk_stalls(args, i + 1)
    }
}

/// The options read from position `i` on, starting from `st`: each option
/// takes the argument after it (`--can` adds a file, the others replace the
/// earlier value); other arguments are skipped.
pub open spec fn walk_options(args: Seq<Seq<char>>, i: int, st: OptionsView) -> OptionsView
    decreases args.len() - i,
{
    if i < 0 || i >= args.len() || (is_option(args[i]) && i + 1 >= args.len()) {
        st
    } else if args[i] == "--can"@ {
        walk_options(args, i + 2, OptionsView { can_paths: st.can_paths.push(args[i + 1]), ..st })
    } else if args[i] == "--eth"@ {
        walk_options(args, i + 2, OptionsView { eth: Some((false, args[i + 1])), ..st })
    } else if args[i] == "--eth-pcapng"@ {
        walk_options(args, i + 2, OptionsView { eth: Some((true, args[i + 1])), ..st })
    } else if args[i] == "--dbc"@ {
        walk_options(args, i + 2, OptionsView { dbc_path: Some(args[i + 1]), ..st })
    } else if args[i] == "--rules"@ {
        walk_options(args, i + 2, OptionsView { rules_path: Some(args[i + 1]), ..st })
    } else if args[i] == "--html"@ {
        walk_options(args, i + 2, OptionsView { html_path: Some(args[i + 1]), ..st })
    } else {
        walk_options(args, i + 1, st)
    }
}

fn text_is(s: &str, lit: &str) -> (b: bool)
    ensures
        b == (s@ == lit@),
{
    same_chars(&chars_of(s), &chars_of(lit))
}

fn option_kind(a: &str) -> (k: usize)
    ensures
        k == 0 <==> a@ == "--can"@,
        k == 1 <==> (a@ != "--can"@ && a@ == "--eth"@),
        k == 2 <==> (a@ != "--can"@ && a@ != "--eth"@ && a@ == "--eth-pcapng"@),
        k == 3 <==> (a@ != "--can"@ && a@ != "--eth"@ && a@ != "--eth-pcapng"@ && a@ == "--dbc"@),
        k == 4 <==> (a@ != "--can"@ && a@ != "--eth"@ && a@ != "--eth-pcapng"@ && a@ != "--dbc"@
            && a@ == "--rules"@),
        k == 5 <==> (a@ != "--can"@ && a@ != "--eth"@ && a@ != "--eth-pcapng"@ && a@ != "--dbc"@
            && a@ != "--rules"@ && a@ == "--html"@),
        k == 6 <==> !is_option(a@),
{
    if text_is(a, "--can") {
        0
    } else if text_is(a, "--eth") {
        1
    } else if text_is(a, "--eth-pcapng") {
        2
    } else if text_is(a, "--dbc") {
        3
    } else if text_is(a, "--rules") {
        4
    } else if text_is(a, "--html") {
        5
    } else {
        6
    }
}

/// Every option on the command line has a value after it (else reading the
/// options would never end).
pub fn options_complete(args: &Vec<String>) -> (b: bool)
    ensures
        b == !walk_stalls(args.deep_view(), 3),
{
    let ghost av = args.deep_view();
    let n = args.len();
    let mut i: usize = 3;
    while i < n
        invariant
            av == args.deep_view(),
            n == av.len(),
            i >= 3,
            walk_stalls(av, 3) == walk_stalls(av, i as int),
        decreases n - i,
    {
        let k = option_kind(args[i].as_str());
        proof {
            assert(av[i as int] == args@[i as int]@);
        }
        if k < 6 {
            if i + 1 < n {
                i = i + 2;
            } else {
                return false;
            }
        } else {
            i = i + 1;
        }
    }
    true
}

/// Parse the command line (the program name first): `None` when it has
/// fewer than three arguments (usage error), else the two log paths and the
/// options read from the fourth argument on.
pub fn parse_cli_args(args: &Vec<String>) -> (r: Option<CliArgs>)
    requires
        !walk_stalls(args.deep_view(), 3),
    ensures
        r is None <==> args@.len() < 3,
        r matches Some(c) ==> {
            &&& c.qnx_path@ == args@[1]@
            &&& c.android_path@ == args@[2]@
            &&& options_view(c) == walk_options(args.deep_view(), 3, no_options())
        },
{
    let ghost av = args.deep_view();
    let n = args.len();
    if n < 3 {
        return None;
    }
    let mut c = CliArgs {
        qnx_path: args[1].clone(),
        android_path: args[2].clone(),
        can_paths: Vec::new(),
        eth: None,
        dbc_path: None,
        rules_path: None,
        html_path: None,
    };
    let mut i: usize = 3;
    assert(c.can_paths.deep_view() =~= Seq::<Seq<char>>::empty());
    assert(options_view(c) =~~= no_options());
    while i < n
        invariant
            av == args.deep_view(),
            n == av.len(),
            i >= 3,
            !walk_stalls(av, i as int),
            c.qnx_path@ == args@[1]@,
            c.android_path@ == args@[2]@,
            walk_options(av, 3, no_options()) == walk_options(av, i as int, options_view(c)),
        decreases n - i,
    {
        let k = option_kind(args[i].as_str());
        proof {
            assert(av[i as int] == args@[i as int]@);
        }
        if k == 6 {
            i = i + 1;
        } else {
            let v = args[i + 1].clone();
            proof {
                assert(av[i + 1] == args@[i + 1]@);
            }
            let ghost before = options_view(c);
            if k == 0 {
                let ghost old_paths = c.can_paths.deep_view();
                c.can_paths.push(v);
                assert(c.can_paths.deep_view() =~= old_paths.push(av[i + 1]));
            } else if k == 1 {
                c.eth = Some(EthSource::Text(v));
            } else if k == 2 {
                c.eth = Some(EthSource::Capture(v));
            } else if k == 3 {
                c.dbc_path = Some(v);
            } else if k == 4 {
                c.rules_path = Some(v);
            } else {
                c.html_path = Some(v);
            }
            assert(walk_options(av, i as int, before) == walk_options(av, i + 2, options_view(c))) by {
                assert(options_view(c) =~~= match k {
                    0 => OptionsView { can_paths: before.can_paths.push(av[i + 1]), ..before },
                    1 => OptionsView { eth: Some((false, av[i + 1])), ..before },
                    2 => OptionsView { eth: Some((true, av[i + 1])), ..before },
                    3 => OptionsView { dbc_path: Some(av[i + 1]), ..before },
                    4 => OptionsView { rules_path: Some(av[i + 1]), ..before },
                    _ => OptionsView { html_path: Some(av[i + 1]), ..before },
                });
            }
            i = i + 2;
        }
    }
    Some(c)
}

} // verus!
