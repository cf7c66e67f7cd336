//! The command line.

use vstd::prelude::*;

verus! {

/// What the command line asks for.
pub struct Options {
    /// Where to put the bytes of the first alignment, if anywhere.
    pub capture_raw: Option<String>,
    /// Whether to report latencies.
    pub latency_debug: bool,
}

/// Why a command line is refused.
pub enum OptionsError {
    /// `--capture-raw` comes last.
    MissingPath,
    /// An argument means nothing.
    Unknown(String),
}

/// What a command line comes to.
pub enum Parsed {
    Run { capture: Option<Seq<char>>, latency: bool },
    MissingPath,
    Unknown(Seq<char>),
}

/// The texts of some strings.
pub open spec fn texts(args: Seq<String>) -> Seq<Seq<char>> {
    Seq::new(args.len(), |i: int| args[i]@)
}

/// What the arguments from `i` on come to, after those before.
pub open spec fn parsed_from(
    args: Seq<Seq<char>>,
    i: int,
    capture: Option<Seq<char>>,
    latency: bool,
) -> Parsed
    decreases args.len() - i,
{
    if i >= args.len() {
        Parsed::Run { capture, latency }
    } else if args[i] == "--capture-raw"@ {
        if i + 1 < args.len() {
            parsed_from(args, i + 2, Some(args[i + 1]), latency)
        } else {
            Parsed::MissingPath
        }
    } else if args[i] == "--latency-debug"@ {
        parsed_from(args, i + 1, capture, true)
    } else {
        Parsed::Unknown(args[i])
    }
}

/// What a command line comes to.
pub open spec fn parsed(args: Seq<Seq<char>>) -> Parsed {
    parsed_from(args, 0, None, false)
}

/// The text of a string, if there is one.
pub open spec fn text_of(s: Option<String>) -> Option<Seq<char>> {
    match s {
        Some(t) => Some(t@),
        None => None,
    }
}

/// Reads the arguments behind the program's name.
pub fn parse_args(args: &Vec<String>) -> (r: Result<Options, OptionsError>)
    ensures
        parsed(texts(args@)) == (match r {
            Ok(o) => Parsed::Run { capture: text_of(o.capture_raw), latency: o.latency_debug },
            Err(OptionsError::MissingPath) => Parsed::MissingPath,
            Err(OptionsError::Unknown(a)) => Parsed::Unknown(a@),
        }),
{
    let capture_flag = String::from_str("--capture-raw");
    let latency_flag = String::from_str("--latency-debug");
    let mut capture_raw: Option<String> = None;
    let mut latency_debug = false;
    let mut i: usize = 0;
    while i < args.len()
        invariant
            i <= args@.len(),
            capture_flag@ == "--capture-raw"@,
            latency_flag@ == "--latency-debug"@,
            parsed(texts(args@)) == parsed_from(
                texts(args@),
                i as int,
                text_of(capture_raw),
                latency_debug,
            ),
        decreases args@.len() - i,
    {
        assert(texts(args@)[i as int] == args@[i as int]@);
        if args[i] == capture_flag {
            if args.len() - i < 2 {
                return Err(OptionsError::MissingPath);
            }
            assert(texts(args@)[i + 1] == args@[i + 1]@);
            capture_raw = Some(args[i + 1].clone());
            i = i + 2;
        } else if args[i] == latency_flag {
            latency_debug = true;
            i = i + 1;
        } else {
            return Err(OptionsError::Unknown(args[i].clone()));
        }
    }
    Ok(Options { capture_raw, latency_debug })
}

impl OptionsError {
    /// The refusal in words.
    pub fn message(&self) -> (s: String)
        ensures
            s@ == (match self {
                OptionsError::MissingPath => "--capture-raw needs a path"@,
                OptionsError::Unknown(a) => "Unknown argument: "@ + a@,
            }),
    {
        match self {
            OptionsError::MissingPath => String::from_str("--capture-raw needs a path"),
            OptionsError::Unknown(a) => {
                let mut s = String::from_str("Unknown argument: ");
                s.append(a.as_str());
                s
            },
        }
    }
}

/// A command line is read from left to right: what follows is added to what came before, the last
/// path counts, and the first argument that is wrong is what a command line is refused for.
pub proof fn lemma_more_arguments(args: Seq<Seq<char>>, arg: Seq<char>, path: Seq<char>)
    requires
        arg != "--capture-raw"@,
        arg != "--latency-debug"@,
    ensures
        parsed(Seq::empty()) == (Parsed::Run { capture: None, latency: false }),
        parsed(args) matches Parsed::Run { capture, latency } ==> {
            &&& parsed(args.push("--latency-debug"@)) == (Parsed::Run { capture, latency: true })
            &&& parsed(args.push("--capture-raw"@)) == Parsed::MissingPath
            &&& parsed(args.push("--capture-raw"@).push(path)) == (Parsed::Run { capture: Some(path), latency })
            &&& parsed(args.push(arg)) == Parsed::Unknown(arg)
        },
        parsed(args) matches Parsed::Unknown(a) ==> parsed(args.push(path)) == Parsed::Unknown(a),
{
    lemma_flags_differ();
    assert(parsed_from(Seq::empty(), 0, None, false) == (Parsed::Run { capture: None, latency: false }));
    lemma_pushed(args, 0, None, false, "--latency-debug"@);
    lemma_pushed(args, 0, None, false, "--capture-raw"@);
    lemma_pushed(args, 0, None, false, arg);
    lemma_pushed(args, 0, None, false, path);
    lemma_pushed_path(args, 0, None, false, path);
}

/// The two flags are different words.
proof fn lemma_flags_differ()
    ensures
        "--capture-raw"@ != "--latency-debug"@,
{
    reveal_strlit("--capture-raw");
    reveal_strlit("--latency-debug");
    assert("--capture-raw"@.len() != "--latency-debug"@.len());
}

/// One more argument.
proof fn lemma_pushed(args: Seq<Seq<char>>, i: int, capture: Option<Seq<char>>, latency: bool, arg: Seq<char>)
    requires
        0 <= i <= args.len(),
    ensures
        parsed_from(args, i, capture, latency) matches Parsed::Run { capture: c, latency: l } ==> parsed_from(
            args.push(arg),
            i,
            capture,
            latency,
        ) == (if arg == "--capture-raw"@ {
            Parsed::MissingPath
        } else if arg == "--latency-debug"@ {
            Parsed::Run { capture: c, latency: true }
        } else {
            Parsed::Unknown(arg)
        }),
        parsed_from(args, i, capture, latency) matches Parsed::Unknown(a) ==> parsed_from(
            args.push(arg),
            i,
            capture,
            latency,
        ) == Parsed::Unknown(a),
    decreases args.len() - i,
{
    lemma_flags_differ();
    let more = args.push(arg);
    reveal_with_fuel(parsed_from, 3);
    if i < args.len() {
        assert(more[i] == args[i]);
        if args[i] == "--capture-raw"@ {
            if i + 1 < args.len() {
                assert(more[i + 1] == args[i + 1]);
                lemma_pushed(args, i + 2, Some(args[i + 1]), latency, arg);
            }
        } else if args[i] == "--latency-debug"@ {
            lemma_pushed(args, i + 1, capture, true, arg);
        }
    } else {
        assert(more[i] == arg);
    }
}

/// One more path.
proof fn lemma_pushed_path(args: Seq<Seq<char>>, i: int, capture: Option<Seq<char>>, latency: bool, path: Seq<char>)
    requires
        0 <= i <= args.len(),
    ensures
        parsed_from(args, i, capture, latency) matches Parsed::Run { capture: c, latency: l } ==> parsed_from(
            args.push("--capture-raw"@).push(path),
            i,
            capture,
            latency,
        ) == (Parsed::Run { capture: Some(path), latency: l }),
    decreases args.len() - i,
{
    lemma_flags_differ();
    let more = args.push("--capture-raw"@).push(path);
    reveal_with_fuel(parsed_from, 3);
    if i < args.len() {
        assert(more[i] == args[i]);
        if args[i] == "--capture-raw"@ {
            if i + 1 < args.len() {
                assert(more[i + 1] == args[i + 1]);
                lemma_pushed_path(args, i + 2, Some(args[i + 1]), latency, path);
            }
        } else if args[i] == "--latency-debug"@ {
            lemma_pushed_path(args, i + 1, capture, true, path);
        }
    } else {
        assert(more[i] == "--capture-raw"@ && more[i + 1] == path);
    }
}

/// The texts of some strings are those of each one in order.
pub proof fn lemma_texts(args: Seq<String>, i: int)
    requires
        0 <= i < args.len(),
    ensures
        texts(args).len() == args.len(),
        texts(args)[i] == args[i]@,
        text_of(Some(args[i])) == Some(args[i]@),
        text_of(None) is None,
{
}

} // verus!
