//! Command-line arguments of the editor.

use vstd::prelude::*;
use crate::text::{str_eq, starts_with_char};

verus! {

/// The parsed arguments: the file to open and the completion prompt settings.
pub struct Args {
    /// The file to open.
    pub file_name: Option<String>,
    /// The system prompt for completion.
    pub system_prompt: Option<String>,
    /// A file holding the system prompt for completion.
    pub system_prompt_file: Option<String>,
}

/// What is wrong with the command line.
#[derive(Debug)]
pub enum ArgsError {
    /// More than one file name, or arguments after the file name.
    TooManyArguments,
    /// An option that needs a value came last.
    MissingOptionValue(String),
    /// An unknown option.
    BadOption(String),
}

/// What the command line asks for.
pub enum Command {
    /// No argument: open an unnamed buffer.
    Unnamed,
    /// Print the version.
    Version,
    /// Open the editor with the parsed arguments.
    Edit(Args),
}

/// Arguments as character sequences: file name, system prompt, prompt file.
pub type ArgsView = (Option<Seq<char>>, Option<Seq<char>>, Option<Seq<char>>);

/// The view of an optional string.
pub open spec fn opt_view(o: Option<String>) -> Option<Seq<char>> {
    match o {
        Some(s) => Some(s@),
        None => None,
    }
}

impl Args {
    /// The arguments as character sequences.
    pub open spec fn view(&self) -> ArgsView {
        (opt_view(self.file_name), opt_view(self.system_prompt), opt_view(self.system_prompt_file))
    }
}

/// A command-line error, with the offending argument as characters.
pub enum ErrorView {
    /// More than one file name, or arguments after the file name.
    TooManyArguments,
    /// An option that needs a value came last.
    MissingOptionValue(Seq<char>),
    /// An unknown option.
    BadOption(Seq<char>),
}

impl ArgsError {
    /// The error, with the offending argument as characters.
    pub open spec fn view(&self) -> ErrorView {
        match self {
            ArgsError::TooManyArguments => ErrorView::TooManyArguments,
            ArgsError::MissingOptionValue(s) => ErrorView::MissingOptionValue(s@),
            ArgsError::BadOption(s) => ErrorView::BadOption(s@),
        }
    }
}

/// The arguments as character sequences.
pub open spec fn args_view(args: Seq<String>) -> Seq<Seq<char>> {
    args.map_values(|s: String| s@)
}

/// Parsing `args` from index `i` on, with `st` parsed so far: options take
/// the next argument as value (`--system-prompt` falls back to `dflt`), `--`
/// ends the options and may be followed by the file name, other arguments
/// starting with `-` are bad options, and only one file name is allowed.
pub open spec fn parse_from(args: Seq<Seq<char>>, i: int, st: ArgsView, dflt: Seq<char>) -> Result<ArgsView, ErrorView>
    decreases args.len() - i,
{
    if i < 0 || i >= args.len() {
        Ok(st)
    } else {
        let arg = args[i];
        if st.0 is Some && arg != "--"@ {
            Err(ErrorView::TooManyArguments)
        } else if arg == "--system-prompt"@ {
            if i + 1 < args.len() {
                parse_from(args, i + 2, (st.0, Some(args[i + 1]), st.2), dflt)
            } else {
                parse_from(args, i + 1, (st.0, Some(dflt), st.2), dflt)
            }
        } else if arg == "--system-prompt-file"@ {
            if i + 1 < args.len() {
                parse_from(args, i + 2, (st.0, st.1, Some(args[i + 1])), dflt)
            } else {
                Err(ErrorView::MissingOptionValue(arg))
            }
        } else if arg == "--"@ {
            if i + 1 >= args.len() {
                Ok(st)
            } else if i + 2 >= args.len() && st.0 is None {
                Ok((Some(args[i + 1]), st.1, st.2))
            } else {
                Err(ErrorView::TooManyArguments)
            }
        } else if arg.len() > 0 && arg[0] == '-' {
            Err(ErrorView::BadOption(arg))
        } else if st.0 is None {
            parse_from(args, i + 1, (Some(arg), st.1, st.2), dflt)
        } else {
            Err(ErrorView::TooManyArguments)
        }
    }
}

/// What a command line asks for: nothing opens an unnamed buffer,
/// `--version` (alone or before `--`) prints the version, `--version` with
/// anything else is a bad option, and all else is parsed.
pub open spec fn command_spec(args: Seq<Seq<char>>, dflt: Seq<char>) -> Result<Option<Option<ArgsView>>, ErrorView> {
    if args.len() == 0 {
        Ok(None)
    } else if args[0] == "--version"@ && (args.len() == 1 || (args.len() == 2 && args[1] == "--"@)) {
        Ok(Some(None))
    } else if args[0] == "--version"@ {
        Err(ErrorView::BadOption(args[0]))
    } else {
        match parse_from(args, 0, (None, None, None), dflt) {
            Ok(a) => Ok(Some(Some(a))),
            Err(e) => Err(e),
        }
    }
}

/// Parse the command-line arguments (without the program name). `default_prompt`
/// is the system prompt used when `--system-prompt` has no value.
pub fn parse_args(args: &Vec<String>, default_prompt: &str) -> (r: Result<Args, ArgsError>)
    ensures
        match (r, parse_from(args_view(args@), 0, (None, None, None), default_prompt@)) {
            (Ok(a), Ok(v)) => a.view() == v,
            (Err(e), Err(v)) => e.view() == v,
            _ => false,
        },
{
    let mut parsed = Args { file_name: None, system_prompt: None, system_prompt_file: None };
    let ghost av = args_view(args@);
    let n = args.len();
    let mut i: usize = 0;
    while i < n
        invariant
            n == args@.len(),
            av == args_view(args@),
            i <= n + 1,
            parse_from(av, i as int, parsed.view(), default_prompt@) == parse_from(av, 0, (None, None, None), default_prompt@),
        decreases n + 1 - i,
    {
        let arg = &args[i];
        assert(av[i as int] == arg@);
        let is_separator = str_eq(arg.as_str(), "--");
        if parsed.file_name.is_some() && !is_separator {
            return Err(ArgsError::TooManyArguments);
        }
        if str_eq(arg.as_str(), "--system-prompt") {
            if i + 1 < n {
                parsed.system_prompt = Some(args[i + 1].clone());
                assert(av[i + 1] == args@[i + 1]@);
                i = i + 2;
            } else {
                parsed.system_prompt = Some(default_prompt.to_owned());
                i = i + 1;
            }
        } else if str_eq(arg.as_str(), "--system-prompt-file") {
            if i + 1 < n {
                parsed.system_prompt_file = Some(args[i + 1].clone());
                assert(av[i + 1] == args@[i + 1]@);
                i = i + 2;
            } else {
                return Err(ArgsError::MissingOptionValue(arg.clone()));
            }
        } else if is_separator {
            if i + 1 >= n {
                return Ok(parsed);
            } else if i + 2 >= n && parsed.file_name.is_none() {
                parsed.file_name = Some(args[i + 1].clone());
                assert(av[i + 1] == args@[i + 1]@);
                return Ok(parsed);
            } else {
                return Err(ArgsError::TooManyArguments);
            }
        } else if starts_with_char(arg.as_str(), '-') {
            return Err(ArgsError::BadOption(arg.clone()));
        } else if parsed.file_name.is_none() {
            parsed.file_name = Some(arg.clone());
            i = i + 1;
        } else {
            return Err(ArgsError::TooManyArguments);
        }
    }
    Ok(parsed)
}

/// What the command line (without the program name) asks for.
pub fn command_of(args: &Vec<String>, default_prompt: &str) -> (r: Result<Command, ArgsError>)
    ensures
        match (r, command_spec(args_view(args@), default_prompt@)) {
            (Ok(Command::Unnamed), Ok(None)) => true,
            (Ok(Command::Version), Ok(Some(None))) => true,
            (Ok(Command::Edit(a)), Ok(Some(Some(v)))) => a.view() == v,
            (Err(e), Err(v)) => e.view() == v,
            _ => false,
        },
{
    let ghost av = args_view(args@);
    if args.len() == 0 {
        return Ok(Command::Unnamed);
    }
    assert(av[0] == args@[0]@);
    if str_eq(args[0].as_str(), "--version") {
        if args.len() == 1 {
            return Ok(Command::Version);
        }
        assert(av[1] == args@[1]@);
        if args.len() == 2 && str_eq(args[1].as_str(), "--") {
            return Ok(Command::Version);
        }
        return Err(ArgsError::BadOption(args[0].clone()));
    }
    match parse_args(args, default_prompt) {
        Ok(a) => Ok(Command::Edit(a)),
        Err(e) => Err(e),
    }
}

/// Parsing reports a missing option value only for `--system-prompt-file`
/// as the very last argument: an option followed by any argument takes it.
proof fn lemma_missing_value_is_last(args: Seq<Seq<char>>, i: int, st: ArgsView, dflt: Seq<char>, x: Seq<char>)
    requires
        parse_from(args, i, st, dflt) == Err::<ArgsView, ErrorView>(ErrorView::MissingOptionValue(x)),
    ensures
        args.len() > 0,
        x == "--system-prompt-file"@,
        args.last() == x,
    decreases args.len() - i,
{
    if 0 <= i < args.len() {
        let arg = args[i];
        if st.0 is Some && arg != "--"@ {
        } else if arg == "--system-prompt"@ {
            if i + 1 < args.len() {
                lemma_missing_value_is_last(args, i + 2, (st.0, Some(args[i + 1]), st.2), dflt, x);
            } else {
                lemma_missing_value_is_last(args, i + 1, (st.0, Some(dflt), st.2), dflt, x);
            }
        } else if arg == "--system-prompt-file"@ {
            if i + 1 < args.len() {
                lemma_missing_value_is_last(args, i + 2, (st.0, st.1, Some(args[i + 1])), dflt, x);
            }
        } else if arg == "--"@ {
        } else if arg.len() > 0 && arg[0] == '-' {
        } else if st.0 is None {
            lemma_missing_value_is_last(args, i + 1, (Some(arg), st.1, st.2), dflt, x);
        }
    }
}

/// A command line reports a missing option value only when it ends with
/// `--system-prompt-file` itself; that option with a value after it sets
/// the prompt file and nothing else.
pub proof fn law_prompt_file_takes_next_argument(args: Seq<Seq<char>>, dflt: Seq<char>, v: Seq<char>, x: Seq<char>)
    ensures
        parse_from(args, 0, (None, None, None), dflt) == Err::<ArgsView, ErrorView>(ErrorView::MissingOptionValue(x))
            ==> args.len() > 0 && x == "--system-prompt-file"@ && args.last() == x,
        parse_from(seq!["--system-prompt-file"@, v], 0, (None, None, None), dflt) == Ok::<ArgsView, ErrorView>(
            (None, None, Some(v)),
        ),
{
    if parse_from(args, 0, (None, None, None), dflt) == Err::<ArgsView, ErrorView>(ErrorView::MissingOptionValue(x)) {
        lemma_missing_value_is_last(args, 0, (None, None, None), dflt, x);
    }
    reveal_strlit("--system-prompt-file");
    reveal_strlit("--system-prompt");
    reveal_strlit("--");
    assert("--system-prompt-file"@.len() == 20);
    assert("--system-prompt"@.len() == 15);
    assert("--"@.len() == 2);
    assert("--system-prompt-file"@ != "--system-prompt"@);
    assert("--system-prompt-file"@ != "--"@);
    let a = seq!["--system-prompt-file"@, v];
    assert(a[0] == "--system-prompt-file"@);
    assert(a[1] == v);
    assert(parse_from(a, 2, (None, None, Some(v)), dflt) == Ok::<ArgsView, ErrorView>((None, None, Some(v))));
}

/// Parsing reports a bad option only for an argument that is on the
/// command line and starts with `-`.
proof fn lemma_bad_option_source(args: Seq<Seq<char>>, i: int, st: ArgsView, dflt: Seq<char>, x: Seq<char>)
    requires
        parse_from(args, i, st, dflt) == Err::<ArgsView, ErrorView>(ErrorView::BadOption(x)),
        0 <= i,
    ensures
        x.len() > 0 && x[0] == '-',
        args.contains(x),
    decreases args.len() - i,
{
    if i < args.len() {
        let arg = args[i];
        if st.0 is Some && arg != "--"@ {
        } else if arg == "--system-prompt"@ {
            if i + 1 < args.len() {
                lemma_bad_option_source(args, i + 2, (st.0, Some(args[i + 1]), st.2), dflt, x);
            } else {
                lemma_bad_option_source(args, i + 1, (st.0, Some(dflt), st.2), dflt, x);
            }
        } else if arg == "--system-prompt-file"@ {
            if i + 1 < args.len() {
                lemma_bad_option_source(args, i + 2, (st.0, st.1, Some(args[i + 1])), dflt, x);
            }
        } else if arg == "--"@ {
        } else if arg.len() > 0 && arg[0] == '-' {
            assert(args[i] == x);
        } else if st.0 is None {
            lemma_bad_option_source(args, i + 1, (Some(arg), st.1, st.2), dflt, x);
        }
    }
}

/// What the options do: a bad option is an argument starting with `-`;
/// `--system-prompt` takes the next argument, or the default when it comes
/// last; `--` makes the next argument the file name whatever it looks like;
/// a lone argument not starting with `-` is the file name.
pub proof fn law_options(args: Seq<Seq<char>>, dflt: Seq<char>, v: Seq<char>, x: Seq<char>)
    ensures
        parse_from(args, 0, (None, None, None), dflt) == Err::<ArgsView, ErrorView>(ErrorView::BadOption(x))
            ==> x.len() > 0 && x[0] == '-' && args.contains(x),
        parse_from(seq!["--system-prompt"@, v], 0, (None, None, None), dflt) == Ok::<ArgsView, ErrorView>(
            (None, Some(v), None),
        ),
        parse_from(seq!["--system-prompt"@], 0, (None, None, None), dflt) == Ok::<ArgsView, ErrorView>(
            (None, Some(dflt), None),
        ),
        parse_from(seq!["--"@, v], 0, (None, None, None), dflt) == Ok::<ArgsView, ErrorView>(
            (Some(v), None, None),
        ),
        (v.len() == 0 || v[0] != '-') ==> parse_from(seq![v], 0, (None, None, None), dflt) == Ok::<ArgsView, ErrorView>(
            (Some(v), None, None),
        ),
{
    if parse_from(args, 0, (None, None, None), dflt) == Err::<ArgsView, ErrorView>(ErrorView::BadOption(x)) {
        lemma_bad_option_source(args, 0, (None, None, None), dflt, x);
    }
    reveal_strlit("--system-prompt-file");
    reveal_strlit("--system-prompt");
    reveal_strlit("--");
    assert("--system-prompt-file"@.len() == 20);
    assert("--system-prompt"@.len() == 15);
    assert("--"@.len() == 2);
    assert("--"@[0] == '-');
    assert("--system-prompt"@[0] == '-');
    assert("--system-prompt-file"@[0] == '-');
    let a = seq!["--system-prompt"@, v];
    assert(a[0] == "--system-prompt"@ && a[1] == v);
    assert(parse_from(a, 2, (None, Some(v), None), dflt) == Ok::<ArgsView, ErrorView>((None, Some(v), None)));
    let b = seq!["--system-prompt"@];
    assert(b[0] == "--system-prompt"@);
    assert(parse_from(b, 1, (None, Some(dflt), None), dflt) == Ok::<ArgsView, ErrorView>((None, Some(dflt), None)));
    let c = seq!["--"@, v];
    assert(c[0] == "--"@ && c[1] == v);
    assert("--"@ != "--system-prompt"@);
    assert("--"@ != "--system-prompt-file"@);
    let d = seq![v];
    if v.len() == 0 || v[0] != '-' {
        assert(d[0] == v);
        assert(v != "--system-prompt"@);
        assert(v != "--system-prompt-file"@);
        assert(v != "--"@);
        assert(parse_from(d, 1, (Some(v), None, None), dflt) == Ok::<ArgsView, ErrorView>((Some(v), None, None)));
    }
}

} // verus!
