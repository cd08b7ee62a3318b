//! What the command line asks for.
//!
//! The last of `--preview` and `--html` wins, as shell convention has it. Exactly one
//! template is named, `-` meaning standard input. `--watch` needs a file rather than a
//! pipe, applies to the previews only, and for HTML needs `-o` so a browser has a file to
//! keep open. Every refusal is a message, most of them followed by the usage text.

use vstd::prelude::*;
use crate::page::Output;
use crate::text::{chars_of, push_str_chars, range_is, string_from};

verus! {

/// What `--help` prints, and what follows most refusals.
pub const USAGE: &'static str = "\
mdpos \u{2014} render a receipt template to ESC/POS bytes

USAGE:
    mdpos <template.txt>            write ESC/POS bytes to stdout
    mdpos --preview <template.txt>  write a monospace preview to stdout
    mdpos --html <template.txt>     write an HTML preview to stdout

OPTIONS:
    -o, --out <file>   write to a file instead of stdout
    -w, --watch        re-render whenever the template changes; Ctrl-C to stop
    -h, --help         this text

Use - as the filename to read the template from stdin.

--preview is the faster loop while editing a template; --html shows emphasis and
magnification at their real size, for approving a layout or showing someone who is
not at a terminal.

    mdpos --html --watch receipt.tmpl -o preview.html

Open that file in a browser and leave it open: it reloads itself, so editing the
template updates the receipt with no rebuild. A template that fails to render leaves
the error on the page rather than blanking it.

Bytes go to stdout unredirected, which will spray control codes across your
terminal. Redirect to a file, use -o, or pipe them to a printer. On PowerShell prefer
-o: its redirection re-encodes the stream and corrupts binary output.
";

/// What the command line asks for.
#[derive(Debug, Clone, PartialEq, Eq)]
pub enum Command {
    /// Print the usage text.
    Help,
    /// Render the template at `path` once, to `out` or standard output.
    Once { path: String, output: Output, out: Option<String> },
    /// Re-render the template at `path` whenever it changes.
    Watch { path: String, output: Output, out: Option<String> },
}

/// The content of a [`Command`].
pub enum CommandV {
    Help,
    Once { path: Seq<char>, output: Output, out: Option<Seq<char>> },
    Watch { path: Seq<char>, output: Output, out: Option<Seq<char>> },
}

pub open spec fn opt_view(o: Option<String>) -> Option<Seq<char>> {
    match o {
        Some(s) => Some(s@),
        None => None,
    }
}

impl View for Command {
    type V = CommandV;

    open spec fn view(&self) -> CommandV {
        match self {
            Command::Help => CommandV::Help,
            Command::Once { path, output, out } => CommandV::Once {
                path: path@,
                output: *output,
                out: opt_view(*out),
            },
            Command::Watch { path, output, out } => CommandV::Watch {
                path: path@,
                output: *output,
                out: opt_view(*out),
            },
        }
    }
}

/// What the arguments read so far have set.
pub struct CliState {
    pub output: Output,
    pub path: Option<Seq<char>>,
    pub out: Option<Seq<char>>,
    pub watch: bool,
}

pub open spec fn with_usage(m: Seq<char>) -> Seq<char> {
    m + "\n\n"@ + USAGE@
}

/// Whether an argument is an option: it starts with `-` and is not `-` itself.
pub open spec fn is_option(a: Seq<char>) -> bool {
    a.len() > 0 && a[0] == '-' && a != "-"@
}

/// The command, once every argument has been read.
pub open spec fn finish_s(st: CliState) -> Result<CommandV, Seq<char>> {
    match st.path {
        None => Err(with_usage("no template given"@)),
        Some(path) => if !st.watch {
            Ok(CommandV::Once { path, output: st.output, out: st.out })
        } else if path == "-"@ {
            Err("--watch needs a file to watch, not stdin"@)
        } else if st.output == Output::Bytes {
            Err("--watch applies to --preview or --html, not to byte output"@)
        } else if st.output == Output::Html && st.out is None {
            Err(
                "--html --watch needs -o <file>, so a browser has something to keep open\n\ne.g. mdpos --html --watch receipt.tmpl -o preview.html"@,
            )
        } else {
            Ok(CommandV::Watch { path, output: st.output, out: st.out })
        },
    }
}

/// Read the arguments from `i` on.
pub open spec fn cli_from(args: Seq<Seq<char>>, i: int, st: CliState) -> Result<CommandV, Seq<char>>
    decreases args.len() - i,
{
    if i >= args.len() || i < 0 {
        finish_s(st)
    } else {
        let a = args[i];
        if a == "--preview"@ || a == "-p"@ {
            cli_from(args, i + 1, CliState { output: Output::Preview, ..st })
        } else if a == "--html"@ {
            cli_from(args, i + 1, CliState { output: Output::Html, ..st })
        } else if a == "--watch"@ || a == "-w"@ {
            cli_from(args, i + 1, CliState { watch: true, ..st })
        } else if a == "--out"@ || a == "-o"@ {
            if i + 1 < args.len() {
                cli_from(args, i + 2, CliState { out: Some(args[i + 1]), ..st })
            } else {
                Err(with_usage(a + " needs a filename"@))
            }
        } else if a == "--help"@ || a == "-h"@ {
            Ok(CommandV::Help)
        } else if is_option(a) {
            Err(with_usage("unknown option `"@ + a + "`"@))
        } else if st.path is Some {
            Err(with_usage("expected one template file"@))
        } else {
            cli_from(args, i + 1, CliState { path: Some(a), ..st })
        }
    }
}

/// The command the arguments (the program name left out) ask for.
pub open spec fn cli_spec(args: Seq<Seq<char>>) -> Result<CommandV, Seq<char>> {
    cli_from(args, 0, CliState { output: Output::Bytes, path: None, out: None, watch: false })
}

pub open spec fn args_view(args: Seq<String>) -> Seq<Seq<char>> {
    args.map_values(|s: String| s@)
}

/// Whether `s` is exactly `lit`.
fn same_as(s: &Vec<char>, lit: &str) -> (r: bool)
    ensures
        r == (s@ == lit@),
{
    let r = range_is(s, 0, s.len(), lit);
    assert(s@.subrange(0, s.len() as int) =~= s@);
    r
}

fn message_with_usage(m: Vec<char>) -> (r: String)
    ensures
        r@ == with_usage(m@),
{
    let mut m = m;
    let ghost start = m@;
    push_str_chars(&mut m, "\n\n");
    push_str_chars(&mut m, USAGE);
    assert(m@ =~= with_usage(start));
    string_from(m.as_slice())
}

fn copy_string(s: &String) -> (r: String)
    ensures
        r@ == s@,
{
    let c = chars_of(s.as_str());
    string_from(c.as_slice())
}

/// Decide, once the arguments are read, what they ask for.
fn finish(output: Output, path: Option<String>, out: Option<String>, watch: bool) -> (r: Result<Command, String>)
    ensures
        match r {
            Ok(c) => finish_s(CliState { output, path: opt_view(path), out: opt_view(out), watch }) == Ok::<CommandV, Seq<char>>(c@),
            Err(m) => finish_s(CliState { output, path: opt_view(path), out: opt_view(out), watch }) == Err::<CommandV, Seq<char>>(m@),
        },
{
    let path = match path {
        None => {
            let mut m: Vec<char> = Vec::new();
            push_str_chars(&mut m, "no template given");
            return Err(message_with_usage(m));
        },
        Some(p) => p,
    };
    if !watch {
        return Ok(Command::Once { path, output, out });
    }
    let pc = chars_of(path.as_str());
    if same_as(&pc, "-") {
        return Err(string_from(chars_of("--watch needs a file to watch, not stdin").as_slice()));
    }
    match output {
        Output::Bytes => {
            return Err(
                string_from(chars_of("--watch applies to --preview or --html, not to byte output").as_slice()),
            );
        },
        Output::Html => {
            if out.is_none() {
                return Err(
                    string_from(
                        chars_of(
                            "--html --watch needs -o <file>, so a browser has something to keep open\n\ne.g. mdpos --html --watch receipt.tmpl -o preview.html",
                        ).as_slice(),
                    ),
                );
            }
        },
        Output::Preview => {},
    }
    Ok(Command::Watch { path, output, out })
}

/// The command the arguments (the program name left out) ask for, or why they ask for
/// none.
pub fn command_line(args: &Vec<String>) -> (r: Result<Command, String>)
    ensures
        match r {
            Ok(c) => cli_spec(args_view(args@)) == Ok::<CommandV, Seq<char>>(c@),
            Err(m) => cli_spec(args_view(args@)) == Err::<CommandV, Seq<char>>(m@),
        },
{
    let ghost av = args_view(args@);
    let mut output = Output::Bytes;
    let mut path: Option<String> = None;
    let mut out: Option<String> = None;
    let mut watch = false;
    let mut i: usize = 0;
    while i < args.len()
        invariant
            i <= args.len(),
            av == args_view(args@),
            cli_spec(av) == cli_from(av, i as int, CliState { output, path: opt_view(path), out: opt_view(out), watch }),
        decreases args.len() - i,
    {
        let a = chars_of(args[i].as_str());
        assert(a@ == av[i as int]);
        if same_as(&a, "--preview") || same_as(&a, "-p") {
            output = Output::Preview;
            i = i + 1;
        } else if same_as(&a, "--html") {
            output = Output::Html;
            i = i + 1;
        } else if same_as(&a, "--watch") || same_as(&a, "-w") {
            watch = true;
            i = i + 1;
        } else if same_as(&a, "--out") || same_as(&a, "-o") {
            if i + 1 < args.len() {
                out = Some(copy_string(&args[i + 1]));
                i = i + 2;
            } else {
                let mut m = a;
                push_str_chars(&mut m, " needs a filename");
                return Err(message_with_usage(m));
            }
        } else if same_as(&a, "--help") || same_as(&a, "-h") {
            return Ok(Command::Help);
        } else if a.len() > 0 && a[0] == '-' && !same_as(&a, "-") {
            let mut m: Vec<char> = Vec::new();
            push_str_chars(&mut m, "unknown option `");
            let ghost pre = m@;
            let mut k: usize = 0;
            while k < a.len()
                invariant
                    k <= a.len(),
                    m@ =~= pre + a@.take(k as int),
                decreases a.len() - k,
            {
                m.push(a[k]);
                k = k + 1;
            }
            assert(a@.take(k as int) =~= a@);
            push_str_chars(&mut m, "`");
            return Err(message_with_usage(m));
        } else if path.is_some() {
            let mut m: Vec<char> = Vec::new();
            push_str_chars(&mut m, "expected one template file");
            return Err(message_with_usage(m));
        } else {
            path = Some(string_from(a.as_slice()));
            i = i + 1;
        }
    }
    finish(output, path, out, watch)
}


/// The flags do what they say, whatever the template is called: a bare name renders bytes
/// to standard output; `--preview` (or `-p`) and `--html` pick the preview, the last one
/// winning; `-o` names the output file; `--watch` re-renders a named file.
pub proof fn law_flags_choose_the_output(path: Seq<char>, file: Seq<char>)
    requires
        !is_option(path),
    ensures
        cli_spec(seq![path]) == Ok::<CommandV, Seq<char>>(CommandV::Once { path, output: Output::Bytes, out: None }),
        cli_spec(seq!["--preview"@, path]) == Ok::<CommandV, Seq<char>>(
            CommandV::Once { path, output: Output::Preview, out: None },
        ),
        cli_spec(seq!["-p"@, path]) == Ok::<CommandV, Seq<char>>(CommandV::Once { path, output: Output::Preview, out: None }),
        cli_spec(seq!["--html"@, path]) == Ok::<CommandV, Seq<char>>(CommandV::Once { path, output: Output::Html, out: None }),
        cli_spec(seq!["--preview"@, "--html"@, path]) == Ok::<CommandV, Seq<char>>(
            CommandV::Once { path, output: Output::Html, out: None },
        ),
        cli_spec(seq!["--html"@, "--preview"@, path]) == Ok::<CommandV, Seq<char>>(
            CommandV::Once { path, output: Output::Preview, out: None },
        ),
        cli_spec(seq!["-o"@, file, path]) == Ok::<CommandV, Seq<char>>(
            CommandV::Once { path, output: Output::Bytes, out: Some(file) },
        ),
        path != "-"@ ==> cli_spec(seq!["--preview"@, "--watch"@, path]) == Ok::<CommandV, Seq<char>>(
            CommandV::Watch { path, output: Output::Preview, out: None },
        ),
{
    reveal_with_fuel(cli_from, 5);
    reveal_strlit("--preview");
    reveal_strlit("-p");
    reveal_strlit("--html");
    reveal_strlit("--watch");
    reveal_strlit("-w");
    reveal_strlit("--out");
    reveal_strlit("-o");
    reveal_strlit("--help");
    reveal_strlit("-h");
    reveal_strlit("-");
    // A name that is not an option is none of the flags: each flag starts with `-` and is
    // longer than `-` alone.
    if path.len() > 0 && path[0] == '-' {
        assert(path =~= "-"@) by {
            assert(path == "-"@);
        }
    }
    assert(path != "--preview"@ && path != "-p"@ && path != "--html"@ && path != "--watch"@ && path
        != "-w"@ && path != "--out"@ && path != "-o"@ && path != "--help"@ && path != "-h"@) by {
        if path.len() > 0 && path[0] == '-' {
            assert(path.len() == 1);
        } else if path.len() > 0 {
            assert(("--preview"@)[0] == '-' && ("-p"@)[0] == '-' && ("--html"@)[0] == '-');
        }
    }
    // The flags differ from one another in length or in their second character.
    assert(("--preview"@).len() == 9 && ("--html"@).len() == 6 && ("--watch"@).len() == 7);
    assert(("-p"@)[1] == 'p' && ("-w"@)[1] == 'w' && ("-o"@)[1] == 'o' && ("-h"@)[1] == 'h');
    assert(("--out"@).len() == 5 && ("--help"@).len() == 6 && ("--html"@)[2] == 'h' && ("--help"@)[3] == 'e');
    assert(("--html"@)[3] == 't');
}
} // verus!
