//! The command line of the formatter: argument handling and the text of its
//! reports. Reading and writing files stays with the program that uses this.
use vstd::prelude::*;
use crate::error::{error_views, render_view, ErrorView, ParseError};
use crate::model::{Board, ColumnView};
use crate::parser::column_views;
use crate::text::{chars_of, chars_eq, decimal, push_decimal};

verus! {

/// What the formatter does with a board that parses.
#[derive(PartialEq, Eq, Structural, Debug, Clone, Copy)]
pub enum Mode {
    /// Print the canonical form to standard output.
    Print,
    /// Only validate, and print a short summary.
    Check,
    /// Rewrite the file in place with its canonical form.
    Write,
}

pub open spec fn usage_text() -> Seq<char> {
    "usage: kanban-fmt [--check | --write] <file>\n\n  <file>     path to a kanban board export, or '-' to read from stdin\n  --check    validate only, do not print the formatted board\n  --write    format the file in place instead of printing to stdout (not valid with '-')"@
}

/// The usage message.
pub fn usage() -> (s: String)
    ensures
        s@ == usage_text(),
{
    "usage: kanban-fmt [--check | --write] <file>\n\n  <file>     path to a kanban board export, or '-' to read from stdin\n  --check    validate only, do not print the formatted board\n  --write    format the file in place instead of printing to stdout (not valid with '-')".to_owned()
}

/// Where the arguments read so far have led: a mode and maybe a path, or
/// the message to stop with.
pub type ArgsState = Result<(Mode, Option<Seq<char>>), Seq<char>>;

/// Reads one argument.
pub open spec fn args_step(st: ArgsState, arg: Seq<char>) -> ArgsState {
    match st {
        Err(e) => Err(e),
        Ok((mode, path)) => {
            if arg == "--check"@ || arg == "--write"@ {
                let requested = if arg == "--check"@ {
                    Mode::Check
                } else {
                    Mode::Write
                };
                if mode != Mode::Print && mode != requested {
                    Err("'--check' and '--write' are mutually exclusive\n\n"@ + usage_text())
                } else {
                    Ok((requested, path))
                }
            } else if arg == "-h"@ || arg == "--help"@ {
                Err(usage_text())
            } else if path is None {
                Ok((mode, Some(arg)))
            } else {
                Err("unexpected argument '"@ + arg + "'\n\n"@ + usage_text())
            }
        },
    }
}

/// Reads the arguments `1..k` (the first one is the program's name).
pub open spec fn args_fold(args: Seq<Seq<char>>, k: int) -> ArgsState
    decreases k,
{
    if k <= 1 {
        Ok((Mode::Print, None))
    } else {
        args_step(args_fold(args, k - 1), args[k - 1])
    }
}

/// The mode and path that a command line asks for, or the message to stop
/// with: the usage when it names no file or asks for help.
pub open spec fn args_view(args: Seq<Seq<char>>) -> Result<(Mode, Seq<char>), Seq<char>> {
    match args_fold(args, args.len() as int) {
        Err(e) => Err(e),
        Ok((mode, Some(path))) => Ok((mode, path)),
        Ok((_, None)) => Err(usage_text()),
    }
}

/// Once the arguments have led to a message, the rest do not change it.
pub proof fn lemma_args_fold_err(args: Seq<Seq<char>>, j: int, n: int)
    requires
        j <= n,
        args_fold(args, j) is Err,
    ensures
        args_fold(args, n) == args_fold(args, j),
    decreases n - j,
{
    if n > j {
        lemma_args_fold_err(args, j, n - 1);
    }
}

/// Whether two strings hold the same characters.
fn same_text(a: &str, b: &str) -> (r: bool)
    ensures
        r == (a@ == b@),
{
    let x = chars_of(a);
    let y = chars_of(b);
    chars_eq(&x, &y)
}

/// Reads the command line: `[--check | --write] <file>`. The first argument
/// is the program's name.
pub fn parse_args(args: &[String]) -> (r: Result<(Mode, String), String>)
    requires
        args@.len() >= 1,
    ensures
        args_view(args@.map_values(|a: String| a@)) == match r {
            Ok((mode, path)) => Ok((mode, path@)),
            Err(e) => Err(e@),
        },
{
    let ghost av = args@.map_values(|a: String| a@);
    let mut mode = Mode::Print;
    let mut path: Option<String> = None;
    let mut k: usize = 1;
    while k < args.len()
        invariant
            1 <= k <= args.len(),
            av == args@.map_values(|a: String| a@),
            args_fold(av, k as int) == Ok::<(Mode, Option<Seq<char>>), Seq<char>>(
                (mode, crate::model::opt_view(path)),
            ),
        decreases args.len() - k,
    {
        let arg = &args[k];
        assert(av[k as int] == arg@);
        let is_check = same_text(arg.as_str(), "--check");
        let is_write = same_text(arg.as_str(), "--write");
        if is_check || is_write {
            let requested = if is_check {
                Mode::Check
            } else {
                Mode::Write
            };
            if mode != Mode::Print && mode != requested {
                let mut message = "'--check' and '--write' are mutually exclusive\n\n".to_owned();
                message.append(usage().as_str());
                proof {
                    assert(args_fold(av, k + 1) == Err::<(Mode, Option<Seq<char>>), Seq<char>>(message@));
                    lemma_args_fold_err(av, k + 1, av.len() as int);
                }
                return Err(message);
            }
            mode = requested;
        } else if same_text(arg.as_str(), "-h") || same_text(arg.as_str(), "--help") {
            let message = usage();
            proof {
                assert(args_fold(av, k + 1) == Err::<(Mode, Option<Seq<char>>), Seq<char>>(message@));
                lemma_args_fold_err(av, k + 1, av.len() as int);
            }
            return Err(message);
        } else if path.is_none() {
            path = Some(arg.clone());
        } else {
            let mut message = "unexpected argument '".to_owned();
            message.append(arg.as_str());
            message.append("'\n\n");
            message.append(usage().as_str());
            proof {
                assert(args_fold(av, k + 1) == Err::<(Mode, Option<Seq<char>>), Seq<char>>(message@));
                lemma_args_fold_err(av, k + 1, av.len() as int);
            }
            return Err(message);
        }
        k = k + 1;
    }
    match path {
        Some(p) => Ok((mode, p)),
        None => Err(usage()),
    }
}

/// The message for `--write` on standard input.
pub open spec fn stdin_write_message() -> Seq<char> {
    "error: --write requires a file path, stdin has nowhere to write back to"@
}

/// `--write` needs a file to write back to; standard input (`-`) has none.
/// Gives the message to stop with when that is asked for.
pub fn refuse_stdin_write(mode: Mode, path: &str) -> (r: Option<String>)
    ensures
        r is Some <==> (mode == Mode::Write && path@ == "-"@),
        r matches Some(m) ==> m@ == stdin_write_message(),
{
    if same_text(path, "-") && mode == Mode::Write {
        Some("error: --write requires a file path, stdin has nowhere to write back to".to_owned())
    } else {
        None
    }
}

/// The name under which diagnostics show the input: `<stdin>` for `-`.
pub fn display_name(path: &str) -> (name: String)
    ensures
        name@ == if path@ == "-"@ {
            "<stdin>"@
        } else {
            path@
        },
{
    if same_text(path, "-") {
        "<stdin>".to_owned()
    } else {
        path.to_owned()
    }
}

/// With `--write`, the file is rewritten only when its canonical form
/// differs from what it holds.
pub fn needs_rewrite(formatted: &str, source: &str) -> (r: bool)
    ensures
        r == (formatted@ != source@),
{
    !same_text(formatted, source)
}

/// The number of cards on a board.
pub open spec fn total_cards(columns: Seq<ColumnView>) -> nat
    decreases columns.len(),
{
    if columns.len() == 0 {
        0
    } else {
        total_cards(columns.drop_last()) + columns.last().cards.len()
    }
}

/// The summary line of `--check`: `ok: <n> column(s), <m> card(s)`.
pub open spec fn summary_view(columns: Seq<ColumnView>) -> Seq<char> {
    "ok: "@ + decimal(columns.len()) + " column(s), "@ + decimal(total_cards(columns))
        + " card(s)"@
}

/// The summary that `--check` prints for a board that parses.
pub fn summary(board: &Board) -> (s: String)
    ensures
        s@ == summary_view(board@.columns),
{
    let ghost cols = column_views(board.columns@);
    assert(cols == board@.columns);
    let mut total: u128 = 0;
    let mut i: usize = 0;
    while i < board.columns.len()
        invariant
            0 <= i <= board.columns.len(),
            cols == column_views(board.columns@),
            total == total_cards(cols.take(i as int)),
            total <= i * 0xFFFF_FFFF_FFFF_FFFFu128,
        decreases board.columns.len() - i,
    {
        let n = board.columns[i].cards.len();
        proof {
            assert(cols.take(i + 1).drop_last() == cols.take(i as int));
            assert(cols[i as int].cards.len() == n);
            assert(n <= 0xFFFF_FFFF_FFFF_FFFFu128);
            assert(i * 0xFFFF_FFFF_FFFF_FFFFu128 + 0xFFFF_FFFF_FFFF_FFFFu128 == (i + 1)
                * 0xFFFF_FFFF_FFFF_FFFFu128) by (nonlinear_arith);
            assert((i + 1) * 0xFFFF_FFFF_FFFF_FFFFu128 <= 0xFFFF_FFFF_FFFF_FFFFu128
                * 0xFFFF_FFFF_FFFF_FFFFu128) by (nonlinear_arith)
                requires
                    i < usize::MAX,
                    usize::MAX <= 0xFFFF_FFFF_FFFF_FFFFu128,
            ;
        }
        total = total + n as u128;
        i = i + 1;
    }
    assert(cols.take(cols.len() as int) == cols);
    let mut s = "ok: ".to_owned();
    push_decimal(&mut s, board.columns.len() as u128);
    s.append(" column(s), ");
    push_decimal(&mut s, total);
    s.append(" card(s)");
    s
}

/// The renders of the diagnostics, a blank line between neighbours.
pub open spec fn renders(errors: Seq<ErrorView>, filename: Seq<char>, source: Seq<char>) -> Seq<
    char,
>
    decreases errors.len(),
{
    if errors.len() == 0 {
        Seq::empty()
    } else if errors.len() == 1 {
        render_view(errors[0], filename, source)
    } else {
        renders(errors.drop_last(), filename, source) + "\n"@ + render_view(
            errors.last(),
            filename,
            source,
        )
    }
}

/// What the formatter reports for a file that does not parse: every
/// diagnostic, and a closing count when there is more than one.
pub open spec fn report_view(errors: Seq<ErrorView>, filename: Seq<char>, source: Seq<char>) -> Seq<
    char,
> {
    renders(errors, filename, source) + if errors.len() > 1 {
        "\nerror: aborting due to "@ + decimal(errors.len()) + " previous errors\n"@
    } else {
        Seq::empty()
    }
}

/// The report for a file that does not parse.
pub fn report(errors: &Vec<ParseError>, filename: &str, source: &str) -> (s: String)
    ensures
        s@ == report_view(error_views(errors@), filename@, source@),
{
    let ghost ev = error_views(errors@);
    let mut s = String::new();
    let mut i: usize = 0;
    while i < errors.len()
        invariant
            0 <= i <= errors.len(),
            ev == error_views(errors@),
            s@ == renders(ev.take(i as int), filename@, source@),
        decreases errors.len() - i,
    {
        if i > 0 {
            s.append("\n");
        }
        let rendered = errors[i].render(filename, source);
        s.append(rendered.as_str());
        proof {
            let t = ev.take(i + 1);
            assert(t.drop_last() == ev.take(i as int));
            assert(t.last() == errors@[i as int]@);
            if i == 0 {
                assert(ev.take(0).len() == 0);
                assert(s@ =~= renders(t, filename@, source@));
            } else {
                assert(s@ =~= renders(t, filename@, source@));
            }
        }
        i = i + 1;
    }
    assert(ev.take(ev.len() as int) == ev);
    if errors.len() > 1 {
        s.append("\nerror: aborting due to ");
        push_decimal(&mut s, errors.len() as u128);
        s.append(" previous errors\n");
        assert(s@ =~= report_view(ev, filename@, source@));
    } else {
        assert(s@ =~= report_view(ev, filename@, source@));
    }
    s
}

} // verus!
