//! What the command line and its reports promise, over all inputs.
use vstd::prelude::*;
use crate::cli::{args_fold, args_view, report_view, renders, summary_view, total_cards, Mode};
use crate::error::{render_view, ErrorView};
use crate::model::ColumnView;
use crate::text::decimal;

verus! {

// ---------------------------------------------------------------------------
// The card count of `--check`
// ---------------------------------------------------------------------------

/// The cards of the columns of two boards put together are the cards of
/// the one plus the cards of the other.
pub proof fn law_card_count_adds_up(a: Seq<ColumnView>, b: Seq<ColumnView>)
    ensures
        total_cards(a + b) == total_cards(a) + total_cards(b),
    decreases b.len(),
{
    if b.len() == 0 {
        assert(a + b == a);
    } else {
        law_card_count_adds_up(a, b.drop_last());
        assert((a + b).drop_last() == a + b.drop_last());
        assert((a + b).last() == b.last());
    }
}

/// A single column counts every one of its cards.
pub proof fn law_card_count_of_one_column(c: ColumnView)
    ensures
        total_cards(seq![c]) == c.cards.len(),
{
    assert(seq![c].drop_last() =~= Seq::<ColumnView>::empty());
    assert(seq![c].last() == c);
    assert(total_cards(Seq::<ColumnView>::empty()) == 0);
    assert(total_cards(seq![c]) == total_cards(seq![c].drop_last()) + seq![c].last().cards.len());
}

/// Adding a column adds all of its cards to the count.
pub proof fn law_card_count_push(cs: Seq<ColumnView>, c: ColumnView)
    ensures
        total_cards(cs.push(c)) == total_cards(cs) + c.cards.len(),
{
    law_card_count_adds_up(cs, seq![c]);
    law_card_count_of_one_column(c);
    assert(cs + seq![c] == cs.push(c));
}

/// The summary of `--check` names the number of columns and the number of
/// cards on the board; one more column with `n` cards adds one column and
/// `n` cards to what it names.
pub proof fn law_summary_counts(cs: Seq<ColumnView>, c: ColumnView)
    ensures
        summary_view(cs) == "ok: "@ + decimal(cs.len()) + " column(s), "@ + decimal(total_cards(cs))
            + " card(s)"@,
        summary_view(cs.push(c)) == "ok: "@ + decimal(cs.len() + 1) + " column(s), "@ + decimal(
            total_cards(cs) + c.cards.len(),
        ) + " card(s)"@,
{
    law_card_count_push(cs, c);
}

// ---------------------------------------------------------------------------
// Command-line flags
// ---------------------------------------------------------------------------

/// `x` is one of the arguments after the program's name, among the first
/// `k` arguments.
pub open spec fn given_before(args: Seq<Seq<char>>, x: Seq<char>, k: int) -> bool {
    exists|i: int| 1 <= i < k && i < args.len() && args[i] == x
}

/// `x` is one of the arguments after the program's name.
pub open spec fn given(args: Seq<Seq<char>>, x: Seq<char>) -> bool {
    given_before(args, x, args.len() as int)
}

pub proof fn lemma_args_fold_flags(args: Seq<Seq<char>>, k: int)
    requires
        1 <= k <= args.len(),
    ensures
        args_fold(args, k) matches Ok((mode, _)) ==> {
            &&& (mode == Mode::Check <==> given_before(args, "--check"@, k))
            &&& (mode == Mode::Write <==> given_before(args, "--write"@, k))
            &&& !(given_before(args, "--check"@, k) && given_before(args, "--write"@, k))
        },
    decreases k,
{
    reveal_strlit("--check");
    reveal_strlit("--write");
    assert("--check"@[2] != "--write"@[2]);
    assert("--check"@ != "--write"@);
    if k > 1 {
        lemma_args_fold_flags(args, k - 1);
        let prev = args_fold(args, k - 1);
        let arg = args[k - 1];
        match args_fold(args, k) {
            Ok((mode, _)) => {
                assert(prev is Ok);
                let (pm, pp) = prev->Ok_0;
                assert forall|x: Seq<char>| #[trigger] given_before(args, x, k) <==> (given_before(
                    args,
                    x,
                    k - 1,
                ) || arg == x) by {
                    if given_before(args, x, k) && arg != x {
                        let i = choose|i: int| 1 <= i < k && i < args.len() && args[i] == x;
                        assert(i < k - 1);
                        assert(given_before(args, x, k - 1));
                    }
                    if arg == x {
                        assert(args[k - 1] == x);
                    }
                    if given_before(args, x, k - 1) {
                        let i = choose|i: int| 1 <= i < k - 1 && i < args.len() && args[i] == x;
                        assert(1 <= i < k);
                    }
                }
                assert(given_before(args, "--check"@, k) <==> (given_before(args, "--check"@, k - 1)
                    || arg == "--check"@));
                assert(given_before(args, "--write"@, k) <==> (given_before(args, "--write"@, k - 1)
                    || arg == "--write"@));
            },
            Err(_) => {},
        }
    }
}

/// A command line that is accepted never holds both `--check` and
/// `--write`, and asks for the mode of the flag it holds.
pub proof fn law_flags_exclusive(args: Seq<Seq<char>>)
    requires
        args.len() >= 1,
    ensures
        args_view(args) matches Ok((mode, _)) ==> {
            &&& !(given(args, "--check"@) && given(args, "--write"@))
            &&& (mode == Mode::Check <==> given(args, "--check"@))
            &&& (mode == Mode::Write <==> given(args, "--write"@))
            &&& (mode == Mode::Print <==> !given(args, "--check"@) && !given(args, "--write"@))
        },
{
    lemma_args_fold_flags(args, args.len() as int);
}

/// `x` is `--check` or `--write`.
pub open spec fn is_mode_flag(x: Seq<char>) -> bool {
    x == "--check"@ || x == "--write"@
}

/// `x` asks for help.
pub open spec fn is_help(x: Seq<char>) -> bool {
    x == "-h"@ || x == "--help"@
}

/// Of the arguments `1..k`, none asks for help; without a path all are mode
/// flags, and with one it is the one argument that is not a mode flag.
pub open spec fn args_prefix_ok(args: Seq<Seq<char>>, k: int, path: Option<Seq<char>>) -> bool {
    &&& forall|i: int| 1 <= i < k ==> !is_help(#[trigger] args[i])
    &&& match path {
        None => forall|i: int| 1 <= i < k ==> is_mode_flag(#[trigger] args[i]),
        Some(p) => exists|i: int|
            1 <= i < k && #[trigger] args[i] == p && forall|j: int|
                1 <= j < k && !is_mode_flag(#[trigger] args[j]) ==> j == i,
    }
}

pub proof fn lemma_args_fold_path(args: Seq<Seq<char>>, k: int)
    requires
        1 <= k <= args.len(),
    ensures
        args_fold(args, k) matches Ok((_, path)) ==> args_prefix_ok(args, k, path),
    decreases k,
{
    reveal_strlit("--check");
    reveal_strlit("--write");
    reveal_strlit("-h");
    reveal_strlit("--help");
    assert("-h"@.len() != "--check"@.len() && "-h"@.len() != "--write"@.len());
    assert("--help"@.len() != "--check"@.len() && "--help"@.len() != "--write"@.len());
    if k > 1 {
        lemma_args_fold_path(args, k - 1);
        let arg = args[k - 1];
        match args_fold(args, k) {
            Ok((_, path)) => {
                let (pm, pp) = args_fold(args, k - 1)->Ok_0;
                assert(!is_help(arg));
                assert forall|i: int| 1 <= i < k implies !is_help(#[trigger] args[i]) by {
                    if i < k - 1 {
                        assert(!is_help(args[i]));
                    }
                }
                if is_mode_flag(arg) {
                    assert(path == pp);
                    match pp {
                        None => {
                            assert forall|i: int| 1 <= i < k implies is_mode_flag(#[trigger] args[i]) by {
                                if i < k - 1 {
                                    assert(is_mode_flag(args[i]));
                                }
                            }
                        },
                        Some(p) => {
                            let i = choose|i: int|
                                1 <= i < k - 1 && #[trigger] args[i] == p && forall|j: int|
                                    1 <= j < k - 1 && !is_mode_flag(#[trigger] args[j]) ==> j == i;
                            assert forall|j: int| 1 <= j < k && !is_mode_flag(#[trigger] args[j]) implies j
                                == i by {
                                if j == k - 1 {
                                    assert(is_mode_flag(args[j]));
                                }
                            }
                            assert(args[i] == p);
                        },
                    }
                } else {
                    assert(pp is None);
                    assert(path == Some(arg));
                    assert forall|j: int| 1 <= j < k && !is_mode_flag(#[trigger] args[j]) implies j
                        == k - 1 by {
                        if j < k - 1 {
                            assert(is_mode_flag(args[j]));
                        }
                    }
                    assert(args[k - 1] == arg);
                }
            },
            Err(_) => {},
        }
    }
}

/// An accepted command line asks for no help, and its path is the one
/// argument after the program's name that is not `--check` or `--write`.
pub proof fn law_path_is_the_only_other_argument(args: Seq<Seq<char>>)
    requires
        args.len() >= 1,
    ensures
        args_view(args) matches Ok((_, path)) ==> {
            &&& forall|i: int| 1 <= i < args.len() ==> !is_help(#[trigger] args[i])
            &&& !is_mode_flag(path) && !is_help(path)
            &&& exists|i: int|
                1 <= i < args.len() && #[trigger] args[i] == path && forall|j: int|
                    1 <= j < args.len() && !is_mode_flag(#[trigger] args[j]) ==> j == i
        },
{
    lemma_args_fold_path(args, args.len() as int);
    match args_view(args) {
        Ok((_, path)) => {
            let i = choose|i: int|
                1 <= i < args.len() && #[trigger] args[i] == path && forall|j: int|
                    1 <= j < args.len() && !is_mode_flag(#[trigger] args[j]) ==> j == i;
            if is_mode_flag(path) {
                lemma_args_fold_flags_path(args, args.len() as int);
            }
            assert(!is_help(args[i]));
        },
        Err(_) => {},
    }
}

/// The path that the arguments set is never a mode flag.
pub proof fn lemma_args_fold_flags_path(args: Seq<Seq<char>>, k: int)
    requires
        1 <= k <= args.len(),
    ensures
        args_fold(args, k) matches Ok((_, Some(p))) ==> !is_mode_flag(p),
    decreases k,
{
    if k > 1 {
        lemma_args_fold_flags_path(args, k - 1);
    }
}

// ---------------------------------------------------------------------------
// The error report
// ---------------------------------------------------------------------------

/// The closing line of a report about `n` diagnostics.
pub open spec fn abort_footer(n: nat) -> Seq<char> {
    "\nerror: aborting due to "@ + decimal(n) + " previous errors\n"@
}

/// A report about one diagnostic is its render alone.
pub proof fn law_report_of_one(e: ErrorView, filename: Seq<char>, source: Seq<char>)
    ensures
        report_view(seq![e], filename, source) == render_view(e, filename, source),
{
    let r = render_view(e, filename, source);
    assert(seq![e][0] == e);
    assert(r + Seq::<char>::empty() =~= r);
}

/// One more diagnostic adds a blank line and its render after all the
/// renders already there, and the closing count says how many there are.
pub proof fn law_report_push(es: Seq<ErrorView>, e: ErrorView, filename: Seq<char>, source: Seq<char>)
    requires
        es.len() >= 1,
    ensures
        ({
            let before = report_view(es, filename, source);
            let body = if es.len() >= 2 {
                before.take(before.len() - abort_footer(es.len()).len())
            } else {
                before
            };
            report_view(es.push(e), filename, source) == body + "\n"@ + render_view(
                e,
                filename,
                source,
            ) + abort_footer(es.len() + 1)
        }),
{
    let all = es.push(e);
    assert(all.drop_last() == es);
    assert(all.last() == e);
    let r = renders(es, filename, source);
    let before = report_view(es, filename, source);
    if es.len() >= 2 {
        assert(before == r + abort_footer(es.len()));
        assert(before.take(before.len() - abort_footer(es.len()).len()) =~= r);
    } else {
        assert(before =~= r);
    }
    assert(report_view(all, filename, source) =~= r + "\n"@ + render_view(e, filename, source)
        + abort_footer(es.len() + 1));
}


} // verus!
