//! Every diagnostic points into the file: its line exists (or is line 1 of
//! an empty file), its column and width are at least one, and the
//! diagnostics come in the order of the lines they concern.
use vstd::prelude::*;
use crate::error::ErrorView;
use crate::syntax::{
    board_header, card_body, card_line, column_header, first_nonblank, fold_lines, initial_state,
    meta_fold, meta_step, parse_view, step, ParseState,
};
use crate::text::lines_of;

verus! {

/// Every diagnostic of `es` is about line `line_no`, at a column and with a
/// width of at least one.
pub open spec fn all_at_line(es: Seq<ErrorView>, line_no: nat) -> bool {
    forall|i: int|
        0 <= i < es.len() ==> (#[trigger] es[i]).line == line_no && es[i].col >= 1 && es[i].len
            >= 1
}

/// The diagnostics are about lines `1..=last`, in order, each at a column
/// and with a width of at least one.
pub open spec fn anchored(es: Seq<ErrorView>, last: nat) -> bool {
    &&& forall|i: int|
        0 <= i < es.len() ==> 1 <= (#[trigger] es[i]).line <= last && es[i].col >= 1 && es[i].len
            >= 1
    &&& forall|i: int, j: int| 0 <= i < j < es.len() ==> (#[trigger] es[i]).line <= (#[trigger] es[j]).line
}

pub proof fn lemma_anchored_append(es: Seq<ErrorView>, last: nat, more: Seq<ErrorView>, line_no: nat)
    requires
        anchored(es, last),
        all_at_line(more, line_no),
        last <= line_no,
        1 <= line_no,
    ensures
        anchored(es + more, line_no),
{
    let all = es + more;
    assert forall|i: int| 0 <= i < all.len() implies 1 <= (#[trigger] all[i]).line <= line_no
        && all[i].col >= 1 && all[i].len >= 1 by {
        if i < es.len() {
            assert(all[i] == es[i]);
        } else {
            assert(all[i] == more[i - es.len()]);
        }
    }
    assert forall|i: int, j: int| 0 <= i < j < all.len() implies (#[trigger] all[i]).line <= (
    #[trigger] all[j]).line by {
        if j < es.len() {
            assert(all[i] == es[i]);
            assert(all[j] == es[j]);
        } else if i < es.len() {
            assert(all[i] == es[i]);
            assert(all[j] == more[j - es.len()]);
        } else {
            assert(all[i] == more[i - es.len()]);
            assert(all[j] == more[j - es.len()]);
        }
    }
}

pub proof fn lemma_meta_fold_at_line(toks: Seq<(nat, Seq<char>)>, base: nat, line_no: nat)
    ensures
        all_at_line(meta_fold(toks, base, line_no).errors, line_no),
    decreases toks.len(),
{
    if toks.len() > 0 {
        lemma_meta_fold_at_line(toks.drop_last(), base, line_no);
        let st = meta_fold(toks.drop_last(), base, line_no);
        let next = meta_step(st, toks.last(), base, line_no);
        assert forall|i: int| 0 <= i < next.errors.len() implies (#[trigger] next.errors[i]).line
            == line_no && next.errors[i].col >= 1 && next.errors[i].len >= 1 by {
            if i < st.errors.len() {
                assert(next.errors[i] == st.errors[i]);
            }
        }
    }
}

pub proof fn lemma_card_line_at_line(line: Seq<char>, line_no: nat)
    ensures
        all_at_line(card_line(line, line_no).1, line_no),
{
    let indent = crate::text::ws_prefix_len(line);
    let trimmed = line.skip(indent as int);
    if trimmed.len() == 0 || trimmed[0] != '-' {
    } else {
        let after_dash = trimmed.skip(1);
        if after_dash.len() == 0 || after_dash[0] != ' ' {
        } else {
            let spaces = crate::text::ws_prefix_len(after_dash);
            let rest = after_dash.skip(spaces as int);
            let start = indent + 1 + spaces;
            let m = crate::syntax::marker_start(rest);
            match m {
                Some(m) => lemma_meta_fold_at_line(
                    crate::syntax::tokens(rest.skip(m as int)),
                    start + m,
                    line_no,
                ),
                None => {},
            }
            let (card, es) = card_body(rest, start, line_no);
            let meta = match m {
                Some(m) => meta_fold(crate::syntax::tokens(rest.skip(m as int)), start + m, line_no),
                None => crate::syntax::empty_meta(),
            };
            let title = match m {
                Some(m) => crate::text::trim_end(rest.take(m as int)),
                None => crate::text::trim_end(rest),
            };
            let te = if title.len() == 0 {
                seq![crate::error::diagnostic(line_no, start + 1, 1, "card title cannot be empty"@, None)]
            } else {
                Seq::empty()
            };
            assert(es == te + meta.errors);
            assert forall|i: int| 0 <= i < es.len() implies (#[trigger] es[i]).line == line_no
                && es[i].col >= 1 && es[i].len >= 1 by {
                if i < te.len() {
                    assert(es[i] == te[i]);
                } else {
                    assert(es[i] == meta.errors[i - te.len()]);
                }
            }
        }
    }
}

pub proof fn lemma_step_anchored(st: ParseState, line: Seq<char>, line_no: nat, last: nat)
    requires
        anchored(st.errors, last),
        last <= line_no,
        1 <= line_no,
    ensures
        anchored(step(st, line, line_no).errors, line_no),
{
    let next = step(st, line, line_no);
    let empty = Seq::<ErrorView>::empty();
    if crate::text::all_ws(line) {
        lemma_anchored_append(st.errors, last, empty, line_no);
        assert(st.errors + empty == st.errors);
    } else if st.in_block {
        lemma_card_line_at_line(line, line_no);
        lemma_anchored_append(st.errors, last, card_line(line, line_no).1, line_no);
    } else {
        let indent = crate::text::ws_prefix_len(line);
        let trimmed = line.skip(indent as int);
        if !crate::syntax::starts_with(trimmed, crate::syntax::column_kw()) {
            let e = next.errors.last();
            lemma_anchored_append(st.errors, last, seq![e], line_no);
            assert(next.errors == st.errors + seq![e]);
        } else {
            let (name, es) = column_header(line, line_no);
            match crate::syntax::first_definition(st.seen, name) {
                Some(first) => {
                    let more = es.push(
                        crate::syntax::duplicate_column(line_no, indent + 1, trimmed.len(), name, first),
                    );
                    assert forall|i: int| 0 <= i < more.len() implies (#[trigger] more[i]).line
                        == line_no && more[i].col >= 1 && more[i].len >= 1 by {
                        if i < es.len() {
                            assert(more[i] == es[i]);
                        }
                    }
                    lemma_anchored_append(st.errors, last, more, line_no);
                },
                None => {
                    lemma_anchored_append(st.errors, last, es, line_no);
                },
            }
        }
    }
}

pub proof fn lemma_fold_anchored(ls: Seq<Seq<char>>, from: int, k: int, init: ParseState)
    requires
        1 <= from <= k,
        anchored(init.errors, from as nat),
    ensures
        anchored(fold_lines(ls, from, k, init).errors, k as nat),
    decreases k - from,
{
    if k > from {
        lemma_fold_anchored(ls, from, k - 1, init);
        lemma_step_anchored(fold_lines(ls, from, k - 1, init), ls[k - 1], k as nat, (k - 1) as nat);
    }
}

/// Every diagnostic of a file that does not parse points at one of its
/// lines (line 1 when it has none), at a column and with a width of at
/// least one, and the diagnostics come in the order of their lines.
pub proof fn law_diagnostics_anchored(source: Seq<char>)
    requires
        parse_view(source) is Err,
    ensures
        anchored(
            parse_view(source)->Err_0,
            if lines_of(source).len() > 1 {
                lines_of(source).len()
            } else {
                1
            },
        ),
{
    let ls = lines_of(source);
    let h = first_nonblank(ls, 0);
    crate::validity::lemma_first_nonblank_range(ls, 0);
    let last: nat = if ls.len() > 1 { ls.len() } else { 1 };
    if h >= ls.len() {
        let es = parse_view(source)->Err_0;
        assert(es.len() == 1);
        assert(es[0].line == 1);
    } else {
        let (name, he) = board_header(ls[h], (h + 1) as nat);
        assert(all_at_line(he, (h + 1) as nat));
        let init = initial_state(he);
        assert(anchored(Seq::<ErrorView>::empty(), 1));
        lemma_anchored_append(Seq::<ErrorView>::empty(), 1, he, (h + 1) as nat);
        assert(Seq::<ErrorView>::empty() + he == he);
        lemma_fold_anchored(ls, h + 1, ls.len() as int, init);
        let st = fold_lines(ls, h + 1, ls.len() as int, init);
        if st.columns.len() == 0 {
            let e = parse_view(source)->Err_0.last();
            lemma_anchored_append(st.errors, ls.len() as nat, seq![e], last);
            assert(parse_view(source)->Err_0 == st.errors + seq![e]);
        } else {
            let es = st.errors;
            assert forall|i: int| 0 <= i < es.len() implies 1 <= (#[trigger] es[i]).line <= last by {}
        }
    }
}


// ---------------------------------------------------------------------------
// Caret spans
// ---------------------------------------------------------------------------

/// Every diagnostic of `es` ends (column plus width) within `bound`.
pub open spec fn spans_within(es: Seq<ErrorView>, bound: nat) -> bool {
    forall|i: int| 0 <= i < es.len() ==> (#[trigger] es[i]).col + es[i].len <= bound
}

/// The length of line `n` (1-based) of `ls`; zero past the end.
pub open spec fn line_len(ls: Seq<Seq<char>>, n: nat) -> nat {
    if 1 <= n <= ls.len() {
        ls[n - 1].len()
    } else {
        0
    }
}

/// Every caret underline of `es` ends at most one character past the end
/// of the line it points at.
pub open spec fn carets_fit(es: Seq<ErrorView>, ls: Seq<Seq<char>>) -> bool {
    forall|i: int| 0 <= i < es.len() ==> (#[trigger] es[i]).col + es[i].len <= line_len(ls, es[i].line) + 2
}

pub proof fn lemma_carets_fit_append(
    es: Seq<ErrorView>,
    ls: Seq<Seq<char>>,
    more: Seq<ErrorView>,
    line_no: nat,
)
    requires
        carets_fit(es, ls),
        all_at_line(more, line_no),
        spans_within(more, line_len(ls, line_no) + 2),
    ensures
        carets_fit(es + more, ls),
{
    let all = es + more;
    assert forall|i: int| 0 <= i < all.len() implies (#[trigger] all[i]).col + all[i].len
        <= line_len(ls, all[i].line) + 2 by {
        if i < es.len() {
            assert(all[i] == es[i]);
        } else {
            assert(all[i] == more[i - es.len()]);
        }
    }
}

pub proof fn lemma_meta_fold_spans(toks: Seq<(nat, Seq<char>)>, base: nat, line_no: nat, bound: nat)
    requires
        forall|k: int|
            0 <= k < toks.len() ==> base + (#[trigger] toks[k]).0 + toks[k].1.len() + 1 <= bound
                && toks[k].1.len() >= 1,
    ensures
        spans_within(meta_fold(toks, base, line_no).errors, bound),
    decreases toks.len(),
{
    if toks.len() > 0 {
        let prev = toks.drop_last();
        assert(forall|k: int| 0 <= k < prev.len() ==> #[trigger] prev[k] == toks[k]);
        lemma_meta_fold_spans(prev, base, line_no, bound);
        let st = meta_fold(prev, base, line_no);
        let tok = toks.last();
        assert(base + toks[toks.len() - 1].0 + toks[toks.len() - 1].1.len() + 1 <= bound);
        let next = meta_step(st, tok, base, line_no);
        assert forall|i: int| 0 <= i < next.errors.len() implies (#[trigger] next.errors[i]).col
            + next.errors[i].len <= bound by {
            if i < st.errors.len() {
                assert(next.errors[i] == st.errors[i]);
            }
        }
    }
}

pub proof fn lemma_card_line_spans(line: Seq<char>, line_no: nat)
    ensures
        spans_within(card_line(line, line_no).1, line.len() + 2),
{
    let indent = crate::text::ws_prefix_len(line);
    crate::text::lemma_ws_prefix_shape(line);
    let trimmed = line.skip(indent as int);
    if trimmed.len() == 0 || trimmed[0] != '-' {
    } else {
        let after_dash = trimmed.skip(1);
        if after_dash.len() == 0 || after_dash[0] != ' ' {
        } else {
            let spaces = crate::text::ws_prefix_len(after_dash);
            crate::text::lemma_ws_prefix_shape(after_dash);
            let rest = after_dash.skip(spaces as int);
            let start = indent + 1 + spaces;
            assert(start + rest.len() == line.len());
            let m = crate::syntax::marker_start(rest);
            crate::validity::lemma_first_marker_facts(rest, 0);
            let meta = match m {
                Some(m) => meta_fold(crate::syntax::tokens(rest.skip(m as int)), start + m, line_no),
                None => crate::syntax::empty_meta(),
            };
            match m {
                Some(m) => {
                    let text = rest.skip(m as int);
                    let toks = crate::syntax::tokens(text);
                    crate::parser::lemma_tokens_shape(text);
                    assert forall|k: int| 0 <= k < toks.len() implies start + m + (#[trigger] toks[k]).0
                        + toks[k].1.len() + 1 <= line.len() + 1 && toks[k].1.len() >= 1 by {}
                    lemma_meta_fold_spans(toks, start + m, line_no, line.len() + 1);
                },
                None => {},
            }
            let title = match m {
                Some(m) => crate::text::trim_end(rest.take(m as int)),
                None => crate::text::trim_end(rest),
            };
            let te = if title.len() == 0 {
                seq![crate::error::diagnostic(line_no, start + 1, 1, "card title cannot be empty"@, None)]
            } else {
                Seq::empty()
            };
            let es = card_body(rest, start, line_no).1;
            assert(es == te + meta.errors);
            assert forall|i: int| 0 <= i < es.len() implies (#[trigger] es[i]).col + es[i].len
                <= line.len() + 2 by {
                if i < te.len() {
                    assert(es[i] == te[i]);
                } else {
                    assert(es[i] == meta.errors[i - te.len()]);
                }
            }
        }
    }
}

pub proof fn lemma_step_carets(st: ParseState, ls: Seq<Seq<char>>, k: int)
    requires
        1 <= k <= ls.len(),
        carets_fit(st.errors, ls),
    ensures
        carets_fit(step(st, ls[k - 1], k as nat).errors, ls),
{
    let line = ls[k - 1];
    let line_no = k as nat;
    assert(line_len(ls, line_no) == line.len());
    let next = step(st, line, line_no);
    let empty = Seq::<ErrorView>::empty();
    if crate::text::all_ws(line) {
        assert(next.errors == st.errors);
    } else if st.in_block {
        lemma_card_line_at_line(line, line_no);
        lemma_card_line_spans(line, line_no);
        lemma_carets_fit_append(st.errors, ls, card_line(line, line_no).1, line_no);
    } else {
        let indent = crate::text::ws_prefix_len(line);
        crate::text::lemma_ws_prefix_shape(line);
        let trimmed = line.skip(indent as int);
        if !crate::syntax::starts_with(trimmed, crate::syntax::column_kw()) {
            let e = next.errors.last();
            assert(next.errors == st.errors + seq![e]);
            lemma_carets_fit_append(st.errors, ls, seq![e], line_no);
        } else {
            let (name, es) = column_header(line, line_no);
            match crate::syntax::first_definition(st.seen, name) {
                Some(first) => {
                    let more = es.push(
                        crate::syntax::duplicate_column(line_no, indent + 1, trimmed.len(), name, first),
                    );
                    assert forall|i: int| 0 <= i < more.len() implies (#[trigger] more[i]).line
                        == line_no && more[i].col >= 1 && more[i].len >= 1 by {
                        if i < es.len() {
                            assert(more[i] == es[i]);
                        }
                    }
                    assert forall|i: int| 0 <= i < more.len() implies (#[trigger] more[i]).col
                        + more[i].len <= line.len() + 2 by {
                        if i < es.len() {
                            assert(more[i] == es[i]);
                        }
                    }
                    lemma_carets_fit_append(st.errors, ls, more, line_no);
                },
                None => {
                    lemma_carets_fit_append(st.errors, ls, es, line_no);
                },
            }
        }
    }
}

pub proof fn lemma_fold_carets(ls: Seq<Seq<char>>, from: int, k: int, init: ParseState)
    requires
        0 <= from <= k <= ls.len(),
        carets_fit(init.errors, ls),
    ensures
        carets_fit(fold_lines(ls, from, k, init).errors, ls),
    decreases k - from,
{
    if k > from {
        lemma_fold_carets(ls, from, k - 1, init);
        lemma_step_carets(fold_lines(ls, from, k - 1, init), ls, k);
    }
}

/// The caret underline of every diagnostic ends at most one character past
/// the end of the line that it points at.
pub proof fn law_carets_within_lines(source: Seq<char>)
    requires
        parse_view(source) is Err,
    ensures
        forall|i: int|
            0 <= i < parse_view(source)->Err_0.len() ==> {
                let e = #[trigger] parse_view(source)->Err_0[i];
                e.col + e.len <= crate::error::source_line(source, e.line).len() + 2
            },
{
    let ls = lines_of(source);
    let h = first_nonblank(ls, 0);
    crate::validity::lemma_first_nonblank_range(ls, 0);
    let es = parse_view(source)->Err_0;
    if h >= ls.len() {
        assert(es.len() == 1);
        assert(carets_fit(es, ls));
    } else {
        let (name, he) = board_header(ls[h], (h + 1) as nat);
        let line = ls[h];
        crate::text::lemma_ws_prefix_shape(line);
        assert(all_at_line(he, (h + 1) as nat));
        assert(line_len(ls, (h + 1) as nat) == line.len());
        assert(spans_within(he, line.len() + 2));
        lemma_carets_fit_append(Seq::<ErrorView>::empty(), ls, he, (h + 1) as nat);
        assert(Seq::<ErrorView>::empty() + he == he);
        let init = initial_state(he);
        lemma_fold_carets(ls, h + 1, ls.len() as int, init);
        let st = fold_lines(ls, h + 1, ls.len() as int, init);
        if st.columns.len() == 0 {
            let e = es.last();
            assert(es == st.errors + seq![e]);
            assert(carets_fit(seq![e], ls));
            assert forall|i: int| 0 <= i < es.len() implies (#[trigger] es[i]).col + es[i].len
                <= line_len(ls, es[i].line) + 2 by {
                if i < st.errors.len() {
                    assert(es[i] == st.errors[i]);
                }
            }
        }
        assert(carets_fit(es, ls));
    }
    law_diagnostics_anchored(source);
    assert forall|i: int| 0 <= i < es.len() implies {
        let e = #[trigger] es[i];
        e.col + e.len <= crate::error::source_line(source, e.line).len() + 2
    } by {
        let e = es[i];
        assert(e.line >= 1);
        assert(e.col + e.len <= line_len(ls, e.line) + 2);
        if e.line <= ls.len() {
            assert(crate::error::source_line(source, e.line) == ls[e.line - 1]);
        }
    }
}

} // verus!
