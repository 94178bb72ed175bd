//! What every board that parses looks like: names and titles trimmed and on
//! one line, no metadata marker inside a title, tags and assignees without
//! whitespace, at least one column and no column name twice.
use vstd::prelude::*;
use crate::model::ColumnView;
use crate::roundtrip::{
    distinct_names, lacks, lemma_first_definition_push, named, seen_covers,
    wf_board, wf_card, wf_column, wf_name, wf_tag,
};
use crate::syntax::{
    add_card, board_header, card_body, card_line, first_definition, first_marker_from,
    fold_lines, initial_state, is_marker_at, marker_start, meta_fold, parse_view, step,
    tag_list, tokens, MetaState, ParseState,
};
use crate::text::{
    is_trimmed, is_ws, lemma_trim_of_trimmed, lemma_trim_shape, lemma_ws_prefix_shape, lines_of,
    no_ws, split_on, strip_cr, trim, trim_end, ws_prefix_len,
};

verus! {

// ---------------------------------------------------------------------------
// Pieces of text
// ---------------------------------------------------------------------------

pub proof fn lemma_lacks_skip(s: Seq<char>, c: char, k: int)
    requires
        lacks(s, c),
        0 <= k <= s.len(),
    ensures
        lacks(s.skip(k), c),
{
    assert forall|i: int| 0 <= i < s.skip(k).len() implies s.skip(k)[i] != c by {
        assert(s.skip(k)[i] == s[k + i]);
    }
}

pub proof fn lemma_lacks_take(s: Seq<char>, c: char, k: int)
    requires
        lacks(s, c),
        0 <= k <= s.len(),
    ensures
        lacks(s.take(k), c),
{
    assert forall|i: int| 0 <= i < s.take(k).len() implies s.take(k)[i] != c by {
        assert(s.take(k)[i] == s[i]);
    }
}

/// Every piece of a split lacks the separator, and has no whitespace when
/// the whole had none.
pub proof fn lemma_split_pieces(s: Seq<char>, sep: char)
    ensures
        forall|k: int|
            0 <= k < split_on(s, sep).len() ==> lacks(#[trigger] split_on(s, sep)[k], sep) && (no_ws(
                s,
            ) ==> no_ws(split_on(s, sep)[k])),
    decreases s.len(),
{
    if s.len() > 0 {
        let t = s.drop_last();
        lemma_split_pieces(t, sep);
        crate::text::lemma_split_on_nonempty(t, sep);
        let p = split_on(t, sep);
        let c = s.last();
        if no_ws(s) {
            assert forall|i: int| 0 <= i < t.len() implies !is_ws(#[trigger] t[i]) by {
                assert(t[i] == s[i]);
            }
            assert(!is_ws(s[s.len() - 1]));
        }
        assert forall|k: int| 0 <= k < split_on(s, sep).len() implies lacks(
            #[trigger] split_on(s, sep)[k],
            sep,
        ) && (no_ws(s) ==> no_ws(split_on(s, sep)[k])) by {
            if c == sep {
                if k < p.len() {
                    assert(split_on(s, sep)[k] == p[k]);
                } else {
                    assert(split_on(s, sep)[k] == Seq::<char>::empty());
                }
            } else {
                if k < p.len() - 1 {
                    assert(split_on(s, sep)[k] == p[k]);
                } else {
                    let q = p.last().push(c);
                    assert(split_on(s, sep)[k] == q);
                    assert(p.last() == p[p.len() - 1]);
                    assert forall|i: int| 0 <= i < q.len() implies q[i] != sep by {
                        if i < q.len() - 1 {
                            assert(q[i] == p.last()[i]);
                        }
                    }
                    if no_ws(s) {
                        assert forall|i: int| 0 <= i < q.len() implies !is_ws(#[trigger] q[i]) by {
                            if i < q.len() - 1 {
                                assert(q[i] == p.last()[i]);
                            }
                        }
                    }
                }
            }
        }
    }
}

/// No line of a text holds a line feed.
pub proof fn lemma_lines_lack_newline(s: Seq<char>)
    ensures
        forall|k: int| 0 <= k < lines_of(s).len() ==> lacks(#[trigger] lines_of(s)[k], '\n'),
{
    lemma_split_pieces(s, '\n');
    crate::text::lemma_split_on_nonempty(s, '\n');
    let p = split_on(s, '\n');
    let ended = p.drop_last().map_values(|l: Seq<char>| strip_cr(l));
    assert forall|k: int| 0 <= k < ended.len() implies lacks(#[trigger] ended[k], '\n') by {
        assert(p.drop_last()[k] == p[k]);
        let l = p[k];
        if l.len() > 0 && l.last() == '\r' {
            lemma_lacks_take(l, '\n', l.len() - 1);
            assert(l.drop_last() == l.take(l.len() - 1));
        }
    }
    let ls = lines_of(s);
    assert forall|k: int| 0 <= k < ls.len() implies lacks(#[trigger] ls[k], '\n') by {
        if k < ended.len() {
            assert(ls[k] == ended[k]);
        } else {
            assert(ls[k] == p[p.len() - 1]);
        }
    }
}

/// A trimmed text without whitespace is its own trim.
pub proof fn lemma_no_ws_trimmed(s: Seq<char>)
    requires
        no_ws(s),
    ensures
        is_trimmed(s),
        trim(s) == s,
{
    if s.len() > 0 {
        assert(!is_ws(s[s.len() - 1]));
    }
    lemma_trim_of_trimmed(s);
}

// ---------------------------------------------------------------------------
// Cards
// ---------------------------------------------------------------------------

pub proof fn lemma_first_marker_facts(s: Seq<char>, i: int)
    requires
        0 <= i,
    ensures
        match first_marker_from(s, i) {
            Some(m) => i <= m && is_marker_at(s, m as int) && forall|j: int|
                i <= j < m ==> !is_marker_at(s, j),
            None => forall|j: int| i <= j ==> !is_marker_at(s, j),
        },
    decreases s.len() - i,
{
    if i < s.len() {
        lemma_first_marker_facts(s, i + 1);
    }
}

pub proof fn lemma_tokens_no_ws(s: Seq<char>)
    ensures
        forall|k: int| 0 <= k < tokens(s).len() ==> no_ws(#[trigger] tokens(s)[k].1),
    decreases s.len(),
{
    if s.len() > 0 {
        let t = s.drop_last();
        lemma_tokens_no_ws(t);
        crate::parser::lemma_tokens_shape(t);
        let p = tokens(t);
        let i = s.len() - 1;
        let c = s[i];
        assert forall|k: int| 0 <= k < tokens(s).len() implies no_ws(#[trigger] tokens(s)[k].1) by {
            if is_ws(c) {
                assert(tokens(s)[k] == p[k]);
            } else if i > 0 && !is_ws(s[i - 1]) {
                assert(t.last() == s[i - 1]);
                if k < p.len() - 1 {
                    assert(tokens(s)[k] == p[k]);
                } else {
                    let q = p.last().1.push(c);
                    assert(tokens(s)[k].1 == q);
                    assert(p.last() == p[p.len() - 1]);
                    assert forall|j: int| 0 <= j < q.len() implies !is_ws(#[trigger] q[j]) by {
                        if j < q.len() - 1 {
                            assert(q[j] == p.last().1[j]);
                        }
                    }
                }
            } else {
                if k < p.len() {
                    assert(tokens(s)[k] == p[k]);
                } else {
                    assert(tokens(s)[k].1 == seq![c]);
                }
            }
        }
    }
}

/// The assignee and tags that the metadata gives are well formed.
pub open spec fn meta_ok(st: MetaState) -> bool {
    &&& (st.assignee matches Some(a) ==> a.len() > 0 && no_ws(a))
    &&& forall|k: int| 0 <= k < st.tags.len() ==> wf_tag(#[trigger] st.tags[k])
}

pub proof fn lemma_meta_fold_ok(toks: Seq<(nat, Seq<char>)>, base: nat, line_no: nat)
    requires
        forall|k: int| 0 <= k < toks.len() ==> no_ws(#[trigger] toks[k].1),
    ensures
        meta_ok(meta_fold(toks, base, line_no)),
    decreases toks.len(),
{
    if toks.len() > 0 {
        let prev = toks.drop_last();
        assert(forall|k: int| 0 <= k < prev.len() ==> #[trigger] prev[k] == toks[k]);
        lemma_meta_fold_ok(prev, base, line_no);
        let st = meta_fold(prev, base, line_no);
        let tok = toks.last();
        assert(no_ws(toks[toks.len() - 1].1));
        let text = tok.1;
        if text.len() > 0 && text[0] == '@' {
            let name = text.skip(1);
            assert forall|i: int| 0 <= i < name.len() implies !is_ws(#[trigger] name[i]) by {
                assert(name[i] == text[i + 1]);
            }
        } else if text.len() > 0 && text[0] == '#' {
            let list = text.skip(1);
            assert forall|i: int| 0 <= i < list.len() implies !is_ws(#[trigger] list[i]) by {
                assert(list[i] == text[i + 1]);
            }
            if list.len() > 0 && st.tags.len() == 0 {
                match tag_list(list) {
                    Some(tags) => {
                        let pieces = split_on(list, ',');
                        lemma_split_pieces(list, ',');
                        assert forall|k: int| 0 <= k < tags.len() implies wf_tag(#[trigger] tags[k]) by {
                            assert(tags[k] == trim(pieces[k]));
                            lemma_no_ws_trimmed(pieces[k]);
                            assert(trim(pieces[k]).len() != 0);
                        }
                    },
                    None => {},
                }
            }
        }
    }
}

/// A card that a line reads as is well formed, and came without a
/// diagnostic.
pub proof fn lemma_card_line_wf(line: Seq<char>, line_no: nat)
    requires
        lacks(line, '\n'),
    ensures
        card_line(line, line_no).0 is None ==> card_line(line, line_no).1.len() > 0,
        card_line(line, line_no).0 matches Some(c) ==> wf_card(c) && card_line(line, line_no).1.len()
            == 0,
{
    let indent = ws_prefix_len(line);
    lemma_ws_prefix_shape(line);
    let trimmed = line.skip(indent as int);
    if trimmed.len() == 0 || trimmed[0] != '-' {
    } else {
        let after_dash = trimmed.skip(1);
        if after_dash.len() == 0 || after_dash[0] != ' ' {
        } else {
            let spaces = ws_prefix_len(after_dash);
            lemma_ws_prefix_shape(after_dash);
            let rest = after_dash.skip(spaces as int);
            lemma_lacks_skip(line, '\n', indent as int);
            lemma_lacks_skip(trimmed, '\n', 1);
            lemma_lacks_skip(after_dash, '\n', spaces as int);
            if rest.len() > 0 {
                assert(rest[0] == after_dash[spaces as int]);
            }
            lemma_card_body_wf(rest, (indent + 1 + spaces) as nat, line_no);
        }
    }
}

pub proof fn lemma_card_body_wf(rest: Seq<char>, start: nat, line_no: nat)
    requires
        lacks(rest, '\n'),
        rest.len() > 0 ==> !is_ws(rest[0]),
    ensures
        card_body(rest, start, line_no).0 is None ==> card_body(rest, start, line_no).1.len() > 0,
        card_body(rest, start, line_no).0 matches Some(c) ==> wf_card(c) && card_body(
            rest,
            start,
            line_no,
        ).1.len() == 0,
{
    let m = marker_start(rest);
    lemma_first_marker_facts(rest, 0);
    let part = match m {
        Some(m) => rest.take(m as int),
        None => rest,
    };
    let title = trim_end(part);
    let (card, errors) = card_body(rest, start, line_no);
    match card {
        Some(c) => {
            assert(c.title == title);
            assert(title.len() > 0);
            lemma_trim_shape(part);
            crate::text::lemma_ws_suffix_shape(part);
            assert(title[0] == part[0]);
            assert(part[0] == rest[0]);
            assert(is_trimmed(title));
            match m {
                Some(mm) => {
                    lemma_lacks_take(rest, '\n', mm as int);
                },
                None => {
                    assert(rest.take(rest.len() as int) == rest);
                },
            }
            lemma_lacks_take(part, '\n', title.len() as int);
            assert forall|i: int| !is_marker_at(title, i) by {
                if is_marker_at(title, i) {
                    assert(title[i] == rest[i]);
                    if i > 0 {
                        assert(title[i - 1] == rest[i - 1]);
                    }
                    assert(is_marker_at(rest, i));
                }
            }
            match m {
                Some(mm) => {
                    let toks = tokens(rest.skip(mm as int));
                    lemma_tokens_no_ws(rest.skip(mm as int));
                    lemma_meta_fold_ok(toks, start + mm, line_no);
                },
                None => {},
            }
        },
        None => {},
    }
}

// ---------------------------------------------------------------------------
// The file
// ---------------------------------------------------------------------------

/// What the lines after the header keep true while no diagnostic has come
/// up.
pub open spec fn state_ok(st: ParseState) -> bool {
    &&& forall|k: int| 0 <= k < st.columns.len() ==> wf_column(#[trigger] st.columns[k])
    &&& distinct_names(st.columns)
    &&& seen_covers(st.seen, st.columns)
    &&& st.in_block ==> st.columns.len() > 0
}

pub proof fn lemma_step_errors_grow(st: ParseState, line: Seq<char>, line_no: nat)
    ensures
        step(st, line, line_no).errors.len() >= st.errors.len(),
{
}

pub proof fn lemma_fold_errors_grow(ls: Seq<Seq<char>>, from: int, k: int, init: ParseState)
    ensures
        fold_lines(ls, from, k, init).errors.len() >= init.errors.len(),
    decreases k - from,
{
    if k > from {
        lemma_fold_errors_grow(ls, from, k - 1, init);
        lemma_step_errors_grow(fold_lines(ls, from, k - 1, init), ls[k - 1], k as nat);
    }
}

pub proof fn lemma_step_ok(st: ParseState, line: Seq<char>, line_no: nat)
    requires
        state_ok(st),
        lacks(line, '\n'),
        step(st, line, line_no).errors.len() == st.errors.len(),
    ensures
        state_ok(step(st, line, line_no)),
{
    let next = step(st, line, line_no);
    if crate::text::all_ws(line) {
    } else if st.in_block {
        lemma_card_line_wf(line, line_no);
        let (card, errors) = card_line(line, line_no);
        assert(errors.len() == 0);
        let c = card->Some_0;
        let cols = st.columns;
        let last = cols.last();
        assert(wf_column(cols[cols.len() - 1]));
        let new_last = ColumnView { name: last.name, cards: last.cards.push(c) };
        assert(next.columns == add_card(cols, c));
        assert forall|k: int| 0 <= k < next.columns.len() implies wf_column(#[trigger] next.columns[k]) by {
            if k < cols.len() - 1 {
                assert(next.columns[k] == cols[k]);
            } else {
                assert(next.columns[k] == new_last);
                assert forall|j: int| 0 <= j < new_last.cards.len() implies wf_card(
                    #[trigger] new_last.cards[j],
                ) by {
                    if j < last.cards.len() {
                        assert(new_last.cards[j] == last.cards[j]);
                    }
                }
            }
        }
        assert forall|i: int, j: int| 0 <= i < j < next.columns.len() implies #[trigger] next.columns[i].name
            != #[trigger] next.columns[j].name by {
            assert(next.columns[i].name == cols[i].name);
            assert(next.columns[j].name == cols[j].name);
        }
        assert forall|x: Seq<char>| named(next.columns, x) <==> named(cols, x) by {
            if named(next.columns, x) {
                let i = choose|i: int| 0 <= i < next.columns.len() && (#[trigger] next.columns[i]).name == x;
                assert(cols[i].name == x);
            }
            if named(cols, x) {
                let i = choose|i: int| 0 <= i < cols.len() && (#[trigger] cols[i]).name == x;
                assert(next.columns[i].name == x);
            }
        }
    } else {
        let indent = ws_prefix_len(line);
        lemma_ws_prefix_shape(line);
        let trimmed = line.skip(indent as int);
        if crate::syntax::starts_with(trimmed, crate::syntax::column_kw()) {
            let (name, errors) = crate::syntax::column_header(line, line_no);
            assert(errors.len() == 0);
            assert(first_definition(st.seen, name) is None);
            assert(!named(st.columns, name));
            let after = trimmed.skip(7);
            lemma_lacks_skip(line, '\n', indent as int);
            lemma_lacks_skip(trimmed, '\n', 7);
            lemma_trim_shape(after);
            let a = crate::text::trim_start(after);
            lemma_ws_prefix_shape(after);
            lemma_lacks_skip(after, '\n', ws_prefix_len(after) as int);
            crate::text::lemma_ws_suffix_shape(a);
            lemma_lacks_take(a, '\n', a.len() - crate::text::ws_suffix_len(a));
            assert(wf_name(name));
            let cols = st.columns;
            let col = ColumnView { name, cards: Seq::empty() };
            assert(next.columns == cols.push(col));
            assert forall|k: int| 0 <= k < next.columns.len() implies wf_column(#[trigger] next.columns[k]) by {
                if k < cols.len() {
                    assert(next.columns[k] == cols[k]);
                }
            }
            assert forall|i: int, j: int| 0 <= i < j < next.columns.len() implies #[trigger] next.columns[i].name
                != #[trigger] next.columns[j].name by {
                if j < cols.len() {
                    assert(next.columns[i] == cols[i]);
                    assert(next.columns[j] == cols[j]);
                } else {
                    assert(next.columns[i] == cols[i]);
                    if cols[i].name == name {
                        assert(named(cols, name));
                    }
                }
            }
            assert forall|x: Seq<char>| (#[trigger] first_definition(next.seen, x) is None) <==> !named(
                next.columns,
                x,
            ) by {
                lemma_first_definition_push(st.seen, name, line_no, x);
                assert(first_definition(st.seen, x) is None <==> !named(cols, x));
                if named(cols, x) {
                    let i = choose|i: int| 0 <= i < cols.len() && (#[trigger] cols[i]).name == x;
                    assert(next.columns[i].name == x);
                }
                if named(next.columns, x) && name != x {
                    let i = choose|i: int|
                        0 <= i < next.columns.len() && (#[trigger] next.columns[i]).name == x;
                    assert(i < cols.len());
                    assert(cols[i].name == x);
                }
                if name == x {
                    assert(next.columns[cols.len() as int].name == x);
                }
            }
        }
    }
}

pub proof fn lemma_fold_ok(ls: Seq<Seq<char>>, from: int, k: int, init: ParseState)
    requires
        0 <= from <= k <= ls.len(),
        forall|i: int| 0 <= i < ls.len() ==> lacks(#[trigger] ls[i], '\n'),
        state_ok(init),
        fold_lines(ls, from, k, init).errors.len() == init.errors.len(),
    ensures
        state_ok(fold_lines(ls, from, k, init)),
    decreases k - from,
{
    if k > from {
        let prev = fold_lines(ls, from, k - 1, init);
        lemma_fold_errors_grow(ls, from, k - 1, init);
        lemma_step_errors_grow(prev, ls[k - 1], k as nat);
        lemma_fold_ok(ls, from, k - 1, init);
        lemma_step_ok(prev, ls[k - 1], k as nat);
    }
}

pub proof fn lemma_first_nonblank_range(ls: Seq<Seq<char>>, i: int)
    requires
        0 <= i,
    ensures
        i <= crate::syntax::first_nonblank(ls, i) <= ls.len() || (i > ls.len()
            && crate::syntax::first_nonblank(ls, i) == ls.len()),
        crate::syntax::first_nonblank(ls, i) < ls.len() ==> !crate::text::all_ws(
            ls[crate::syntax::first_nonblank(ls, i)],
        ),
    decreases ls.len() - i,
{
    if i < ls.len() {
        lemma_first_nonblank_range(ls, i + 1);
    }
}

/// Every board that parses is well formed.
pub proof fn lemma_parsed_board_wf(source: Seq<char>)
    requires
        parse_view(source) is Ok,
    ensures
        wf_board(parse_view(source)->Ok_0),
{
    let ls = lines_of(source);
    lemma_lines_lack_newline(source);
    let h = crate::syntax::first_nonblank(ls, 0);
    lemma_first_nonblank_range(ls, 0);
    assert(h < ls.len());
    assert(lacks(ls[h], '\n'));
    let (name, header_errors) = board_header(ls[h], (h + 1) as nat);
    let init = initial_state(header_errors);
    let st = fold_lines(ls, h + 1, ls.len() as int, init);
    lemma_fold_errors_grow(ls, h + 1, ls.len() as int, init);
    assert(st.errors.len() == 0);
    assert(header_errors.len() == 0);
    assert forall|x: Seq<char>| (#[trigger] first_definition(init.seen, x) is None) <==> !named(
        init.columns,
        x,
    ) by {}
    assert(state_ok(init));
    lemma_fold_ok(ls, h + 1, ls.len() as int, init);
    let line = ls[h];
    let indent = ws_prefix_len(line);
    lemma_ws_prefix_shape(line);
    let trimmed = line.skip(indent as int);
    let after = trimmed.skip(6);
    lemma_lacks_skip(line, '\n', indent as int);
    lemma_lacks_skip(trimmed, '\n', 6);
    lemma_trim_shape(after);
    let a = crate::text::trim_start(after);
    lemma_ws_prefix_shape(after);
    lemma_lacks_skip(after, '\n', ws_prefix_len(after) as int);
    crate::text::lemma_ws_suffix_shape(a);
    lemma_lacks_take(a, '\n', a.len() - crate::text::ws_suffix_len(a));
}

} // verus!
