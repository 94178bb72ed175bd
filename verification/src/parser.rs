//! The parser: reads a kanban export line by line and either builds its board
//! or collects every diagnostic, as `syntax::parse_view` says.
use vstd::prelude::*;
use crate::error::{diagnostic, error_views, ErrorView, ParseError};
use crate::model::{opt_view, Board, BoardView, Card, CardView, Column, ColumnView};
use crate::syntax::{
    duplicate_column, first_nonblank, fold_lines, initial_state, parse_view, step, ParseState, board_header, board_kw, column_header, column_kw, first_definition, starts_with, card_body, card_line, first_marker_from, is_marker_at, marker_start, meta_fold, meta_step,
    tag_list, tokens, MetaState,
};
use crate::text::{
    all_ws, char_views, chars_eq, has_prefix_at, is_blank, lines_of, lines_of_str, push_decimal, is_ws, is_ws_char, lemma_split_on_nonempty, lemma_ws_prefix_shape,
    push_chars, slice_chars, split_on, string_of, string_views, trim, trim_chars, trim_end_chars, ws_prefix, ws_prefix_len,
};

verus! {

/// The views of the tokens that `tokenize` returns.
pub open spec fn token_views(v: Seq<(usize, Vec<char>)>) -> Seq<(nat, Seq<char>)> {
    v.map_values(|t: (usize, Vec<char>)| (t.0 as nat, t.1@))
}

/// The view of an optional card.
pub open spec fn card_view(c: Option<Card>) -> Option<CardView> {
    match c {
        Some(c) => Some(c@),
        None => None,
    }
}

/// Every token is a non-empty run of non-whitespace characters that lies
/// inside `s`.
pub proof fn lemma_tokens_shape(s: Seq<char>)
    ensures
        forall|k: int|
            0 <= k < tokens(s).len() ==> {
                let t = #[trigger] tokens(s)[k];
                &&& t.1.len() >= 1
                &&& t.0 + t.1.len() <= s.len()
                &&& t.1 == s.subrange(t.0 as int, (t.0 + t.1.len()) as int)
            },
        tokens(s).len() > 0 ==> tokens(s).last().0 + tokens(s).last().1.len() <= s.len(),
        s.len() > 0 && !is_ws(s.last()) ==> tokens(s).len() > 0 && tokens(s).last().0
            + tokens(s).last().1.len() == s.len(),
    decreases s.len(),
{
    if s.len() > 0 {
        let t = s.drop_last();
        lemma_tokens_shape(t);
        let p = tokens(t);
        let i = s.len() - 1;
        let c = s[i];
        assert forall|k: int| 0 <= k < tokens(s).len() implies {
            let tk = #[trigger] tokens(s)[k];
            &&& tk.1.len() >= 1
            &&& tk.0 + tk.1.len() <= s.len()
            &&& tk.1 == s.subrange(tk.0 as int, (tk.0 + tk.1.len()) as int)
        } by {
            if is_ws(c) {
                assert(tokens(s)[k] == p[k]);
                assert(t.subrange(p[k].0 as int, (p[k].0 + p[k].1.len()) as int) == s.subrange(
                    p[k].0 as int,
                    (p[k].0 + p[k].1.len()) as int,
                ));
            } else if i > 0 && !is_ws(s[i - 1]) {
                assert(t.last() == s[i - 1]);
                if k < p.len() - 1 {
                    assert(tokens(s)[k] == p[k]);
                    assert(t.subrange(p[k].0 as int, (p[k].0 + p[k].1.len()) as int) == s.subrange(
                        p[k].0 as int,
                        (p[k].0 + p[k].1.len()) as int,
                    ));
                } else {
                    let l = p.last();
                    assert(l.1 == t.subrange(l.0 as int, (l.0 + l.1.len()) as int));
                    assert(l.0 + l.1.len() == t.len());
                    assert(l.1.push(c) =~= s.subrange(l.0 as int, (l.0 + l.1.len() + 1) as int));
                }
            } else {
                if k < p.len() {
                    assert(tokens(s)[k] == p[k]);
                    assert(t.subrange(p[k].0 as int, (p[k].0 + p[k].1.len()) as int) == s.subrange(
                        p[k].0 as int,
                        (p[k].0 + p[k].1.len()) as int,
                    ));
                } else {
                    assert(seq![c] =~= s.subrange(i, i + 1));
                }
            }
        }
        if !is_ws(c) {
            if i > 0 && !is_ws(s[i - 1]) {
                assert(t.last() == s[i - 1]);
            }
        }
    }
}

/// Finds where a card's metadata starts. A card's metadata markers
/// (`@assignee`, `#tag,tag`) only count if they start at the beginning of the
/// remaining text or are preceded by whitespace. That lets a title contain a
/// literal '@' or '#' as long as it isn't at a word boundary, e.g.
/// "Fix login@prod issue".
fn find_marker_start(rest: &Vec<char>) -> (m: Option<usize>)
    ensures
        match m {
            Some(i) => marker_start(rest@) == Some(i as nat) && i < rest.len(),
            None => marker_start(rest@) is None,
        },
{
    let mut i: usize = 0;
    while i < rest.len()
        invariant
            0 <= i <= rest.len(),
            first_marker_from(rest@, 0) == first_marker_from(rest@, i as int),
        decreases rest.len() - i,
    {
        let c = rest[i];
        if (c == '@' || c == '#') && (i == 0 || is_ws_char(rest[i - 1])) {
            assert(is_marker_at(rest@, i as int));
            return Some(i);
        }
        assert(!is_marker_at(rest@, i as int));
        i = i + 1;
    }
    None
}

/// Splits `s` into its maximal runs of non-whitespace characters, each with
/// the position at which it starts.
fn tokenize(s: &Vec<char>) -> (out: Vec<(usize, Vec<char>)>)
    ensures
        token_views(out@) == tokens(s@),
{
    let mut out: Vec<(usize, Vec<char>)> = Vec::new();
    let mut start: Option<usize> = None;
    let mut i: usize = 0;
    while i < s.len()
        invariant
            0 <= i <= s.len(),
            match start {
                None => token_views(out@) == tokens(s@.take(i as int)) && (i > 0 ==> is_ws(
                    s@[i - 1],
                )),
                Some(st) => st < i && i > 0 && !is_ws(s@[i - 1]) && token_views(out@).push(
                    (st as nat, s@.subrange(st as int, i as int)),
                ) == tokens(s@.take(i as int)),
            },
        decreases s.len() - i,
    {
        let c = s[i];
        let ghost old_out = out@;
        proof {
            assert(s@.take(i + 1).drop_last() == s@.take(i as int));
            assert(s@.take(i + 1)[i as int] == c);
        }
        if is_ws_char(c) {
            match start {
                Some(st) => {
                    let tok = slice_chars(s, st, i);
                    out.push((st, tok));
                    proof {
                        assert(token_views(out@) =~= token_views(old_out).push(
                            (st as nat, s@.subrange(st as int, i as int)),
                        ));
                    }
                    start = None;
                },
                None => {},
            }
        } else {
            match start {
                Some(st) => {
                    proof {
                        let p = tokens(s@.take(i as int));
                        assert(s@.take(i + 1)[i - 1] == s@[i - 1]);
                        assert(s@.subrange(st as int, i as int).push(c) =~= s@.subrange(
                            st as int,
                            i + 1,
                        ));
                        assert(token_views(out@).push((st as nat, s@.subrange(st as int, i + 1)))
                            =~= p.update(p.len() - 1, (p.last().0, p.last().1.push(c))));
                    }
                },
                None => {
                    proof {
                        if i > 0 {
                            assert(s@.take(i + 1)[i - 1] == s@[i - 1]);
                        }
                        assert(s@.subrange(i as int, i + 1) =~= seq![c]);
                    }
                    start = Some(i);
                },
            }
        }
        i = i + 1;
    }
    proof {
        assert(s@.take(s.len() as int) == s@);
    }
    match start {
        Some(st) => {
            let ghost old_out = out@;
            let tok = slice_chars(s, st, s.len());
            out.push((st, tok));
            assert(token_views(out@) =~= token_views(old_out).push(
                (st as nat, s@.subrange(st as int, s.len() as int)),
            ));
        },
        None => {},
    }
    out
}

/// The pieces of `v` between occurrences of `sep`.
fn split_chars(v: &Vec<char>, sep: char) -> (out: Vec<Vec<char>>)
    ensures
        char_views(out@) == split_on(v@, sep),
{
    let mut out: Vec<Vec<char>> = Vec::new();
    let mut cur: Vec<char> = Vec::new();
    let mut i: usize = 0;
    while i < v.len()
        invariant
            0 <= i <= v.len(),
            char_views(out@).push(cur@) == split_on(v@.take(i as int), sep),
        decreases v.len() - i,
    {
        let c = v[i];
        proof {
            assert(v@.take(i + 1).drop_last() == v@.take(i as int));
            assert(v@.take(i + 1).last() == c);
            lemma_split_on_nonempty(v@.take(i as int), sep);
        }
        let ghost old_out = out@;
        let ghost old_cur = cur@;
        if c == sep {
            out.push(cur);
            cur = Vec::new();
            assert(char_views(out@) =~= char_views(old_out).push(old_cur));
            assert(char_views(out@).push(cur@) =~= split_on(v@.take(i + 1), sep));
        } else {
            cur.push(c);
            assert(char_views(out@).push(cur@) =~= split_on(v@.take(i + 1), sep));
        }
        i = i + 1;
    }
    assert(v@.take(v.len() as int) == v@);
    let ghost old_out = out@;
    let ghost old_cur = cur@;
    out.push(cur);
    assert(char_views(out@) =~= char_views(old_out).push(old_cur));
    out
}

/// The tags of a `#tag,tag,...` group (without its `'#'`); `None` when a
/// piece between commas is blank.
fn parse_tag_list(list: &Vec<char>) -> (r: Option<Vec<String>>)
    ensures
        match r {
            Some(t) => tag_list(list@) == Some(string_views(t@)),
            None => tag_list(list@) is None,
        },
{
    let pieces = split_chars(list, ',');
    let ghost pv = split_on(list@, ',');
    let mut parsed_tags: Vec<String> = Vec::new();
    let mut k: usize = 0;
    while k < pieces.len()
        invariant
            0 <= k <= pieces.len(),
            char_views(pieces@) == pv,
            pv == split_on(list@, ','),
            forall|j: int| 0 <= j < k ==> #[trigger] trim(pv[j]).len() > 0,
            string_views(parsed_tags@) == pv.take(k as int).map_values(|p: Seq<char>| trim(p)),
        decreases pieces.len() - k,
    {
        let part = trim_chars(&pieces[k]);
        proof {
            assert(pieces@[k as int]@ == pv[k as int]);
        }
        if part.len() == 0 {
            assert(trim(pv[k as int]).len() == 0);
            return None;
        }
        let ghost old_tags = parsed_tags@;
        let tag = string_of(&part);
        parsed_tags.push(tag);
        proof {
            assert(parsed_tags@ == old_tags.push(tag));
            assert(char_views(pieces@).len() == pieces@.len());
            assert(pv.len() == pieces@.len());
            assert(string_views(old_tags).len() == old_tags.len());
            assert(old_tags.len() == k);
            assert(tag@ == trim(pv[k as int]));
            assert forall|j: int| 0 <= j < k + 1 implies #[trigger] string_views(parsed_tags@)[j]
                == pv.take(k + 1).map_values(|p: Seq<char>| trim(p))[j] by {
                if j < k {
                    assert(string_views(old_tags)[j] == pv.take(k as int).map_values(
                        |p: Seq<char>| trim(p),
                    )[j]);
                }
            }
            assert(string_views(parsed_tags@) =~= pv.take(k + 1).map_values(
                |p: Seq<char>| trim(p),
            ));
        }
        k = k + 1;
    }
    proof {
        assert(pv.take(pv.len() as int) == pv);
        assert forall|j: int| 0 <= j < pv.len() implies #[trigger] trim(pv[j]).len() != 0 by {}
    }
    Some(parsed_tags)
}

/// Reading a token only ever appends to the diagnostics read so far.
pub proof fn lemma_meta_step_prefix(
    st: MetaState,
    pre: Seq<ErrorView>,
    tok: (nat, Seq<char>),
    base: nat,
    line_no: nat,
)
    ensures
        ({
            let a = meta_step(MetaState { errors: pre + st.errors, ..st }, tok, base, line_no);
            let b = meta_step(st, tok, base, line_no);
            a.assignee == b.assignee && a.tags == b.tags && a.errors == pre + b.errors
        }),
{
    let a = meta_step(MetaState { errors: pre + st.errors, ..st }, tok, base, line_no);
    let b = meta_step(st, tok, base, line_no);
    if a.errors.len() > pre.len() + st.errors.len() {
        assert(a.errors =~= pre + b.errors);
    } else {
        assert(a.errors =~= pre + b.errors);
    }
}

/// Reads one metadata token of a card; `base` is where the metadata starts
/// in the line. Returns whether the token was accepted without a diagnostic.
fn read_token(
    tok_off: usize,
    tok: &Vec<char>,
    base: usize,
    line_no: usize,
    assignee: &mut Option<String>,
    tags: &mut Vec<String>,
    errors: &mut Vec<ParseError>,
) -> (ok: bool)
    requires
        base + tok_off + tok@.len() < usize::MAX,
    ensures
        ({
            let st0 = MetaState {
                assignee: opt_view(*old(assignee)),
                tags: string_views(old(tags)@),
                errors: error_views(old(errors)@),
            };
            let st1 = meta_step(st0, (tok_off as nat, tok@), base as nat, line_no as nat);
            &&& opt_view(*final(assignee)) == st1.assignee
            &&& string_views(final(tags)@) == st1.tags
            &&& error_views(final(errors)@) == st1.errors
            &&& ok == (st1.errors.len() == st0.errors.len())
        }),
{
    let col = base + tok_off + 1;
    let len = tok.len();
    let ghost old_errors = errors@;
    if tok.len() > 0 && tok[0] == '@' {
        let name = slice_chars(tok, 1, tok.len());
        assert(name@ == tok@.skip(1));
        if name.len() == 0 {
            errors.push(
                ParseError::new(
                    line_no,
                    col,
                    len,
                    "assignee name cannot be empty after '@'".to_owned(),
                    None,
                ),
            );
            assert(error_views(errors@) =~= error_views(old_errors).push(error_views(errors@).last()));
            false
        } else if assignee.is_some() {
            errors.push(
                ParseError::new(
                    line_no,
                    col,
                    len,
                    "card already has an assignee".to_owned(),
                    Some("a card can only be assigned to one person".to_owned()),
                ),
            );
            assert(error_views(errors@) =~= error_views(old_errors).push(error_views(errors@).last()));
            false
        } else {
            *assignee = Some(string_of(&name));
            true
        }
    } else if tok.len() > 0 && tok[0] == '#' {
        let list = slice_chars(tok, 1, tok.len());
        assert(list@ == tok@.skip(1));
        if list.len() == 0 {
            errors.push(
                ParseError::new(
                    line_no,
                    col,
                    len,
                    "tag list cannot be empty after '#'".to_owned(),
                    None,
                ),
            );
            assert(error_views(errors@) =~= error_views(old_errors).push(error_views(errors@).last()));
            return false;
        }
        if tags.len() > 0 {
            errors.push(
                ParseError::new(
                    line_no,
                    col,
                    len,
                    "duplicate tag list".to_owned(),
                    Some("combine tags into one '#tag1,tag2' group".to_owned()),
                ),
            );
            assert(error_views(errors@) =~= error_views(old_errors).push(error_views(errors@).last()));
            return false;
        }
        match parse_tag_list(&list) {
            Some(parsed_tags) => {
                *tags = parsed_tags;
                true
            },
            None => {
                errors.push(
                    ParseError::new(
                        line_no,
                        col,
                        len,
                        "empty tag between commas".to_owned(),
                        None,
                    ),
                );
                assert(error_views(errors@) =~= error_views(old_errors).push(
                    error_views(errors@).last(),
                ));
                *tags = Vec::new();
                assert(string_views(tags@) =~= Seq::<Seq<char>>::empty());
                false
            },
        }
    } else {
        let mut message = "unexpected text '".to_owned();
        push_chars(&mut message, tok);
        message.append("' in card metadata");
        errors.push(
            ParseError::new(
                line_no,
                col,
                len,
                message,
                Some("expected '@name' for an assignee or '#tag' for tags".to_owned()),
            ),
        );
        assert(error_views(errors@) =~= error_views(old_errors).push(error_views(errors@).last()));
        false
    }
}

/// Reads a card's text after `"- "` and the spaces after it; `rest_start` is
/// the position of `rest` in its line. The card comes back only when no
/// diagnostic came up; the diagnostics are appended to `errors`.
fn parse_card_body(
    rest: &Vec<char>,
    rest_start: usize,
    line_no: usize,
    errors: &mut Vec<ParseError>,
) -> (card: Option<Card>)
    requires
        rest_start + rest@.len() < usize::MAX,
    ensures
        ({
            let (c, es) = card_body(rest@, rest_start as nat, line_no as nat);
            &&& card_view(card) == c
            &&& error_views(final(errors)@) == error_views(old(errors)@) + es
        }),
{
    let ghost e_old = error_views(errors@);
    let marker_start_at = find_marker_start(rest);
    let title_part = match marker_start_at {
        Some(m) => slice_chars(rest, 0, m),
        None => slice_chars(rest, 0, rest.len()),
    };
    let title = trim_end_chars(&title_part);
    proof {
        match marker_start_at {
            Some(m) => assert(title_part@ == rest@.take(m as int)),
            None => assert(title_part@ == rest@),
        }
    }
    let mut card_ok = true;
    if title.len() == 0 {
        errors.push(
            ParseError::new(line_no, rest_start + 1, 1, "card title cannot be empty".to_owned(), None),
        );
        card_ok = false;
    }
    let ghost e_title = error_views(errors@);
    assert(e_title =~= e_old + (if title@.len() == 0 {
        seq![diagnostic(line_no as nat, rest_start as nat + 1, 1, "card title cannot be empty"@, None)]
    } else {
        Seq::empty()
    }));

    let mut assignee: Option<String> = None;
    let mut tags: Vec<String> = Vec::new();
    let ghost mut meta = MetaState { assignee: None, tags: Seq::empty(), errors: Seq::empty() };

    match marker_start_at {
        Some(m) => {
            let metadata = slice_chars(rest, m, rest.len());
            assert(metadata@ == rest@.skip(m as int));
            let toks = tokenize(&metadata);
            let ghost tv = token_views(toks@);
            proof {
                lemma_tokens_shape(metadata@);
            }
            let mut k: usize = 0;
            while k < toks.len()
                invariant
                    0 <= k <= toks.len(),
                    tv == token_views(toks@),
                    tv == tokens(metadata@),
                    m <= rest.len(),
                    metadata@.len() == rest@.len() - m,
                    rest_start + rest@.len() < usize::MAX,
                    forall|j: int|
                        0 <= j < tokens(metadata@).len() ==> {
                            let t = #[trigger] tokens(metadata@)[j];
                            &&& t.0 + t.1.len() <= metadata@.len()
                        },
                    meta == meta_fold(tv.take(k as int), (rest_start + m) as nat, line_no as nat),
                    opt_view(assignee) == meta.assignee,
                    string_views(tags@) == meta.tags,
                    error_views(errors@) == e_title + meta.errors,
                    card_ok == (title@.len() > 0 && meta.errors.len() == 0),
                decreases toks.len() - k,
            {
                let ghost before = meta;
                proof {
                    assert(tv[k as int] == (toks@[k as int].0 as nat, toks@[k as int].1@));
                    assert(tokens(metadata@)[k as int] == tv[k as int]);
                }
                let ok = read_token(
                    toks[k].0,
                    &toks[k].1,
                    rest_start + m,
                    line_no,
                    &mut assignee,
                    &mut tags,
                    errors,
                );
                proof {
                    let tok = tv[k as int];
                    lemma_meta_step_prefix(before, e_title, tok, (rest_start + m) as nat, line_no as nat);
                    assert(tv.take(k + 1).drop_last() == tv.take(k as int));
                    assert(tv.take(k + 1).last() == tok);
                    meta = meta_step(before, tok, (rest_start + m) as nat, line_no as nat);
                    assert(meta == meta_fold(tv.take(k + 1), (rest_start + m) as nat, line_no as nat));
                }
                card_ok = card_ok && ok;
                k = k + 1;
            }
            proof {
                assert(tv.take(tv.len() as int) == tv);
            }
        },
        None => {},
    }
    proof {
        let (c, es) = card_body(rest@, rest_start as nat, line_no as nat);
        match marker_start_at {
            Some(m) => {
                assert(meta == meta_fold(tokens(rest@.skip(m as int)), rest_start as nat + m as nat, line_no as nat));
            },
            None => {
                assert(meta == crate::syntax::empty_meta());
            },
        }
        assert(error_views(errors@) =~= e_old + es);
    }
    if card_ok {
        let card = Card { title: string_of(&title), assignee, tags };
        proof {
            let (c, es) = card_body(rest@, rest_start as nat, line_no as nat);
            assert(card@.tags =~= meta.tags);
            assert(card_view(Some(card)) == c);
        }
        Some(card)
    } else {
        None
    }
}

/// Reads a line inside a column block, which must be a card
/// `- <title> [@assignee] [#tag,...]`.
fn parse_card_line(line: &Vec<char>, line_no: usize, errors: &mut Vec<ParseError>) -> (card:
    Option<Card>)
    requires
        line@.len() < usize::MAX,
    ensures
        ({
            let (c, es) = card_line(line@, line_no as nat);
            &&& card_view(card) == c
            &&& error_views(final(errors)@) == error_views(old(errors)@) + es
        }),
{
    let indent = ws_prefix(line);
    proof {
        lemma_ws_prefix_shape(line@);
    }
    let trimmed = slice_chars(line, indent, line.len());
    assert(trimmed@ == line@.skip(indent as int));
    let ghost old_errors = errors@;

    if trimmed.len() == 0 || trimmed[0] != '-' {
        errors.push(
            ParseError::new(
                line_no,
                indent + 1,
                trimmed.len(),
                "expected a card line starting with '-'".to_owned(),
                Some("columns must be separated by a blank line".to_owned()),
            ),
        );
        assert(error_views(errors@) =~= error_views(old_errors) + card_line(line@, line_no as nat).1);
        return None;
    }

    let after_dash = slice_chars(&trimmed, 1, trimmed.len());
    assert(after_dash@ == trimmed@.skip(1));
    if after_dash.len() == 0 || after_dash[0] != ' ' {
        errors.push(
            ParseError::new(line_no, indent + 2, 1, "expected a space after '-'".to_owned(), None),
        );
        assert(error_views(errors@) =~= error_views(old_errors) + card_line(line@, line_no as nat).1);
        return None;
    }

    let spaces = ws_prefix(&after_dash);
    proof {
        lemma_ws_prefix_shape(after_dash@);
    }
    let rest = slice_chars(&after_dash, spaces, after_dash.len());
    assert(rest@ == after_dash@.skip(spaces as int));
    let rest_start = indent + 1 + spaces;

    parse_card_body(&rest, rest_start, line_no, errors)
}

/// Reads the first line of a board, `board: <name>`, and returns the name.
fn parse_board_header(line: &Vec<char>, line_no: usize, errors: &mut Vec<ParseError>) -> (name:
    Vec<char>)
    requires
        line@.len() < usize::MAX,
    ensures
        ({
            let (n, es) = board_header(line@, line_no as nat);
            &&& name@ == n
            &&& error_views(final(errors)@) == error_views(old(errors)@) + es
        }),
{
    let indent = ws_prefix(line);
    proof {
        lemma_ws_prefix_shape(line@);
    }
    let ghost old_errors = errors@;
    let keyword = vec!['b', 'o', 'a', 'r', 'd', ':'];
    assert(keyword@ == board_kw());
    if !has_prefix_at(line, indent, &keyword) {
        errors.push(
            ParseError::new(
                line_no,
                1,
                line.len(),
                "expected 'board: <name>' as the first line of the file".to_owned(),
                Some("every kanban export starts with a board header".to_owned()),
            ),
        );
        assert(error_views(errors@) =~= error_views(old_errors) + board_header(
            line@,
            line_no as nat,
        ).1);
        return Vec::new();
    }
    let after = slice_chars(line, indent + 6, line.len());
    assert(after@ == line@.skip(indent as int).skip(6));
    let name = trim_chars(&after);
    if name.len() == 0 {
        errors.push(
            ParseError::new(line_no, indent + 7, 1, "board name cannot be empty".to_owned(), None),
        );
    }
    assert(error_views(errors@) =~= error_views(old_errors) + board_header(line@, line_no as nat).1);
    name
}

/// Reads a `column: <name>` line (the caller has seen the keyword) and
/// returns the name.
fn parse_column_header(line: &Vec<char>, line_no: usize, errors: &mut Vec<ParseError>) -> (name:
    Vec<char>)
    requires
        line@.len() < usize::MAX,
        starts_with(line@.skip(ws_prefix_len(line@) as int), column_kw()),
    ensures
        ({
            let (n, es) = column_header(line@, line_no as nat);
            &&& name@ == n
            &&& error_views(final(errors)@) == error_views(old(errors)@) + es
        }),
{
    let indent = ws_prefix(line);
    proof {
        lemma_ws_prefix_shape(line@);
    }
    let ghost old_errors = errors@;
    let after = slice_chars(line, indent + 7, line.len());
    assert(after@ == line@.skip(indent as int).skip(7));
    let name = trim_chars(&after);
    if name.len() == 0 {
        errors.push(
            ParseError::new(line_no, indent + 8, 1, "column name cannot be empty".to_owned(), None),
        );
    }
    assert(error_views(errors@) =~= error_views(old_errors) + column_header(line@, line_no as nat).1);
    name
}

/// The views of the column names seen so far, with their lines.
pub open spec fn seen_views(v: Seq<(Vec<char>, usize)>) -> Seq<(Seq<char>, nat)> {
    v.map_values(|p: (Vec<char>, usize)| (p.0@, p.1 as nat))
}

/// A definition found in a prefix is the first definition.
pub proof fn lemma_first_definition_prefix(s: Seq<(Seq<char>, nat)>, name: Seq<char>, j: int)
    requires
        0 <= j <= s.len(),
        first_definition(s.take(j), name) is Some,
    ensures
        first_definition(s, name) == first_definition(s.take(j), name),
    decreases s.len() - j,
{
    if j == s.len() {
        assert(s.take(j) == s);
    } else {
        let t = s.drop_last();
        assert(t.take(j) == s.take(j));
        lemma_first_definition_prefix(t, name, j);
    }
}

/// The line on which `name` was first defined, if it was.
fn find_definition(seen: &Vec<(Vec<char>, usize)>, name: &Vec<char>) -> (r: Option<usize>)
    ensures
        match r {
            Some(l) => first_definition(seen_views(seen@), name@) == Some(l as nat),
            None => first_definition(seen_views(seen@), name@) is None,
        },
{
    let ghost sv = seen_views(seen@);
    let mut i: usize = 0;
    while i < seen.len()
        invariant
            0 <= i <= seen.len(),
            sv == seen_views(seen@),
            sv.len() == seen.len(),
            first_definition(sv.take(i as int), name@) is None,
        decreases seen.len() - i,
    {
        proof {
            assert(sv.take(i + 1).drop_last() == sv.take(i as int));
            assert(sv.take(i + 1).last() == (seen@[i as int].0@, seen@[i as int].1 as nat));
        }
        if chars_eq(&seen[i].0, name) {
            proof {
                lemma_first_definition_prefix(sv, name@, i + 1);
            }
            return Some(seen[i].1);
        }
        i = i + 1;
    }
    assert(sv.take(sv.len() as int) == sv);
    None
}

/// The views of a sequence of columns.
pub open spec fn column_views(v: Seq<Column>) -> Seq<ColumnView> {
    v.map_values(|c: Column| c@)
}

/// The views of a sequence of cards.
pub open spec fn card_views(v: Seq<Card>) -> Seq<CardView> {
    v.map_values(|c: Card| c@)
}

/// The view of what `parse` returns.
pub open spec fn parse_result_view(r: Result<Board, Vec<ParseError>>) -> Result<
    BoardView,
    Seq<ErrorView>,
> {
    match r {
        Ok(b) => Ok(b@),
        Err(es) => Err(error_views(es@)),
    }
}

/// The parser's state matches `st`, the meaning of the lines read so far.
pub open spec fn state_matches(
    st: ParseState,
    columns: Seq<Column>,
    seen: Seq<(Vec<char>, usize)>,
    errors: Seq<ParseError>,
) -> bool {
    &&& st.columns == column_views(columns)
    &&& st.seen == seen_views(seen)
    &&& st.errors == error_views(errors)
}

/// Parses one kanban export. See README.md for the format this expects.
///
/// The file is line-oriented, so the parser works line by line rather than
/// as a character-level state machine. That keeps line/column bookkeeping
/// for error messages simple: the line number is just the loop index.
///
/// Errors are collected rather than raised on the first bad line: once a
/// line is known to be broken, the parser records a diagnostic and keeps
/// going with a best-effort recovery (an empty name, a skipped card, an
/// empty tag list) so later problems in the same file are also reported.
/// The recovered value is only ever used to keep parsing moving; if
/// `errors` is non-empty at the end, `Err` is returned and the partially
/// built `Board` is discarded.
pub fn parse(source: &str) -> (res: Result<Board, Vec<ParseError>>)
    requires
        source@.len() < usize::MAX,
    ensures
        parse_result_view(res) == parse_view(source@),
{
    let lines = lines_of_str(source);
    let ghost ls = char_views(lines@);
    assert(ls == lines_of(source@));
    let mut errors: Vec<ParseError> = Vec::new();
    let mut i: usize = 0;

    while i < lines.len() && is_blank(&lines[i])
        invariant
            0 <= i <= lines.len(),
            ls == char_views(lines@),
            ls.len() == lines.len(),
            first_nonblank(ls, 0) == first_nonblank(ls, i as int),
        decreases lines.len() - i,
    {
        assert(ls[i as int] == lines@[i as int]@);
        i = i + 1;
    }

    if i >= lines.len() {
        errors.push(
            ParseError::new(
                1,
                1,
                1,
                "file is empty, expected a 'board: <name>' header".to_owned(),
                None,
            ),
        );
        assert(error_views(errors@) =~= parse_view(source@)->Err_0);
        return Err(errors);
    }
    assert(ls[i as int] == lines@[i as int]@);
    assert(first_nonblank(ls, 0) == i);
    let ghost h = i as int;

    let board_name = parse_board_header(&lines[i], i + 1, &mut errors);
    let ghost init = initial_state(error_views(errors@));
    i = i + 1;

    let mut columns: Vec<Column> = Vec::new();
    let mut seen: Vec<(Vec<char>, usize)> = Vec::new();
    assert(column_views(columns@) =~= Seq::<ColumnView>::empty());
    assert(seen_views(seen@) =~= Seq::<(Seq<char>, nat)>::empty());
    assert(state_matches(init, columns@, seen@, errors@));

    while i < lines.len()
        invariant
            h < i <= lines.len(),
            ls == char_views(lines@),
            ls.len() == lines.len(),
            forall|k: int| 0 <= k < lines@.len() ==> (#[trigger] lines@[k])@.len() < usize::MAX,
            state_matches(fold_lines(ls, h + 1, i as int, init), columns@, seen@, errors@),
            fold_lines(ls, h + 1, i as int, init).in_block ==> (i == lines.len() || all_ws(
                ls[i as int],
            )),
        decreases lines.len() - i,
    {
        let ghost i0 = i;
        while i < lines.len() && is_blank(&lines[i])
            invariant
                h < i <= lines.len(),
                i0 <= i,
                ls == char_views(lines@),
                ls.len() == lines.len(),
                state_matches(fold_lines(ls, h + 1, i as int, init), columns@, seen@, errors@),
                fold_lines(ls, h + 1, i as int, init).in_block ==> (i == lines.len() || all_ws(
                    ls[i as int],
                )),
            decreases lines.len() - i,
        {
            assert(ls[i as int] == lines@[i as int]@);
            i = i + 1;
        }
        if i < lines.len() {
            assert(ls[i as int] == lines@[i as int]@);
            let ghost before = fold_lines(ls, h + 1, i as int, init);
            assert(!before.in_block);
            let line_no = i + 1;
            let line = &lines[i];
            let indent = ws_prefix(line);
            proof {
                lemma_ws_prefix_shape(line@);
            }
            let keyword = vec!['c', 'o', 'l', 'u', 'm', 'n', ':'];
            assert(keyword@ == column_kw());
            if !has_prefix_at(line, indent, &keyword) {
                errors.push(
                    ParseError::new(
                        line_no,
                        indent + 1,
                        line.len() - indent,
                        "expected a column block starting with 'column:'".to_owned(),
                        Some("blocks are separated by a blank line".to_owned()),
                    ),
                );
                i = i + 1;
                proof {
                    let after = fold_lines(ls, h + 1, i as int, init);
                    assert(after == step(before, ls[i - 1], i as nat));
                    assert(error_views(errors@) =~= after.errors);
                }
            } else {
                let column_name = parse_column_header(line, line_no, &mut errors);
                let ghost mid_errors = errors@;
                match find_definition(&seen, &column_name) {
                    Some(first_line) => {
                        let mut message = "column '".to_owned();
                        push_chars(&mut message, &column_name);
                        message.append("' is defined more than once");
                        let mut note = "first defined on line ".to_owned();
                        push_decimal(&mut note, first_line as u128);
                        errors.push(
                            ParseError::new(
                                line_no,
                                indent + 1,
                                line.len() - indent,
                                message,
                                Some(note),
                            ),
                        );
                        proof {
                            let (n, es) = column_header(line@, line_no as nat);
                            assert(message@ == "column '"@ + n + "' is defined more than once"@);
                            assert(note@ == "first defined on line "@ + crate::text::decimal(first_line as nat));
                            assert(error_views(mid_errors) == before.errors + es);
                            assert(errors@.last()@ == duplicate_column(
                                    line_no as nat,
                                    indent as nat + 1,
                                    (line@.len() - indent) as nat,
                                    n,
                                    first_line as nat,
                                ));
                            assert(error_views(errors@) =~= error_views(mid_errors).push(
                                errors@.last()@,
                            ));
                            assert(error_views(errors@) =~= before.errors + es.push(
                                duplicate_column(
                                    line_no as nat,
                                    indent as nat + 1,
                                    (line@.len() - indent) as nat,
                                    n,
                                    first_line as nat,
                                ),
                            ));
                        }
                    },
                    None => {
                        let ghost old_seen = seen@;
                        let name_copy = slice_chars(&column_name, 0, column_name.len());
                        assert(name_copy@ == column_name@);
                        seen.push((name_copy, line_no));
                        assert(seen_views(seen@) =~= seen_views(old_seen).push(
                            (column_name@, line_no as nat),
                        ));
                    },
                }
                i = i + 1;
                let mut cards: Vec<Card> = Vec::new();
                assert(card_views(cards@) =~= Seq::<CardView>::empty());
                proof {
                    let after = fold_lines(ls, h + 1, i as int, init);
                    assert(after == step(before, ls[i - 1], i as nat));
                    assert(after.columns =~= column_views(columns@).push(
                        ColumnView { name: column_name@, cards: card_views(cards@) },
                    ));
                }
                while i < lines.len() && !is_blank(&lines[i])
                    invariant
                        h < i <= lines.len(),
                        i0 < i,
                        ls == char_views(lines@),
                        ls.len() == lines.len(),
                        forall|k: int|
                            0 <= k < lines@.len() ==> (#[trigger] lines@[k])@.len() < usize::MAX,
                        fold_lines(ls, h + 1, i as int, init).columns == column_views(
                            columns@,
                        ).push(ColumnView { name: column_name@, cards: card_views(cards@) }),
                        fold_lines(ls, h + 1, i as int, init).seen == seen_views(seen@),
                        fold_lines(ls, h + 1, i as int, init).errors == error_views(errors@),
                        fold_lines(ls, h + 1, i as int, init).in_block,
                    decreases lines.len() - i,
                {
                    assert(ls[i as int] == lines@[i as int]@);
                    let ghost before_card = fold_lines(ls, h + 1, i as int, init);
                    let ghost old_cards = cards@;
                    match parse_card_line(&lines[i], i + 1, &mut errors) {
                        Some(card) => {
                            cards.push(card);
                            assert(card_views(cards@) =~= card_views(old_cards).push(card@));
                        },
                        None => {},
                    }
                    i = i + 1;
                    proof {
                        let after = fold_lines(ls, h + 1, i as int, init);
                        assert(after == step(before_card, ls[i - 1], i as nat));
                        assert(after.columns =~= column_views(columns@).push(
                            ColumnView { name: column_name@, cards: card_views(cards@) },
                        ));
                    }
                }
                let ghost old_columns = columns@;
                let column = Column { name: string_of(&column_name), cards };
                columns.push(column);
                proof {
                    assert(column@ == ColumnView { name: column_name@, cards: card_views(column.cards@) });
                    assert(column_views(columns@) =~= column_views(old_columns).push(column@));
                    if i < lines.len() {
                        assert(ls[i as int] == lines@[i as int]@);
                    }
                }
            }
        }
    }

    let ghost st = fold_lines(ls, h + 1, lines.len() as int, init);
    if columns.len() == 0 {
        let last_line = if lines.len() > 1 { lines.len() } else { 1 };
        errors.push(
            ParseError::new(
                last_line,
                1,
                1,
                "board has no columns".to_owned(),
                Some("add at least one 'column: <name>' block".to_owned()),
            ),
        );
    }
    if errors.len() > 0 {
        assert(error_views(errors@) =~= parse_view(source@)->Err_0);
        return Err(errors);
    }
    let board = Board { name: string_of(&board_name), columns };
    assert(board@.columns =~= st.columns);
    Ok(board)
}

} // verus!
