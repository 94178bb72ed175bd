//! Printing and parsing agree: a board that parses prints to a text that
//! parses back to the same board, so formatting an already formatted file
//! changes nothing.
use vstd::prelude::*;
use crate::model::{BoardView, CardView, ColumnView};
use crate::printer::{board_text, card_text, cards_text, column_text, columns_text, join};
use crate::syntax::{
    add_card, board_header, column_header, first_nonblank, initial_state, parse_view, first_definition, fold_lines, step, ParseState, starts_with,
    board_kw, card_body, card_line, column_kw, empty_meta, first_marker_from, is_marker_at,
    meta_fold, meta_step, tag_list, tokens,
};
use crate::text::{
    all_ws, is_trimmed, is_ws, lemma_split_on_nonempty, lemma_trim_of_trimmed, lemma_ws_prefix_len,
    lemma_ws_suffix_len, lines_of, no_ws, split_on, strip_cr, trim, trim_end, };

verus! {

// ---------------------------------------------------------------------------
// Lines of a printed text
// ---------------------------------------------------------------------------

/// The lines, each followed by a line feed.
pub open spec fn join_lines(ls: Seq<Seq<char>>) -> Seq<char>
    decreases ls.len(),
{
    if ls.len() == 0 {
        Seq::empty()
    } else {
        join_lines(ls.drop_last()) + ls.last().push('\n')
    }
}

pub proof fn lemma_join_lines_one(l: Seq<char>)
    ensures
        join_lines(seq![l]) == l.push('\n'),
{
    assert(seq![l].drop_last() =~= Seq::<Seq<char>>::empty());
    assert(seq![l].last() == l);
    assert(join_lines(Seq::<Seq<char>>::empty()) == Seq::<char>::empty());
    assert(Seq::<char>::empty() + l.push('\n') =~= l.push('\n'));
}

/// `c` does not occur in `s`.
pub open spec fn lacks(s: Seq<char>, c: char) -> bool {
    forall|i: int| 0 <= i < s.len() ==> s[i] != c
}

pub proof fn lemma_join_lines_add(a: Seq<Seq<char>>, b: Seq<Seq<char>>)
    ensures
        join_lines(a + b) == join_lines(a) + join_lines(b),
    decreases b.len(),
{
    if b.len() == 0 {
        assert(a + b == a);
        assert(join_lines(a) + join_lines(b) == join_lines(a));
    } else {
        lemma_join_lines_add(a, b.drop_last());
        assert((a + b).drop_last() == a + b.drop_last());
        assert((a + b).last() == b.last());
        assert(join_lines(a + b) =~= join_lines(a) + join_lines(b));
    }
}

/// Appending text without a separator extends the last piece.
pub proof fn lemma_split_append_plain(x: Seq<char>, y: Seq<char>, sep: char)
    requires
        lacks(y, sep),
    ensures
        split_on(x + y, sep) == split_on(x, sep).update(
            split_on(x, sep).len() - 1,
            split_on(x, sep).last() + y,
        ),
    decreases y.len(),
{
    lemma_split_on_nonempty(x, sep);
    if y.len() == 0 {
        assert(x + y == x);
        assert(split_on(x, sep).last() + y == split_on(x, sep).last());
        assert(split_on(x, sep).update(split_on(x, sep).len() - 1, split_on(x, sep).last())
            =~= split_on(x, sep));
    } else {
        let y0 = y.drop_last();
        lemma_split_append_plain(x, y0, sep);
        assert((x + y).drop_last() == x + y0);
        assert((x + y).last() == y.last());
        assert((split_on(x, sep).last() + y0).push(y.last()) == split_on(x, sep).last() + y);
        assert(split_on(x + y, sep) =~= split_on(x, sep).update(
            split_on(x, sep).len() - 1,
            split_on(x, sep).last() + y,
        ));
    }
}

/// A text without the separator is a single piece.
pub proof fn lemma_split_plain(y: Seq<char>, sep: char)
    requires
        lacks(y, sep),
    ensures
        split_on(y, sep) == seq![y],
{
    let e = Seq::<char>::empty();
    lemma_split_append_plain(e, y, sep);
    assert(e + y == y);
    assert(e + y =~= y);
}

pub proof fn lemma_split_join_lines(ls: Seq<Seq<char>>)
    requires
        forall|k: int| 0 <= k < ls.len() ==> lacks(#[trigger] ls[k], '\n'),
    ensures
        split_on(join_lines(ls), '\n') == ls.push(Seq::<char>::empty()),
    decreases ls.len(),
{
    if ls.len() > 0 {
        let prev = ls.drop_last();
        let l = ls.last();
        assert(forall|k: int| 0 <= k < prev.len() ==> #[trigger] prev[k] == ls[k]);
        lemma_split_join_lines(prev);
        let x = join_lines(prev);
        lemma_split_append_plain(x, l, '\n');
        assert(x + l.push('\n') == (x + l).push('\n'));
        assert(join_lines(ls) == (x + l).push('\n'));
        assert((x + l).push('\n').drop_last() == x + l);
        assert((x + l).push('\n').last() == '\n');
        assert(split_on(x + l, '\n') =~= prev.push(l));
        assert(prev.push(l) == ls);
    }
}

/// A text made of lines, each ended by a line feed, has those lines.
pub proof fn lemma_lines_of_join(ls: Seq<Seq<char>>)
    requires
        forall|k: int| 0 <= k < ls.len() ==> lacks(#[trigger] ls[k], '\n'),
        forall|k: int|
            0 <= k < ls.len() ==> (#[trigger] ls[k]).len() == 0 || ls[k].last() != '\r',
    ensures
        lines_of(join_lines(ls)) == ls,
{
    lemma_split_join_lines(ls);
    let p = ls.push(Seq::<char>::empty());
    assert(p.drop_last() == ls);
    assert(ls.map_values(|l: Seq<char>| strip_cr(l)) =~= ls);
}

// ---------------------------------------------------------------------------
// The printed lines of a board
// ---------------------------------------------------------------------------

pub open spec fn assignee_text(c: CardView) -> Seq<char> {
    match c.assignee {
        Some(a) => seq![' ', '@'] + a,
        None => Seq::empty(),
    }
}

pub open spec fn tags_text(c: CardView) -> Seq<char> {
    if c.tags.len() > 0 {
        seq![' ', '#'] + join(c.tags, seq![','])
    } else {
        Seq::empty()
    }
}

/// The line of a card, without its line feed.
pub open spec fn card_line_text(c: CardView) -> Seq<char> {
    seq!['-', ' '] + c.title + assignee_text(c) + tags_text(c)
}

pub open spec fn card_lines(cards: Seq<CardView>) -> Seq<Seq<char>> {
    cards.map_values(|c: CardView| card_line_text(c))
}

/// The lines of a column block: a blank line, the header, the cards.
pub open spec fn column_lines(c: ColumnView) -> Seq<Seq<char>> {
    seq![Seq::<char>::empty(), column_kw().push(' ') + c.name] + card_lines(c.cards)
}

pub open spec fn columns_lines(cs: Seq<ColumnView>) -> Seq<Seq<char>>
    decreases cs.len(),
{
    if cs.len() == 0 {
        Seq::empty()
    } else {
        columns_lines(cs.drop_last()) + column_lines(cs.last())
    }
}

/// The lines of a printed board.
pub open spec fn board_lines(b: BoardView) -> Seq<Seq<char>> {
    seq![board_kw().push(' ') + b.name] + columns_lines(b.columns)
}

pub proof fn lemma_card_text(c: CardView)
    ensures
        card_text(c) == card_line_text(c).push('\n'),
{
    reveal_strlit("- ");
    reveal_strlit(" @");
    reveal_strlit(" #");
    reveal_strlit(",");
    reveal_strlit("\n");
    assert("- "@ =~= seq!['-', ' ']);
    assert(" @"@ =~= seq![' ', '@']);
    assert(" #"@ =~= seq![' ', '#']);
    assert(","@ =~= seq![',']);
    assert("\n"@ =~= seq!['\n']);
    assert(card_text(c) =~= card_line_text(c).push('\n'));
}

pub proof fn lemma_cards_text(cards: Seq<CardView>)
    ensures
        cards_text(cards) == join_lines(card_lines(cards)),
    decreases cards.len(),
{
    if cards.len() > 0 {
        lemma_cards_text(cards.drop_last());
        lemma_card_text(cards.last());
        assert(card_lines(cards).drop_last() =~= card_lines(cards.drop_last()));
    }
}

pub proof fn lemma_column_text(c: ColumnView)
    ensures
        column_text(c) == join_lines(column_lines(c)),
{
    reveal_strlit("\n");
    reveal_strlit("column: ");
    assert("\n"@ =~= seq!['\n']);
    assert("column: "@ =~= column_kw().push(' '));
    lemma_cards_text(c.cards);
    let head = seq![Seq::<char>::empty(), column_kw().push(' ') + c.name];
    lemma_join_lines_add(head, card_lines(c.cards));
    assert(head.drop_last() =~= seq![Seq::<char>::empty()]);
    assert(seq![Seq::<char>::empty()].drop_last() =~= Seq::<Seq<char>>::empty());
    lemma_join_lines_one(Seq::<char>::empty());
    assert(Seq::<char>::empty().push('\n') =~= seq!['\n']);
    assert(join_lines(head) =~= seq!['\n'] + (column_kw().push(' ') + c.name).push('\n'));
    assert(column_text(c) =~= join_lines(column_lines(c)));
}

pub proof fn lemma_columns_text(cs: Seq<ColumnView>)
    ensures
        columns_text(cs) == join_lines(columns_lines(cs)),
    decreases cs.len(),
{
    if cs.len() > 0 {
        lemma_columns_text(cs.drop_last());
        lemma_column_text(cs.last());
        lemma_join_lines_add(columns_lines(cs.drop_last()), column_lines(cs.last()));
    }
}

/// The printed text of a board is its printed lines, each ended by a line
/// feed.
pub proof fn lemma_board_text(b: BoardView)
    ensures
        board_text(b) == join_lines(board_lines(b)),
{
    reveal_strlit("\n");
    reveal_strlit("board: ");
    assert("\n"@ =~= seq!['\n']);
    assert("board: "@ =~= board_kw().push(' '));
    lemma_columns_text(b.columns);
    let head = seq![board_kw().push(' ') + b.name];
    lemma_join_lines_add(head, columns_lines(b.columns));
    assert(head.drop_last() =~= Seq::<Seq<char>>::empty());
    lemma_join_lines_one(board_kw().push(' ') + b.name);
    assert(board_text(b) =~= join_lines(board_lines(b)));
}

// ---------------------------------------------------------------------------
// What a printed card line reads back as
// ---------------------------------------------------------------------------

/// No position of `t` holds a metadata marker.
pub open spec fn marker_free(t: Seq<char>) -> bool {
    forall|i: int| !is_marker_at(t, i)
}

/// A tag as the parser gives it: not empty, no whitespace, no comma.
pub open spec fn wf_tag(t: Seq<char>) -> bool {
    t.len() > 0 && no_ws(t) && lacks(t, ',')
}

/// A card as the parser gives it: a trimmed title of one line with no
/// marker in it, an assignee without whitespace, tags as above.
pub open spec fn wf_card(c: CardView) -> bool {
    &&& c.title.len() > 0
    &&& is_trimmed(c.title)
    &&& lacks(c.title, '\n')
    &&& marker_free(c.title)
    &&& (c.assignee matches Some(a) ==> a.len() > 0 && no_ws(a))
    &&& forall|k: int| 0 <= k < c.tags.len() ==> wf_tag(#[trigger] c.tags[k])
}

pub proof fn lemma_first_marker_none(s: Seq<char>, i: int)
    requires
        0 <= i,
        forall|j: int| i <= j < s.len() ==> !is_marker_at(s, j),
    ensures
        first_marker_from(s, i) is None,
    decreases s.len() - i,
{
    if i < s.len() {
        lemma_first_marker_none(s, i + 1);
    }
}

pub proof fn lemma_first_marker_at(s: Seq<char>, i: int, m: int)
    requires
        0 <= i <= m,
        is_marker_at(s, m),
        forall|j: int| i <= j < m ==> !is_marker_at(s, j),
    ensures
        first_marker_from(s, i) == Some(m as nat),
    decreases m - i,
{
    if i < m {
        lemma_first_marker_at(s, i + 1, m);
    }
}

/// A run of non-whitespace characters after whitespace (or at the start) is
/// one more token.
pub proof fn lemma_tokens_append_run(s: Seq<char>, t: Seq<char>)
    requires
        t.len() > 0,
        no_ws(t),
        s.len() == 0 || is_ws(s.last()),
    ensures
        tokens(s + t) == tokens(s).push((s.len(), t)),
    decreases t.len(),
{
    let st = s + t;
    assert(st.drop_last() == s + t.drop_last());
    assert(st.last() == t.last());
    assert(!is_ws(t.last()));
    if t.len() == 1 {
        assert(s + t.drop_last() =~= s);
        if s.len() > 0 {
            assert(st[st.len() - 2] == s.last());
        }
        assert(t =~= seq![t.last()]);
    } else {
        let t0 = t.drop_last();
        assert forall|i: int| 0 <= i < t0.len() implies !is_ws(#[trigger] t0[i]) by {
            assert(t0[i] == t[i]);
        }
        lemma_tokens_append_run(s, t0);
        assert(st[st.len() - 2] == t[t.len() - 2]);
        assert(t0.push(t.last()) =~= t);
        let p = tokens(s + t0);
        assert(p.update(p.len() - 1, (p.last().0, p.last().1.push(st.last()))) =~= tokens(
            s,
        ).push((s.len(), t)));
    }
}

/// The tags joined by commas read back as the same tags.
pub proof fn lemma_join_tags(tags: Seq<Seq<char>>)
    requires
        tags.len() > 0,
        forall|k: int| 0 <= k < tags.len() ==> wf_tag(#[trigger] tags[k]),
    ensures
        join(tags, seq![',']).len() > 0,
        no_ws(join(tags, seq![','])),
        split_on(join(tags, seq![',']), ',') == tags,
    decreases tags.len(),
{
    let j = join(tags, seq![',']);
    if tags.len() == 1 {
        assert(wf_tag(tags[0]));
        lemma_split_plain(tags[0], ',');
        assert(seq![tags[0]] =~= tags);
    } else {
        let prev = tags.drop_last();
        let last = tags.last();
        assert(forall|k: int| 0 <= k < prev.len() ==> #[trigger] prev[k] == tags[k]);
        assert(wf_tag(tags[tags.len() - 1]));
        lemma_join_tags(prev);
        let jp = join(prev, seq![',']);
        assert(j == jp + seq![','] + last);
        assert(jp + seq![','] == jp.push(','));
        assert forall|i: int| 0 <= i < j.len() implies !is_ws(#[trigger] j[i]) by {
            if i < jp.len() {
                assert(j[i] == jp[i]);
            } else if i > jp.len() {
                assert(j[i] == last[i - jp.len() - 1]);
            }
        }
        lemma_split_append_plain(jp.push(','), last, ',');
        assert(jp.push(',').drop_last() == jp);
        assert(jp.push(',').last() == ',');
        lemma_split_on_nonempty(jp, ',');
        assert(split_on(jp.push(','), ',') == prev.push(Seq::<char>::empty()));
        assert(Seq::<char>::empty() + last =~= last);
        assert(split_on(j, ',') =~= tags);
    }
}

/// Tags as the parser gives them read back from their comma-joined text.
pub proof fn lemma_tag_list_of_join(tags: Seq<Seq<char>>)
    requires
        tags.len() > 0,
        forall|k: int| 0 <= k < tags.len() ==> wf_tag(#[trigger] tags[k]),
    ensures
        tag_list(join(tags, seq![','])) == Some(tags),
{
    lemma_join_tags(tags);
    let pieces = split_on(join(tags, seq![',']), ',');
    assert forall|k: int| 0 <= k < pieces.len() implies trim(#[trigger] pieces[k]) == pieces[k] by {
        assert(wf_tag(tags[k]));
        lemma_trim_of_trimmed(pieces[k]);
    }
    assert(pieces.map_values(|p: Seq<char>| trim(p)) =~= tags);
}

/// A trimmed, non-empty text followed by one space trims back to itself.
pub proof fn lemma_trim_end_space(x: Seq<char>)
    requires
        x.len() > 0,
        is_trimmed(x),
    ensures
        trim_end(x.push(' ')) == x,
{
    let y = x.push(' ');
    assert(y.skip(y.len() - 1) =~= seq![' ']);
    assert(y[y.len() - 1 - 1] == x.last());
    lemma_ws_suffix_len(y, 1);
    assert(y.take(y.len() - 1) =~= x);
}

pub proof fn lemma_meta_fold_one(x: (nat, Seq<char>), base: nat, line_no: nat)
    ensures
        meta_fold(seq![x], base, line_no) == meta_step(empty_meta(), x, base, line_no),
{
    assert(seq![x].drop_last() =~= Seq::<(nat, Seq<char>)>::empty());
    assert(seq![x].last() == x);
    assert(meta_fold(Seq::<(nat, Seq<char>)>::empty(), base, line_no) == empty_meta());
    assert(meta_fold(seq![x], base, line_no) == meta_step(
        meta_fold(seq![x].drop_last(), base, line_no),
        x,
        base,
        line_no,
    ));
}

pub proof fn lemma_meta_fold_two(x: (nat, Seq<char>), y: (nat, Seq<char>), base: nat, line_no: nat)
    ensures
        meta_fold(seq![x, y], base, line_no) == meta_step(
            meta_step(empty_meta(), x, base, line_no),
            y,
            base,
            line_no,
        ),
{
    assert(seq![x, y].drop_last() =~= seq![x]);
    assert(seq![x, y].last() == y);
    lemma_meta_fold_one(x, base, line_no);
}

/// The metadata of a printed card, after the space that precedes it.
pub open spec fn meta_text(c: CardView) -> Seq<char> {
    (assignee_text(c) + tags_text(c)).skip(1)
}

/// The metadata of a printed card reads back as its assignee and tags.
pub proof fn lemma_meta_roundtrip(c: CardView, base: nat, line_no: nat)
    requires
        wf_card(c),
        c.assignee is Some || c.tags.len() > 0,
    ensures
        meta_fold(tokens(meta_text(c)), base, line_no) == (crate::syntax::MetaState {
            assignee: c.assignee,
            tags: c.tags,
            errors: Seq::empty(),
        }),
{
    let meta = meta_text(c);
    let e = Seq::<char>::empty();
    match c.assignee {
        Some(a) => {
            let at = seq!['@'] + a;
            assert forall|i: int| 0 <= i < at.len() implies !is_ws(#[trigger] at[i]) by {
                if i > 0 {
                    assert(at[i] == a[i - 1]);
                }
            }
            assert(e + at =~= at);
            lemma_tokens_append_run(e, at);
            assert(at.skip(1) =~= a);
            if c.tags.len() > 0 {
                lemma_join_tags(c.tags);
                lemma_tag_list_of_join(c.tags);
                let jt = join(c.tags, seq![',']);
                let hash = seq!['#'] + jt;
                assert forall|i: int| 0 <= i < hash.len() implies !is_ws(#[trigger] hash[i]) by {
                    if i > 0 {
                        assert(hash[i] == jt[i - 1]);
                    }
                }
                let first = at.push(' ');
                assert(meta =~= first + hash);
                assert(first.drop_last() == at);
                assert(tokens(first) == tokens(at));
                lemma_tokens_append_run(first, hash);
                let toks = tokens(meta);
                assert(toks =~= seq![(0nat, at), (first.len(), hash)]);
                assert(hash.skip(1) =~= jt);
                lemma_meta_fold_two((0nat, at), (first.len(), hash), base, line_no);
                let s1 = meta_step(empty_meta(), (0nat, at), base, line_no);
                assert(s1.assignee == Some(a));
                assert(s1.tags.len() == 0);
                assert(s1.errors.len() == 0);
            } else {
                assert(meta =~= at);
                let toks = tokens(meta);
                assert(toks =~= seq![(0nat, at)]);
                lemma_meta_fold_one((0nat, at), base, line_no);
                assert(c.tags =~= Seq::<Seq<char>>::empty());
            }
        },
        None => {
            lemma_join_tags(c.tags);
            lemma_tag_list_of_join(c.tags);
            let jt = join(c.tags, seq![',']);
            let hash = seq!['#'] + jt;
            assert forall|i: int| 0 <= i < hash.len() implies !is_ws(#[trigger] hash[i]) by {
                if i > 0 {
                    assert(hash[i] == jt[i - 1]);
                }
            }
            assert(meta =~= hash);
            assert(e + hash =~= hash);
            lemma_tokens_append_run(e, hash);
            let toks = tokens(meta);
            assert(toks =~= seq![(0nat, hash)]);
            lemma_meta_fold_one((0nat, hash), base, line_no);
            assert(hash.skip(1) =~= jt);
        },
    }
}

/// The text after `"- "` of a printed card reads back as the card.
pub proof fn lemma_card_body_roundtrip(c: CardView, line_no: nat)
    requires
        wf_card(c),
    ensures
        card_body(c.title + (assignee_text(c) + tags_text(c)), 2, line_no) == (
            Some(c),
            Seq::<crate::error::ErrorView>::empty(),
        ),
{
    let title = c.title;
    let m_text = assignee_text(c) + tags_text(c);
    let rest = title + m_text;
    lemma_trim_of_trimmed(title);
    if m_text.len() == 0 {
        assert(c.assignee is None);
        assert(c.tags.len() == 0);
        assert(rest =~= title);
        lemma_first_marker_none(rest, 0);
        assert(c.tags =~= Seq::<Seq<char>>::empty());
    } else {
        let m: int = title.len() as int + 1;
        assert(m_text[0] == ' ');
        assert(m_text[1] == '@' || m_text[1] == '#');
        assert(rest[m] == m_text[1]);
        assert(rest[m - 1] == ' ');
        assert(is_marker_at(rest, m));
        assert forall|j: int| 0 <= j < m implies !is_marker_at(rest, j) by {
            if j < title.len() {
                assert(rest[j] == title[j]);
                if j > 0 {
                    assert(rest[j - 1] == title[j - 1]);
                }
                assert(!is_marker_at(title, j));
            } else {
                assert(rest[j] == ' ');
            }
        }
        lemma_first_marker_at(rest, 0, m);
        assert(rest.take(m) =~= title.push(' '));
        lemma_trim_end_space(title);
        assert(rest.skip(m) =~= meta_text(c));
        lemma_meta_roundtrip(c, (2 + m) as nat, line_no);
        let meta = meta_fold(tokens(rest.skip(m)), (2 + m) as nat, line_no);
        assert(Seq::<crate::error::ErrorView>::empty() + meta.errors =~= Seq::<
            crate::error::ErrorView,
        >::empty());
    }
}

/// A printed card line reads back as the card, without a diagnostic.
pub proof fn lemma_card_line_roundtrip(c: CardView, line_no: nat)
    requires
        wf_card(c),
    ensures
        card_line(card_line_text(c), line_no) == (Some(c), Seq::<crate::error::ErrorView>::empty()),
{
    let line = card_line_text(c);
    let title = c.title;
    let m_text = assignee_text(c) + tags_text(c);
    assert(line =~= seq!['-', ' '] + (title + m_text));
    assert(line[0] == '-');
    lemma_ws_prefix_len(line, 0);
    assert(line.skip(0) == line);
    let after_dash = line.skip(1);
    assert(after_dash =~= seq![' '] + (title + m_text));
    assert(after_dash.take(1) =~= seq![' ']);
    assert(after_dash[1] == title[0]);
    lemma_ws_prefix_len(after_dash, 1);
    assert(after_dash.skip(1) =~= title + m_text);
    lemma_card_body_roundtrip(c, line_no);
}


// ---------------------------------------------------------------------------
// What a printed board reads back as
// ---------------------------------------------------------------------------

/// A board or column name as the parser gives it: trimmed, not empty, on
/// one line.
pub open spec fn wf_name(n: Seq<char>) -> bool {
    n.len() > 0 && is_trimmed(n) && lacks(n, '\n')
}

pub open spec fn wf_column(c: ColumnView) -> bool {
    &&& wf_name(c.name)
    &&& forall|k: int| 0 <= k < c.cards.len() ==> wf_card(#[trigger] c.cards[k])
}

/// No two columns share a name.
pub open spec fn distinct_names(cs: Seq<ColumnView>) -> bool {
    forall|i: int, j: int| 0 <= i < j < cs.len() ==> #[trigger] cs[i].name != #[trigger] cs[j].name
}

/// A board as the parser gives it: a name, at least one column, every
/// column well formed and named differently from the others.
pub open spec fn wf_board(b: BoardView) -> bool {
    &&& wf_name(b.name)
    &&& b.columns.len() > 0
    &&& forall|k: int| 0 <= k < b.columns.len() ==> wf_column(#[trigger] b.columns[k])
    &&& distinct_names(b.columns)
}

/// A printed line that the line splitter gives back unchanged.
pub open spec fn clean_line(l: Seq<char>) -> bool {
    lacks(l, '\n') && (l.len() == 0 || !is_ws(l.last()))
}

pub proof fn lemma_join_no_ws(tags: Seq<Seq<char>>)
    requires
        tags.len() > 0,
        forall|k: int| 0 <= k < tags.len() ==> wf_tag(#[trigger] tags[k]),
    ensures
        lacks(join(tags, seq![',']), '\n'),
        !is_ws(join(tags, seq![',']).last()),
{
    lemma_join_tags(tags);
    let j = join(tags, seq![',']);
    assert(!is_ws(j[j.len() - 1]));
    assert forall|i: int| 0 <= i < j.len() implies j[i] != '\n' by {
        assert(!is_ws(j[i]));
    }
}

pub proof fn lemma_card_line_clean(c: CardView)
    requires
        wf_card(c),
    ensures
        clean_line(card_line_text(c)),
{
    let l = card_line_text(c);
    let a = assignee_text(c);
    let t = tags_text(c);
    assert(l =~= seq!['-', ' '] + c.title + a + t);
    assert(!is_ws(c.title.last()));
    if c.tags.len() > 0 {
        lemma_join_no_ws(c.tags);
    }
    assert(lacks(a, '\n')) by {
        match c.assignee {
            Some(n) => {
                assert forall|i: int| 0 <= i < a.len() implies a[i] != '\n' by {
                    if i >= 2 {
                        assert(a[i] == n[i - 2]);
                        assert(!is_ws(n[i - 2]));
                    }
                }
            },
            None => {},
        }
    }
    assert(lacks(t, '\n')) by {
        if c.tags.len() > 0 {
            let j = join(c.tags, seq![',']);
            assert forall|i: int| 0 <= i < t.len() implies t[i] != '\n' by {
                if i >= 2 {
                    assert(t[i] == j[i - 2]);
                }
            }
        }
    }
    assert forall|i: int| 0 <= i < l.len() implies l[i] != '\n' by {
        let k = 2 + c.title.len();
        if 2 <= i < k {
            assert(l[i] == c.title[i - 2]);
        } else if k <= i < k + a.len() {
            assert(l[i] == a[i - k]);
        } else if i >= k + a.len() {
            assert(l[i] == t[i - k - a.len()]);
        }
    }
    if t.len() > 0 {
        assert(l.last() == t.last());
        lemma_join_no_ws(c.tags);
    } else if a.len() > 0 {
        assert(l.last() == a.last());
        match c.assignee {
            Some(n) => {
                assert(a.last() == n.last());
                assert(!is_ws(n[n.len() - 1]));
            },
            None => {},
        }
    } else {
        assert(l.last() == c.title.last());
    }
}

/// A keyword, a space and a name form a clean line.
pub proof fn lemma_header_line_clean(kw: Seq<char>, name: Seq<char>)
    requires
        lacks(kw, '\n'),
        wf_name(name),
    ensures
        clean_line(kw.push(' ') + name),
{
    let l = kw.push(' ') + name;
    assert forall|i: int| 0 <= i < l.len() implies l[i] != '\n' by {
        if i < kw.len() {
            assert(l[i] == kw[i]);
        } else if i > kw.len() {
            assert(l[i] == name[i - kw.len() - 1]);
        }
    }
    assert(l.last() == name.last());
}

pub proof fn lemma_columns_lines_clean(cs: Seq<ColumnView>)
    requires
        forall|k: int| 0 <= k < cs.len() ==> wf_column(#[trigger] cs[k]),
    ensures
        forall|k: int|
            0 <= k < columns_lines(cs).len() ==> clean_line(#[trigger] columns_lines(cs)[k]),
    decreases cs.len(),
{
    if cs.len() > 0 {
        let prev = cs.drop_last();
        assert(forall|k: int| 0 <= k < prev.len() ==> #[trigger] prev[k] == cs[k]);
        lemma_columns_lines_clean(prev);
        let c = cs.last();
        assert(wf_column(cs[cs.len() - 1]));
        lemma_header_line_clean(column_kw(), c.name);
        let cl = column_lines(c);
        assert forall|k: int| 0 <= k < cl.len() implies clean_line(#[trigger] cl[k]) by {
            if k >= 2 {
                assert(cl[k] == card_line_text(c.cards[k - 2]));
                assert(wf_card(c.cards[k - 2]));
                lemma_card_line_clean(c.cards[k - 2]);
            }
        }
        let all = columns_lines(cs);
        let pl = columns_lines(prev);
        assert forall|k: int| 0 <= k < all.len() implies clean_line(#[trigger] all[k]) by {
            if k < pl.len() {
                assert(all[k] == pl[k]);
            } else {
                assert(all[k] == cl[k - pl.len()]);
            }
        }
    }
}

/// The printed lines of a board read back unchanged from its printed text.
pub proof fn lemma_lines_of_board_text(b: BoardView)
    requires
        wf_board(b),
    ensures
        lines_of(board_text(b)) == board_lines(b),
{
    lemma_board_text(b);
    lemma_columns_lines_clean(b.columns);
    lemma_header_line_clean(board_kw(), b.name);
    let ls = board_lines(b);
    let cl = columns_lines(b.columns);
    assert forall|k: int| 0 <= k < ls.len() implies clean_line(#[trigger] ls[k]) by {
        if k > 0 {
            assert(ls[k] == cl[k - 1]);
        }
    }
    assert forall|k: int| 0 <= k < ls.len() implies lacks(#[trigger] ls[k], '\n') by {
        assert(clean_line(ls[k]));
    }
    assert forall|k: int|
        0 <= k < ls.len() implies (#[trigger] ls[k]).len() == 0 || ls[k].last() != '\r' by {
        assert(clean_line(ls[k]));
        if ls[k].len() > 0 {
            assert(is_ws('\r'));
        }
    }
    lemma_lines_of_join(ls);
}


pub proof fn lemma_fold_split(
    ls: Seq<Seq<char>>,
    from: int,
    mid: int,
    to: int,
    init: ParseState,
)
    requires
        from <= mid <= to,
    ensures
        fold_lines(ls, from, to, init) == fold_lines(ls, mid, to, fold_lines(ls, from, mid, init)),
    decreases to - mid,
{
    if to > mid {
        lemma_fold_split(ls, from, mid, to - 1, init);
    }
}

/// A name after a keyword and one space reads back as the name.
pub proof fn lemma_trim_after_space(name: Seq<char>)
    requires
        wf_name(name),
    ensures
        trim(seq![' '] + name) == name,
{
    let s = seq![' '] + name;
    assert(s.take(1) =~= seq![' ']);
    assert(s[1] == name[0]);
    lemma_ws_prefix_len(s, 1);
    assert(s.skip(1) =~= name);
    lemma_trim_of_trimmed(name);
}

/// Some column of `cs` has the name `x`.
pub open spec fn named(cs: Seq<ColumnView>, x: Seq<char>) -> bool {
    exists|i: int| 0 <= i < cs.len() && cs[i].name == x
}

/// `seen` records exactly the names of `cs`.
pub open spec fn seen_covers(seen: Seq<(Seq<char>, nat)>, cs: Seq<ColumnView>) -> bool {
    forall|x: Seq<char>| (#[trigger] first_definition(seen, x) is None) <==> !named(cs, x)
}

pub proof fn lemma_first_definition_push(seen: Seq<(Seq<char>, nat)>, n: Seq<char>, l: nat, x: Seq<char>)
    ensures
        first_definition(seen.push((n, l)), x) == (match first_definition(seen, x) {
            Some(v) => Some(v),
            None => if n == x {
                Some(l)
            } else {
                None
            },
        }),
{
    assert(seen.push((n, l)).drop_last() == seen);
    assert(seen.push((n, l)).last() == (n, l));
}

/// The state after the header line and `m` cards of a printed column block
/// that starts at line index `a`.
pub open spec fn block_state(st: ParseState, c: ColumnView, a: int, m: int) -> ParseState {
    ParseState {
        columns: st.columns.push(ColumnView { name: c.name, cards: c.cards.take(m) }),
        seen: st.seen.push((c.name, (a + 2) as nat)),
        errors: Seq::empty(),
        in_block: true,
    }
}

pub proof fn lemma_fold_column_cards(ls: Seq<Seq<char>>, a: int, c: ColumnView, st: ParseState, m: int)
    requires
        0 <= a,
        0 <= m <= c.cards.len(),
        a + column_lines(c).len() <= ls.len(),
        forall|i: int| 0 <= i < column_lines(c).len() ==> ls[a + i] == #[trigger] column_lines(c)[i],
        wf_column(c),
        st.errors.len() == 0,
        first_definition(st.seen, c.name) is None,
    ensures
        fold_lines(ls, a, a + 2 + m, st) == block_state(st, c, a, m),
    decreases m,
{
    let cl = column_lines(c);
    if m == 0 {
        assert(cl[0] == Seq::<char>::empty());
        assert(ls[a] == cl[0]);
        let s1 = fold_lines(ls, a, a + 1, st);
        assert(fold_lines(ls, a, a, st) == st);
        assert(s1 == step(st, ls[a], (a + 1) as nat));
        assert(all_ws(ls[a]));
        let line = column_kw().push(' ') + c.name;
        assert(ls[a + 1] == cl[1]);
        assert(cl[1] == line);
        assert(line[0] == 'c');
        assert(!is_ws(line[0]));
        assert(!all_ws(line));
        lemma_ws_prefix_len(line, 0);
        assert(line.skip(0) == line);
        assert(line.take(7) =~= column_kw());
        assert(starts_with(line.skip(0), column_kw()));
        assert(line.skip(0).skip(7) =~= seq![' '] + c.name);
        lemma_trim_after_space(c.name);
        let s2 = fold_lines(ls, a, a + 2, st);
        assert(s2 == step(s1, ls[a + 1], (a + 2) as nat));
        assert(column_header(line, (a + 2) as nat).0 == c.name);
        assert(c.cards.take(0) =~= Seq::<CardView>::empty());
        assert(s2.errors =~= Seq::<crate::error::ErrorView>::empty());
        assert(s2 == block_state(st, c, a, 0));
    } else {
        lemma_fold_column_cards(ls, a, c, st, m - 1);
        let prev = fold_lines(ls, a, a + 2 + m - 1, st);
        let k = a + 2 + m - 1;
        assert(ls[k] == cl[2 + m - 1]);
        let card = c.cards[m - 1];
        assert(cl[2 + m - 1] == card_line_text(card));
        assert(wf_card(card));
        lemma_card_line_roundtrip(card, (k + 1) as nat);
        let line = card_line_text(card);
        assert(line[0] == '-');
        assert(!is_ws(line[0]));
        assert(!all_ws(line));
        assert(fold_lines(ls, a, a + 2 + m, st) == step(prev, ls[k], (k + 1) as nat));
        assert(c.cards.take(m - 1).push(card) =~= c.cards.take(m));
        let cols = st.columns.push(ColumnView { name: c.name, cards: c.cards.take(m - 1) });
        assert(add_card(cols, card) =~= st.columns.push(
            ColumnView { name: c.name, cards: c.cards.take(m) },
        ));
        assert(prev.errors + Seq::<crate::error::ErrorView>::empty() =~= Seq::<
            crate::error::ErrorView,
        >::empty());
    }
}


/// The lines of the first `j` column blocks come first among the lines of
/// all the blocks.
pub proof fn lemma_columns_lines_prefix(cs: Seq<ColumnView>, j: int)
    requires
        0 <= j <= cs.len(),
    ensures
        columns_lines(cs.take(j)).len() <= columns_lines(cs).len(),
        forall|i: int|
            0 <= i < columns_lines(cs.take(j)).len() ==> columns_lines(cs)[i]
                == #[trigger] columns_lines(cs.take(j))[i],
    decreases cs.len() - j,
{
    if j == cs.len() {
        assert(cs.take(j) == cs);
    } else {
        let prev = cs.drop_last();
        assert(prev.take(j) == cs.take(j));
        lemma_columns_lines_prefix(prev, j);
        assert(columns_lines(cs) == columns_lines(prev) + column_lines(cs.last()));
    }
}

/// The state after the header and the first `j` column blocks of a printed
/// board: those columns, no diagnostic.
pub proof fn lemma_fold_columns(b: BoardView, j: int)
    requires
        wf_board(b),
        0 <= j <= b.columns.len(),
    ensures
        ({
            let ls = board_lines(b);
            let st = fold_lines(
                ls,
                1,
                1 + columns_lines(b.columns.take(j)).len() as int,
                initial_state(Seq::empty()),
            );
            &&& st.columns == b.columns.take(j)
            &&& st.errors.len() == 0
            &&& seen_covers(st.seen, b.columns.take(j))
        }),
    decreases j,
{
    let ls = board_lines(b);
    let cs = b.columns;
    let init = initial_state(Seq::empty());
    if j == 0 {
        assert(cs.take(0) =~= Seq::<ColumnView>::empty());
        assert(columns_lines(cs.take(0)).len() == 0);
        assert(fold_lines(ls, 1, 1, init) == init);
        assert forall|x: Seq<char>| (#[trigger] first_definition(init.seen, x) is None) <==> !named(
            cs.take(0),
            x,
        ) by {}
    } else {
        lemma_fold_columns(b, j - 1);
        let a: int = 1 + columns_lines(cs.take(j - 1)).len() as int;
        let st = fold_lines(ls, 1, a, init);
        let c = cs[j - 1];
        assert(wf_column(c));
        assert(cs.take(j).drop_last() == cs.take(j - 1));
        assert(cs.take(j).last() == c);
        let cl = column_lines(c);
        assert(columns_lines(cs.take(j)) == columns_lines(cs.take(j - 1)) + cl);
        lemma_columns_lines_prefix(cs, j);
        let all = columns_lines(cs);
        assert forall|i: int| 0 <= i < cl.len() implies ls[a + i] == #[trigger] cl[i] by {
            assert(ls[a + i] == all[a + i - 1]);
            assert(columns_lines(cs.take(j))[a + i - 1] == cl[i]);
        }
        assert(!named(cs.take(j - 1), c.name)) by {
            if named(cs.take(j - 1), c.name) {
                let i = choose|i: int|
                    0 <= i < cs.take(j - 1).len() && (#[trigger] cs.take(j - 1)[i]).name == c.name;
                assert(cs[i].name == cs[j - 1].name);
            }
        }
        assert(first_definition(st.seen, c.name) is None);
        lemma_fold_column_cards(ls, a, c, st, c.cards.len() as int);
        lemma_fold_split(ls, 1, a, a + cl.len() as int, init);
        assert(cl.len() == 2 + c.cards.len());
        assert(c.cards.take(c.cards.len() as int) == c.cards);
        let after = fold_lines(ls, 1, a + cl.len() as int, init);
        assert(after == block_state(st, c, a, c.cards.len() as int));
        assert(after.columns =~= cs.take(j));
        assert forall|x: Seq<char>| (#[trigger] first_definition(after.seen, x) is None) <==> !named(
            cs.take(j),
            x,
        ) by {
            lemma_first_definition_push(st.seen, c.name, (a + 2) as nat, x);
            assert(first_definition(st.seen, x) is None <==> !named(cs.take(j - 1), x));
            if named(cs.take(j - 1), x) {
                let i = choose|i: int|
                    0 <= i < cs.take(j - 1).len() && (#[trigger] cs.take(j - 1)[i]).name == x;
                assert(cs.take(j)[i].name == x);
            }
            if named(cs.take(j), x) && c.name != x {
                let i = choose|i: int|
                    0 <= i < cs.take(j).len() && (#[trigger] cs.take(j)[i]).name == x;
                assert(i < j - 1);
                assert(cs.take(j - 1)[i].name == x);
            }
            if c.name == x {
                assert(cs.take(j)[j - 1].name == x);
            }
        }
    }
}

/// A well-formed board prints to a text that parses back to that board.
pub proof fn lemma_print_then_parse(b: BoardView)
    requires
        wf_board(b),
    ensures
        parse_view(board_text(b)) == Ok::<BoardView, Seq<crate::error::ErrorView>>(b),
{
    lemma_lines_of_board_text(b);
    let ls = board_lines(b);
    let header = board_kw().push(' ') + b.name;
    assert(ls[0] == header);
    assert(header[0] == 'b');
    assert(!is_ws(header[0]));
    assert(!all_ws(header));
    assert(first_nonblank(ls, 0) == 0);
    lemma_ws_prefix_len(header, 0);
    assert(header.skip(0) == header);
    assert(header.take(6) =~= board_kw());
    assert(header.skip(0).skip(6) =~= seq![' '] + b.name);
    lemma_trim_after_space(b.name);
    assert(board_header(header, 1) == (b.name, Seq::<crate::error::ErrorView>::empty()));
    let cs = b.columns;
    lemma_fold_columns(b, cs.len() as int);
    assert(cs.take(cs.len() as int) == cs);
    assert(ls.len() == 1 + columns_lines(cs).len());
}

} // verus!
