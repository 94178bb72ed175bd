//! Canonical text form of a board.
use vstd::prelude::*;
use crate::model::{Board, BoardView, Card, CardView, Column, ColumnView};

verus! {

/// `parts` with `sep` between neighbours.
pub open spec fn join(parts: Seq<Seq<char>>, sep: Seq<char>) -> Seq<char>
    decreases parts.len(),
{
    if parts.len() == 0 {
        Seq::empty()
    } else if parts.len() == 1 {
        parts[0]
    } else {
        join(parts.drop_last(), sep) + sep + parts.last()
    }
}

/// The line of a card: `- <title>`, then ` @<assignee>` if it has one, then
/// ` #<tag>,<tag>,...` if it has tags.
pub open spec fn card_text(c: CardView) -> Seq<char> {
    let assignee = match c.assignee {
        Some(a) => " @"@ + a,
        None => Seq::empty(),
    };
    let tags = if c.tags.len() > 0 {
        " #"@ + join(c.tags, ","@)
    } else {
        Seq::empty()
    };
    "- "@ + c.title + assignee + tags + "\n"@
}

/// The lines of a sequence of cards.
pub open spec fn cards_text(cards: Seq<CardView>) -> Seq<char>
    decreases cards.len(),
{
    if cards.len() == 0 {
        Seq::empty()
    } else {
        cards_text(cards.drop_last()) + card_text(cards.last())
    }
}

/// A column block: a blank line, `column: <name>`, then its cards.
pub open spec fn column_text(c: ColumnView) -> Seq<char> {
    "\n"@ + "column: "@ + c.name + "\n"@ + cards_text(c.cards)
}

/// The blocks of a sequence of columns.
pub open spec fn columns_text(columns: Seq<ColumnView>) -> Seq<char>
    decreases columns.len(),
{
    if columns.len() == 0 {
        Seq::empty()
    } else {
        columns_text(columns.drop_last()) + column_text(columns.last())
    }
}

/// The canonical text of a board: `board: <name>`, then its column blocks.
pub open spec fn board_text(b: BoardView) -> Seq<char> {
    "board: "@ + b.name + "\n"@ + columns_text(b.columns)
}

/// Renders a `Board` back to the canonical text form: one space after '-',
/// a single space before '@'/'#' markers, and tags joined with no spaces
/// after the commas. Round-tripping a valid file through parse + this
/// should be a no-op once the input is already canonical.
pub fn pretty_print(board: &Board) -> (out: String)
    ensures
        out@ == board_text(board@),
{
    let mut out = String::new();
    out.append("board: ");
    out.append(board.name.as_str());
    out.append("\n");
    let ghost start = out@;
    let ghost cols = board@.columns;
    let mut i: usize = 0;
    while i < board.columns.len()
        invariant
            0 <= i <= board.columns.len(),
            cols == board@.columns,
            cols.len() == board.columns.len(),
            out@ == start + columns_text(cols.take(i as int)),
        decreases board.columns.len() - i,
    {
        push_column(&mut out, &board.columns[i]);
        proof {
            assert(cols.take(i + 1).drop_last() == cols.take(i as int));
            assert(cols[i as int] == board.columns@[i as int]@);
        }
        i = i + 1;
    }
    assert(cols.take(cols.len() as int) == cols);
    assert(out@ =~= board_text(board@));
    out
}

fn push_column(out: &mut String, column: &Column)
    ensures
        final(out)@ == old(out)@ + column_text(column@),
{
    out.append("\n");
    out.append("column: ");
    out.append(column.name.as_str());
    out.append("\n");
    let ghost start = out@;
    let ghost cards = column@.cards;
    let mut i: usize = 0;
    while i < column.cards.len()
        invariant
            0 <= i <= column.cards.len(),
            cards == column@.cards,
            cards.len() == column.cards.len(),
            out@ == start + cards_text(cards.take(i as int)),
        decreases column.cards.len() - i,
    {
        push_card(out, &column.cards[i]);
        proof {
            assert(cards.take(i + 1).drop_last() == cards.take(i as int));
            assert(cards[i as int] == column.cards@[i as int]@);
        }
        i = i + 1;
    }
    assert(cards.take(cards.len() as int) == cards);
    assert(out@ =~= old(out)@ + column_text(column@));
}

fn push_card(out: &mut String, card: &Card)
    ensures
        final(out)@ == old(out)@ + card_text(card@),
{
    out.append("- ");
    out.append(card.title.as_str());
    let ghost after_title = out@;
    match &card.assignee {
        Some(assignee) => {
            out.append(" @");
            out.append(assignee.as_str());
        },
        None => {},
    }
    let ghost after_assignee = out@;
    if card.tags.len() > 0 {
        out.append(" #");
        push_joined(out, &card.tags);
    }
    out.append("\n");
    proof {
        let c = card@;
        let a = match c.assignee {
            Some(a) => " @"@ + a,
            None => Seq::empty(),
        };
        assert(after_assignee =~= after_title + a);
    }
    assert(out@ =~= old(out)@ + card_text(card@));
}

/// Appends the strings of `parts` with commas between them.
fn push_joined(out: &mut String, parts: &Vec<String>)
    ensures
        final(out)@ == old(out)@ + join(parts@.map_values(|t: String| t@), ","@),
{
    let ghost views = parts@.map_values(|t: String| t@);
    let mut i: usize = 0;
    while i < parts.len()
        invariant
            0 <= i <= parts.len(),
            views == parts@.map_values(|t: String| t@),
            out@ == old(out)@ + join(views.take(i as int), ","@),
        decreases parts.len() - i,
    {
        if i > 0 {
            out.append(",");
        }
        out.append(parts[i].as_str());
        proof {
            let t = views.take(i + 1);
            assert(t.drop_last() == views.take(i as int));
            assert(t.last() == parts@[i as int]@);
            if i == 0 {
                assert(views.take(0).len() == 0);
                assert(out@ =~= old(out)@ + join(t, ","@));
            } else {
                assert(out@ =~= old(out)@ + join(t, ","@));
            }
        }
        i = i + 1;
    }
    assert(views.take(parts.len() as int) == views);
}

} // verus!
