//! What a kanban export means: the lines of a file, read one at a time, as
//! spec functions. The parser is proved against these definitions.
use vstd::prelude::*;
use crate::error::{diagnostic, ErrorView};
use crate::model::{BoardView, CardView, ColumnView};
use crate::text::{all_ws, decimal, is_ws, lines_of, split_on, trim, trim_end, ws_prefix_len};

verus! {

/// The keyword that opens the header line.
pub open spec fn board_kw() -> Seq<char> {
    seq!['b', 'o', 'a', 'r', 'd', ':']
}

/// The keyword that opens a column block.
pub open spec fn column_kw() -> Seq<char> {
    seq!['c', 'o', 'l', 'u', 'm', 'n', ':']
}

pub open spec fn starts_with(s: Seq<char>, prefix: Seq<char>) -> bool {
    s.len() >= prefix.len() && s.take(prefix.len() as int) == prefix
}

// ---------------------------------------------------------------------------
// Card metadata
// ---------------------------------------------------------------------------

/// Position `i` of `s` holds a metadata marker: an `'@'` or `'#'` at the
/// start of `s` or right after a whitespace character.
pub open spec fn is_marker_at(s: Seq<char>, i: int) -> bool {
    &&& 0 <= i < s.len()
    &&& (s[i] == '@' || s[i] == '#')
    &&& (i == 0 || is_ws(s[i - 1]))
}

/// The first marker of `s` at or after position `i`.
pub open spec fn first_marker_from(s: Seq<char>, i: int) -> Option<nat>
    decreases s.len() - i,
{
    if i < 0 || i >= s.len() {
        None
    } else if is_marker_at(s, i) {
        Some(i as nat)
    } else {
        first_marker_from(s, i + 1)
    }
}

/// Where the metadata of a card starts, if it has any.
pub open spec fn marker_start(s: Seq<char>) -> Option<nat> {
    first_marker_from(s, 0)
}

/// The maximal runs of non-whitespace characters of `s`, each with the
/// position at which it starts.
pub open spec fn tokens(s: Seq<char>) -> Seq<(nat, Seq<char>)>
    decreases s.len(),
{
    if s.len() == 0 {
        Seq::empty()
    } else {
        let p = tokens(s.drop_last());
        let i = s.len() - 1;
        let c = s[i];
        if is_ws(c) {
            p
        } else if i > 0 && !is_ws(s[i - 1]) {
            p.update(p.len() - 1, (p.last().0, p.last().1.push(c)))
        } else {
            p.push((i as nat, seq![c]))
        }
    }
}

/// The tags of a `#tag,tag,...` group (without its `'#'`): the pieces
/// between commas, trimmed; none if a piece is empty or blank.
pub open spec fn tag_list(list: Seq<char>) -> Option<Seq<Seq<char>>> {
    let pieces = split_on(list, ',');
    if exists|k: int| 0 <= k < pieces.len() && #[trigger] trim(pieces[k]).len() == 0 {
        None
    } else {
        Some(pieces.map_values(|p: Seq<char>| trim(p)))
    }
}

/// What the metadata of a card has given so far.
pub struct MetaState {
    pub assignee: Option<Seq<char>>,
    pub tags: Seq<Seq<char>>,
    pub errors: Seq<ErrorView>,
}

/// Reads one metadata token of the card on line `line_no`; `base` is the
/// position in the line at which the metadata starts.
pub open spec fn meta_step(st: MetaState, tok: (nat, Seq<char>), base: nat, line_no: nat) -> MetaState {
    let col = base + tok.0 + 1;
    let text = tok.1;
    let len = text.len();
    if text.len() > 0 && text[0] == '@' {
        let name = text.skip(1);
        if name.len() == 0 {
            MetaState {
                errors: st.errors.push(
                    diagnostic(line_no, col, len, "assignee name cannot be empty after '@'"@, None),
                ),
                ..st
            }
        } else if st.assignee is Some {
            MetaState {
                errors: st.errors.push(
                    diagnostic(
                        line_no,
                        col,
                        len,
                        "card already has an assignee"@,
                        Some("a card can only be assigned to one person"@),
                    ),
                ),
                ..st
            }
        } else {
            MetaState { assignee: Some(name), ..st }
        }
    } else if text.len() > 0 && text[0] == '#' {
        let list = text.skip(1);
        if list.len() == 0 {
            MetaState {
                errors: st.errors.push(
                    diagnostic(line_no, col, len, "tag list cannot be empty after '#'"@, None),
                ),
                ..st
            }
        } else if st.tags.len() > 0 {
            MetaState {
                errors: st.errors.push(
                    diagnostic(
                        line_no,
                        col,
                        len,
                        "duplicate tag list"@,
                        Some("combine tags into one '#tag1,tag2' group"@),
                    ),
                ),
                ..st
            }
        } else {
            match tag_list(list) {
                Some(tags) => MetaState { tags, ..st },
                None => MetaState {
                    errors: st.errors.push(
                        diagnostic(line_no, col, len, "empty tag between commas"@, None),
                    ),
                    tags: Seq::empty(),
                    ..st
                },
            }
        }
    } else {
        MetaState {
            errors: st.errors.push(
                diagnostic(
                    line_no,
                    col,
                    len,
                    "unexpected text '"@ + text + "' in card metadata"@,
                    Some("expected '@name' for an assignee or '#tag' for tags"@),
                ),
            ),
            ..st
        }
    }
}

pub open spec fn empty_meta() -> MetaState {
    MetaState { assignee: None, tags: Seq::empty(), errors: Seq::empty() }
}

/// Reads the metadata tokens in order.
pub open spec fn meta_fold(toks: Seq<(nat, Seq<char>)>, base: nat, line_no: nat) -> MetaState
    decreases toks.len(),
{
    if toks.len() == 0 {
        empty_meta()
    } else {
        meta_step(meta_fold(toks.drop_last(), base, line_no), toks.last(), base, line_no)
    }
}

// ---------------------------------------------------------------------------
// Lines
// ---------------------------------------------------------------------------

/// A card's text after `"- "` and the spaces that follow it; `start` is the
/// position of `rest` in its line. The card is there only when no
/// diagnostic came up.
pub open spec fn card_body(rest: Seq<char>, start: nat, line_no: nat) -> (
    Option<CardView>,
    Seq<ErrorView>,
) {
    let m = marker_start(rest);
    let title = match m {
        Some(m) => trim_end(rest.take(m as int)),
        None => trim_end(rest),
    };
    let title_errors = if title.len() == 0 {
        seq![diagnostic(line_no, start + 1, 1, "card title cannot be empty"@, None)]
    } else {
        Seq::empty()
    };
    let meta = match m {
        Some(m) => meta_fold(tokens(rest.skip(m as int)), start + m, line_no),
        None => empty_meta(),
    };
    let errors = title_errors + meta.errors;
    if errors.len() == 0 {
        (Some(CardView { title, assignee: meta.assignee, tags: meta.tags }), errors)
    } else {
        (None, errors)
    }
}

/// A line inside a column block, which must be a card `- <title> ...`.
pub open spec fn card_line(line: Seq<char>, line_no: nat) -> (Option<CardView>, Seq<ErrorView>) {
    let indent = ws_prefix_len(line);
    let trimmed = line.skip(indent as int);
    if trimmed.len() == 0 || trimmed[0] != '-' {
        (
            None,
            seq![
                diagnostic(
                    line_no,
                    indent + 1,
                    trimmed.len(),
                    "expected a card line starting with '-'"@,
                    Some("columns must be separated by a blank line"@),
                ),
            ],
        )
    } else {
        let after_dash = trimmed.skip(1);
        if after_dash.len() == 0 || after_dash[0] != ' ' {
            (None, seq![diagnostic(line_no, indent + 2, 1, "expected a space after '-'"@, None)])
        } else {
            let spaces = ws_prefix_len(after_dash);
            card_body(after_dash.skip(spaces as int), indent + 1 + spaces, line_no)
        }
    }
}

/// The first line of a board, `board: <name>`.
pub open spec fn board_header(line: Seq<char>, line_no: nat) -> (Seq<char>, Seq<ErrorView>) {
    let indent = ws_prefix_len(line);
    let trimmed = line.skip(indent as int);
    if !starts_with(trimmed, board_kw()) {
        (
            Seq::empty(),
            seq![
                diagnostic(
                    line_no,
                    1,
                    line.len(),
                    "expected 'board: <name>' as the first line of the file"@,
                    Some("every kanban export starts with a board header"@),
                ),
            ],
        )
    } else {
        let name = trim(trimmed.skip(6));
        if name.len() == 0 {
            (name, seq![diagnostic(line_no, indent + 7, 1, "board name cannot be empty"@, None)])
        } else {
            (name, Seq::empty())
        }
    }
}

/// A `column: <name>` line (the caller has seen the keyword).
pub open spec fn column_header(line: Seq<char>, line_no: nat) -> (Seq<char>, Seq<ErrorView>) {
    let indent = ws_prefix_len(line);
    let name = trim(line.skip(indent as int).skip(7));
    if name.len() == 0 {
        (name, seq![diagnostic(line_no, indent + 8, 1, "column name cannot be empty"@, None)])
    } else {
        (name, Seq::empty())
    }
}

// ---------------------------------------------------------------------------
// The file
// ---------------------------------------------------------------------------

/// The line on which a column name was first defined, if it was.
pub open spec fn first_definition(seen: Seq<(Seq<char>, nat)>, name: Seq<char>) -> Option<nat>
    decreases seen.len(),
{
    if seen.len() == 0 {
        None
    } else {
        match first_definition(seen.drop_last(), name) {
            Some(l) => Some(l),
            None => if seen.last().0 == name {
                Some(seen.last().1)
            } else {
                None
            },
        }
    }
}

/// What the lines after the header have given so far.
pub struct ParseState {
    /// The column blocks, each with the cards read into it.
    pub columns: Seq<ColumnView>,
    /// Each column name with the line on which it was first defined.
    pub seen: Seq<(Seq<char>, nat)>,
    /// The diagnostics, in the order in which they came up.
    pub errors: Seq<ErrorView>,
    /// The previous line belonged to a column block.
    pub in_block: bool,
}

/// `columns` with `card` added to the last column.
pub open spec fn add_card(columns: Seq<ColumnView>, card: CardView) -> Seq<ColumnView> {
    columns.update(
        columns.len() - 1,
        ColumnView { name: columns.last().name, cards: columns.last().cards.push(card) },
    )
}

/// The diagnostic for a column name that was defined before.
pub open spec fn duplicate_column(
    line_no: nat,
    col: nat,
    len: nat,
    name: Seq<char>,
    first: nat,
) -> ErrorView {
    diagnostic(
        line_no,
        col,
        len,
        "column '"@ + name + "' is defined more than once"@,
        Some("first defined on line "@ + decimal(first)),
    )
}

/// Reads one line after the header. A blank line ends a column block; a
/// line inside a block is a card; any other line must open a new block.
pub open spec fn step(st: ParseState, line: Seq<char>, line_no: nat) -> ParseState {
    if all_ws(line) {
        ParseState { in_block: false, ..st }
    } else if st.in_block {
        let (card, errors) = card_line(line, line_no);
        ParseState {
            columns: match card {
                Some(c) => add_card(st.columns, c),
                None => st.columns,
            },
            errors: st.errors + errors,
            ..st
        }
    } else {
        let indent = ws_prefix_len(line);
        let trimmed = line.skip(indent as int);
        if !starts_with(trimmed, column_kw()) {
            ParseState {
                errors: st.errors.push(
                    diagnostic(
                        line_no,
                        indent + 1,
                        trimmed.len(),
                        "expected a column block starting with 'column:'"@,
                        Some("blocks are separated by a blank line"@),
                    ),
                ),
                ..st
            }
        } else {
            let (name, errors) = column_header(line, line_no);
            let columns = st.columns.push(ColumnView { name, cards: Seq::empty() });
            match first_definition(st.seen, name) {
                Some(first) => ParseState {
                    columns,
                    seen: st.seen,
                    errors: st.errors + errors.push(
                        duplicate_column(line_no, indent + 1, trimmed.len(), name, first),
                    ),
                    in_block: true,
                },
                None => ParseState {
                    columns,
                    seen: st.seen.push((name, line_no)),
                    errors: st.errors + errors,
                    in_block: true,
                },
            }
        }
    }
}

/// The state after the lines `from..k` (0-based), starting from `init`.
pub open spec fn fold_lines(ls: Seq<Seq<char>>, from: int, k: int, init: ParseState) -> ParseState
    decreases k - from,
{
    if k <= from {
        init
    } else {
        step(fold_lines(ls, from, k - 1, init), ls[k - 1], k as nat)
    }
}

/// The first line at or after `i` that is not blank (`ls.len()` if none).
pub open spec fn first_nonblank(ls: Seq<Seq<char>>, i: int) -> int
    decreases ls.len() - i,
{
    if i >= ls.len() {
        ls.len() as int
    } else if !all_ws(ls[i]) {
        i
    } else {
        first_nonblank(ls, i + 1)
    }
}

/// The state in which the lines after the header are read.
pub open spec fn initial_state(header_errors: Seq<ErrorView>) -> ParseState {
    ParseState { columns: Seq::empty(), seen: Seq::empty(), errors: header_errors, in_block: false }
}

/// The meaning of a kanban export: its board, or every diagnostic, in the
/// order of the lines they concern.
pub open spec fn parse_view(source: Seq<char>) -> Result<BoardView, Seq<ErrorView>> {
    let ls = lines_of(source);
    let h = first_nonblank(ls, 0);
    if h >= ls.len() {
        Err(
            seq![
                diagnostic(
                    1,
                    1,
                    1,
                    "file is empty, expected a 'board: <name>' header"@,
                    None,
                ),
            ],
        )
    } else {
        let (name, header_errors) = board_header(ls[h], (h + 1) as nat);
        let st = fold_lines(ls, h + 1, ls.len() as int, initial_state(header_errors));
        let errors = if st.columns.len() == 0 {
            st.errors.push(
                diagnostic(
                    if ls.len() > 1 { ls.len() } else { 1 },
                    1,
                    1,
                    "board has no columns"@,
                    Some("add at least one 'column: <name>' block"@),
                ),
            )
        } else {
            st.errors
        };
        if errors.len() > 0 {
            Err(errors)
        } else {
            Ok(BoardView { name, columns: st.columns })
        }
    }
}

} // verus!
