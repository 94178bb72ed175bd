use lib::error::ParseError;
use lib::model::Board;
use lib::parser::parse;
use lib::printer::pretty_print;

const SAMPLE: &str = "board: Sprint 12\n\ncolumn: Todo\n- Fix login bug @alice #bug,urgent\n- Write onboarding docs\n\ncolumn: In Progress\n- Refactor parser @bob #cleanup\n\ncolumn: Done\n- Set up CI\n";

fn parse_ok(src: &str) -> Board {
    match parse(src) {
        Ok(b) => b,
        Err(errors) => panic!("unexpected errors: {:?}", errors),
    }
}

fn parse_err(src: &str) -> Vec<ParseError> {
    match parse(src) {
        Ok(b) => panic!("unexpected board: {:?}", b),
        Err(errors) => errors,
    }
}

fn only_error(src: &str) -> ParseError {
    let mut errors = parse_err(src);
    assert_eq!(errors.len(), 1, "{:?}", errors);
    errors.remove(0)
}

#[test]
fn readme_board_parses() {
    let board = parse_ok(SAMPLE);
    assert_eq!(board.name, "Sprint 12");
    assert_eq!(board.columns.len(), 3);
    assert_eq!(board.columns[0].name, "Todo");
    assert_eq!(board.columns[1].name, "In Progress");
    assert_eq!(board.columns[2].name, "Done");
    let card = &board.columns[0].cards[0];
    assert_eq!(card.title, "Fix login bug");
    assert_eq!(card.assignee.as_deref(), Some("alice"));
    assert_eq!(card.tags, vec!["bug".to_string(), "urgent".to_string()]);
    let card = &board.columns[0].cards[1];
    assert_eq!(card.title, "Write onboarding docs");
    assert_eq!(card.assignee, None);
    assert!(card.tags.is_empty());
    assert_eq!(board.columns[1].cards[0].assignee.as_deref(), Some("bob"));
    assert_eq!(board.columns[1].cards[0].tags, vec!["cleanup".to_string()]);
    assert_eq!(board.columns[2].cards[0].title, "Set up CI");
    let total: usize = board.columns.iter().map(|c| c.cards.len()).sum();
    assert_eq!(total, 4);
}

#[test]
fn canonical_file_prints_unchanged() {
    let board = parse_ok(SAMPLE);
    assert_eq!(pretty_print(&board), SAMPLE);
}

#[test]
fn messy_file_prints_canonically() {
    let src = "\n\n  board:   Sprint 12  \n\n\n   column:  Todo \n  -   Fix login bug   @alice   #bug,urgent\r\n- \tSecond\n\n\n";
    let board = parse_ok(src);
    assert_eq!(
        pretty_print(&board),
        "board: Sprint 12\n\ncolumn: Todo\n- Fix login bug @alice #bug,urgent\n- Second\n"
    );
}

#[test]
fn printing_is_idempotent() {
    let src = "board: B\ncolumn: A\n- x  @me #t1,t2\n\n\ncolumn: C\n";
    let first = pretty_print(&parse_ok(src));
    let second = pretty_print(&parse_ok(&first));
    assert_eq!(first, second);
    assert_eq!(first, "board: B\n\ncolumn: A\n- x @me #t1,t2\n\ncolumn: C\n");
}

#[test]
fn marker_inside_a_word_is_title_text() {
    let board = parse_ok("board: b\n\ncolumn: c\n- Fix login@prod issue #ops\n- issue#42 stays\n");
    assert_eq!(board.columns[0].cards[0].title, "Fix login@prod issue");
    assert_eq!(board.columns[0].cards[0].tags, vec!["ops".to_string()]);
    assert_eq!(board.columns[0].cards[1].title, "issue#42 stays");
}

#[test]
fn crlf_line_endings() {
    let board = parse_ok("board: b\r\n\r\ncolumn: c\r\n- t @a\r\n");
    assert_eq!(board.name, "b");
    assert_eq!(board.columns[0].name, "c");
    assert_eq!(board.columns[0].cards[0].assignee.as_deref(), Some("a"));
}

#[test]
fn empty_file() {
    let e = only_error("");
    assert_eq!((e.line, e.col, e.len), (1, 1, 1));
    assert_eq!(e.message, "file is empty, expected a 'board: <name>' header");
    assert_eq!(e.note, None);
    let e = only_error("  \n\t\n");
    assert_eq!((e.line, e.col, e.len), (1, 1, 1));
}

#[test]
fn missing_board_header() {
    let errors = parse_err("\nboard Sprint\n\ncolumn: a\n");
    assert_eq!(errors.len(), 1);
    let e = &errors[0];
    assert_eq!((e.line, e.col, e.len), (2, 1, 12));
    assert_eq!(e.message, "expected 'board: <name>' as the first line of the file");
    assert_eq!(e.note.as_deref(), Some("every kanban export starts with a board header"));
}

#[test]
fn empty_board_name() {
    let e = only_error("  board:   \ncolumn: a\n");
    assert_eq!((e.line, e.col, e.len), (1, 9, 1));
    assert_eq!(e.message, "board name cannot be empty");
}

#[test]
fn board_without_columns() {
    let e = only_error("board: b\n\n\n");
    assert_eq!((e.line, e.col, e.len), (3, 1, 1));
    assert_eq!(e.message, "board has no columns");
    assert_eq!(e.note.as_deref(), Some("add at least one 'column: <name>' block"));
    let e = only_error("board: b");
    assert_eq!((e.line, e.col, e.len), (1, 1, 1));
}

#[test]
fn block_must_start_with_column() {
    let errors = parse_err("board: b\n\n  todo: x\n\ncolumn: c\n");
    assert_eq!(errors.len(), 1);
    let e = &errors[0];
    assert_eq!((e.line, e.col, e.len), (3, 3, 7));
    assert_eq!(e.message, "expected a column block starting with 'column:'");
    assert_eq!(e.note.as_deref(), Some("blocks are separated by a blank line"));
}

#[test]
fn empty_column_name() {
    let e = only_error("board: b\ncolumn:\n");
    assert_eq!((e.line, e.col, e.len), (2, 8, 1));
    assert_eq!(e.message, "column name cannot be empty");
}

#[test]
fn duplicate_column() {
    let e = only_error("board: Sprint 12\n\ncolumn: Todo\n- Fix login bug\n\ncolumn: Todo\n- Write docs\n");
    assert_eq!((e.line, e.col, e.len), (6, 1, 12));
    assert_eq!(e.message, "column 'Todo' is defined more than once");
    assert_eq!(e.note.as_deref(), Some("first defined on line 3"));
}

#[test]
fn card_line_needs_dash() {
    let e = only_error("board: b\ncolumn: c\n  * item\n");
    assert_eq!((e.line, e.col, e.len), (3, 3, 6));
    assert_eq!(e.message, "expected a card line starting with '-'");
    assert_eq!(e.note.as_deref(), Some("columns must be separated by a blank line"));
}

#[test]
fn column_line_inside_block_is_not_a_card() {
    let e = only_error("board: b\ncolumn: c\ncolumn: d\n");
    assert_eq!((e.line, e.col, e.len), (3, 1, 9));
    assert_eq!(e.message, "expected a card line starting with '-'");
}

#[test]
fn space_after_dash() {
    let e = only_error("board: b\ncolumn: c\n -x\n");
    assert_eq!((e.line, e.col, e.len), (3, 3, 1));
    assert_eq!(e.message, "expected a space after '-'");
    assert_eq!(e.note, None);
    let e = only_error("board: b\ncolumn: c\n-\n");
    assert_eq!((e.line, e.col, e.len), (3, 2, 1));
}

#[test]
fn empty_card_title() {
    let e = only_error("board: Sprint 12\n\ncolumn: Todo\n- @alice\n");
    assert_eq!((e.line, e.col, e.len), (4, 3, 1));
    assert_eq!(e.message, "card title cannot be empty");
}

#[test]
fn assignee_errors() {
    let e = only_error("board: b\ncolumn: c\n- t @\n");
    assert_eq!((e.line, e.col, e.len), (3, 5, 1));
    assert_eq!(e.message, "assignee name cannot be empty after '@'");
    let e = only_error("board: b\ncolumn: c\n- t @a @bb\n");
    assert_eq!((e.line, e.col, e.len), (3, 8, 3));
    assert_eq!(e.message, "card already has an assignee");
    assert_eq!(e.note.as_deref(), Some("a card can only be assigned to one person"));
}

#[test]
fn tag_errors() {
    let e = only_error("board: b\ncolumn: c\n- t #\n");
    assert_eq!((e.line, e.col, e.len), (3, 5, 1));
    assert_eq!(e.message, "tag list cannot be empty after '#'");
    let e = only_error("board: b\ncolumn: c\n- t #a #b\n");
    assert_eq!((e.line, e.col, e.len), (3, 8, 2));
    assert_eq!(e.message, "duplicate tag list");
    assert_eq!(e.note.as_deref(), Some("combine tags into one '#tag1,tag2' group"));
    let e = only_error("board: b\ncolumn: c\n- t #a,,b\n");
    assert_eq!((e.line, e.col, e.len), (3, 5, 5));
    assert_eq!(e.message, "empty tag between commas");
    assert_eq!(e.note, None);
}

#[test]
fn failed_tag_list_lets_a_later_one_through() {
    let e = only_error("board: b\ncolumn: c\n- t #a, #b\n");
    assert_eq!(e.message, "empty tag between commas");
}

#[test]
fn unexpected_metadata_text() {
    let e = only_error("board: b\ncolumn: c\n- t @a extra\n");
    assert_eq!((e.line, e.col, e.len), (3, 8, 5));
    assert_eq!(e.message, "unexpected text 'extra' in card metadata");
    assert_eq!(
        e.note.as_deref(),
        Some("expected '@name' for an assignee or '#tag' for tags")
    );
}

#[test]
fn columns_count_characters_not_bytes() {
    let e = only_error("board: b\ncolumn: c\n- héllo wörld @ünï x\n");
    assert_eq!((e.line, e.col, e.len), (3, 20, 1));
    assert_eq!(e.message, "unexpected text 'x' in card metadata");
    let e = only_error("board: b\ncolumn: c\n\u{3000}- ü @\n");
    assert_eq!((e.line, e.col, e.len), (3, 6, 1));
}

#[test]
fn every_problem_is_reported() {
    let errors = parse_err("board: Sprint 12\n\ncolumn: Todo\n- @alice\n\ncolumn: Todo\n- Write docs\n");
    assert_eq!(errors.len(), 2);
    assert_eq!(errors[0].message, "card title cannot be empty");
    assert_eq!(errors[0].line, 4);
    assert_eq!(errors[1].message, "column 'Todo' is defined more than once");
    assert_eq!(errors[1].line, 6);
}

#[test]
fn errors_come_in_line_order() {
    let errors = parse_err("board:\ncolumn:\n- #\n\nnope\n");
    let lines: Vec<usize> = errors.iter().map(|e| e.line).collect();
    assert_eq!(lines, vec![1, 2, 3, 3, 5]);
}

#[test]
fn reformatted_board_parses_to_the_same_board() {
    let src = "  board:  Release\u{3000}\n\n column: Ideas  \n-  Try @x #a,b\n- Plain title with login@host\n\n\ncolumn: Later\r\n- Ship it #done\n";
    let board = parse_ok(src);
    let printed = pretty_print(&board);
    let again = parse_ok(&printed);
    assert_eq!(format!("{:?}", board), format!("{:?}", again));
    assert_eq!(pretty_print(&again), printed);
}

#[test]
fn parsed_board_parts_are_trimmed_and_distinct() {
    let board = parse_ok("board:\t Sprint \t\ncolumn:  A \n- \t spaced title \t @who #x\n\ncolumn: B\n");
    assert_eq!(board.name, "Sprint");
    assert_eq!(board.columns[0].name, "A");
    assert_eq!(board.columns[1].name, "B");
    assert_eq!(board.columns[0].cards[0].title, "spaced title");
    assert_eq!(board.columns[0].cards[0].assignee.as_deref(), Some("who"));
    assert_eq!(board.columns[0].cards[0].tags, vec!["x".to_string()]);
}

#[test]
fn lone_carriage_return_stays_in_the_line() {
    let board = parse_ok("board: b\ncolumn: c\n- t\r");
    assert_eq!(board.columns[0].cards[0].title, "t");
    let board = parse_ok("board: b\ncolumn: c\n- a\rb\n");
    assert_eq!(board.columns[0].cards[0].title, "a\rb");
}

#[test]
fn diagnostics_point_into_the_file() {
    let src = "board: b\n- stray\n\n\n";
    let errors = parse_err(src);
    assert_eq!(errors.len(), 2);
    assert_eq!((errors[0].line, errors[0].col, errors[0].len), (2, 1, 7));
    assert_eq!(errors[0].message, "expected a column block starting with 'column:'");
    assert_eq!((errors[1].line, errors[1].col, errors[1].len), (4, 1, 1));
    assert_eq!(errors[1].message, "board has no columns");
    for e in &errors {
        assert!(e.line >= 1 && e.line <= 4 && e.col >= 1 && e.len >= 1);
    }
}

#[test]
fn marker_after_any_whitespace_counts() {
    let board = parse_ok("board: b\ncolumn: c\n- Fix\t@alice\u{3000}#x\n");
    let card = &board.columns[0].cards[0];
    assert_eq!(card.title, "Fix");
    assert_eq!(card.assignee.as_deref(), Some("alice"));
    assert_eq!(card.tags, vec!["x".to_string()]);
    assert_eq!(pretty_print(&board), "board: b\n\ncolumn: c\n- Fix @alice #x\n");
}

#[test]
fn carets_stay_within_their_lines() {
    let files = [
        "board: b\ncolumn: c\n-\n",
        "board:\ncolumn:\n- #\n\nnope\n",
        "board Sprint\n",
        "board: b\ncolumn: c\n- t @a extra #\n",
        "board: b\ncolumn: c\n  x\n",
        "board: b\n\n",
    ];
    for src in files {
        let lines: Vec<&str> = src.lines().collect();
        for e in parse_err(src) {
            let len = lines.get(e.line - 1).map(|l| l.chars().count()).unwrap_or(0);
            assert!(e.col + e.len <= len + 2, "{:?} in {:?}", e, src);
        }
    }
}
