use lib::cli::report;
use lib::error::ParseError;
use lib::parser::parse;

#[test]
fn new_widens_zero_length() {
    let e = ParseError::new(3, 4, 0, "m".to_string(), None);
    assert_eq!((e.line, e.col, e.len), (3, 4, 1));
    let e = ParseError::new(3, 4, 7, "m".to_string(), Some("n".to_string()));
    assert_eq!(e.len, 7);
    assert_eq!(e.note.as_deref(), Some("n"));
}

#[test]
fn readme_missing_title() {
    let src = "board: Sprint 12\n\ncolumn: Todo\n- @alice\n";
    let errors = parse(src).unwrap_err();
    assert_eq!(
        errors[0].render("board.kbx", src),
        "error: card title cannot be empty\n--> board.kbx:4:3\n  |\n4 | - @alice\n  |   ^\n"
    );
}

#[test]
fn readme_duplicate_column() {
    let src = "board: Sprint 12\n\ncolumn: Todo\n- Fix login bug\n\ncolumn: Todo\n- Write docs\n";
    let errors = parse(src).unwrap_err();
    assert_eq!(
        errors[0].render("board.kbx", src),
        "error: column 'Todo' is defined more than once\n--> board.kbx:6:1\n  |\n6 | column: Todo\n  | ^^^^^^^^^^^^\n  = note: first defined on line 3\n"
    );
}

#[test]
fn readme_two_errors_report() {
    let src = "board: Sprint 12\n\ncolumn: Todo\n- @alice\n\ncolumn: Todo\n- Write docs\n";
    let errors = parse(src).unwrap_err();
    assert_eq!(
        report(&errors, "board.kbx", src),
        "error: card title cannot be empty\n--> board.kbx:4:3\n  |\n4 | - @alice\n  |   ^\n\nerror: column 'Todo' is defined more than once\n--> board.kbx:6:1\n  |\n6 | column: Todo\n  | ^^^^^^^^^^^^\n  = note: first defined on line 3\n\nerror: aborting due to 2 previous errors\n"
    );
}

#[test]
fn single_error_report_has_no_footer() {
    let src = "";
    let errors = parse(src).unwrap_err();
    assert_eq!(
        report(&errors, "<stdin>", src),
        "error: file is empty, expected a 'board: <name>' header\n--> <stdin>:1:1\n  |\n1 | \n  | ^\n"
    );
}

#[test]
fn wide_line_numbers_pad_the_gutter() {
    let e = ParseError::new(12, 2, 3, "bad".to_string(), Some("hint".to_string()));
    let src = "a\nb\nc\nd\ne\nf\ng\nh\ni\nj\nk\nxyzw\n";
    assert_eq!(
        e.render("f", src),
        "error: bad\n--> f:12:2\n   |\n12 | xyzw\n   |  ^^^\n   = note: hint\n"
    );
}

#[test]
fn line_past_the_end_and_line_zero() {
    let e = ParseError::new(9, 0, 1, "m".to_string(), None);
    assert_eq!(e.render("f", "one\n"), "error: m\n--> f:9:0\n  |\n9 | \n  | ^\n");
    let e = ParseError::new(0, 1, 1, "m".to_string(), None);
    assert_eq!(e.render("f", "one\n"), "error: m\n--> f:0:1\n  |\n0 | one\n  | ^\n");
}
