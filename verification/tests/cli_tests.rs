use lib::cli::{display_name, needs_rewrite, parse_args, refuse_stdin_write, summary, usage, Mode};
use lib::parser::parse;

fn args(list: &[&str]) -> Vec<String> {
    let mut v = vec!["kanban-fmt".to_string()];
    for a in list {
        v.push(a.to_string());
    }
    v
}

#[test]
fn plain_path_prints() {
    assert_eq!(parse_args(&args(&["board.kbx"])), Ok((Mode::Print, "board.kbx".to_string())));
}

#[test]
fn check_and_write_modes() {
    assert_eq!(parse_args(&args(&["--check", "b"])), Ok((Mode::Check, "b".to_string())));
    assert_eq!(parse_args(&args(&["b", "--write"])), Ok((Mode::Write, "b".to_string())));
    assert_eq!(parse_args(&args(&["--check", "--check", "-"])), Ok((Mode::Check, "-".to_string())));
}

#[test]
fn check_and_write_exclude_each_other() {
    let expected = format!("'--check' and '--write' are mutually exclusive\n\n{}", usage());
    assert_eq!(parse_args(&args(&["--check", "--write", "b"])), Err(expected));
}

#[test]
fn help_and_missing_path_give_usage() {
    assert_eq!(parse_args(&args(&["-h"])), Err(usage()));
    assert_eq!(parse_args(&args(&["b", "--help"])), Err(usage()));
    assert_eq!(parse_args(&args(&[])), Err(usage()));
    assert_eq!(parse_args(&args(&["--check"])), Err(usage()));
}

#[test]
fn extra_argument_is_refused() {
    let expected = format!("unexpected argument 'c'\n\n{}", usage());
    assert_eq!(parse_args(&args(&["b", "c"])), Err(expected));
}

#[test]
fn usage_text() {
    assert!(usage().starts_with("usage: kanban-fmt [--check | --write] <file>\n\n"));
    assert!(usage().ends_with("(not valid with '-')"));
}

#[test]
fn check_summary() {
    let src = "board: Sprint 12\n\ncolumn: Todo\n- Fix login bug @alice #bug,urgent\n- Write onboarding docs\n\ncolumn: In Progress\n- Refactor parser @bob #cleanup\n\ncolumn: Done\n- Set up CI\n";
    let board = parse(src).unwrap();
    assert_eq!(summary(&board), "ok: 3 column(s), 4 card(s)");
    let board = parse("board: b\ncolumn: c\n").unwrap();
    assert_eq!(summary(&board), "ok: 1 column(s), 0 card(s)");
}

#[test]
fn write_on_stdin_is_refused() {
    assert_eq!(
        refuse_stdin_write(Mode::Write, "-").as_deref(),
        Some("error: --write requires a file path, stdin has nowhere to write back to")
    );
    assert_eq!(refuse_stdin_write(Mode::Check, "-"), None);
    assert_eq!(refuse_stdin_write(Mode::Write, "b.kbx"), None);
}

#[test]
fn display_name_for_stdin() {
    assert_eq!(display_name("-"), "<stdin>");
    assert_eq!(display_name("board.kbx"), "board.kbx");
}

#[test]
fn rewrite_only_when_changed() {
    assert!(!needs_rewrite("board: b\n", "board: b\n"));
    assert!(needs_rewrite("board: b\n", "board:  b\n"));
}
