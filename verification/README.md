# kanban-fmt

A parser and pretty printer for plain-text kanban board exports, verified
with Verus.

```
board: Sprint 12

column: Todo
- Fix login bug @alice #bug,urgent
- Write onboarding docs
```

The first non-blank line is `board: <name>`; column blocks start with
`column: <name>` and are separated by blank lines; each line inside a block is
a card `- <title>`, optionally followed by `@<assignee>` and/or
`#<tag1>,<tag2>,...`. Every problem in a file is reported, with the exact line
and column (in characters) and, where it helps, a note.

## Layout

- `src/text.rs`: whitespace, trimming, line and comma splitting, decimal
  numbers, over character sequences.
- `src/syntax.rs`: what a file means, as spec functions read line by line
  (`parse_view`).
- `src/parser.rs`: `parse`, proved to return exactly what `parse_view` says.
- `src/printer.rs`: `pretty_print` and its canonical text (`board_text`).
- `src/error.rs`: `ParseError` and its rustc-style `render`.
- `src/cli.rs`: command-line arguments, the `--check` summary and the error
  report.
- `src/roundtrip.rs`, `src/validity.rs`, `src/laws.rs`: a board that parses
  prints to a text that parses back to the same board, so formatting is
  idempotent.
- `src/anchoring.rs`: every diagnostic points at a line of the file, in line
  order, and its caret underline ends at most one character past that line.
- `app/main.rs`: the `kanban-fmt` program (file and stream I/O).
