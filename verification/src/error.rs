//! Parse diagnostics and their rustc-style rendering.
use vstd::prelude::*;
use crate::model::opt_view;
use crate::text::{chars_of, decimal, lines_of, lines_of_str, push_chars, push_decimal, push_repeated, repeat_char};

verus! {

/// A single parse failure, anchored to a line/column in the source file.
///
/// `len` is measured in characters, not bytes, so the caret underline lines
/// up correctly even when the source contains multi-byte UTF-8 text.
#[derive(Debug)]
pub struct ParseError {
    pub line: usize,
    pub col: usize,
    pub len: usize,
    pub message: String,
    pub note: Option<String>,
}

/// The mathematical value of a [`ParseError`].
pub struct ErrorView {
    pub line: nat,
    pub col: nat,
    pub len: nat,
    pub message: Seq<char>,
    pub note: Option<Seq<char>>,
}

impl View for ParseError {
    type V = ErrorView;

    open spec fn view(&self) -> ErrorView {
        ErrorView {
            line: self.line as nat,
            col: self.col as nat,
            len: self.len as nat,
            message: self.message@,
            note: opt_view(self.note),
        }
    }
}

/// The diagnostic that `ParseError::new` builds: the width is at least one
/// character.
pub open spec fn diagnostic(
    line: nat,
    col: nat,
    len: nat,
    message: Seq<char>,
    note: Option<Seq<char>>,
) -> ErrorView {
    ErrorView { line, col, len: if len < 1 { 1 } else { len }, message, note }
}

/// The views of a sequence of diagnostics.
pub open spec fn error_views(v: Seq<ParseError>) -> Seq<ErrorView> {
    v.map_values(|e: ParseError| e@)
}

/// The text of the source line that a diagnostic points at (line numbers are
/// 1-based; line 0 is read as line 1); empty past the end of the source.
pub open spec fn source_line(source: Seq<char>, line: nat) -> Seq<char> {
    let ls = lines_of(source);
    let idx = if line == 0 { 0 } else { line - 1 };
    if idx < ls.len() {
        ls[idx]
    } else {
        Seq::empty()
    }
}

/// The spaces that stand in for the line number on the lines without one.
pub open spec fn gutter_pad(e: ErrorView) -> Seq<char> {
    repeat_char(' ', decimal(e.line).len())
}

pub open spec fn head_view(e: ErrorView) -> Seq<char> {
    "error: "@ + e.message + "\n"@
}

pub open spec fn location_view(e: ErrorView, filename: Seq<char>) -> Seq<char> {
    "--> "@ + filename + ":"@ + decimal(e.line) + ":"@ + decimal(e.col) + "\n"@
}

pub open spec fn rule_view(e: ErrorView) -> Seq<char> {
    gutter_pad(e) + " |\n"@
}

pub open spec fn text_view(e: ErrorView, source: Seq<char>) -> Seq<char> {
    decimal(e.line) + " | "@ + source_line(source, e.line) + "\n"@
}

pub open spec fn carets_view(e: ErrorView) -> Seq<char> {
    let caret_offset: nat = if e.col == 0 { 0 } else { (e.col - 1) as nat };
    gutter_pad(e) + " | "@ + repeat_char(' ', caret_offset) + repeat_char('^', e.len) + "\n"@
}

pub open spec fn note_view(e: ErrorView) -> Seq<char> {
    match e.note {
        Some(n) => gutter_pad(e) + " = note: "@ + n + "\n"@,
        None => Seq::empty(),
    }
}

/// The rendered form of a diagnostic, in the style of rustc:
///
/// ```text
/// error: <message>
/// --> <file>:<line>:<col>
/// <pad> |
/// <line> | <source line>
/// <pad> | <spaces to the column>^^^
/// <pad> = note: <note>
/// ```
///
/// where `<pad>` is as many spaces as the line number has digits and the
/// last line is there only when the diagnostic has a note.
pub open spec fn render_view(e: ErrorView, filename: Seq<char>, source: Seq<char>) -> Seq<char> {
    head_view(e) + location_view(e, filename) + rule_view(e) + text_view(e, source) + carets_view(e)
        + note_view(e)
}

impl ParseError {
    /// Builds a diagnostic; a width of zero is widened to one character so
    /// that there is always a caret to show.
    pub fn new(line: usize, col: usize, len: usize, message: String, note: Option<String>) -> (e:
        Self)
        ensures
            e@ == diagnostic(line as nat, col as nat, len as nat, message@, opt_view(note)),
    {
        ParseError { line, col, len: if len < 1 { 1 } else { len }, message, note }
    }

    /// Render this error the way rustc renders its own diagnostics: a
    /// message, a file:line:col pointer, the offending source line, and a
    /// caret underline.
    pub fn render(&self, filename: &str, source: &str) -> (out: String)
        ensures
            out@ == render_view(self@, filename@, source@),
    {
        let mut gutter = String::new();
        push_decimal(&mut gutter, self.line as u128);
        let width = chars_of(gutter.as_str()).len();

        let mut out = String::new();
        out.append("error: ");
        out.append(self.message.as_str());
        out.append("\n");
        self.push_location(&mut out, &gutter, filename);
        push_repeated(&mut out, ' ', width);
        out.append(" |\n");
        assert(out@ =~= head_view(self@) + location_view(self@, filename@) + rule_view(self@));
        self.push_text(&mut out, &gutter, source);
        self.push_carets(&mut out, width);
        match &self.note {
            Some(note) => {
                push_repeated(&mut out, ' ', width);
                out.append(" = note: ");
                out.append(note.as_str());
                out.append("\n");
                assert(out@ =~= head_view(self@) + location_view(self@, filename@) + rule_view(
                    self@,
                ) + text_view(self@, source@) + carets_view(self@) + note_view(self@));
            },
            None => {
                assert(out@ =~= head_view(self@) + location_view(self@, filename@) + rule_view(
                    self@,
                ) + text_view(self@, source@) + carets_view(self@) + note_view(self@));
            },
        }
        out
    }

    fn push_location(&self, out: &mut String, gutter: &String, filename: &str)
        requires
            gutter@ == decimal(self.line as nat),
        ensures
            final(out)@ == old(out)@ + location_view(self@, filename@),
    {
        out.append("--> ");
        out.append(filename);
        out.append(":");
        out.append(gutter.as_str());
        out.append(":");
        push_decimal(out, self.col as u128);
        out.append("\n");
        assert(out@ =~= old(out)@ + location_view(self@, filename@));
    }

    fn push_text(&self, out: &mut String, gutter: &String, source: &str)
        requires
            gutter@ == decimal(self.line as nat),
        ensures
            final(out)@ == old(out)@ + text_view(self@, source@),
    {
        let lines = lines_of_str(source);
        let idx: usize = if self.line == 0 { 0 } else { self.line - 1 };
        out.append(gutter.as_str());
        out.append(" | ");
        let ghost mid = out@;
        if idx < lines.len() {
            push_chars(out, &lines[idx]);
            assert(lines@[idx as int]@ == lines_of(source@)[idx as int]);
        }
        assert(out@ == mid + source_line(source@, self.line as nat));
        out.append("\n");
        assert(out@ =~= old(out)@ + text_view(self@, source@));
    }

    fn push_carets(&self, out: &mut String, width: usize)
        requires
            width == decimal(self.line as nat).len(),
        ensures
            final(out)@ == old(out)@ + carets_view(self@),
    {
        let caret_offset: usize = if self.col == 0 { 0 } else { self.col - 1 };
        push_repeated(out, ' ', width);
        out.append(" | ");
        push_repeated(out, ' ', caret_offset);
        push_repeated(out, '^', self.len);
        out.append("\n");
        assert(out@ =~= old(out)@ + carets_view(self@));
    }
}

} // verus!
