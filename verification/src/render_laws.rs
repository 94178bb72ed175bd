//! What a rendered diagnostic shows, line by line, over all diagnostics.
use vstd::prelude::*;
use crate::error::{render_view, source_line, ErrorView};
use crate::roundtrip::{join_lines, lacks, lemma_split_join_lines};
use crate::text::{decimal, digit_char, lines_of, repeat_char, split_on};

verus! {

pub proof fn lemma_decimal_lacks(n: nat, c: char)
    requires
        c != '0' && c != '1' && c != '2' && c != '3' && c != '4' && c != '5' && c != '6' && c != '7'
            && c != '8' && c != '9',
    ensures
        lacks(decimal(n), c),
    decreases n,
{
    if n >= 10 {
        lemma_decimal_lacks(n / 10, c);
        let d = decimal(n);
        assert forall|i: int| 0 <= i < d.len() implies d[i] != c by {
            if i < d.len() - 1 {
                assert(d[i] == decimal(n / 10)[i]);
            }
        }
    }
}

pub proof fn lemma_lacks_add(a: Seq<char>, b: Seq<char>, c: char)
    requires
        lacks(a, c),
        lacks(b, c),
    ensures
        lacks(a + b, c),
{
    assert forall|i: int| 0 <= i < (a + b).len() implies (a + b)[i] != c by {
        if i < a.len() {
            assert((a + b)[i] == a[i]);
        } else {
            assert((a + b)[i] == b[i - a.len()]);
        }
    }
}

/// The lines of a rendered diagnostic, without their line feeds.
pub open spec fn render_lines(e: ErrorView, filename: Seq<char>, source: Seq<char>) -> Seq<
    Seq<char>,
> {
    let gutter = decimal(e.line);
    let pad = repeat_char(' ', gutter.len());
    let caret_offset: nat = if e.col == 0 { 0 } else { (e.col - 1) as nat };
    let ls = seq![
        "error: "@ + e.message,
        "--> "@ + filename + ":"@ + gutter + ":"@ + decimal(e.col),
        pad + " |"@,
        gutter + " | "@ + source_line(source, e.line),
        pad + " | "@ + repeat_char(' ', caret_offset) + repeat_char('^', e.len),
    ];
    match e.note {
        Some(n) => ls.push(pad + " = note: "@ + n),
        None => ls,
    }
}

pub proof fn lemma_render_is_lines(e: ErrorView, filename: Seq<char>, source: Seq<char>)
    ensures
        render_view(e, filename, source) == join_lines(render_lines(e, filename, source)),
{
    reveal_strlit("\n");
    reveal_strlit(" |\n");
    reveal_strlit(" |");
    assert("\n"@ =~= seq!['\n']);
    assert(" |\n"@ =~= " |"@.push('\n'));
    let ls = render_lines(e, filename, source);
    let five = ls.take(5);
    let s1 = five.take(1);
    let s2 = five.take(2);
    let s3 = five.take(3);
    let s4 = five.take(4);
    assert(s1 =~= seq![ls[0]]);
    crate::roundtrip::lemma_join_lines_one(ls[0]);
    assert(s2.drop_last() =~= s1);
    assert(s3.drop_last() =~= s2);
    assert(s4.drop_last() =~= s3);
    assert(five.drop_last() =~= s4);
    assert(join_lines(s2) == join_lines(s1) + ls[1].push('\n'));
    assert(join_lines(s3) == join_lines(s2) + ls[2].push('\n'));
    assert(join_lines(s4) == join_lines(s3) + ls[3].push('\n'));
    assert(join_lines(five) == join_lines(s4) + ls[4].push('\n'));
    assert(crate::error::head_view(e) =~= ls[0].push('\n'));
    assert(crate::error::location_view(e, filename) =~= ls[1].push('\n'));
    assert(crate::error::rule_view(e) =~= ls[2].push('\n'));
    assert(crate::error::text_view(e, source) =~= ls[3].push('\n'));
    assert(crate::error::carets_view(e) =~= ls[4].push('\n'));
    assert(join_lines(five) =~= crate::error::head_view(e) + crate::error::location_view(
        e,
        filename,
    ) + crate::error::rule_view(e) + crate::error::text_view(e, source) + crate::error::carets_view(
        e,
    ));
    match e.note {
        Some(n) => {
            assert(ls.drop_last() =~= five);
            assert(crate::error::note_view(e) =~= ls[5].push('\n'));
        },
        None => {
            assert(ls =~= five);
        },
    }
    assert(render_view(e, filename, source) =~= join_lines(ls));
}

/// A rendered diagnostic shows, line by line: the message; the file, line
/// and column; a rule; the line number and the source line exactly as the
/// file has it (nothing past its end); carets under the columns it covers; and the note, if any.
pub proof fn law_render_lines(e: ErrorView, filename: Seq<char>, source: Seq<char>)
    requires
        lacks(e.message, '\n'),
        lacks(filename, '\n'),
        e.note matches Some(n) ==> lacks(n, '\n'),
    ensures
        ({
            let pieces = split_on(render_view(e, filename, source), '\n');
            let gutter = decimal(e.line);
            let pad = repeat_char(' ', gutter.len());
            let caret_offset: nat = if e.col == 0 { 0 } else { (e.col - 1) as nat };
            &&& pieces.len() == if e.note is Some { 7nat } else { 6nat }
            &&& pieces[0] == "error: "@ + e.message
            &&& pieces[1] == "--> "@ + filename + ":"@ + gutter + ":"@ + decimal(e.col)
            &&& pieces[2] == pad + " |"@
            &&& (1 <= e.line <= lines_of(source).len() ==> pieces[3] == gutter + " | "@ + lines_of(
                source,
            )[e.line - 1])
            &&& (e.line == 0 && lines_of(source).len() > 0 ==> pieces[3] == gutter + " | "@
                + lines_of(source)[0])
            &&& (e.line > lines_of(source).len() ==> pieces[3] == gutter + " | "@)
            &&& pieces[4] == pad + " | "@ + repeat_char(' ', caret_offset) + repeat_char('^', e.len)
            &&& (e.note matches Some(n) ==> pieces[5] == pad + " = note: "@ + n)
            &&& pieces.last().len() == 0
        }),
{
    reveal_strlit("error: ");
    reveal_strlit("--> ");
    reveal_strlit(":");
    reveal_strlit(" |");
    reveal_strlit(" | ");
    reveal_strlit(" = note: ");
    let ls = render_lines(e, filename, source);
    lemma_decimal_lacks(e.line, '\n');
    lemma_decimal_lacks(e.col, '\n');
    crate::validity::lemma_lines_lack_newline(source);
    let ls_src = lines_of(source);
    let idx = if e.line == 0 { 0 } else { e.line - 1 };
    if idx < ls_src.len() {
        assert(lacks(ls_src[idx as int], '\n'));
    } else {
        assert(source_line(source, e.line) == Seq::<char>::empty());
        assert(lacks(Seq::<char>::empty(), '\n'));
    }
    assert(lacks(source_line(source, e.line), '\n'));
    let gutter = decimal(e.line);
    let pad = repeat_char(' ', gutter.len());
    let caret_offset: nat = if e.col == 0 { 0 } else { (e.col - 1) as nat };
    assert(lacks(pad, '\n'));
    assert(lacks(repeat_char(' ', caret_offset), '\n'));
    assert(lacks(repeat_char('^', e.len), '\n'));
    assert(lacks("error: "@, '\n'));
    assert(lacks("--> "@, '\n'));
    assert(lacks(":"@, '\n'));
    assert(lacks(" |"@, '\n'));
    assert(lacks(" | "@, '\n'));
    assert(lacks(" = note: "@, '\n'));
    lemma_lacks_add("error: "@, e.message, '\n');
    lemma_lacks_add("--> "@, filename, '\n');
    lemma_lacks_add("--> "@ + filename, ":"@, '\n');
    lemma_lacks_add("--> "@ + filename + ":"@, gutter, '\n');
    lemma_lacks_add("--> "@ + filename + ":"@ + gutter, ":"@, '\n');
    lemma_lacks_add("--> "@ + filename + ":"@ + gutter + ":"@, decimal(e.col), '\n');
    lemma_lacks_add(pad, " |"@, '\n');
    lemma_lacks_add(gutter, " | "@, '\n');
    lemma_lacks_add(gutter + " | "@, source_line(source, e.line), '\n');
    lemma_lacks_add(pad, " | "@, '\n');
    lemma_lacks_add(pad + " | "@, repeat_char(' ', caret_offset), '\n');
    lemma_lacks_add(pad + " | "@ + repeat_char(' ', caret_offset), repeat_char('^', e.len), '\n');
    match e.note {
        Some(n) => {
            lemma_lacks_add(pad, " = note: "@, '\n');
            lemma_lacks_add(pad + " = note: "@, n, '\n');
        },
        None => {},
    }
    assert forall|k: int| 0 <= k < ls.len() implies lacks(#[trigger] ls[k], '\n') by {}
    lemma_render_is_lines(e, filename, source);
    lemma_split_join_lines(ls);
}

} // verus!
