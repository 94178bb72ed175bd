//! The properties that the library promises as a whole.
use vstd::prelude::*;
use crate::printer::board_text;
use crate::roundtrip::lemma_print_then_parse;
use crate::syntax::parse_view;
use crate::validity::lemma_parsed_board_wf;

verus! {

/// A board that parses prints to a text that parses back to the same board.
pub proof fn law_print_parse_roundtrip(source: Seq<char>)
    requires
        parse_view(source) is Ok,
    ensures
        parse_view(board_text(parse_view(source)->Ok_0)) == parse_view(source),
{
    lemma_parsed_board_wf(source);
    lemma_print_then_parse(parse_view(source)->Ok_0);
}

/// Formatting is idempotent: the canonical form of a file that parses
/// parses too, and its own canonical form is itself.
pub proof fn law_format_idempotent(source: Seq<char>)
    requires
        parse_view(source) is Ok,
    ensures
        parse_view(board_text(parse_view(source)->Ok_0)) is Ok,
        board_text(parse_view(board_text(parse_view(source)->Ok_0))->Ok_0) == board_text(
            parse_view(source)->Ok_0,
        ),
{
    law_print_parse_roundtrip(source);
}

} // verus!
