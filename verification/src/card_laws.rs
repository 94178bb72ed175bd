//! How a card line reads, whatever the order of its metadata.
use vstd::prelude::*;
use crate::error::ErrorView;
use crate::model::CardView;
use crate::printer::join;
use crate::roundtrip::{
    card_line_text, lemma_card_line_roundtrip, lemma_first_marker_at, lemma_join_tags,
    lemma_meta_fold_two, lemma_tag_list_of_join, lemma_tokens_append_run, lemma_trim_end_space,
    wf_card,
};
use crate::syntax::{card_body, card_line, empty_meta, is_marker_at, meta_step, tokens};
use crate::text::{is_ws, lemma_trim_of_trimmed, lemma_ws_prefix_len};

verus! {

/// The line `- <title>` followed by `more` reads as the text after the dash
/// and its space.
pub proof fn lemma_card_line_to_body(title: Seq<char>, more: Seq<char>, line_no: nat)
    requires
        title.len() > 0,
        !is_ws(title[0]),
    ensures
        card_line(seq!['-', ' '] + title + more, line_no) == card_body(title + more, 2, line_no),
{
    let line = seq!['-', ' '] + title + more;
    assert(line[0] == '-');
    lemma_ws_prefix_len(line, 0);
    assert(line.skip(0) == line);
    let after_dash = line.skip(1);
    assert(after_dash =~= seq![' '] + (title + more));
    assert(after_dash.take(1) =~= seq![' ']);
    assert(after_dash[1] == title[0]);
    lemma_ws_prefix_len(after_dash, 1);
    assert(after_dash.skip(1) =~= title + more);
}

/// After a title, a space and a marker start the metadata; the title reads
/// back as itself.
pub proof fn lemma_metadata_after_title(c: CardView, more: Seq<char>)
    requires
        wf_card(c),
        more.len() >= 2,
        more[0] == ' ',
        more[1] == '@' || more[1] == '#',
    ensures
        crate::syntax::marker_start(c.title + more) == Some((c.title.len() + 1) as nat),
        crate::text::trim_end((c.title + more).take(c.title.len() as int + 1)) == c.title,
        (c.title + more).skip(c.title.len() as int + 1) == more.skip(1),
{
    let title = c.title;
    let rest = title + more;
    let m: int = title.len() as int + 1;
    assert(rest[m] == more[1]);
    assert(rest[m - 1] == ' ');
    assert(is_marker_at(rest, m));
    assert forall|j: int| 0 <= j < m implies !is_marker_at(rest, j) by {
        if j < title.len() {
            assert(rest[j] == title[j]);
            if j > 0 {
                assert(rest[j - 1] == title[j - 1]);
            }
            assert(!is_marker_at(title, j));
        } else {
            assert(rest[j] == ' ');
        }
    }
    lemma_first_marker_at(rest, 0, m);
    assert(rest.take(m) =~= title.push(' '));
    lemma_trim_end_space(title);
    assert(rest.skip(m) =~= more.skip(1));
}

/// The metadata of a card may come in either order: a card line whose tag
/// group comes before its assignee reads as the same card, with that
/// assignee and those tags, as the line with the assignee first, and
/// neither line gives a diagnostic.
pub proof fn law_card_metadata_order(
    title: Seq<char>,
    assignee: Seq<char>,
    tags: Seq<Seq<char>>,
    line_no: nat,
)
    requires
        wf_card(CardView { title, assignee: Some(assignee), tags }),
        tags.len() > 0,
    ensures
        card_line(
            seq!['-', ' '] + title + seq![' ', '#'] + join(tags, seq![',']) + seq![' ', '@']
                + assignee,
            line_no,
        ) == (Some(CardView { title, assignee: Some(assignee), tags }), Seq::<ErrorView>::empty()),
        card_line(
            seq!['-', ' '] + title + seq![' ', '@'] + assignee + seq![' ', '#'] + join(
                tags,
                seq![','],
            ),
            line_no,
        ) == (Some(CardView { title, assignee: Some(assignee), tags }), Seq::<ErrorView>::empty()),
{
    let c = CardView { title, assignee: Some(assignee), tags };
    let jt = join(tags, seq![',']);
    assert(forall|k: int| 0 <= k < tags.len() ==> crate::roundtrip::wf_tag(#[trigger] c.tags[k]));
    assert forall|k: int| 0 <= k < tags.len() implies crate::roundtrip::wf_tag(#[trigger] tags[k]) by {
        assert(crate::roundtrip::wf_tag(c.tags[k]));
    }
    lemma_join_tags(tags);
    lemma_tag_list_of_join(tags);
    lemma_trim_of_trimmed(title);

    // Assignee first: this is the printed form of the card.
    lemma_card_line_roundtrip(c, line_no);
    assert(card_line_text(c) =~= seq!['-', ' '] + title + seq![' ', '@'] + assignee + seq![
        ' ',
        '#',
    ] + jt);

    // Tag group first.
    let more = seq![' ', '#'] + jt + seq![' ', '@'] + assignee;
    assert(more[0] == ' ');
    assert(more[1] == '#');
    assert(seq!['-', ' '] + title + seq![' ', '#'] + jt + seq![' ', '@'] + assignee =~= seq![
        '-',
        ' ',
    ] + title + more);
    lemma_card_line_to_body(title, more, line_no);
    lemma_metadata_after_title(c, more);
    let meta = more.skip(1);
    let hash = seq!['#'] + jt;
    let at = seq!['@'] + assignee;
    assert forall|i: int| 0 <= i < hash.len() implies !is_ws(#[trigger] hash[i]) by {
        if i > 0 {
            assert(hash[i] == jt[i - 1]);
        }
    }
    assert forall|i: int| 0 <= i < at.len() implies !is_ws(#[trigger] at[i]) by {
        if i > 0 {
            assert(at[i] == assignee[i - 1]);
        }
    }
    let e = Seq::<char>::empty();
    assert(e + hash =~= hash);
    lemma_tokens_append_run(e, hash);
    let first = hash.push(' ');
    assert(meta =~= first + at);
    assert(first.drop_last() == hash);
    assert(tokens(first) == tokens(hash));
    lemma_tokens_append_run(first, at);
    let toks = tokens(meta);
    assert(toks =~= seq![(0nat, hash), (first.len(), at)]);
    assert(hash.skip(1) =~= jt);
    assert(at.skip(1) =~= assignee);
    let base = (2 + title.len() + 1) as nat;
    lemma_meta_fold_two((0nat, hash), (first.len(), at), base, line_no);
    let s1 = meta_step(empty_meta(), (0nat, hash), base, line_no);
    assert(s1.tags == tags);
    assert(s1.assignee is None);
    assert(s1.errors.len() == 0);
    let s2 = meta_step(s1, (first.len(), at), base, line_no);
    assert(s2.assignee == Some(assignee));
    assert(s2.tags == tags);
    assert(s2.errors.len() == 0);
    assert(Seq::<ErrorView>::empty() + s2.errors =~= Seq::<ErrorView>::empty());
    assert(card_body(title + more, 2, line_no) == (Some(c), Seq::<ErrorView>::empty()));
}

} // verus!
