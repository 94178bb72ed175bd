//! The board model that the parser produces and the printer renders.
use vstd::prelude::*;

verus! {

/// A whole board: its name and its columns, in file order.
#[derive(Debug, Clone)]
pub struct Board {
    pub name: String,
    pub columns: Vec<Column>,
}

/// One column block: its name and its cards, in file order.
#[derive(Debug, Clone)]
pub struct Column {
    pub name: String,
    pub cards: Vec<Card>,
}

/// One card: a title, at most one assignee and a (possibly empty) tag list.
#[derive(Debug, Clone)]
pub struct Card {
    pub title: String,
    pub assignee: Option<String>,
    pub tags: Vec<String>,
}

/// The mathematical value of a [`Card`].
pub struct CardView {
    pub title: Seq<char>,
    pub assignee: Option<Seq<char>>,
    pub tags: Seq<Seq<char>>,
}

/// The mathematical value of a [`Column`].
pub struct ColumnView {
    pub name: Seq<char>,
    pub cards: Seq<CardView>,
}

/// The mathematical value of a [`Board`].
pub struct BoardView {
    pub name: Seq<char>,
    pub columns: Seq<ColumnView>,
}

/// The view of an optional string.
pub open spec fn opt_view(o: Option<String>) -> Option<Seq<char>> {
    match o {
        Some(s) => Some(s@),
        None => None,
    }
}

impl View for Card {
    type V = CardView;

    open spec fn view(&self) -> CardView {
        CardView {
            title: self.title@,
            assignee: opt_view(self.assignee),
            tags: self.tags@.map_values(|t: String| t@),
        }
    }
}

impl View for Column {
    type V = ColumnView;

    open spec fn view(&self) -> ColumnView {
        ColumnView { name: self.name@, cards: self.cards@.map_values(|c: Card| c@) }
    }
}

impl View for Board {
    type V = BoardView;

    open spec fn view(&self) -> BoardView {
        BoardView { name: self.name@, columns: self.columns@.map_values(|c: Column| c@) }
    }
}

} // verus!
