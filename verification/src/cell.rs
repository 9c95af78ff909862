//! A free cell: a slot holding zero or one card.

use vstd::prelude::*;
use crate::deck::Card;
use crate::single::Single;

verus! {

/// One of the four free cells. It never holds more than one card.
#[derive(Clone, Copy, Debug, Eq, PartialEq)]
pub struct Cell {
    card: Option<Card>,
}

impl View for Cell {
    type V = Option<Card>;

    closed spec fn view(&self) -> Option<Card> {
        self.card
    }
}

impl Cell {
    pub fn new(card: Card) -> (c: Cell)
        ensures
            c@ == Some(card),
    {
        Cell { card: Some(card) }
    }

    pub fn empty() -> (c: Cell)
        ensures
            c@ is None,
    {
        Cell { card: None }
    }

    /// Place a card if the cell is empty; otherwise hand the card back with
    /// an error, leaving the cell unchanged.
    pub fn try_push(&mut self, card: Card) -> (r: Result<(), (Card, &'static str)>)
        ensures
            old(self)@ is None ==> r == Ok::<(), (Card, &'static str)>(()) && final(self)@ == Some(card),
            old(self)@ is Some ==> r == Err::<(), (Card, &'static str)>((
                card,
                "A card is already present on that cell.",
            )) && final(self)@ == old(self)@,
    {
        if self.card.is_none() {
            self.card = Some(card);
            Ok(())
        } else {
            Err((card, "A card is already present on that cell."))
        }
    }

    /// Remove and return the held card, if any.
    pub fn take(&mut self) -> (r: Option<Card>)
        ensures
            r == old(self)@,
            final(self)@ is None,
    {
        self.card.take()
    }
}

impl Single for Cell {
    open spec fn spec_peek(&self) -> Option<Card> {
        self@
    }

    fn peek(&self) -> (r: Option<&Card>) {
        self.card.as_ref()
    }

    fn is_empty(&self) -> (r: bool) {
        self.card.is_none()
    }
}

} // verus!
