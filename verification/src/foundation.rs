//! A foundation: an ascending, same-suit pile started by an Ace.

use vstd::prelude::*;
use crate::deck::Card;
use crate::deck::Rank;
use crate::deck::Suit;
use crate::single::Single;

verus! {

/// True when `c` may be placed on a foundation currently holding `s`:
/// an Ace on an empty pile, or the next rank of the pile's suit.
pub open spec fn foundation_accepts(s: Seq<Card>, c: Card) -> bool {
    if c.rank() == Rank::Ace {
        s.len() == 0
    } else {
        &&& s.len() > 0
        &&& c.suit() == s.last().suit()
        &&& c.rank().value() == s.last().rank().value() + 1
    }
}

/// A pile is well formed when its cards run Ace, Two, ... from the bottom
/// and all share the suit of the first card placed.
pub open spec fn foundation_wf(s: Seq<Card>) -> bool {
    forall|i: int|
        0 <= i < s.len() ==> (#[trigger] s[i]).rank().value() == i + 1 && s[i].suit() == s[0].suit()
}

/// One of the four foundations, the scoring destination.
#[derive(Debug, Eq, PartialEq)]
pub struct Foundation(Vec<Card>);

impl Clone for Foundation {
    /// A clone holds exactly the same cards.
    fn clone(&self) -> (r: Self)
        ensures
            r@ == self@,
    {
        let cards = self.0.clone();
        proof {
            assert forall|i: int| 0 <= i < self.0@.len() implies cards@[i] == self.0@[i] by {
                assert(cloned::<Card>(self.0[i], cards[i]));
            }
            assert(cards@ =~= self.0@);
        }
        Foundation(cards)
    }
}

impl View for Foundation {
    type V = Seq<Card>;

    closed spec fn view(&self) -> Seq<Card> {
        self.0@
    }
}

impl Foundation {
    pub open spec fn well_formed(&self) -> bool {
        foundation_wf(self@)
    }

    pub fn empty() -> (f: Foundation)
        ensures
            f@ == Seq::<Card>::empty(),
    {
        Foundation(Vec::new())
    }

    /// The suit of the pile, fixed by the first card placed; `None` while
    /// the pile is empty.
    pub fn get_suit(&self) -> (r: Option<Suit>)
        ensures
            self@.len() == 0 ==> r is None,
            self@.len() > 0 ==> r == Some(self@.last().suit()),
    {
        match self.peek() {
            Some(card) => Some(card.get_suit()),
            None => None,
        }
    }

    /// The rank of the top card, or `None` while the pile is empty.
    pub fn get_rank(&self) -> (r: Option<Rank>)
        ensures
            self@.len() == 0 ==> r is None,
            self@.len() > 0 ==> r == Some(self@.last().rank()),
    {
        match self.peek() {
            Some(card) => Some(card.get_rank()),
            None => None,
        }
    }

    pub fn is_legal(&self, card: &Card) -> (r: bool)
        ensures
            r == foundation_accepts(self@, *card),
    {
        if card.get_rank() == Rank::Ace {
            self.is_empty()
        } else {
            match self.peek() {
                Some(top) => {
                    let top_rank = *top;
                    card.get_suit() == top_rank.get_suit()
                        && match card.get_rank().try_decrement() {
                            Some(below) => below == top_rank.get_rank(),
                            None => false,
                        }
                }
                None => false,
            }
        }
    }

    /// Place a card if legal; otherwise hand the card back with an error,
    /// leaving the pile unchanged. A well-formed pile stays well formed.
    pub fn push(&mut self, card: Card) -> (r: Result<(), (Card, &'static str)>)
        ensures
            foundation_accepts(old(self)@, card) ==> r == Ok::<(), (Card, &'static str)>(())
                && final(self)@ == old(self)@.push(card),
            !foundation_accepts(old(self)@, card) ==> r == Err::<(), (Card, &'static str)>((
                card,
                "That card is not valid on that foundation.",
            )) && final(self)@ == old(self)@,
            old(self).well_formed() ==> final(self).well_formed(),
    {
        if self.is_legal(&card) {
            self.0.push(card);
            Ok(())
        } else {
            Err((card, "That card is not valid on that foundation."))
        }
    }

    /// Place a card if legal; `push` under the name the board code uses.
    pub fn try_push(&mut self, card: Card) -> (r: Result<(), (Card, &'static str)>)
        ensures
            foundation_accepts(old(self)@, card) ==> r == Ok::<(), (Card, &'static str)>(())
                && final(self)@ == old(self)@.push(card),
            !foundation_accepts(old(self)@, card) ==> r == Err::<(), (Card, &'static str)>((
                card,
                "That card is not valid on that foundation.",
            )) && final(self)@ == old(self)@,
            old(self).well_formed() ==> final(self).well_formed(),
    {
        self.push(card)
    }
}

impl Single for Foundation {
    open spec fn spec_peek(&self) -> Option<Card> {
        if self@.len() == 0 {
            None
        } else {
            Some(self@.last())
        }
    }

    fn peek(&self) -> (r: Option<&Card>) {
        self.0.last()
    }

    fn is_empty(&self) -> (r: bool) {
        self.0.len() == 0
    }
}

} // verus!
