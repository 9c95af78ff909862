//! A slot that exposes at most one card for reading.

use vstd::prelude::*;
use crate::deck::Card;

verus! {

/// A container whose visible content is a single optional card: an empty or
/// occupied cell, or the top of a foundation pile.
pub trait Single: Sized {
    /// The card the slot currently shows, if any.
    spec fn spec_peek(&self) -> Option<Card>;

    /// Read the shown card without removing it.
    fn peek(&self) -> (r: Option<&Card>)
        ensures
            match r {
                Some(c) => self.spec_peek() == Some(*c),
                None => self.spec_peek() is None,
            },
    ;

    /// True when the slot shows no card.
    fn is_empty(&self) -> (r: bool)
        ensures
            r == (self.spec_peek() is None),
    ;
}

} // verus!
