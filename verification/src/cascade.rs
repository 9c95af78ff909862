//! A cascade: one of the eight tableau columns, holding cards in
//! partially ordered runs.

use vstd::prelude::*;
use crate::deck::Card;

verus! {

/// True when every adjacent pair of `s` alternates color and steps down one
/// rank: `s` is a run that may be relocated as a unit.
pub open spec fn run_ok(s: Seq<Card>) -> bool {
    forall|i: int| 0 <= i < s.len() - 1 ==> (#[trigger] s[i + 1]).fits_on(s[i])
}

/// True when `c` may be placed on a cascade holding `s`: any card goes on
/// an empty cascade, otherwise `c` must fit on the top card.
pub open spec fn cascade_fits(s: Seq<Card>, c: Card) -> bool {
    s.len() == 0 || c.fits_on(s.last())
}

/// True when the run `stack` may be placed on a cascade holding `s`; only
/// the seam card is examined.
pub open spec fn stack_fits(s: Seq<Card>, stack: Seq<Card>) -> bool {
    stack.len() == 0 || cascade_fits(s, stack[0])
}

/// True when the ranks of `s` never increase from bottom to top. This is
/// the win rule for a cascade: rank ordering only, color ignored.
pub open spec fn ranks_descending(s: Seq<Card>) -> bool {
    forall|i: int| 1 <= i < s.len() ==> (#[trigger] s[i]).rank().value() <= s[i - 1].rank().value()
}

/// What `try_pop_stack` removes from a cascade holding `s`: the top `count`
/// cards, provided they exist and (for more than one card) form a run.
pub open spec fn try_pop_stack_spec(s: Seq<Card>, count: int) -> Option<Seq<Card>> {
    if count == 0 {
        Some(Seq::<Card>::empty())
    } else if count == 1 {
        if s.len() >= 1 {
            Some(seq![s.last()])
        } else {
            None
        }
    } else if count > s.len() {
        None
    } else if run_ok(s.skip(s.len() - count)) {
        Some(s.skip(s.len() - count))
    } else {
        None
    }
}

/// One of the eight tableau columns.
#[derive(Debug, Eq, PartialEq)]
pub struct Cascade(Vec<Card>);

impl Clone for Cascade {
    /// A clone holds exactly the same cards.
    fn clone(&self) -> (r: Self)
        ensures
            r@ == self@,
    {
        let cards = self.0.clone();
        proof {
            assert forall|i: int| 0 <= i < self.0@.len() implies cards@[i] == self.0@[i] by {
                assert(cloned::<Card>(self.0[i], cards[i]));
            }
            assert(cards@ =~= self.0@);
        }
        Cascade(cards)
    }
}

impl View for Cascade {
    type V = Seq<Card>;

    closed spec fn view(&self) -> Seq<Card> {
        self.0@
    }
}

impl Cascade {
    pub fn new(cards: Vec<Card>) -> (c: Cascade)
        ensures
            c@ == cards@,
    {
        Cascade(cards)
    }

    pub fn empty() -> (c: Cascade)
        ensures
            c@ == Seq::<Card>::empty(),
    {
        Cascade(Vec::new())
    }

    /// Remove and return the top card, or `None` when the cascade is empty.
    pub fn pop(&mut self) -> (r: Option<Card>)
        ensures
            old(self)@.len() > 0 ==> r == Some(old(self)@.last()) && final(self)@ == old(self)@.drop_last(),
            old(self)@.len() == 0 ==> r is None && final(self)@ == old(self)@,
    {
        self.0.pop()
    }

    /// Remove and return the top `count` cards when they form a legal run
    /// (one card always qualifies); otherwise leave the cascade unchanged.
    pub fn try_pop_stack(&mut self, count: usize) -> (r: Option<Vec<Card>>)
        ensures
            match try_pop_stack_spec(old(self)@, count as int) {
                Some(st) => r is Some && r->0@ == st && final(self)@ == old(self)@.take(
                    old(self)@.len() - count,
                ),
                None => r is None && final(self)@ == old(self)@,
            },
    {
        if count == 0 {
            assert(old(self)@.take(old(self)@.len() - 0) =~= old(self)@);
            Some(Vec::new())
        } else if count == 1 {
            match self.pop() {
                Some(card) => {
                    let mut stack: Vec<Card> = Vec::new();
                    stack.push(card);
                    proof {
                        assert(stack@ =~= seq![old(self)@.last()]);
                        assert(old(self)@.drop_last() =~= old(self)@.take(old(self)@.len() - 1));
                    }
                    Some(stack)
                }
                None => None,
            }
        } else if count > self.0.len() {
            None
        } else {
            let start = self.0.len() - count;
            let mut i = start;
            while i < self.0.len() - 1
                invariant
                    start <= i,
                    i + 1 <= self.0@.len(),
                    start == self.0@.len() - count,
                    count <= self.0@.len(),
                    forall|k: int| start <= k < i ==> (#[trigger] self.0@[k + 1]).fits_on(self.0@[k]),
                decreases self.0@.len() - i,
            {
                let lower = self.0[i];
                let upper = self.0[i + 1];
                if !lower.is_legal(&upper) {
                    proof {
                        let suffix = self.0@.skip(start as int);
                        assert(suffix[i - start + 1] == self.0@[i + 1]);
                        assert(suffix[i - start] == self.0@[i as int]);
                        assert(!run_ok(suffix));
                    }
                    return None;
                }
                i += 1;
            }
            proof {
                let suffix = self.0@.skip(start as int);
                assert forall|k: int| 0 <= k < suffix.len() - 1 implies (#[trigger] suffix[k
                    + 1]).fits_on(suffix[k]) by {
                    assert(suffix[k + 1] == self.0@[start + k + 1]);
                    assert(suffix[k] == self.0@[start + k]);
                }
                assert(run_ok(suffix));
            }
            Some(self.pop_stack(count))
        }
    }

    /// Remove and return the top `count` cards with no run check; the
    /// caller must already know they are there.
    pub fn pop_stack(&mut self, count: usize) -> (r: Vec<Card>)
        requires
            count <= old(self)@.len(),
        ensures
            r@ == old(self)@.skip(old(self)@.len() - count),
            final(self)@ == old(self)@.take(old(self)@.len() - count),
    {
        let at = self.0.len() - count;
        let r = self.0.split_off(at);
        proof {
            assert(r@ =~= old(self)@.skip(old(self)@.len() - count));
            assert(self@ =~= old(self)@.take(old(self)@.len() - count));
        }
        r
    }

    /// True when `card` may be placed on top of this cascade.
    pub fn card_is_legal(&self, card: &Card) -> (r: bool)
        ensures
            r == cascade_fits(self@, *card),
    {
        match self.0.last() {
            Some(top) => top.is_legal(card),
            None => true,
        }
    }

    /// True when the run `stack` may be placed on top of this cascade.
    pub fn stack_is_legal(&self, stack: &Vec<Card>) -> (r: bool)
        ensures
            r == stack_fits(self@, stack@),
    {
        if stack.len() == 0 {
            true
        } else {
            self.card_is_legal(&stack[0])
        }
    }

    /// Place a card if legal; otherwise hand the card back with an error,
    /// leaving the cascade unchanged.
    pub fn try_push(&mut self, card: Card) -> (r: Result<(), (Card, &'static str)>)
        ensures
            cascade_fits(old(self)@, card) ==> r == Ok::<(), (Card, &'static str)>(())
                && final(self)@ == old(self)@.push(card),
            !cascade_fits(old(self)@, card) ==> r == Err::<(), (Card, &'static str)>((
                card,
                "That card cannot go on that cascade.",
            )) && final(self)@ == old(self)@,
    {
        if self.card_is_legal(&card) {
            self.push(card);
            Ok(())
        } else {
            Err((card, "That card cannot go on that cascade."))
        }
    }

    /// Place a card with no legality check; used while dealing and when
    /// restoring a failed move.
    pub fn push(&mut self, card: Card)
        ensures
            final(self)@ == old(self)@.push(card),
    {
        self.0.push(card)
    }

    /// Place a whole run if its bottom card is legal here; otherwise hand
    /// the run back intact with an error.
    pub fn try_push_stack(&mut self, stack: Vec<Card>) -> (r: Result<
        (),
        (Vec<Card>, &'static str),
    >)
        ensures
            stack_fits(old(self)@, stack@) ==> r is Ok && final(self)@ == old(self)@ + stack@,
            !stack_fits(old(self)@, stack@) ==> final(self)@ == old(self)@ && match r {
                Err((returned, message)) => returned@ == stack@ && message
                    == "Those cards cannot go on that cascade.",
                Ok(_) => false,
            },
    {
        if self.stack_is_legal(&stack) {
            self.push_stack(stack);
            Ok(())
        } else {
            Err((stack, "Those cards cannot go on that cascade."))
        }
    }

    /// Append a whole run with no legality check.
    pub fn push_stack(&mut self, stack: Vec<Card>)
        ensures
            final(self)@ == old(self)@ + stack@,
    {
        let mut stack = stack;
        self.0.append(&mut stack);
    }

    pub fn len(&self) -> (n: usize)
        ensures
            n == self@.len(),
    {
        self.0.len()
    }

    pub fn is_empty(&self) -> (r: bool)
        ensures
            r == (self@.len() == 0),
    {
        self.0.len() == 0
    }

    /// True when the ranks never increase from bottom to top; the win rule.
    /// Color alternation is not required here, unlike placement.
    #[verifier::rlimit(50)]
    pub fn is_sequential(&self) -> (r: bool)
        ensures
            r == ranks_descending(self@),
    {
        let mut prev: u8 = 13;
        let mut i: usize = 0;
        while i < self.0.len()
            invariant
                0 <= i <= self.0@.len(),
                i == 0 ==> prev == 13,
                i > 0 ==> prev == self.0@[i - 1].rank().value(),
                forall|k: int| 1 <= k < i ==> (#[trigger] self.0@[k]).rank().value()
                    <= self.0@[k - 1].rank().value(),
            decreases self.0@.len() - i,
        {
            let rank = self.0[i].get_rank().as_u8();
            if rank > prev {
                return false;
            }
            prev = rank;
            i += 1;
        }
        true
    }

    /// The cards of the cascade, bottom first.
    pub fn cards(&self) -> (r: &Vec<Card>)
        ensures
            r@ == self@,
    {
        &self.0
    }
}

} // verus!
