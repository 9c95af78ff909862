//! Card value types (rank, suit, card) and the 52-card deck.

use vstd::prelude::*;

verus! {

/// An ordered pile of cards, consumed from the high end by `pop`.
#[derive(Debug)]
pub struct Deck(Vec<Card>);

impl View for Deck {
    type V = Seq<Card>;

    closed spec fn view(&self) -> Seq<Card> {
        self.0@
    }
}

/// The rank whose ordinal is `v`, for 1 <= v <= 13 (King otherwise).
pub open spec fn rank_of(v: int) -> Rank {
    match Rank::spec_from_value(v) {
        Some(r) => r,
        None => Rank::King,
    }
}

/// The card at position `i` of a fresh deck: spades ascending, diamonds
/// ascending, clubs descending, hearts descending.
pub open spec fn fresh_card(i: int) -> Card {
    if i < 13 {
        Card(rank_of(i + 1), Suit::Spades)
    } else if i < 26 {
        Card(rank_of(i - 12), Suit::Diamonds)
    } else if i < 39 {
        Card(rank_of(39 - i), Suit::Clubs)
    } else {
        Card(rank_of(52 - i), Suit::Hearts)
    }
}

/// The exact order of a fresh deck.
pub open spec fn fresh_order() -> Seq<Card> {
    Seq::new(52, |i: int| fresh_card(i))
}

/// Every one of the 52 possible cards occurs exactly once in a fresh deck.
pub proof fn lemma_fresh_order_complete()
    ensures
        fresh_order().len() == 52,
        forall|c: Card| #[trigger] fresh_order().to_multiset().count(c) == 1,
{
    broadcast use vstd::seq_lib::group_to_multiset_ensures;

    let d = fresh_order();
    assert forall|c: Card| #[trigger] d.to_multiset().count(c) == 1 by {
        let i = fresh_index(c);
        assert(0 <= i < 52 && d[i] == c);
        assert(d.contains(c));
        assert(d.to_multiset().count(c) > 0);
        lemma_fresh_order_distinct();
        d.lemma_multiset_has_no_duplicates();
    }
}

/// The position of card `c` in a fresh deck.
pub open spec fn fresh_index(c: Card) -> int {
    match c.suit() {
        Suit::Spades => c.rank().value() - 1,
        Suit::Diamonds => c.rank().value() + 12,
        Suit::Clubs => 39 - c.rank().value(),
        Suit::Hearts => 52 - c.rank().value(),
    }
}

/// A fresh deck holds no duplicate cards.
pub proof fn lemma_fresh_order_distinct()
    ensures
        fresh_order().no_duplicates(),
{
    assert forall|i: int, j: int|
        0 <= i < 52 && 0 <= j < 52 && i != j implies fresh_card(i) != fresh_card(j) by {
        assert(fresh_index(fresh_card(i)) == i);
        assert(fresh_index(fresh_card(j)) == j);
    }
}

impl Deck {
    pub fn new(cards: Vec<Card>) -> (d: Deck)
        ensures
            d@ == cards@,
    {
        Deck(cards)
    }

    /// A full deck in one fixed, reproducible order: the sequence a new
    /// physical pack comes in (two suits ascending, two descending).
    pub fn fresh() -> (d: Deck)
        ensures
            d@ == fresh_order(),
    {
        let mut cards: Vec<Card> = Vec::new();
        let mut i: u8 = 1;
        while i <= 13
            invariant
                1 <= i <= 14,
                cards@.len() == i - 1,
                forall|k: int| 0 <= k < cards@.len() ==> cards@[k] == fresh_card(k),
            decreases 14 - i,
        {
            cards.push(Card(Rank::try_from_u8(i).unwrap(), Suit::Spades));
            i += 1;
        }
        let mut i: u8 = 1;
        while i <= 13
            invariant
                1 <= i <= 14,
                cards@.len() == 13 + i - 1,
                forall|k: int| 0 <= k < cards@.len() ==> cards@[k] == fresh_card(k),
            decreases 14 - i,
        {
            cards.push(Card(Rank::try_from_u8(i).unwrap(), Suit::Diamonds));
            i += 1;
        }
        let mut i: u8 = 13;
        while i >= 1
            invariant
                0 <= i <= 13,
                cards@.len() == 26 + 13 - i,
                forall|k: int| 0 <= k < cards@.len() ==> cards@[k] == fresh_card(k),
            decreases i,
        {
            cards.push(Card(Rank::try_from_u8(i).unwrap(), Suit::Clubs));
            i -= 1;
        }
        let mut i: u8 = 13;
        while i >= 1
            invariant
                0 <= i <= 13,
                cards@.len() == 39 + 13 - i,
                forall|k: int| 0 <= k < cards@.len() ==> cards@[k] == fresh_card(k),
            decreases i,
        {
            cards.push(Card(Rank::try_from_u8(i).unwrap(), Suit::Hearts));
            i -= 1;
        }
        assert(cards@ =~= fresh_order());
        Deck(cards)
    }

    /// A fresh deck put through an unbiased in-place shuffle.
    pub fn shuffled() -> (d: Deck)
        ensures
            d@.to_multiset() == fresh_order().to_multiset(),
            d@.len() == 52,
    {
        let mut deck = Self::fresh();
        deck.shuffle();
        deck
    }

    /// Permute the deck in place with a source of randomness; the same
    /// cards remain, in some order.
    pub fn shuffle(&mut self)
        ensures
            final(self)@.to_multiset() == old(self)@.to_multiset(),
            final(self)@.len() == old(self)@.len(),
    {
        shuffle_cards(&mut self.0);
        proof {
            broadcast use vstd::seq_lib::group_to_multiset_ensures;

            assert(self@.len() == self@.to_multiset().len());
            assert(old(self)@.len() == old(self)@.to_multiset().len());
        }
    }

    /// Remove and return the card at the top, or `None` when exhausted.
    pub fn pop(&mut self) -> (c: Option<Card>)
        ensures
            old(self)@.len() > 0 ==> c == Some(old(self)@.last()) && final(self)@ == old(self)@.drop_last(),
            old(self)@.len() == 0 ==> c is None && final(self)@ == old(self)@,
    {
        self.0.pop()
    }
}

/// Relies on rand's `SliceRandom::shuffle` (driven by `rand::thread_rng`),
/// which reorders the slice in place by element swaps only, so exactly the
/// same elements remain.
#[verifier::external_body]
fn shuffle_cards(cards: &mut Vec<Card>)
    ensures
        final(cards)@.to_multiset() == old(cards)@.to_multiset(),
{
    let mut rng = rand::thread_rng();
    rand::seq::SliceRandom::shuffle(cards.as_mut_slice(), &mut rng);
}

/// Card rank, Ace low through King high.
#[derive(Clone, Copy, Debug, Eq, PartialEq, Structural, PartialOrd, Ord)]
pub enum Rank {
    Ace,
    Two,
    Three,
    Four,
    Five,
    Six,
    Seven,
    Eight,
    Nine,
    Ten,
    Jack,
    Queen,
    King,
}

impl Rank {
    /// The ordinal of the rank: Ace is 1, King is 13.
    pub open spec fn value(self) -> int {
        match self {
            Rank::Ace => 1,
            Rank::Two => 2,
            Rank::Three => 3,
            Rank::Four => 4,
            Rank::Five => 5,
            Rank::Six => 6,
            Rank::Seven => 7,
            Rank::Eight => 8,
            Rank::Nine => 9,
            Rank::Ten => 10,
            Rank::Jack => 11,
            Rank::Queen => 12,
            Rank::King => 13,
        }
    }

    /// The rank whose ordinal is `v`, for 1 <= v <= 13.
    pub open spec fn spec_from_value(v: int) -> Option<Rank> {
        if v == 1 {
            Some(Rank::Ace)
        } else if v == 2 {
            Some(Rank::Two)
        } else if v == 3 {
            Some(Rank::Three)
        } else if v == 4 {
            Some(Rank::Four)
        } else if v == 5 {
            Some(Rank::Five)
        } else if v == 6 {
            Some(Rank::Six)
        } else if v == 7 {
            Some(Rank::Seven)
        } else if v == 8 {
            Some(Rank::Eight)
        } else if v == 9 {
            Some(Rank::Nine)
        } else if v == 10 {
            Some(Rank::Ten)
        } else if v == 11 {
            Some(Rank::Jack)
        } else if v == 12 {
            Some(Rank::Queen)
        } else if v == 13 {
            Some(Rank::King)
        } else {
            None
        }
    }

    pub fn as_u8(&self) -> (v: u8)
        ensures
            v == self.value(),
    {
        match self {
            Rank::Ace => 1,
            Rank::Two => 2,
            Rank::Three => 3,
            Rank::Four => 4,
            Rank::Five => 5,
            Rank::Six => 6,
            Rank::Seven => 7,
            Rank::Eight => 8,
            Rank::Nine => 9,
            Rank::Ten => 10,
            Rank::Jack => 11,
            Rank::Queen => 12,
            Rank::King => 13,
        }
    }

    pub fn try_from_u8(v: u8) -> (r: Option<Rank>)
        ensures
            r == Rank::spec_from_value(v as int),
    {
        match v {
            1 => Some(Rank::Ace),
            2 => Some(Rank::Two),
            3 => Some(Rank::Three),
            4 => Some(Rank::Four),
            5 => Some(Rank::Five),
            6 => Some(Rank::Six),
            7 => Some(Rank::Seven),
            8 => Some(Rank::Eight),
            9 => Some(Rank::Nine),
            10 => Some(Rank::Ten),
            11 => Some(Rank::Jack),
            12 => Some(Rank::Queen),
            13 => Some(Rank::King),
            _ => None,
        }
    }

    /// The next rank up, or `None` at King.
    pub fn try_increment(&self) -> (r: Option<Rank>)
        ensures
            r == Rank::spec_from_value(self.value() + 1),
            r is Some <==> self.value() < 13,
            r is Some ==> r->0.value() == self.value() + 1,
    {
        Rank::try_from_u8(self.as_u8() + 1)
    }

    /// The next rank down, or `None` at Ace.
    pub fn try_decrement(&self) -> (r: Option<Rank>)
        ensures
            r == Rank::spec_from_value(self.value() - 1),
            r is Some <==> self.value() > 1,
            r is Some ==> r->0.value() == self.value() - 1,
    {
        Rank::try_from_u8(self.as_u8() - 1)
    }

    /// The display label of the rank.
    pub open spec fn label(self) -> Seq<char> {
        match self {
            Rank::Ace => "A"@,
            Rank::Two => "2"@,
            Rank::Three => "3"@,
            Rank::Four => "4"@,
            Rank::Five => "5"@,
            Rank::Six => "6"@,
            Rank::Seven => "7"@,
            Rank::Eight => "8"@,
            Rank::Nine => "9"@,
            Rank::Ten => "10"@,
            Rank::Jack => "J"@,
            Rank::Queen => "Q"@,
            Rank::King => "K"@,
        }
    }

    pub fn as_str(&self) -> (s: &'static str)
        ensures
            s@ == self.label(),
    {
        match self {
            Rank::Ace => "A",
            Rank::Two => "2",
            Rank::Three => "3",
            Rank::Four => "4",
            Rank::Five => "5",
            Rank::Six => "6",
            Rank::Seven => "7",
            Rank::Eight => "8",
            Rank::Nine => "9",
            Rank::Ten => "10",
            Rank::Jack => "J",
            Rank::Queen => "Q",
            Rank::King => "K",
        }
    }
}

/// Card suit; Hearts and Diamonds are red, Clubs and Spades are black.
#[derive(Clone, Copy, Debug, Eq, Hash, PartialEq, Structural)]
pub enum Suit {
    Clubs,
    Diamonds,
    Hearts,
    Spades,
}

impl Suit {
    pub open spec fn spec_is_red(self) -> bool {
        self == Suit::Diamonds || self == Suit::Hearts
    }

    pub fn is_red(&self) -> (r: bool)
        ensures
            r == self.spec_is_red(),
    {
        match self {
            Suit::Diamonds | Suit::Hearts => true,
            Suit::Clubs | Suit::Spades => false,
        }
    }

    /// The suit's display symbol.
    pub open spec fn symbol(self) -> char {
        match self {
            Suit::Spades => '\u{2660}',
            Suit::Clubs => '\u{2663}',
            Suit::Hearts => '\u{2665}',
            Suit::Diamonds => '\u{2666}',
        }
    }

    pub fn as_char(&self) -> (c: char)
        ensures
            c == self.symbol(),
    {
        match self {
            Suit::Spades => '\u{2660}',
            Suit::Clubs => '\u{2663}',
            Suit::Hearts => '\u{2665}',
            Suit::Diamonds => '\u{2666}',
        }
    }
}

/// A playing card: a rank and a suit, compared by value.
#[derive(Clone, Copy, Debug, Eq, PartialEq, Structural)]
pub struct Card(pub Rank, pub Suit);

impl Card {
    pub fn new(rank: Rank, suit: Suit) -> (c: Card)
        ensures
            c == Card(rank, suit),
    {
        Card(rank, suit)
    }

    pub open spec fn rank(self) -> Rank {
        self.0
    }

    pub open spec fn suit(self) -> Suit {
        self.1
    }

    pub fn get_rank(&self) -> (r: Rank)
        ensures
            r == self.rank(),
    {
        self.0
    }

    pub fn get_suit(&self) -> (s: Suit)
        ensures
            s == self.suit(),
    {
        self.1
    }

    /// True when `self` may be placed directly on `base` in a cascade:
    /// opposite colors, and `self` one rank below `base`.
    pub open spec fn fits_on(self, base: Card) -> bool {
        &&& self.suit().spec_is_red() != base.suit().spec_is_red()
        &&& self.rank().value() == base.rank().value() - 1
    }

    /// True when `other` may be placed directly on `self` in a cascade.
    pub fn is_legal(&self, other: &Card) -> (r: bool)
        ensures
            r == other.fits_on(*self),
    {
        self.get_suit().is_red() != other.get_suit().is_red()
            && match self.get_rank().try_decrement() {
                Some(below) => below == other.get_rank(),
                None => false,
            }
    }
}

} // verus!
