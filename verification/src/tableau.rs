//! The tableau: the complete board snapshot of four cells, four
//! foundations and eight cascades, with dealing and win detection.

use vstd::prelude::*;
use vstd::multiset::Multiset;
use crate::cascade::Cascade;
use crate::cascade::ranks_descending;
use crate::cell::Cell;
use crate::deck::Card;
use crate::deck::Deck;
use crate::foundation::Foundation;

verus! {

/// The mathematical state of a board: the contents of every slot and pile.
#[verifier::ext_equal]
pub struct TableauView {
    pub cells: Seq<Option<Card>>,
    pub foundations: Seq<Seq<Card>>,
    pub cascades: Seq<Seq<Card>>,
}

impl TableauView {
    /// The fixed board dimensions: four cells, four foundations, eight
    /// cascades.
    pub open spec fn wf(self) -> bool {
        &&& self.cells.len() == 4
        &&& self.foundations.len() == 4
        &&& self.cascades.len() == 8
    }

    /// The win rule: every cascade runs in never-increasing rank order
    /// from bottom to top, color ignored.
    pub open spec fn is_won(self) -> bool {
        forall|j: int| 0 <= j < self.cascades.len() ==> ranks_descending(#[trigger] self.cascades[j])
    }
}

/// The cards held in a row of single-card slots.
pub open spec fn cells_cards(cells: Seq<Option<Card>>) -> Multiset<Card>
    decreases cells.len(),
{
    if cells.len() == 0 {
        Multiset::<Card>::empty()
    } else {
        match cells.last() {
            Some(c) => cells_cards(cells.drop_last()).insert(c),
            None => cells_cards(cells.drop_last()),
        }
    }
}

/// The cards held across a row of piles.
pub open spec fn piles_cards(piles: Seq<Seq<Card>>) -> Multiset<Card>
    decreases piles.len(),
{
    if piles.len() == 0 {
        Multiset::<Card>::empty()
    } else {
        piles_cards(piles.drop_last()).add(piles.last().to_multiset())
    }
}

/// Every card on the board, over all cells, foundations and cascades.
pub open spec fn board_cards(b: TableauView) -> Multiset<Card> {
    cells_cards(b.cells).add(piles_cards(b.foundations)).add(piles_cards(b.cascades))
}

/// A row of empty slots holds no cards.
pub proof fn lemma_cells_cards_all_none(cells: Seq<Option<Card>>)
    requires
        forall|i: int| 0 <= i < cells.len() ==> (#[trigger] cells[i]) is None,
    ensures
        cells_cards(cells) == Multiset::<Card>::empty(),
    decreases cells.len(),
{
    if cells.len() > 0 {
        lemma_cells_cards_all_none(cells.drop_last());
    }
}

/// A row of empty piles holds no cards.
pub proof fn lemma_piles_cards_all_empty(piles: Seq<Seq<Card>>)
    requires
        forall|i: int| 0 <= i < piles.len() ==> (#[trigger] piles[i]).len() == 0,
    ensures
        piles_cards(piles) == Multiset::<Card>::empty(),
    decreases piles.len(),
{
    broadcast use vstd::seq_lib::group_to_multiset_ensures;

    if piles.len() > 0 {
        lemma_piles_cards_all_empty(piles.drop_last());
        assert(piles.last() =~= Seq::<Card>::empty());
        assert(piles.last().to_multiset() =~= Multiset::<Card>::empty());
        assert(piles_cards(piles) =~= Multiset::<Card>::empty());
    }
}

/// Replacing one pile changes the row's cards by exactly the difference of
/// that pile, stated without subtraction.
pub proof fn lemma_piles_cards_update(piles: Seq<Seq<Card>>, j: int, s: Seq<Card>)
    requires
        0 <= j < piles.len(),
    ensures
        piles_cards(piles.update(j, s)).add(piles[j].to_multiset()) == piles_cards(piles).add(
            s.to_multiset(),
        ),
    decreases piles.len(),
{
    broadcast use vstd::multiset::group_multiset_axioms;

    if j == piles.len() - 1 {
        assert(piles.update(j, s).drop_last() =~= piles.drop_last());
        assert(piles.update(j, s).last() == s);
        assert(piles_cards(piles.update(j, s)).add(piles[j].to_multiset()) =~= piles_cards(
            piles,
        ).add(s.to_multiset()));
    } else {
        lemma_piles_cards_update(piles.drop_last(), j, s);
        assert(piles.update(j, s).drop_last() =~= piles.drop_last().update(j, s));
        assert(piles.update(j, s).last() == piles.last());
        assert(piles.drop_last()[j] == piles[j]);
        let lhs = piles_cards(piles.update(j, s)).add(piles[j].to_multiset());
        let rhs = piles_cards(piles).add(s.to_multiset());
        assert forall|x: Card| lhs.count(x) == rhs.count(x) by {
            assert(piles_cards(piles.drop_last().update(j, s)).add(
                piles.drop_last()[j].to_multiset(),
            ).count(x) == piles_cards(piles.drop_last()).add(s.to_multiset()).count(x));
        }
        assert(lhs =~= rhs);
    }
}

/// Replacing one slot changes the row's cards by exactly that slot's
/// difference, stated without subtraction.
pub proof fn lemma_cells_cards_update(cells: Seq<Option<Card>>, j: int, c: Option<Card>)
    requires
        0 <= j < cells.len(),
    ensures
        cells_cards(cells.update(j, c)).add(cells_cards(seq![cells[j]])) == cells_cards(cells).add(
            cells_cards(seq![c]),
        ),
    decreases cells.len(),
{
    assert(seq![cells[j]].drop_last() =~= Seq::<Option<Card>>::empty());
    assert(seq![c].drop_last() =~= Seq::<Option<Card>>::empty());
    broadcast use vstd::multiset::group_multiset_axioms;

    if j == cells.len() - 1 {
        assert(cells.update(j, c).drop_last() =~= cells.drop_last());
        assert(cells.update(j, c).last() == c);
        assert(cells_cards(cells.update(j, c)).add(cells_cards(seq![cells[j]])) =~= cells_cards(
            cells,
        ).add(cells_cards(seq![c])));
    } else {
        lemma_cells_cards_update(cells.drop_last(), j, c);
        assert(cells.update(j, c).drop_last() =~= cells.drop_last().update(j, c));
        assert(cells.update(j, c).last() == cells.last());
        assert(cells.drop_last()[j] == cells[j]);
        let lhs = cells_cards(cells.update(j, c)).add(cells_cards(seq![cells[j]]));
        let rhs = cells_cards(cells).add(cells_cards(seq![c]));
        assert forall|x: Card| lhs.count(x) == rhs.count(x) by {
            assert(cells_cards(cells.drop_last().update(j, c)).add(
                cells_cards(seq![cells.drop_last()[j]]),
            ).count(x) == cells_cards(cells.drop_last()).add(cells_cards(seq![c])).count(x));
        }
        assert(lhs =~= rhs);
    }
}

/// An empty board counts as won: every cascade satisfies the win rule
/// vacuously.
pub proof fn lemma_empty_board_is_won()
    ensures
        empty_board().is_won(),
{
}

/// The board with every cell, foundation and cascade empty.
pub open spec fn empty_board() -> TableauView {
    TableauView {
        cells: Seq::new(4, |i: int| None),
        foundations: Seq::new(4, |i: int| Seq::<Card>::empty()),
        cascades: Seq::new(8, |i: int| Seq::<Card>::empty()),
    }
}

/// The cascade `j` after the first `k` cards of deck `d` have been dealt
/// round-robin: the deck is consumed from its top, one card to each
/// cascade index in turn.
pub open spec fn dealt_prefix(d: Seq<Card>, k: int, j: int) -> Seq<Card>
    decreases k,
{
    if k <= 0 {
        Seq::<Card>::empty()
    } else {
        let prev = dealt_prefix(d, k - 1, j);
        if (k - 1) % 8 == j {
            prev.push(d[d.len() - k])
        } else {
            prev
        }
    }
}

/// How many cards cascade `j` holds after `k` cards have been dealt.
pub open spec fn dealt_len(k: int, j: int) -> int
    decreases k,
{
    if k <= 0 {
        0
    } else {
        dealt_len(k - 1, j) + if (k - 1) % 8 == j {
            1int
        } else {
            0int
        }
    }
}

/// The length of a dealt cascade depends only on how many cards were
/// dealt, not on which.
pub proof fn lemma_dealt_prefix_len(d: Seq<Card>, k: int, j: int)
    ensures
        dealt_prefix(d, k, j).len() == dealt_len(k, j),
    decreases k,
{
    if k > 0 {
        lemma_dealt_prefix_len(d, k - 1, j);
    }
}

/// The board that dealing the whole of deck `d` produces.
pub open spec fn dealt_board(d: Seq<Card>) -> TableauView {
    TableauView {
        cells: Seq::new(4, |i: int| None),
        foundations: Seq::new(4, |i: int| Seq::<Card>::empty()),
        cascades: Seq::new(8, |j: int| dealt_prefix(d, d.len() as int, j)),
    }
}

/// Dealing a 52-card deck leaves seven cards in each of the first four
/// cascades and six in each of the last four.
pub proof fn lemma_deal_shape(d: Seq<Card>)
    requires
        d.len() == 52,
    ensures
        forall|j: int| 0 <= j < 4 ==> (#[trigger] dealt_board(d).cascades[j]).len() == 7,
        forall|j: int| 4 <= j < 8 ==> (#[trigger] dealt_board(d).cascades[j]).len() == 6,
{
    assert forall|j: int| 0 <= j < 8 implies (#[trigger] dealt_board(d).cascades[j]).len() == (52
        - j + 7) / 8 by {
        lemma_dealt_prefix_len(d, 52, j);
        lemma_dealt_len_closed(52, j);
    }
}

/// After `k` cards are dealt, cascade `j` has received every eighth card,
/// starting with card `j`.
pub proof fn lemma_dealt_len_closed(k: int, j: int)
    requires
        0 <= j < 8,
        0 <= k,
    ensures
        dealt_len(k, j) == (k - j + 7) / 8,
    decreases k,
{
    if k == 0 {
        assert((0 - j + 7) / 8 == 0);
    } else {
        lemma_dealt_len_closed(k - 1, j);
        let a = k - 1 - j;
        assert(((k - 1) % 8 == j) == (a % 8 == 0)) by (nonlinear_arith)
            requires
                0 <= j < 8,
                k >= 1,
                a == k - 1 - j,
        ;
        assert((a + 8) / 8 == (a + 7) / 8 + if a % 8 == 0 {
            1int
        } else {
            0int
        }) by (nonlinear_arith)
            requires
                a >= -7,
        ;
    }
}

/// The complete board state: cells, foundations and cascades.
#[derive(Debug, Eq, PartialEq)]
pub struct Tableau {
    pub cells: Vec<Cell>,
    pub foundations: Vec<Foundation>,
    pub cascades: Vec<Cascade>,
}

impl View for Tableau {
    type V = TableauView;

    open spec fn view(&self) -> TableauView {
        TableauView {
            cells: Seq::new(self.cells@.len(), |i: int| self.cells@[i]@),
            foundations: Seq::new(self.foundations@.len(), |i: int| self.foundations@[i]@),
            cascades: Seq::new(self.cascades@.len(), |i: int| self.cascades@[i]@),
        }
    }
}

impl Clone for Tableau {
    /// A clone shows exactly the same board.
    fn clone(&self) -> (r: Self)
        ensures
            r@ == self@,
    {
        let cells = self.cells.clone();
        let foundations = self.foundations.clone();
        let cascades = self.cascades.clone();
        proof {
            assert forall|i: int| 0 <= i < self.cells@.len() implies cells@[i] == self.cells@[i] by {
                assert(cloned::<Cell>(self.cells[i], cells[i]));
            }
            assert forall|i: int| 0 <= i < self.foundations@.len() implies foundations@[i]@
                == self.foundations@[i]@ by {
                assert(cloned::<Foundation>(self.foundations[i], foundations[i]));
            }
            assert forall|i: int| 0 <= i < self.cascades@.len() implies cascades@[i]@
                == self.cascades@[i]@ by {
                assert(cloned::<Cascade>(self.cascades[i], cascades[i]));
            }
        }
        let r = Tableau { cells, foundations, cascades };
        proof {
            assert(r@.cells =~= self@.cells);
            assert(r@.foundations =~= self@.foundations);
            assert(r@.cascades =~= self@.cascades);
            assert(r@ =~= self@);
        }
        r
    }
}

impl Tableau {
    pub open spec fn wf(&self) -> bool {
        self@.wf()
    }

    /// A board with four empty cells, four empty foundations and eight
    /// empty cascades.
    pub fn empty() -> (t: Tableau)
        ensures
            t@ == empty_board(),
            t.wf(),
    {
        let mut cells: Vec<Cell> = Vec::new();
        let mut foundations: Vec<Foundation> = Vec::new();
        let mut cascades: Vec<Cascade> = Vec::new();
        let mut i: usize = 0;
        while i < 4
            invariant
                i <= 4,
                cells@.len() == i,
                foundations@.len() == i,
                forall|k: int| 0 <= k < i ==> (#[trigger] cells@[k])@ is None,
                forall|k: int| 0 <= k < i ==> (#[trigger] foundations@[k])@ == Seq::<Card>::empty(),
            decreases 4 - i,
        {
            cells.push(Cell::empty());
            foundations.push(Foundation::empty());
            i += 1;
        }
        let mut i: usize = 0;
        while i < 8
            invariant
                i <= 8,
                cascades@.len() == i,
                forall|k: int| 0 <= k < i ==> (#[trigger] cascades@[k])@ == Seq::<Card>::empty(),
            decreases 8 - i,
        {
            cascades.push(Cascade::empty());
            i += 1;
        }
        let t = Tableau { cells, foundations, cascades };
        proof {
            assert(t@.cells =~= empty_board().cells);
            assert(t@.foundations =~= empty_board().foundations);
            assert(t@.cascades =~= empty_board().cascades);
            assert(t@ =~= empty_board());
        }
        t
    }

    /// Deal a whole deck round-robin across the eight cascades, consuming
    /// the deck from its top. The board afterwards holds exactly the cards
    /// of the deck.
    pub fn deal(deck: Deck) -> (t: Tableau)
        ensures
            t@ == dealt_board(deck@),
            t.wf(),
            board_cards(t@) == deck@.to_multiset(),
    {
        broadcast use vstd::seq_lib::group_to_multiset_ensures;

        let ghost d: Seq<Card> = deck@;
        let mut deck = deck;
        let mut tableau = Tableau::empty();
        let mut idx: usize = 0;
        let ghost mut k: int = 0;
        proof {
            assert forall|i: int| 0 <= i < 4 implies (#[trigger] tableau.cells@[i])@ is None by {
                assert(tableau@.cells[i] is None);
            }
            assert forall|i: int| 0 <= i < 4 implies (#[trigger] tableau.foundations@[i])@ == Seq::<
                Card,
            >::empty() by {
                assert(tableau@.foundations[i] == Seq::<Card>::empty());
            }
            lemma_piles_cards_all_empty(tableau@.cascades);
            assert(d.skip(d.len() as int) =~= Seq::<Card>::empty());
            assert(d.skip(d.len() as int).to_multiset() =~= Multiset::<Card>::empty());
            assert forall|j: int| 0 <= j < 8 implies (#[trigger] tableau.cascades@[j])@
                == dealt_prefix(d, 0, j) by {
                assert(tableau@.cascades[j] == Seq::<Card>::empty());
            }
        }
        loop
            invariant
                0 <= k <= d.len(),
                idx == k % 8,
                deck@ == d.take(d.len() - k),
                tableau.cells@.len() == 4,
                tableau.foundations@.len() == 4,
                tableau.cascades@.len() == 8,
                forall|i: int| 0 <= i < 4 ==> (#[trigger] tableau.cells@[i])@ is None,
                forall|i: int| 0 <= i < 4 ==> (#[trigger] tableau.foundations@[i])@ == Seq::<
                    Card,
                >::empty(),
                forall|j: int| 0 <= j < 8 ==> (#[trigger] tableau.cascades@[j])@ == dealt_prefix(
                    d,
                    k,
                    j,
                ),
                piles_cards(tableau@.cascades) == d.skip(d.len() - k).to_multiset(),
            ensures
                k == d.len(),
                tableau.cells@.len() == 4,
                tableau.foundations@.len() == 4,
                tableau.cascades@.len() == 8,
                forall|i: int| 0 <= i < 4 ==> (#[trigger] tableau.cells@[i])@ is None,
                forall|i: int| 0 <= i < 4 ==> (#[trigger] tableau.foundations@[i])@ == Seq::<
                    Card,
                >::empty(),
                forall|j: int| 0 <= j < 8 ==> (#[trigger] tableau.cascades@[j])@ == dealt_prefix(
                    d,
                    d.len() as int,
                    j,
                ),
                piles_cards(tableau@.cascades) == d.to_multiset(),
            decreases d.len() - k,
        {
            let card = match deck.pop() {
                Some(card) => card,
                None => {
                    proof {
                        assert(d.take(d.len() - k).len() == d.len() - k);
                        assert(d.skip(0) =~= d);
                    }
                    break ;
                }
            };
            proof {
                assert(d.take(d.len() - k).len() == d.len() - k);
                assert(k < d.len());
                assert(card == d[d.len() - k - 1]);
            }
            let ghost pre = tableau@;
            tableau.cascades[idx].push(card);
            proof {
                broadcast use vstd::seq_lib::group_to_multiset_ensures;
                broadcast use vstd::multiset::group_multiset_axioms;

                let j = idx as int;
                assert(tableau@.cascades =~= pre.cascades.update(j, pre.cascades[j].push(card)));
                lemma_piles_cards_update(pre.cascades, j, pre.cascades[j].push(card));
                assert(pre.cascades[j].push(card).to_multiset() == pre.cascades[j].to_multiset()
                    .insert(card));
                let pn = piles_cards(tableau@.cascades);
                let po = piles_cards(pre.cascades);
                let e = pre.cascades[j].to_multiset();
                assert(pn.add(e) == po.add(e.insert(card)));
                assert forall|x: Card| pn.count(x) == po.insert(card).count(x) by {
                    assert(pn.add(e).count(x) == pn.count(x) + e.count(x));
                    assert(po.add(e.insert(card)).count(x) == po.count(x) + e.insert(card).count(
                        x,
                    ));
                }
                assert(pn =~= po.insert(card));
                assert(d.skip(d.len() - (k + 1)) =~= seq![card] + d.skip(d.len() - k));
                vstd::seq_lib::lemma_multiset_commutative(seq![card], d.skip(d.len() - k));
                assert(seq![card] =~= Seq::<Card>::empty().push(card));
                assert(seq![card].to_multiset() =~= Multiset::<Card>::empty().insert(card));
                assert(d.skip(d.len() - (k + 1)).to_multiset() =~= d.skip(d.len() - k).to_multiset()
                    .insert(card));
                assert forall|jj: int| 0 <= jj < 8 implies (#[trigger] tableau.cascades@[jj])@
                    == dealt_prefix(d, k + 1, jj) by {
                    if jj == j {
                        assert(dealt_prefix(d, k + 1, jj) == dealt_prefix(d, k, jj).push(
                            d[d.len() - (k + 1)],
                        ));
                    } else {
                        assert(dealt_prefix(d, k + 1, jj) == dealt_prefix(d, k, jj));
                    }
                }
                k = k + 1;
            }
            idx += 1;
            if idx == 8 {
                idx = 0;
            }
        }
        proof {
            assert(tableau@.cells =~= dealt_board(d).cells);
            assert(tableau@.foundations =~= dealt_board(d).foundations);
            assert(tableau@.cascades =~= dealt_board(d).cascades);
            assert(tableau@ =~= dealt_board(d));
            lemma_cells_cards_all_none(tableau@.cells);
            lemma_piles_cards_all_empty(tableau@.foundations);
            assert(board_cards(tableau@) =~= d.to_multiset());
        }
        tableau
    }

    /// True when every cascade satisfies the rank-ordering win rule.
    pub fn is_won(&self) -> (r: bool)
        requires
            self.wf(),
        ensures
            r == self@.is_won(),
    {
        let mut j: usize = 0;
        while j < 8
            invariant
                self.wf(),
                j <= 8,
                forall|k: int| 0 <= k < j ==> ranks_descending(#[trigger] self@.cascades[k]),
            decreases 8 - j,
        {
            proof {
                assert(self@.cascades[j as int] == self.cascades@[j as int]@);
            }
            if !self.cascades[j].is_sequential() {
                return false;
            }
            j += 1;
        }
        true
    }
}

} // verus!
