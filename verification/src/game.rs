//! The game: an undo history of tableau snapshots and the transactional
//! move engine, including the supermove search.

use vstd::prelude::*;
use crate::action::Action;
use crate::action::FromCoordinate;
use crate::action::ToCoordinate;
use crate::cascade::cascade_fits;
use crate::cascade::run_ok;
use crate::cascade::stack_fits;
use crate::cascade::try_pop_stack_spec;
use crate::deck::Card;
use crate::deck::Deck;
use crate::deck::Rank;
use crate::foundation::foundation_accepts;
use crate::single::Single;
use crate::tableau::Tableau;
use crate::tableau::TableauView;
use crate::tableau::board_cards;
use crate::tableau::cells_cards;
use crate::tableau::dealt_board;
use crate::tableau::lemma_cells_cards_update;
use crate::tableau::lemma_piles_cards_update;
use crate::tableau::piles_cards;
use vstd::multiset::Multiset;

verus! {

/// How many of the first `n` cells are empty.
pub open spec fn empty_cells_upto(cells: Seq<Option<Card>>, n: int) -> int
    decreases n,
{
    if n <= 0 {
        0
    } else {
        empty_cells_upto(cells, n - 1) + if cells[n - 1] is None {
            1int
        } else {
            0int
        }
    }
}

/// How many of the first `n` cascades are empty, not counting the move's
/// own source and destination.
pub open spec fn empty_other_cascades_upto(
    cascades: Seq<Seq<Card>>,
    nf: int,
    nt: int,
    n: int,
) -> int
    decreases n,
{
    if n <= 0 {
        0
    } else {
        empty_other_cascades_upto(cascades, nf, nt, n - 1) + if n - 1 != nf && n - 1 != nt && (
        cascades[n - 1]).len() == 0 {
            1int
        } else {
            0int
        }
    }
}

/// The longest run a single action may relocate from cascade `nf` to
/// cascade `nt`: each empty cell and each empty other cascade multiplies
/// the single card, capped by the source length and any explicit count.
pub open spec fn max_supermove_len(b: TableauView, nf: int, nt: int, count: Option<u8>) -> int {
    let room = (empty_cells_upto(b.cells, 4) + 1) * (empty_other_cascades_upto(
        b.cascades,
        nf,
        nt,
        8,
    ) + 1);
    let capped = if room < b.cascades[nf].len() {
        room
    } else {
        b.cascades[nf].len() as int
    };
    match count {
        Some(c) => if capped < c {
            capped
        } else {
            c as int
        },
        None => capped,
    }
}

/// The smallest depth `i` in `s..=max` at which the card `i` from the top
/// of `src` has rank ordinal `expected`.
pub open spec fn first_rank_match(src: Seq<Card>, expected: int, s: int, max: int) -> Option<int>
    decreases max + 1 - s,
{
    if s > max {
        None
    } else if src[src.len() - s].rank().value() == expected {
        Some(s)
    } else {
        first_rank_match(src, expected, s + 1, max)
    }
}

/// The empty-cell count never exceeds the number of cells examined.
pub proof fn lemma_empty_cells_upto_bound(cells: Seq<Option<Card>>, n: int)
    requires
        n >= 0,
    ensures
        0 <= empty_cells_upto(cells, n) <= n,
    decreases n,
{
    if n > 0 {
        lemma_empty_cells_upto_bound(cells, n - 1);
    }
}

/// The empty-cascade count never exceeds the number of cascades examined.
pub proof fn lemma_empty_other_cascades_upto_bound(
    cascades: Seq<Seq<Card>>,
    nf: int,
    nt: int,
    n: int,
)
    requires
        n >= 0,
    ensures
        0 <= empty_other_cascades_upto(cascades, nf, nt, n) <= n,
        0 <= nf < n ==> empty_other_cascades_upto(cascades, nf, nt, n) <= n - 1,
    decreases n,
{
    if n > 0 {
        lemma_empty_other_cascades_upto_bound(cascades, nf, nt, n - 1);
    }
}

/// The scan reports the first matching depth: a match at `i` with none
/// shallower is the result.
pub proof fn lemma_first_rank_match_found(src: Seq<Card>, expected: int, s: int, max: int, i: int)
    requires
        1 <= s <= i <= max,
        forall|m: int| s <= m < i ==> (#[trigger] src[src.len() - m]).rank().value() != expected,
        src[src.len() - i].rank().value() == expected,
    ensures
        first_rank_match(src, expected, s, max) == Some(i),
    decreases i - s,
{
    if s < i {
        lemma_first_rank_match_found(src, expected, s + 1, max, i);
    }
}

/// With no matching depth at all, the scan reports none.
pub proof fn lemma_first_rank_match_none(src: Seq<Card>, expected: int, s: int, max: int)
    requires
        forall|m: int| s <= m <= max ==> (#[trigger] src[src.len() - m]).rank().value() != expected,
    ensures
        first_rank_match(src, expected, s, max) is None,
    decreases max + 1 - s,
{
    if s <= max {
        lemma_first_rank_match_none(src, expected, s + 1, max);
    }
}

/// The board after the top card of the source is removed, with that card;
/// or the error when the source is empty.
pub open spec fn remove_single(b: TableauView, from: FromCoordinate) -> Result<
    (TableauView, Card),
    &'static str,
> {
    match from {
        FromCoordinate::Cascade(n) => {
            let src = b.cascades[n as int];
            if src.len() == 0 {
                Err("That space is empty.")
            } else {
                Ok(
                    (
                        TableauView { cascades: b.cascades.update(n as int, src.drop_last()), ..b },
                        src.last(),
                    ),
                )
            }
        },
        FromCoordinate::Cell(n) => {
            match b.cells[n as int] {
                Some(card) => Ok(
                    (TableauView { cells: b.cells.update(n as int, None), ..b }, card),
                ),
                None => Err("That space is empty."),
            }
        },
    }
}

/// The board after `card` is placed on the destination, or the
/// destination's error when its rule rejects the card.
pub open spec fn place_single(b: TableauView, to: ToCoordinate, card: Card) -> Result<
    TableauView,
    &'static str,
> {
    match to {
        ToCoordinate::Cascade(n) => {
            if cascade_fits(b.cascades[n as int], card) {
                Ok(
                    TableauView {
                        cascades: b.cascades.update(n as int, b.cascades[n as int].push(card)),
                        ..b
                    },
                )
            } else {
                Err("That card cannot go on that cascade.")
            }
        },
        ToCoordinate::Cell(n) => {
            if b.cells[n as int] is None {
                Ok(TableauView { cells: b.cells.update(n as int, Some(card)), ..b })
            } else {
                Err("A card is already present on that cell.")
            }
        },
        ToCoordinate::Foundation(n) => {
            if foundation_accepts(b.foundations[n as int], card) {
                Ok(
                    TableauView {
                        foundations: b.foundations.update(
                            n as int,
                            b.foundations[n as int].push(card),
                        ),
                        ..b
                    },
                )
            } else {
                Err("That card is not valid on that foundation.")
            }
        },
    }
}

/// Moving one card: take the top of the source, then apply the
/// destination's rule. The source is emptied before the destination is
/// examined, so a move within one slot sees the source already vacated.
pub open spec fn single_move(b: TableauView, from: FromCoordinate, to: ToCoordinate) -> Result<
    TableauView,
    &'static str,
> {
    match remove_single(b, from) {
        Err(m) => Err(m),
        Ok((b1, card)) => place_single(b1, to, card),
    }
}

/// The board after the top `i` cards of cascade `nf` are moved, in order,
/// onto cascade `nt`.
pub open spec fn move_stack(b: TableauView, nf: int, nt: int, i: int) -> TableauView {
    let src = b.cascades[nf];
    let run = src.skip(src.len() - i);
    let b1 = TableauView { cascades: b.cascades.update(nf, src.take(src.len() - i)), ..b };
    TableauView { cascades: b1.cascades.update(nt, b1.cascades[nt] + run), ..b1 }
}

/// A cascade-to-cascade move: the supermove search. Scanning run lengths
/// from one upward, the first depth whose card matches the rank the
/// destination needs is attempted; an internally invalid run at that depth
/// aborts the search. With an empty destination and an explicit count, the
/// whole requested run is attempted at once. When no supermove applies,
/// the move falls back to relocating the single top card.
pub open spec fn cascade_move(b: TableauView, nf: int, nt: int, count: Option<u8>) -> Result<
    TableauView,
    &'static str,
> {
    let src = b.cascades[nf];
    let dst = b.cascades[nt];
    let from = FromCoordinate::Cascade(nf as u8);
    let to = ToCoordinate::Cascade(nt as u8);
    if src.len() == 0 {
        Err("That space is empty.")
    } else {
        let max = max_supermove_len(b, nf, nt, count);
        if dst.len() > 0 {
            if dst.last().rank() == Rank::Ace {
                single_move(b, from, to)
            } else {
                let expected = dst.last().rank().value() - 1;
                match first_rank_match(src, expected, 1, max) {
                    None => single_move(b, from, to),
                    Some(i) => {
                        if i == 1 || run_ok(src.skip(src.len() - i)) {
                            let shortened = b.cascades.update(nf, src.take(src.len() - i));
                            if stack_fits(shortened[nt], src.skip(src.len() - i)) {
                                Ok(move_stack(b, nf, nt, i))
                            } else {
                                Err("Those cards cannot go on that cascade.")
                            }
                        } else {
                            single_move(b, from, to)
                        }
                    },
                }
            }
        } else {
            match count {
                Some(c) => {
                    let k = if (c as int) < max {
                        c as int
                    } else {
                        max
                    };
                    if k == 1 || run_ok(src.skip(src.len() - k)) {
                        let shortened = b.cascades.update(nf, src.take(src.len() - k));
                        if stack_fits(shortened[nt], src.skip(src.len() - k)) {
                            Ok(move_stack(b, nf, nt, k))
                        } else {
                            Err("Those cards cannot go on that cascade.")
                        }
                    } else {
                        single_move(b, from, to)
                    }
                },
                None => single_move(b, from, to),
            }
        }
    }
}

/// What a move request does to a board: the supermove search between two
/// cascades, the single-card rule otherwise.
pub open spec fn apply_move(
    b: TableauView,
    from: FromCoordinate,
    to: ToCoordinate,
    count: Option<u8>,
) -> Result<TableauView, &'static str> {
    match (from, to) {
        (FromCoordinate::Cascade(nf), ToCoordinate::Cascade(nt)) => cascade_move(
            b,
            nf as int,
            nt as int,
            count,
        ),
        _ => single_move(b, from, to),
    }
}

/// How one call of `Game::action` relates the history before (`pre`) to
/// the history after (`post`) and to its result: an accepted move pushes
/// exactly one snapshot, an undo pops one, and any error leaves the
/// history untouched.
pub open spec fn action_outcome(
    pre: Seq<TableauView>,
    a: Action,
    post: Seq<TableauView>,
    r: Result<(), &'static str>,
) -> bool {
    match a {
        Action::Undo => {
            if pre.len() > 1 {
                r == Ok::<(), &'static str>(()) && post == pre.drop_last()
            } else {
                r == Err::<(), &'static str>("You are already at the first move.") && post == pre
            }
        },
        Action::MoveCard { from, to, count } => {
            match apply_move(pre.last(), from, to, count) {
                Ok(b) => r == Ok::<(), &'static str>(()) && post == pre.push(b),
                Err(m) => r == Err::<(), &'static str>(m) && post == pre,
            }
        },
    }
}

/// A reported depth always lies within the scanned range.
pub proof fn lemma_first_rank_match_bounds(src: Seq<Card>, expected: int, s: int, max: int)
    ensures
        match first_rank_match(src, expected, s, max) {
            Some(i) => s <= i <= max,
            None => true,
        },
    decreases max + 1 - s,
{
    if s <= max && src[src.len() - s].rank().value() != expected {
        lemma_first_rank_match_bounds(src, expected, s + 1, max);
    }
}

/// The cards of a one-slot row.
proof fn lemma_cells_cards_single(c: Option<Card>)
    ensures
        cells_cards(seq![c]) == match c {
            Some(x) => Multiset::<Card>::empty().insert(x),
            None => Multiset::<Card>::empty(),
        },
{
    assert(seq![c].drop_last() =~= Seq::<Option<Card>>::empty());
    assert(seq![c].len() == 1);
    assert(seq![c].last() == c);
    assert(cells_cards(Seq::<Option<Card>>::empty()) == Multiset::<Card>::empty());
}

/// Moving one card never creates or destroys a card: the board holds the
/// same multiset afterwards.
pub proof fn lemma_single_move_preserves_cards(
    b: TableauView,
    from: FromCoordinate,
    to: ToCoordinate,
)
    requires
        b.wf(),
        match from {
            FromCoordinate::Cascade(n) => n < 8,
            FromCoordinate::Cell(n) => n < 4,
        },
        match to {
            ToCoordinate::Cascade(n) => n < 8,
            ToCoordinate::Cell(n) => n < 4,
            ToCoordinate::Foundation(n) => n < 4,
        },
        single_move(b, from, to) is Ok,
    ensures
        board_cards(single_move(b, from, to)->Ok_0) == board_cards(b),
{
    broadcast use vstd::seq_lib::group_to_multiset_ensures;
    broadcast use vstd::multiset::group_multiset_axioms;
    broadcast use vstd::multiset::group_multiset_properties;

    let (b1, card) = remove_single(b, from)->Ok_0;
    let one = |x: Card| if x == card {
        1int
    } else {
        0int
    };
    // removing the card lowers exactly its count by one
    assert forall|x: Card| board_cards(b1).count(x) + one(x) == board_cards(b).count(x) by {
        assert(board_cards(b1).count(x) == cells_cards(b1.cells).count(x) + piles_cards(
            b1.foundations,
        ).count(x) + piles_cards(b1.cascades).count(x));
        assert(board_cards(b).count(x) == cells_cards(b.cells).count(x) + piles_cards(
            b.foundations,
        ).count(x) + piles_cards(b.cascades).count(x));
        match from {
            FromCoordinate::Cascade(n) => {
                let src = b.cascades[n as int];
                lemma_piles_cards_update(b.cascades, n as int, src.drop_last());
                assert(src =~= src.drop_last().push(src.last()));
                assert(src.to_multiset() == src.drop_last().to_multiset().insert(card));
                assert(piles_cards(b1.cascades).add(src.to_multiset()).count(x) == piles_cards(
                    b.cascades,
                ).add(src.drop_last().to_multiset()).count(x));
                assert(piles_cards(b1.cascades).count(x) + src.to_multiset().count(x)
                    == piles_cards(b.cascades).count(x) + src.drop_last().to_multiset().count(x));
                assert(src.to_multiset().count(x) == src.drop_last().to_multiset().count(x) + one(
                    x,
                ));
            },
            FromCoordinate::Cell(n) => {
                lemma_cells_cards_update(b.cells, n as int, None);
                lemma_cells_cards_single(b.cells[n as int]);
                lemma_cells_cards_single(None);
                assert(cells_cards(b1.cells).add(cells_cards(seq![b.cells[n as int]])).count(x)
                    == cells_cards(b.cells).add(cells_cards(seq![None])).count(x));
                assert(cells_cards(b1.cells).count(x) + cells_cards(seq![b.cells[n as int]]).count(
                    x,
                ) == cells_cards(b.cells).count(x) + cells_cards(seq![None]).count(x));
                assert(cells_cards(seq![b.cells[n as int]]).count(x) == one(x));
                assert(cells_cards(seq![None]).count(x) == 0);
            },
        }
    }
    // placing it raises exactly its count by one
    let b2 = place_single(b1, to, card)->Ok_0;
    assert forall|x: Card| board_cards(b2).count(x) == board_cards(b1).count(x) + one(x) by {
        assert(board_cards(b2).count(x) == cells_cards(b2.cells).count(x) + piles_cards(
            b2.foundations,
        ).count(x) + piles_cards(b2.cascades).count(x));
        assert(board_cards(b1).count(x) == cells_cards(b1.cells).count(x) + piles_cards(
            b1.foundations,
        ).count(x) + piles_cards(b1.cascades).count(x));
        match to {
            ToCoordinate::Cascade(n) => {
                let dst = b1.cascades[n as int];
                lemma_piles_cards_update(b1.cascades, n as int, dst.push(card));
                assert(dst.push(card).to_multiset() == dst.to_multiset().insert(card));
                assert(piles_cards(b2.cascades).add(dst.to_multiset()).count(x) == piles_cards(
                    b1.cascades,
                ).add(dst.push(card).to_multiset()).count(x));
                assert(piles_cards(b2.cascades).count(x) + dst.to_multiset().count(x)
                    == piles_cards(b1.cascades).count(x) + dst.push(card).to_multiset().count(x));
                assert(dst.push(card).to_multiset().count(x) == dst.to_multiset().count(x) + one(
                    x,
                ));
            },
            ToCoordinate::Cell(n) => {
                lemma_cells_cards_update(b1.cells, n as int, Some(card));
                lemma_cells_cards_single(b1.cells[n as int]);
                lemma_cells_cards_single(Some(card));
                assert(cells_cards(b2.cells).add(cells_cards(seq![b1.cells[n as int]])).count(x)
                    == cells_cards(b1.cells).add(cells_cards(seq![Some(card)])).count(x));
                assert(cells_cards(b2.cells).count(x) + cells_cards(
                    seq![b1.cells[n as int]],
                ).count(x) == cells_cards(b1.cells).count(x) + cells_cards(
                    seq![Some(card)],
                ).count(x));
                assert(cells_cards(seq![b1.cells[n as int]]).count(x) == 0);
                assert(cells_cards(seq![Some(card)]).count(x) == one(x));
            },
            ToCoordinate::Foundation(n) => {
                let dst = b1.foundations[n as int];
                lemma_piles_cards_update(b1.foundations, n as int, dst.push(card));
                assert(dst.push(card).to_multiset() == dst.to_multiset().insert(card));
                assert(piles_cards(b2.foundations).add(dst.to_multiset()).count(x) == piles_cards(
                    b1.foundations,
                ).add(dst.push(card).to_multiset()).count(x));
                assert(piles_cards(b2.foundations).count(x) + dst.to_multiset().count(x)
                    == piles_cards(b1.foundations).count(x) + dst.push(card).to_multiset().count(
                    x,
                ));
                assert(dst.push(card).to_multiset().count(x) == dst.to_multiset().count(x) + one(
                    x,
                ));
            },
        }
    }
    assert(board_cards(b2) =~= board_cards(b));
}

/// Relocating a whole run between two cascades keeps the board's multiset
/// of cards.
pub proof fn lemma_move_stack_preserves_cards(b: TableauView, nf: int, nt: int, i: int)
    requires
        b.wf(),
        0 <= nf < 8,
        0 <= nt < 8,
        0 <= i <= b.cascades[nf].len(),
    ensures
        board_cards(move_stack(b, nf, nt, i)) == board_cards(b),
{
    broadcast use vstd::seq_lib::group_to_multiset_ensures;
    broadcast use vstd::multiset::group_multiset_axioms;
    broadcast use vstd::multiset::group_multiset_properties;

    let src = b.cascades[nf];
    let run = src.skip(src.len() - i);
    let rest = src.take(src.len() - i);
    let b1 = TableauView { cascades: b.cascades.update(nf, rest), ..b };
    let b2 = move_stack(b, nf, nt, i);
    assert(rest + run =~= src);
    vstd::seq_lib::lemma_multiset_commutative(rest, run);
    vstd::seq_lib::lemma_multiset_commutative(b1.cascades[nt], run);
    lemma_piles_cards_update(b.cascades, nf, rest);
    lemma_piles_cards_update(b1.cascades, nt, b1.cascades[nt] + run);
    assert forall|x: Card| board_cards(b2).count(x) == board_cards(b).count(x) by {
        assert(board_cards(b2).count(x) == cells_cards(b2.cells).count(x) + piles_cards(
            b2.foundations,
        ).count(x) + piles_cards(b2.cascades).count(x));
        assert(board_cards(b1).count(x) == cells_cards(b1.cells).count(x) + piles_cards(
            b1.foundations,
        ).count(x) + piles_cards(b1.cascades).count(x));
        assert(board_cards(b).count(x) == cells_cards(b.cells).count(x) + piles_cards(
            b.foundations,
        ).count(x) + piles_cards(b.cascades).count(x));
        assert(piles_cards(b1.cascades).add(src.to_multiset()).count(x) == piles_cards(
            b.cascades,
        ).add(rest.to_multiset()).count(x));
        assert(piles_cards(b1.cascades).count(x) + src.to_multiset().count(x) == piles_cards(
            b.cascades,
        ).count(x) + rest.to_multiset().count(x));
        assert(src.to_multiset().count(x) == rest.to_multiset().count(x) + run.to_multiset().count(
            x,
        ));
        assert(piles_cards(b2.cascades).add(b1.cascades[nt].to_multiset()).count(x) == piles_cards(
            b1.cascades,
        ).add((b1.cascades[nt] + run).to_multiset()).count(x));
        assert(piles_cards(b2.cascades).count(x) + b1.cascades[nt].to_multiset().count(x)
            == piles_cards(b1.cascades).count(x) + (b1.cascades[nt] + run).to_multiset().count(x));
        assert((b1.cascades[nt] + run).to_multiset().count(x) == b1.cascades[nt].to_multiset()
            .count(x) + run.to_multiset().count(x));
    }
    assert(board_cards(b2) =~= board_cards(b));
}

/// Any accepted move, supermove or single card, leaves exactly the same
/// cards on the board: none is lost, none is duplicated.
pub proof fn lemma_move_preserves_cards(
    b: TableauView,
    from: FromCoordinate,
    to: ToCoordinate,
    count: Option<u8>,
)
    requires
        b.wf(),
        match from {
            FromCoordinate::Cascade(n) => n < 8,
            FromCoordinate::Cell(n) => n < 4,
        },
        match to {
            ToCoordinate::Cascade(n) => n < 8,
            ToCoordinate::Cell(n) => n < 4,
            ToCoordinate::Foundation(n) => n < 4,
        },
        apply_move(b, from, to, count) is Ok,
    ensures
        board_cards(apply_move(b, from, to, count)->Ok_0) == board_cards(b),
{
    match (from, to) {
        (FromCoordinate::Cascade(nf8), ToCoordinate::Cascade(nt8)) => {
            let nf = nf8 as int;
            let nt = nt8 as int;
            let src = b.cascades[nf];
            let dst = b.cascades[nt];
            if src.len() > 0 {
                let max = max_supermove_len(b, nf, nt, count);
                lemma_empty_cells_upto_bound(b.cells, 4);
                lemma_empty_other_cascades_upto_bound(b.cascades, nf, nt, 8);
                assert((empty_cells_upto(b.cells, 4) + 1) * (empty_other_cascades_upto(
                    b.cascades,
                    nf,
                    nt,
                    8,
                ) + 1) >= 0) by (nonlinear_arith)
                    requires
                        empty_cells_upto(b.cells, 4) >= 0,
                        empty_other_cascades_upto(b.cascades, nf, nt, 8) >= 0,
                ;
                assert(0 <= max <= src.len());
                if dst.len() > 0 && dst.last().rank() != Rank::Ace {
                    let expected = dst.last().rank().value() - 1;
                    lemma_first_rank_match_bounds(src, expected, 1, max);
                    match first_rank_match(src, expected, 1, max) {
                        Some(i) => {
                            if i == 1 || run_ok(src.skip(src.len() - i)) {
                                lemma_move_stack_preserves_cards(b, nf, nt, i);
                            } else {
                                lemma_single_move_preserves_cards(b, from, to);
                            }
                        },
                        None => {
                            lemma_single_move_preserves_cards(b, from, to);
                        },
                    }
                } else if dst.len() == 0 && count is Some {
                    let c = count->0;
                    let k = if (c as int) < max {
                        c as int
                    } else {
                        max
                    };
                    if k == 1 || run_ok(src.skip(src.len() - k)) {
                        lemma_move_stack_preserves_cards(b, nf, nt, k);
                    } else {
                        lemma_single_move_preserves_cards(b, from, to);
                    }
                } else {
                    lemma_single_move_preserves_cards(b, from, to);
                }
            }
        },
        _ => {
            lemma_single_move_preserves_cards(b, from, to);
        },
    }
}

/// Starting from a deal, the board always holds exactly one full deck:
/// when every snapshot of a history holds the card multiset `m`, every
/// snapshot still holds `m` after any one action, accepted or rejected.
pub proof fn lemma_action_preserves_full_deck(
    pre: Seq<TableauView>,
    a: Action,
    post: Seq<TableauView>,
    r: Result<(), &'static str>,
    m: Multiset<Card>,
)
    requires
        pre.len() >= 1,
        a.wf(),
        forall|i: int| 0 <= i < pre.len() ==> (#[trigger] pre[i]).wf(),
        forall|i: int| 0 <= i < pre.len() ==> board_cards(#[trigger] pre[i]) == m,
        action_outcome(pre, a, post, r),
    ensures
        forall|i: int| 0 <= i < post.len() ==> board_cards(#[trigger] post[i]) == m,
{
    match a {
        Action::Undo => {},
        Action::MoveCard { from, to, count } => {
            match apply_move(pre.last(), from, to, count) {
                Ok(b) => {
                    lemma_move_preserves_cards(pre.last(), from, to, count);
                    assert forall|i: int| 0 <= i < post.len() implies board_cards(
                        #[trigger] post[i],
                    ) == m by {
                        if i < pre.len() {
                            assert(post[i] == pre[i]);
                        } else {
                            assert(post[i] == b);
                        }
                    }
                },
                Err(_) => {},
            }
        },
    }
}

/// The history after `n` undos.
pub open spec fn after_undos(h: Seq<TableauView>, n: int) -> Seq<TableauView>
    decreases n,
{
    if n <= 0 {
        h
    } else {
        after_undos(h.drop_last(), n - 1)
    }
}

/// The history after the snapshots `ts` are committed in order.
pub open spec fn after_moves(h: Seq<TableauView>, ts: Seq<TableauView>) -> Seq<TableauView>
    decreases ts.len(),
{
    if ts.len() == 0 {
        h
    } else {
        after_moves(h, ts.drop_last()).push(ts.last())
    }
}

/// One undo directly after a successful move restores the history, and so
/// the current board, exactly.
pub proof fn lemma_undo_reverses_move(h: Seq<TableauView>, b: TableauView)
    ensures
        h.push(b).drop_last() == h,
{
    assert(h.push(b).drop_last() =~= h);
}

/// After any number of successful moves, undoing as many times restores
/// the history, and so the current board, exactly.
pub proof fn lemma_undos_reverse_moves(h: Seq<TableauView>, ts: Seq<TableauView>)
    ensures
        after_undos(after_moves(h, ts), ts.len() as int) == h,
    decreases ts.len(),
{
    if ts.len() > 0 {
        lemma_undo_reverses_move(after_moves(h, ts.drop_last()), ts.last());
        lemma_undos_reverse_moves(h, ts.drop_last());
    }
}

/// The supermove half of a cascade-to-cascade request, on the scratch
/// board. `Some` is a decision (commit or error); `None` means no
/// supermove applied and the single-card path decides, with the scratch
/// board untouched.
#[verifier::loop_isolation(false)]
fn try_cascade_move(tableau: &mut Tableau, n_from: usize, n_to: usize, count: Option<u8>) -> (r:
    Option<Result<(), &'static str>>)
    requires
        old(tableau).wf(),
        n_from < 8,
        n_to < 8,
        count != Some(0u8),
    ensures
        match r {
            Some(result) => match cascade_move(old(tableau)@, n_from as int, n_to as int, count) {
                Ok(b) => result == Ok::<(), &'static str>(()) && final(tableau)@ == b && b.wf(),
                Err(m) => result == Err::<(), &'static str>(m),
            },
            None => cascade_move(old(tableau)@, n_from as int, n_to as int, count) == single_move(
                old(tableau)@,
                FromCoordinate::Cascade(n_from as u8),
                ToCoordinate::Cascade(n_to as u8),
            ) && final(tableau)@ == old(tableau)@,
        },
{
    let ghost b0 = tableau@;
    let ghost nf = n_from as int;
    let ghost nt = n_to as int;
    proof {
        assert(b0.cascades[nf] == tableau.cascades@[nf]@);
        assert(b0.cascades[nt] == tableau.cascades@[nt]@);
    }
    if tableau.cascades[n_from].is_empty() {
        return Some(Err("That space is empty."));
    }
    let src_len = tableau.cascades[n_from].len();

    // the supermove room: empty cells and empty uninvolved cascades
    let mut empty_cascades: usize = 0;
    let mut j: usize = 0;
    while j < 8
        invariant
            tableau@ == b0,
            b0.wf(),
            nf == n_from as int,
            nt == n_to as int,
            n_from < 8,
            n_to < 8,
            j <= 8,
            empty_cascades <= j,
            empty_cascades == empty_other_cascades_upto(b0.cascades, nf, nt, j as int),
        decreases 8 - j,
    {
        proof {
            assert(b0.cascades[j as int] == tableau.cascades@[j as int]@);
        }
        if j != n_from && j != n_to && tableau.cascades[j].is_empty() {
            empty_cascades += 1;
        }
        j += 1;
    }
    let mut empty_cells: usize = 0;
    let mut jc: usize = 0;
    while jc < 4
        invariant
            tableau@ == b0,
            b0.wf(),
            jc <= 4,
            empty_cells <= jc,
            empty_cells == empty_cells_upto(b0.cells, jc as int),
        decreases 4 - jc,
    {
        proof {
            assert(b0.cells[jc as int] == tableau.cells@[jc as int]@);
        }
        if tableau.cells[jc].is_empty() {
            empty_cells += 1;
        }
        jc += 1;
    }

    proof {
        lemma_empty_cells_upto_bound(b0.cells, 4);
        lemma_empty_other_cascades_upto_bound(b0.cascades, nf, nt, 8);
        assert(empty_cells <= 4);
        assert(empty_cascades <= 7);
        assert(b0.cascades[nf].len() > 0);
        assert(src_len == b0.cascades[nf].len());
        assert(1 <= (empty_cells + 1) * (empty_cascades + 1) <= 40) by (nonlinear_arith)
            requires
                0 <= empty_cells <= 4,
                0 <= empty_cascades <= 7,
        ;
    }
    let mut max_stack_size: usize = (empty_cells + 1) * (empty_cascades + 1);
    if max_stack_size > src_len {
        max_stack_size = src_len;
    }
    if let Some(c) = count {
        if max_stack_size > c as usize {
            max_stack_size = c as usize;
        }
    }
    proof {
        assert(max_stack_size == max_supermove_len(b0, nf, nt, count));
        assert(1 <= max_stack_size <= src_len);
    }

    let dst_len = tableau.cascades[n_to].len();
    if dst_len > 0 {
        let top = tableau.cascades[n_to].cards()[dst_len - 1];
        proof {
            assert(top == b0.cascades[nt].last());
        }
        let expected_rank = match top.get_rank().try_decrement() {
            Some(r) => r,
            None => {
                // nothing may be dropped on an Ace: single-card path
                return None;
            }
        };
        let ghost expected = expected_rank.value();
        let mut i: usize = 1;
        while i <= max_stack_size
            invariant
                tableau@ == b0,
                1 <= i <= max_stack_size + 1,
                forall|m: int| 1 <= m < i ==> (#[trigger] b0.cascades[nf][src_len - m]).rank().value()
                    != expected,
            decreases max_stack_size + 1 - i,
        {
            let depth_card = tableau.cascades[n_from].cards()[src_len - i];
            proof {
                assert(depth_card == b0.cascades[nf][src_len - i]);
            }
            if depth_card.get_rank().as_u8() == expected_rank.as_u8() {
                proof {
                    assert(depth_card.rank().value() == expected);
                    lemma_first_rank_match_found(
                        b0.cascades[nf],
                        expected,
                        1,
                        max_stack_size as int,
                        i as int,
                    );
                }
                match tableau.cascades[n_from].try_pop_stack(i) {
                    Some(stack) => {
                        proof {
                            assert(try_pop_stack_spec(b0.cascades[nf], i as int) is Some);
                            assert(stack@ == b0.cascades[nf].skip(src_len - i));
                            assert(tableau@.cascades =~= b0.cascades.update(
                                nf,
                                b0.cascades[nf].take(src_len - i),
                            ));
                        }
                        let ghost b1 = tableau@;
                        match tableau.cascades[n_to].try_push_stack(stack) {
                            Ok(_) => {
                                proof {
                                    assert(stack_fits(b1.cascades[nt], b0.cascades[nf].skip(
                                        src_len - i,
                                    )));
                                    assert(tableau@.cascades =~= b1.cascades.update(
                                        nt,
                                        b1.cascades[nt] + b0.cascades[nf].skip(src_len - i),
                                    ));
                                    assert(tableau@ =~= move_stack(b0, nf, nt, i as int));
                                    assert(cascade_move(b0, nf, nt, count) == Ok::<
                                        TableauView,
                                        &'static str,
                                    >(move_stack(b0, nf, nt, i as int)));
                                    assert(tableau@.wf());
                                }
                                return Some(Ok(()));
                            },
                            Err(rejected) => {
                                let message = rejected.1;
                                proof {
                                    assert(!stack_fits(b1.cascades[nt], b0.cascades[nf].skip(
                                        src_len - i,
                                    )));
                                    assert(cascade_move(b0, nf, nt, count) == Err::<
                                        TableauView,
                                        &'static str,
                                    >("Those cards cannot go on that cascade."));
                                }
                                return Some(Err(message));
                            },
                        }
                    },
                    None => {
                        proof {
                            assert(try_pop_stack_spec(b0.cascades[nf], i as int) is None);
                            assert(i > 1);
                            assert(!run_ok(b0.cascades[nf].skip(src_len - i)));
                        }
                        return None;
                    },
                }
            }
            i += 1;
        }
        proof {
            lemma_first_rank_match_none(b0.cascades[nf], expected, 1, max_stack_size as int);
        }
                None
    } else {
        let c = match count {
            Some(c) => c,
            None => {
                // no rank constrains a run dropped on an empty cascade, so
                // without an explicit count the single-card path decides
                return None;
            }
        };
        let mut pop_n = c as usize;
        if pop_n > max_stack_size {
            pop_n = max_stack_size;
        }
        proof {
            assert(nf != nt);
            assert(pop_n == if (c as int) < max_supermove_len(b0, nf, nt, count) {
                c as int
            } else {
                max_supermove_len(b0, nf, nt, count)
            });
            assert(1 <= pop_n <= src_len);
        }
        match tableau.cascades[n_from].try_pop_stack(pop_n) {
            Some(stack) => {
                proof {
                    assert(stack@ == b0.cascades[nf].skip(src_len - pop_n));
                    assert(tableau@.cascades =~= b0.cascades.update(
                        nf,
                        b0.cascades[nf].take(src_len - pop_n),
                    ));
                }
                let ghost b1 = tableau@;
                match tableau.cascades[n_to].try_push_stack(stack) {
                    Ok(_) => {
                        proof {
                            assert(tableau@.cascades =~= b1.cascades.update(
                                nt,
                                b1.cascades[nt] + b0.cascades[nf].skip(src_len - pop_n),
                            ));
                            assert(tableau@ =~= move_stack(b0, nf, nt, pop_n as int));
                            assert(cascade_move(b0, nf, nt, count) == Ok::<
                                TableauView,
                                &'static str,
                            >(move_stack(b0, nf, nt, pop_n as int)));
                            assert(tableau@.wf());
                        }
                        Some(Ok(()))
                    },
                    Err(rejected) => {
                        let message = rejected.1;
                        proof {
                            // the destination is empty, so the seam check
                            // cannot fail
                            assert(b1.cascades[nt].len() == 0);
                            assert(false);
                        }
                        Some(Err(message))
                    },
                }
            },
            None => {
                proof {
                    assert(pop_n > 1);
                    assert(!run_ok(b0.cascades[nf].skip(src_len - pop_n)));
                }
                None
            },
        }
    }
}

/// The game: an append-only history of board snapshots whose last entry is
/// the current board.
#[derive(Debug)]
pub struct Game {
    history: Vec<Tableau>,
}

impl View for Game {
    type V = Seq<TableauView>;

    closed spec fn view(&self) -> Seq<TableauView> {
        Seq::new(self.history@.len(), |i: int| self.history@[i]@)
    }
}

impl Game {
    /// The history never runs dry and every snapshot has the fixed board
    /// dimensions.
    pub open spec fn wf(&self) -> bool {
        &&& self@.len() >= 1
        &&& forall|i: int| 0 <= i < self@.len() ==> (#[trigger] self@[i]).wf()
    }

    /// A game whose history starts at the given board.
    pub fn new(tableau: Tableau) -> (g: Game)
        requires
            tableau.wf(),
        ensures
            g@ == seq![tableau@],
            g.wf(),
    {
        let mut history: Vec<Tableau> = Vec::new();
        history.push(tableau);
        let g = Game { history };
        proof {
            assert(g@ =~= seq![tableau@]);
        }
        g
    }

    /// A game started from a whole deck dealt across the cascades.
    pub fn deal(deck: Deck) -> (g: Game)
        ensures
            g@ == seq![dealt_board(deck@)],
            g.wf(),
    {
        let tableau = Tableau::deal(deck);
        Self::new(tableau)
    }

    /// The current board: the most recent snapshot.
    pub fn tableau(&self) -> (t: &Tableau)
        requires
            self.wf(),
        ensures
            t@ == self@.last(),
    {
        let idx = self.history.len() - 1;
        &self.history[idx]
    }

    /// True when the current board satisfies the win rule.
    pub fn is_won(&self) -> (r: bool)
        requires
            self.wf(),
        ensures
            r == self@.last().is_won(),
    {
        self.tableau().is_won()
    }

    /// Perform one action against the current board. A move is attempted
    /// on a scratch copy and committed as a new snapshot only when it
    /// succeeds; on any error the history is left exactly as it was.
    pub fn action(&mut self, action: Action) -> (r: Result<(), &'static str>)
        requires
            old(self).wf(),
            action.wf(),
        ensures
            final(self).wf(),
            action_outcome(old(self)@, action, final(self)@, r),
    {
        match action {
            Action::Undo => {
                if self.history.len() > 1 {
                    self.history.pop();
                    proof {
                        assert(self@ =~= old(self)@.drop_last());
                    }
                    Ok(())
                } else {
                    Err("You are already at the first move.")
                }
            },
            Action::MoveCard { from, to, count } => {
                let ghost b0 = self@.last();
                let idx = self.history.len() - 1;
                let mut tableau = self.history[idx].clone();
                proof {
                    assert(tableau@ == b0);
                }
                match (from, to) {
                    (FromCoordinate::Cascade(n_from), ToCoordinate::Cascade(n_to)) => {
                        match try_cascade_move(
                            &mut tableau,
                            n_from as usize,
                            n_to as usize,
                            count,
                        ) {
                            Some(result) => {
                                match result {
                                    Ok(_) => {
                                        self.history.push(tableau);
                                        proof {
                                            assert(self@ =~= old(self)@.push(
                                                apply_move(b0, from, to, count)->Ok_0,
                                            ));
                                        }
                                        return Ok(());
                                    },
                                    Err(message) => {
                                        return Err(message);
                                    },
                                }
                            },
                            None => {
                                // no supermove applied: the single-card
                                // path below decides
                            },
                        }
                    },
                    _ => {},
                }
                proof {
                    assert(tableau@ == b0);
                    assert(apply_move(b0, from, to, count) == single_move(b0, from, to));
                }
                let card = match (match from {
                    FromCoordinate::Cascade(n) => tableau.cascades[n as usize].pop(),
                    FromCoordinate::Cell(n) => tableau.cells[n as usize].take(),
                }) {
                    Some(card) => card,
                    None => {
                        proof {
                            assert(remove_single(b0, from) == Err::<
                                (TableauView, Card),
                                &'static str,
                            >("That space is empty."));
                        }
                        return Err("That space is empty.");
                    }
                };
                proof {
                    match from {
                        FromCoordinate::Cascade(n) => {
                            assert(tableau@.cascades =~= b0.cascades.update(
                                n as int,
                                b0.cascades[n as int].drop_last(),
                            ));
                            assert(tableau@ =~= remove_single(b0, from)->Ok_0.0);
                        },
                        FromCoordinate::Cell(n) => {
                            assert(tableau@.cells =~= b0.cells.update(n as int, None));
                            assert(tableau@ =~= remove_single(b0, from)->Ok_0.0);
                        },
                    }
                    assert(card == remove_single(b0, from)->Ok_0.1);
                }
                let ghost b1 = tableau@;
                let push_result = match to {
                    ToCoordinate::Cascade(n) => tableau.cascades[n as usize].try_push(card),
                    ToCoordinate::Cell(n) => tableau.cells[n as usize].try_push(card),
                    ToCoordinate::Foundation(n) => tableau.foundations[n as usize].try_push(card),
                };
                match push_result {
                    Ok(_) => {
                        proof {
                            match to {
                                ToCoordinate::Cascade(n) => {
                                    assert(tableau@.cascades =~= b1.cascades.update(
                                        n as int,
                                        b1.cascades[n as int].push(card),
                                    ));
                                },
                                ToCoordinate::Cell(n) => {
                                    assert(tableau@.cells =~= b1.cells.update(
                                        n as int,
                                        Some(card),
                                    ));
                                },
                                ToCoordinate::Foundation(n) => {
                                    assert(tableau@.foundations =~= b1.foundations.update(
                                        n as int,
                                        b1.foundations[n as int].push(card),
                                    ));
                                },
                            }
                            assert(tableau@ =~= place_single(b1, to, card)->Ok_0);
                            assert(tableau@.wf());
                        }
                        self.history.push(tableau);
                        proof {
                            assert(self@ =~= old(self)@.push(apply_move(b0, from, to, count)->Ok_0));
                        }
                        Ok(())
                    },
                    Err(rejected) => {
                        let message = rejected.1;
                        proof {
                            assert(place_single(b1, to, card) == Err::<TableauView, &'static str>(
                                message,
                            ));
                        }
                        Err(message)
                    },
                }
            },
        }
    }
}

} // verus!
