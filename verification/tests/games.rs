use freecell::Action;
use freecell::Card;
use freecell::Cell;
use freecell::Deck;
use freecell::Foundation;
use freecell::FromCoordinate;
use freecell::Game;
use freecell::Rank;
use freecell::Single;
use freecell::Suit;
use freecell::Tableau;
use freecell::ToCoordinate;

#[test]
fn lib_deal() {
    let game = Game::deal(Deck::fresh());
    game.tableau()
        .cells
        .iter()
        .for_each(|cell| assert_eq!(&Cell::empty(), cell));
    game.tableau()
        .foundations
        .iter()
        .for_each(|foundation| assert_eq!(&Foundation::empty(), foundation));
    game.tableau().cascades[0..4]
        .iter()
        .for_each(|cascade| assert_eq!(7, cascade.len()));
    game.tableau().cascades[4..8]
        .iter()
        .for_each(|cascade| assert_eq!(6, cascade.len()));

    assert_eq!(
        52,
        game.tableau()
            .cascades
            .iter()
            .fold(0, |i, cascade| i + cascade.len()),
    );
}

#[test]
fn lib_is_not_won_fresh() {
    let game = Game::deal(Deck::fresh());
    assert_eq!(false, game.is_won());
}

#[test]
fn lib_is_won_cascades() {
    let mut cards = Vec::<Card>::with_capacity(52);

    for i in 0u8..52 {
        cards.push(Card::new(
            Rank::try_from_u8((i / 4) + 1).unwrap(),
            match i % 4 {
                0 => Suit::Spades,
                1 => Suit::Diamonds,
                2 => Suit::Hearts,
                _ => Suit::Clubs,
            },
        ));
    }

    let deck = Deck::new(cards);
    let game = Game::deal(deck);

    assert!(game.is_won(), "{:?}", game);

    // Just to be sure: we have aces on top, right?
    assert_eq!(
        Some(&Card::new(Rank::Ace, Suit::Clubs)),
        game.tableau().cascades[0].cards().last(),
    );
}

#[test]
fn lib_is_won_empty() {
    assert!(Game::new(Tableau::empty()).is_won());
}

#[test]
fn lib_action_legal_to_foundation() {
    let mut game = {
        let mut tableau = Tableau::empty();

        tableau.cells[0]
            .try_push(Card::new(Rank::Ace, Suit::Clubs))
            .unwrap();
        tableau.cascades[0]
            .try_push(Card::new(Rank::Two, Suit::Clubs))
            .unwrap();

        Game::new(tableau)
    };

    assert_eq!(
        Ok(()),
        game.action(Action::MoveCard {
            from: FromCoordinate::Cell(0),
            to: ToCoordinate::Foundation(0),
            count: None,
        }),
    );
    assert_eq!(
        Ok(()),
        game.action(Action::MoveCard {
            from: FromCoordinate::Cascade(0),
            to: ToCoordinate::Foundation(0),
            count: None,
        }),
    );

    assert!(game.tableau().cells[0].is_empty());
    assert_eq!(0, game.tableau().cascades[0].len());
    assert_eq!(
        Some(&Card::new(Rank::Two, Suit::Clubs)),
        game.tableau().foundations[0].peek(),
    );
}

#[test]
fn lib_action_legal_to_cascade() {
    let mut game = {
        let mut tableau = Tableau::empty();

        tableau.cells[0]
            .try_push(Card::new(Rank::King, Suit::Clubs))
            .unwrap();
        tableau.cascades[0]
            .try_push(Card::new(Rank::Queen, Suit::Hearts))
            .unwrap();

        Game::new(tableau)
    };

    assert_eq!(
        Ok(()),
        game.action(Action::MoveCard {
            from: FromCoordinate::Cell(0),
            to: ToCoordinate::Cascade(1),
            count: None,
        }),
    );

    assert_eq!(
        Ok(()),
        game.action(Action::MoveCard {
            from: FromCoordinate::Cascade(0),
            to: ToCoordinate::Cascade(1),
            count: None,
        }),
    );

    assert!(game.tableau().cells[0].is_empty());
    assert_eq!(0, game.tableau().cascades[0].len());
    assert_eq!(2, game.tableau().cascades[1].len());
}

#[test]
fn lib_action_legal_to_cell() {
    let mut game = {
        let mut tableau = Tableau::empty();

        tableau.cells[0]
            .try_push(Card::new(Rank::Ace, Suit::Hearts))
            .unwrap();
        tableau.cascades[0]
            .try_push(Card::new(Rank::Ace, Suit::Spades))
            .unwrap();

        Game::new(tableau)
    };

    assert_eq!(
        Ok(()),
        game.action(Action::MoveCard {
            from: FromCoordinate::Cell(0),
            to: ToCoordinate::Cell(1),
            count: None,
        }),
    );

    assert_eq!(
        Ok(()),
        game.action(Action::MoveCard {
            from: FromCoordinate::Cascade(0),
            to: ToCoordinate::Cell(2),
            count: None,
        }),
    );

    assert!(game.tableau().cells[0].is_empty());
    assert_eq!(0, game.tableau().cascades[0].len());
    assert_eq!(
        Some(&Card::new(Rank::Ace, Suit::Hearts)),
        game.tableau().cells[1].peek(),
    );
    assert_eq!(
        Some(&Card::new(Rank::Ace, Suit::Spades)),
        game.tableau().cells[2].peek()
    );
}

#[test]
fn lib_action_illegal() {
    let mut game = {
        let mut tableau = Tableau::empty();

        tableau.cascades[0].push(Card::new(Rank::King, Suit::Hearts));
        tableau.cells[0]
            .try_push(Card::new(Rank::Queen, Suit::Hearts))
            .unwrap();
        tableau.cells[1]
            .try_push(Card::new(Rank::Jack, Suit::Hearts))
            .unwrap();

        Game::new(tableau)
    };

    assert_eq!(
        Err("That card cannot go on that cascade."),
        game.action(Action::MoveCard {
            from: FromCoordinate::Cell(0),
            to: ToCoordinate::Cascade(0),
            count: None,
        }),
    );

    assert_eq!(
        Err("A card is already present on that cell."),
        game.action(Action::MoveCard {
            from: FromCoordinate::Cascade(0),
            to: ToCoordinate::Cell(0),
            count: None,
        }),
    );

    assert_eq!(
        Err("That card is not valid on that foundation."),
        game.action(Action::MoveCard {
            from: FromCoordinate::Cell(1),
            to: ToCoordinate::Foundation(0),
            count: None,
        }),
    );

    assert_eq!(
        Some(&Card::new(Rank::King, Suit::Hearts)),
        game.tableau().cascades[0].cards().last(),
    );

    assert_eq!(
        Some(&Card::new(Rank::Queen, Suit::Hearts)),
        game.tableau().cells[0].peek()
    );
    assert_eq!(
        Some(&Card::new(Rank::Jack, Suit::Hearts)),
        game.tableau().cells[1].peek()
    );
}

#[test]
fn lib_action_illegal_empty() {
    let mut game = Game::new(Tableau::empty());

    assert_eq!(
        Err("That space is empty."),
        game.action(Action::MoveCard {
            from: FromCoordinate::Cell(0),
            to: ToCoordinate::Cell(1),
            count: None,
        }),
    );

    assert_eq!(
        Err("That space is empty."),
        game.action(Action::MoveCard {
            from: FromCoordinate::Cascade(0),
            to: ToCoordinate::Cell(2),
            count: None,
        }),
    );
}
