use freecell::Card;
use freecell::Cascade;
use freecell::Rank;
use freecell::Suit;

#[test]
fn cascade_new() {
    assert_eq!(
        &vec![Card::new(Rank::Ace, Suit::Hearts)],
        Cascade::new(vec![Card::new(Rank::Ace, Suit::Hearts)]).cards(),
    );
}

#[test]
fn cascade_empty() {
    assert_eq!(&Vec::<Card>::new(), Cascade::empty().cards());
}

#[test]
fn cascade_pop() {
    let mut cascade = Cascade::new(vec![
        Card::new(Rank::Ace, Suit::Hearts),
        Card::new(Rank::Six, Suit::Diamonds),
    ]);

    assert_eq!(Some(Card::new(Rank::Six, Suit::Diamonds)), cascade.pop());
    assert_eq!(Some(Card::new(Rank::Ace, Suit::Hearts)), cascade.pop());
    assert_eq!(None, cascade.pop());
}

#[test]
fn cascade_try_push_empty() {
    let mut cascade = Cascade::empty();
    let card = Card::new(Rank::Ace, Suit::Hearts);

    assert!(cascade.card_is_legal(&card));
    assert_eq!(Ok(()), cascade.try_push(card));

    assert_eq!(
        Cascade::new(vec![Card::new(Rank::Ace, Suit::Hearts)]),
        cascade
    );
}

#[test]
fn cascade_try_push_legal() {
    let mut cascade = Cascade::new(vec![Card::new(Rank::King, Suit::Clubs)]);
    let card = Card::new(Rank::Queen, Suit::Hearts);

    assert!(cascade.card_is_legal(&card));
    assert_eq!(Ok(()), cascade.try_push(card));

    assert_eq!(
        Cascade::new(vec![
            Card::new(Rank::King, Suit::Clubs),
            Card::new(Rank::Queen, Suit::Hearts),
        ]),
        cascade,
    );
}

#[test]
fn cascade_try_push_illegal_color() {
    let mut cascade = Cascade::new(vec![Card::new(Rank::King, Suit::Clubs)]);
    let card = Card::new(Rank::Queen, Suit::Spades);

    assert_eq!(false, cascade.card_is_legal(&card));
    assert_eq!(
        Err((
            Card::new(Rank::Queen, Suit::Spades),
            "That card cannot go on that cascade.",
        )),
        cascade.try_push(card),
    );

    assert_eq!(
        Cascade::new(vec![Card::new(Rank::King, Suit::Clubs)]),
        cascade,
    );
}

#[test]
fn cascade_try_push_illegal_rank() {
    let mut cascade = Cascade::new(vec![Card::new(Rank::King, Suit::Clubs)]);
    let card = Card::new(Rank::Jack, Suit::Hearts);

    assert_eq!(false, cascade.card_is_legal(&card));
    assert_eq!(
        Err((
            Card::new(Rank::Jack, Suit::Hearts),
            "That card cannot go on that cascade.",
        )),
        cascade.try_push(card),
    );

    assert_eq!(
        Cascade::new(vec![Card::new(Rank::King, Suit::Clubs)]),
        cascade,
    );
}

#[test]
fn cascade_push() {
    let mut cascade = Cascade::new(vec![Card::new(Rank::King, Suit::Clubs)]);
    let card = Card::new(Rank::Jack, Suit::Hearts);

    cascade.push(card);

    assert_eq!(
        Cascade::new(vec![
            Card::new(Rank::King, Suit::Clubs),
            Card::new(Rank::Jack, Suit::Hearts),
        ]),
        cascade,
    );
}

#[test]
fn cascade_len() {
    assert_eq!(0, Cascade::empty().len());
    assert!(Cascade::empty().is_empty());

    let nonempty = Cascade::new(vec![
        Card::new(Rank::King, Suit::Clubs),
        Card::new(Rank::Queen, Suit::Hearts),
    ]);
    assert_eq!(2, nonempty.len());
    assert_eq!(false, nonempty.is_empty());
}

#[test]
fn cascade_is_sequential() {
    let cascade = Cascade::new(vec![
        Card::new(Rank::King, Suit::Clubs),
        Card::new(Rank::Ten, Suit::Hearts),
        Card::new(Rank::Nine, Suit::Diamonds),
        Card::new(Rank::Ace, Suit::Spades),
    ]);
    assert!(cascade.is_sequential());

    let cascade = Cascade::new(vec![
        Card::new(Rank::Ten, Suit::Diamonds),
        Card::new(Rank::Ten, Suit::Hearts),
    ]);
    assert!(cascade.is_sequential());

    let cascade = Cascade::empty();
    assert!(cascade.is_sequential());

    let cascade = Cascade::new(vec![
        Card::new(Rank::Ace, Suit::Diamonds),
        Card::new(Rank::Two, Suit::Hearts),
    ]);
    assert_eq!(false, cascade.is_sequential());
}

#[test]
fn cascade_cards() {
    assert_eq!(
        &vec![Card::new(Rank::King, Suit::Clubs)],
        Cascade::new(vec![Card::new(Rank::King, Suit::Clubs)]).cards(),
    );
}

#[test]
fn pop_stack() {
    let mut cascade = Cascade::new(vec![
        Card::new(Rank::Four, Suit::Clubs),
        Card::new(Rank::Three, Suit::Spades),
        Card::new(Rank::Two, Suit::Hearts),
        Card::new(Rank::Ace, Suit::Diamonds),
    ]);

    assert_eq!(
        vec![
            Card::new(Rank::Two, Suit::Hearts),
            Card::new(Rank::Ace, Suit::Diamonds)
        ],
        cascade.pop_stack(2),
    );

    assert_eq!(
        Cascade::new(vec![
            Card::new(Rank::Four, Suit::Clubs),
            Card::new(Rank::Three, Suit::Spades)
        ]),
        cascade,
    );
}

#[test]
#[should_panic]
fn pop_stack_invalid() {
    let mut cascade = Cascade::new(vec![Card::new(Rank::Ace, Suit::Hearts)]);
    cascade.pop_stack(2);
}

#[test]
fn try_pop_stack_run() {
    let mut cascade = Cascade::new(vec![
        Card::new(Rank::Nine, Suit::Clubs),
        Card::new(Rank::Three, Suit::Spades),
        Card::new(Rank::Two, Suit::Hearts),
        Card::new(Rank::Ace, Suit::Spades),
    ]);

    // the top three cards alternate color and descend by one
    assert_eq!(
        Some(vec![
            Card::new(Rank::Three, Suit::Spades),
            Card::new(Rank::Two, Suit::Hearts),
            Card::new(Rank::Ace, Suit::Spades),
        ]),
        cascade.try_pop_stack(3),
    );
    assert_eq!(1, cascade.len());
}

#[test]
fn try_pop_stack_broken_run() {
    let mut cascade = Cascade::new(vec![
        Card::new(Rank::Nine, Suit::Clubs),
        Card::new(Rank::Three, Suit::Spades),
        Card::new(Rank::Two, Suit::Hearts),
        Card::new(Rank::Ace, Suit::Spades),
    ]);

    // four cards are not a run: the seam Nine/Three does not descend by one
    assert_eq!(None, cascade.try_pop_stack(4));
    assert_eq!(4, cascade.len());

    // more cards than the cascade holds
    assert_eq!(None, cascade.try_pop_stack(5));

    // zero cards always succeed, one card always moves
    assert_eq!(Some(Vec::new()), cascade.try_pop_stack(0));
    assert_eq!(
        Some(vec![Card::new(Rank::Ace, Suit::Spades)]),
        cascade.try_pop_stack(1),
    );
}

#[test]
fn try_push_stack_checks_seam() {
    let mut cascade = Cascade::new(vec![Card::new(Rank::Ten, Suit::Clubs)]);
    let run = vec![
        Card::new(Rank::Nine, Suit::Hearts),
        Card::new(Rank::Eight, Suit::Spades),
    ];
    assert!(cascade.stack_is_legal(&run));
    assert_eq!(Ok(()), cascade.try_push_stack(run));
    assert_eq!(3, cascade.len());

    let bad = vec![Card::new(Rank::Nine, Suit::Hearts)];
    assert_eq!(
        Err((
            vec![Card::new(Rank::Nine, Suit::Hearts)],
            "Those cards cannot go on that cascade.",
        )),
        cascade.try_push_stack(bad),
    );
}
