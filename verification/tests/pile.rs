use klondike::french::{new_standard_deck, Color, FrenchPlayingCard, Rank, Suit};
use klondike::game::{Card, KlondikeErr};
use klondike::pile::Pile;

fn card(suit: Suit, rank: Rank) -> Card {
    FrenchPlayingCard::new(suit, rank)
}

fn test_cards(name: &str, expected: &[Card], actual: &[Card]) {
    assert!(actual.len() == expected.len(), "{}: {} != {}", name, expected.len(), actual.len());
    for i in 0..expected.len() {
        assert!(expected[i] == actual[i], "{}[{}]: {:?} != {:?}", name, i, expected[i], actual[i]);
    }
}

#[test]
fn new_pile() {
    let pile = Pile::new();
    assert!(pile.is_empty());
    assert!(pile.len() == 0);
    assert!(pile.top().is_none());
    assert!(pile.next_card() == Some((None, Rank::King)));
}

#[test]
fn from_empty() {
    let pile = Pile::from(&[], &[]);
    assert!(pile.is_empty());
}

#[test]
fn from_empty_hidden_one_visible() {
    let pile = Pile::from(&[], &[card(Suit::Hearts, Rank::King)]);
    assert!(pile.len() == 1);
    assert!(pile.top() == Some(card(Suit::Hearts, Rank::King)));
}

#[test]
fn from_empty_hidden_mult_visible() {
    let pile = Pile::from(
        &[],
        &[
            card(Suit::Hearts, Rank::Number(4)),
            card(Suit::Spades, Rank::Number(3)),
            card(Suit::Hearts, Rank::Number(2)),
        ],
    );
    assert!(pile.len() == 3);
    assert!(pile.hidden_cards().is_empty());
    test_cards(
        "visible",
        &[
            card(Suit::Hearts, Rank::Number(4)),
            card(Suit::Spades, Rank::Number(3)),
            card(Suit::Hearts, Rank::Number(2)),
        ],
        pile.visible_cards(),
    );
}

#[test]
fn from_mult_hidden_mult_visible() {
    let pile = Pile::from(
        &[
            card(Suit::Hearts, Rank::Queen),
            card(Suit::Spades, Rank::King),
            card(Suit::Diamonds, Rank::Number(2)),
        ],
        &[
            card(Suit::Hearts, Rank::King),
            card(Suit::Spades, Rank::Queen),
            card(Suit::Hearts, Rank::Jack),
        ],
    );
    assert!(pile.len() == 6);
    test_cards(
        "hidden",
        &[
            card(Suit::Hearts, Rank::Queen),
            card(Suit::Spades, Rank::King),
            card(Suit::Diamonds, Rank::Number(2)),
        ],
        pile.hidden_cards(),
    );
    test_cards(
        "visible",
        &[
            card(Suit::Hearts, Rank::King),
            card(Suit::Spades, Rank::Queen),
            card(Suit::Hearts, Rank::Jack),
        ],
        pile.visible_cards(),
    );
}

#[test]
fn len() {
    let mut pile = Pile::new();
    pile.reset(&[card(Suit::Spades, Rank::Number(3))]);
    assert!(pile.len() == 1);
    assert!(!pile.is_empty());

    pile.reset(&[card(Suit::Spades, Rank::Number(3)), card(Suit::Hearts, Rank::Queen)]);
    assert!(pile.len() == 2);
    assert!(!pile.is_empty());

    pile.pop().unwrap();
    assert!(pile.len() == 1);
    assert!(!pile.is_empty());

    pile.pop().unwrap();
    assert!(pile.len() == 0);
    assert!(pile.is_empty());
}

#[test]
fn move_to_with_empty_piles() {
    let mut source = Pile::new();
    let mut target = Pile::new();
    assert!(source.move_to(&mut target).is_err());
}

#[test]
fn move_to_with_source_empty() {
    let mut source = Pile::new();

    let mut target = Pile::new();
    target.reset(&[card(Suit::Hearts, Rank::Queen)]);

    assert!(source.move_to(&mut target).is_err());
}

#[test]
fn move_to_with_empty_target_and_non_king() {
    let mut source = Pile::new();
    source.reset(&[card(Suit::Hearts, Rank::Queen)]);

    let mut target = Pile::new();

    assert!(source.move_to(&mut target).is_err());
}

#[test]
fn move_to_with_empty_target_and_king() {
    let mut source = Pile::new();
    source.reset(&[card(Suit::Hearts, Rank::King)]);

    let mut target = Pile::new();

    assert!(source.move_to(&mut target).is_ok());

    assert!(source.is_empty());
    assert!(target.len() == 1);
    test_cards("target", &[card(Suit::Hearts, Rank::King)], target.visible_cards());
}

#[test]
fn move_to_with_incompatible_piles() {
    let mut source = Pile::new();
    source.reset(&[card(Suit::Hearts, Rank::Number(4))]);

    let mut target = Pile::new();
    target.reset(&[card(Suit::Spades, Rank::Number(3))]);

    assert!(source.move_to(&mut target).is_err());

    assert!(source.len() == 1);
    test_cards("source", &[card(Suit::Hearts, Rank::Number(4))], source.visible_cards());
    assert!(target.len() == 1);
    test_cards("target", &[card(Suit::Spades, Rank::Number(3))], target.visible_cards());
}

#[test]
fn move_to_with_one_card() {
    let mut source = Pile::new();
    source.reset(&[card(Suit::Diamonds, Rank::Number(3)), card(Suit::Hearts, Rank::Number(3))]);

    let mut target = Pile::new();
    target.reset(&[card(Suit::Spades, Rank::Number(4))]);

    assert!(source.move_to(&mut target).is_ok());

    assert!(source.len() == 1);
    test_cards("source", &[card(Suit::Diamonds, Rank::Number(3))], source.visible_cards());
    assert!(target.len() == 2);
    test_cards(
        "target",
        &[card(Suit::Spades, Rank::Number(4)), card(Suit::Hearts, Rank::Number(3))],
        target.visible_cards(),
    );
}

#[test]
fn move_to_partial() {
    let mut source = Pile::new();
    source.reset(&[card(Suit::Diamonds, Rank::Number(3)), card(Suit::Hearts, Rank::Number(9))]);

    source.push(card(Suit::Spades, Rank::Number(8))).unwrap();
    source.push(card(Suit::Diamonds, Rank::Number(7))).unwrap();
    source.push(card(Suit::Clubs, Rank::Number(6))).unwrap();

    let mut target = Pile::new();
    target.reset(&[card(Suit::Clubs, Rank::Number(8))]);

    assert!(source.move_to(&mut target).is_ok());

    assert!(source.len() == 3);
    test_cards(
        "source.visible",
        &[card(Suit::Hearts, Rank::Number(9)), card(Suit::Spades, Rank::Number(8))],
        source.visible_cards(),
    );
    test_cards("source.hidden", &[card(Suit::Diamonds, Rank::Number(3))], source.hidden_cards());
    assert!(target.len() == 3);
    test_cards(
        "target.visible",
        &[
            card(Suit::Clubs, Rank::Number(8)),
            card(Suit::Diamonds, Rank::Number(7)),
            card(Suit::Clubs, Rank::Number(6)),
        ],
        target.visible_cards(),
    );
    test_cards("target.hidden", &[], target.hidden_cards());
}

#[test]
fn move_to_full() {
    let mut source = Pile::new();
    source.reset(&[card(Suit::Diamonds, Rank::Number(3)), card(Suit::Hearts, Rank::Number(9))]);

    source.push(card(Suit::Spades, Rank::Number(8))).unwrap();
    source.push(card(Suit::Diamonds, Rank::Number(7))).unwrap();
    source.push(card(Suit::Clubs, Rank::Number(6))).unwrap();

    let mut target = Pile::new();
    target.reset(&[card(Suit::Spades, Rank::Number(10))]);

    assert!(source.move_to(&mut target).is_ok());

    assert!(source.len() == 1);
    test_cards("source.visible", &[card(Suit::Diamonds, Rank::Number(3))], source.visible_cards());
    test_cards("source.hidden", &[], source.hidden_cards());
    assert!(target.len() == 5);
    test_cards(
        "target.visible",
        &[
            card(Suit::Spades, Rank::Number(10)),
            card(Suit::Hearts, Rank::Number(9)),
            card(Suit::Spades, Rank::Number(8)),
            card(Suit::Diamonds, Rank::Number(7)),
            card(Suit::Clubs, Rank::Number(6)),
        ],
        target.visible_cards(),
    );
    test_cards("target.hidden", &[], target.hidden_cards());
}

#[test]
fn visible_and_hidden_cards() {
    let mut pile = Pile::new();
    pile.reset(&[card(Suit::Hearts, Rank::Ace), card(Suit::Diamonds, Rank::Number(10))]);

    pile.push(card(Suit::Clubs, Rank::Number(9))).unwrap();

    test_cards(
        "visible1",
        &[card(Suit::Diamonds, Rank::Number(10)), card(Suit::Clubs, Rank::Number(9))],
        pile.visible_cards(),
    );
    test_cards("hidden1", &[card(Suit::Hearts, Rank::Ace)], pile.hidden_cards());

    pile.pop().unwrap();
    test_cards("visible2", &[card(Suit::Diamonds, Rank::Number(10))], pile.visible_cards());
    test_cards("hidden2", &[card(Suit::Hearts, Rank::Ace)], pile.hidden_cards());

    pile.pop().unwrap();
    test_cards("visible3", &[card(Suit::Hearts, Rank::Ace)], pile.visible_cards());
    test_cards("hidden3", &[], pile.hidden_cards());

    pile.pop().unwrap();
    test_cards("visible4", &[], pile.visible_cards());
    test_cards("hidden4", &[], pile.hidden_cards());
}

#[test]
fn top() {
    let mut pile = Pile::new();
    pile.reset(&[card(Suit::Hearts, Rank::Ace), card(Suit::Diamonds, Rank::Number(10))]);

    pile.push(card(Suit::Clubs, Rank::Number(9))).unwrap();

    assert!(pile.top() == Some(card(Suit::Clubs, Rank::Number(9))));
    pile.pop().unwrap();
    assert!(pile.top() == Some(card(Suit::Diamonds, Rank::Number(10))));
    pile.pop().unwrap();
    assert!(pile.top() == Some(card(Suit::Hearts, Rank::Ace)));
    pile.pop().unwrap();
    assert!(pile.top().is_none());
}

#[test]
fn pop_on_empty() {
    let mut pile = Pile::new();
    assert!(pile.pop().is_none());
}

#[test]
fn pop() {
    let mut pile = Pile::new();
    pile.reset(&[
        card(Suit::Spades, Rank::King),
        card(Suit::Hearts, Rank::Ace),
        card(Suit::Diamonds, Rank::Number(10)),
    ]);

    pile.push(card(Suit::Clubs, Rank::Number(9))).unwrap();
    pile.push(card(Suit::Hearts, Rank::Number(8))).unwrap();

    assert!(pile.pop() == Some(card(Suit::Hearts, Rank::Number(8))));
    assert!(pile.pop() == Some(card(Suit::Clubs, Rank::Number(9))));
    assert!(pile.pop() == Some(card(Suit::Diamonds, Rank::Number(10))));
    assert!(pile.pop() == Some(card(Suit::Hearts, Rank::Ace)));
    assert!(pile.pop() == Some(card(Suit::Spades, Rank::King)));
    assert!(pile.pop().is_none());
}

#[test]
fn push_changes_next_card() {
    let mut pile = Pile::new();
    let cards = &[
        card(Suit::Spades, Rank::King),
        card(Suit::Hearts, Rank::Queen),
        card(Suit::Clubs, Rank::Jack),
        card(Suit::Diamonds, Rank::Number(10)),
        card(Suit::Clubs, Rank::Number(9)),
        card(Suit::Hearts, Rank::Number(8)),
        card(Suit::Clubs, Rank::Number(7)),
        card(Suit::Hearts, Rank::Number(6)),
        card(Suit::Spades, Rank::Number(5)),
        card(Suit::Diamonds, Rank::Number(4)),
        card(Suit::Clubs, Rank::Number(3)),
        card(Suit::Hearts, Rank::Number(2)),
        card(Suit::Spades, Rank::Ace),
    ];

    let mut iter = cards.iter().map(|c| *c).peekable();

    while let Some(card) = iter.next() {
        pile.push(card).unwrap();

        match iter.peek() {
            Some(next) => assert!(pile.next_card() == Some((Some(next.color()), next.rank()))),
            None => assert!(pile.next_card().is_none()),
        }
    }

    assert!(pile.len() == cards.len());
}

#[test]
fn can_push_king_with_empty_pile() {
    let pile = Pile::new();

    assert!(pile.next_card() == Some((None, Rank::King)));

    for card in new_standard_deck().iter().map(|c| *c) {
        if card.rank() == Rank::King {
            assert!(pile.can_push(card).is_ok());
        } else {
            assert!(pile.can_push(card) == Err(KlondikeErr::InvalidCard));
        }
    }
}

#[test]
fn can_push_nothing_with_ace() {
    let mut pile = Pile::new();
    pile.reset(&[card(Suit::Hearts, Rank::Ace)]);

    assert!(pile.next_card().is_none());

    for card in new_standard_deck().iter() {
        assert!(pile.can_push(*card) == Err(KlondikeErr::Capacity));
    }
}

#[test]
fn can_push_red_with_black_visible() {
    let mut pile = Pile::new();
    pile.reset(&[card(Suit::Spades, Rank::King)]);

    assert!(pile.next_card() == Some((Some(Color::Red), Rank::Queen)));

    for card in new_standard_deck().iter().map(|c| *c) {
        if card.color() == Color::Red && card.rank() == Rank::Queen {
            assert!(pile.can_push(card).is_ok());
        } else {
            assert!(pile.can_push(card) == Err(KlondikeErr::InvalidCard));
        }
    }
}

#[test]
fn can_push_black_with_red_visible() {
    let mut pile = Pile::new();
    pile.reset(&[card(Suit::Hearts, Rank::Number(2))]);

    assert!(pile.next_card() == Some((Some(Color::Black), Rank::Ace)));

    for card in new_standard_deck().iter().map(|c| *c) {
        if card.color() == Color::Black && card.rank() == Rank::Ace {
            assert!(pile.can_push(card).is_ok());
        } else {
            assert!(pile.can_push(card) == Err(KlondikeErr::InvalidCard));
        }
    }
}
