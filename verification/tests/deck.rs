use klondike::deck::Deck;
use klondike::french::{FrenchPlayingCard, Rank, Suit};
use klondike::game::Card;

fn card(suit: Suit, rank: Rank) -> Card {
    FrenchPlayingCard::new(suit, rank)
}

fn test_cards(name: &str, expected: &[Card], actual: &[Card]) {
    assert!(actual.len() == expected.len(), "{}: {} != {}", name, expected.len(), actual.len());
    for i in 0..expected.len() {
        assert!(expected[i] == actual[i], "{}[{}]: {:?} != {:?}", name, i, expected[i], actual[i]);
    }
}

fn test_deck(deck: &Deck, visible: &[Card], waste: &[Card], remaining: &[Card]) {
    test_cards("visible", visible, deck.visible_cards());
    test_cards("waste", waste, deck.waste_cards());
    test_cards("remaining", remaining, deck.remaining_cards());
}

#[test]
fn new_deck() {
    let d = Deck::new(1);
    assert!(d.is_empty());
    assert!(d.len() == 0);
    assert!(d.visible_cards().is_empty());
    assert!(d.waste_cards().is_empty());
    assert!(d.remaining_cards().is_empty());
}

#[test]
fn reset() {
    let mut d = Deck::new(1);

    d.reset(&[]);
    assert!(d.is_empty());

    d.reset(&[card(Suit::Hearts, Rank::Jack)]);
    assert!(!d.is_empty());
    assert!(d.len() == 1);
    assert!(d.visible_cards().is_empty());
    assert!(d.waste_cards().is_empty());
    test_cards("remaining1", &[card(Suit::Hearts, Rank::Jack)], d.remaining_cards());

    d.reset(&[
        card(Suit::Hearts, Rank::Queen),
        card(Suit::Hearts, Rank::King),
        card(Suit::Spades, Rank::Ace),
    ]);
    assert!(!d.is_empty());
    assert!(d.len() == 3);
    assert!(d.visible_cards().is_empty());
    assert!(d.waste_cards().is_empty());
    test_cards(
        "remaining2",
        &[
            card(Suit::Hearts, Rank::Queen),
            card(Suit::Hearts, Rank::King),
            card(Suit::Spades, Rank::Ace),
        ],
        d.remaining_cards(),
    );
}

#[test]
fn draw_when_empty() {
    let mut d = Deck::new(1);
    d.draw();
    assert!(d.is_empty());
}

#[test]
fn draw1_with_single_card() {
    let mut deck = Deck::new(1);

    deck.reset(&[card(Suit::Hearts, Rank::Jack)]);
    test_deck(&deck, &[], &[], &[card(Suit::Hearts, Rank::Jack)]);

    deck.draw();
    test_deck(&deck, &[card(Suit::Hearts, Rank::Jack)], &[], &[]);

    deck.draw();
    test_deck(&deck, &[], &[], &[card(Suit::Hearts, Rank::Jack)]);
}

#[test]
fn klondike_top() {
    let mut deck = Deck::new(3);
    let cards = [
        card(Suit::Hearts, Rank::Jack),
        card(Suit::Diamonds, Rank::Number(3)),
        card(Suit::Hearts, Rank::Queen),
        card(Suit::Spades, Rank::Jack),
        card(Suit::Clubs, Rank::Jack),
    ];
    deck.reset(&cards);

    assert!(deck.top().is_none());
    deck.draw();

    assert!(deck.top() == Some(card(Suit::Hearts, Rank::Queen)), "{:?}", deck.top());
    deck.pop().unwrap();

    assert!(deck.top() == Some(card(Suit::Diamonds, Rank::Number(3))));
    deck.pop().unwrap();

    assert!(deck.top() == Some(card(Suit::Hearts, Rank::Jack)));
    deck.pop().unwrap();

    assert!(deck.top().is_none());
    deck.draw();

    assert!(deck.top() == Some(card(Suit::Clubs, Rank::Jack)));
}

#[test]
fn draw3_with_seven_cards() {
    let mut deck = Deck::new(3);
    let cards = [
        card(Suit::Hearts, Rank::Jack),
        card(Suit::Diamonds, Rank::Number(3)),
        card(Suit::Hearts, Rank::Queen),
        card(Suit::Spades, Rank::Jack),
        card(Suit::Clubs, Rank::Ace),
        card(Suit::Hearts, Rank::Number(10)),
        card(Suit::Spades, Rank::Ace),
    ];

    deck.reset(&cards);
    test_deck(&deck, &[], &[], &cards[0..7]);

    deck.draw();
    test_deck(&deck, &cards[0..3], &[], &cards[3..7]);

    deck.draw();
    test_deck(&deck, &cards[3..6], &cards[0..3], &cards[6..7]);

    deck.draw();
    test_deck(&deck, &cards[6..7], &cards[0..6], &[]);

    deck.draw();
    test_deck(&deck, &[], &[], &cards[0..7]);
}

#[test]
fn pop_when_empty() {
    let mut d = Deck::new(1);
    assert!(d.pop().is_none());
}

#[test]
fn pop_with_seven_cards_draw3() {
    let mut deck = Deck::new(3);
    let cards = [
        card(Suit::Hearts, Rank::Jack),
        card(Suit::Diamonds, Rank::Number(3)),
        card(Suit::Hearts, Rank::Queen),
        card(Suit::Spades, Rank::Jack),
        card(Suit::Clubs, Rank::Ace),
        card(Suit::Hearts, Rank::Number(10)),
        card(Suit::Spades, Rank::Ace),
    ];

    deck.reset(&cards);
    assert!(deck.pop().is_none());

    // Move to first 3 cards
    deck.draw();

    // Take all 3 visible cards
    assert!(deck.pop() == Some(card(Suit::Hearts, Rank::Queen)));
    assert!(deck.len() == 6);
    test_deck(&deck, &cards[0..2], &[], &cards[3..7]);
    assert!(deck.pop() == Some(card(Suit::Diamonds, Rank::Number(3))));
    assert!(deck.len() == 5);
    test_deck(&deck, &cards[0..1], &[], &cards[3..7]);
    assert!(deck.pop() == Some(card(Suit::Hearts, Rank::Jack)));
    assert!(deck.len() == 4);
    test_deck(&deck, &[], &[], &cards[3..7]);

    // Move to next 3 cards
    deck.draw();
    test_deck(&deck, &cards[3..6], &[], &cards[6..7]);

    // Take 2 of 3 visible cards
    assert!(deck.pop() == Some(card(Suit::Hearts, Rank::Number(10))));
    assert!(deck.len() == 3);
    test_deck(&deck, &cards[3..5], &[], &cards[6..7]);
    assert!(deck.pop() == Some(card(Suit::Clubs, Rank::Ace)));
    assert!(deck.len() == 2);
    test_deck(&deck, &cards[3..4], &[], &cards[6..7]);

    // Move to last card in deck (do not take)
    deck.draw();
    test_deck(&deck, &cards[6..7], &cards[3..4], &[]);

    // Reset cards list with current deck contents
    let cards = {
        let mut x = Vec::new();
        x.extend_from_slice(&cards[3..4]);
        x.extend_from_slice(&cards[6..7]);
        x
    };

    // Move to beginning of deck
    deck.draw();
    test_deck(&deck, &[], &[], &cards[0..2]);

    // Move to remaining 2 cards
    deck.draw();
    test_deck(&deck, &cards[0..2], &[], &[]);

    // Take 2 visible cards
    assert!(deck.pop() == Some(card(Suit::Spades, Rank::Ace)));
    assert!(deck.len() == 1);
    test_deck(&deck, &cards[0..1], &[], &[]);
    assert!(deck.pop() == Some(card(Suit::Spades, Rank::Jack)));
    assert!(deck.len() == 0);
    test_deck(&deck, &[], &[], &[]);

    // Deck is now empty
}

#[test]
fn klondike_from_empty() {
    let deck = Deck::from(3, &[], &[], &[]);
    assert!(deck.is_empty());
    assert_eq!(deck.draw_count(), 3);
}

#[test]
fn klondike_from() {
    let deck = Deck::from(
        3,
        &[card(Suit::Spades, Rank::Number(3))],
        &[card(Suit::Diamonds, Rank::Number(3))],
        &[card(Suit::Diamonds, Rank::Jack)],
    );
    test_cards("waste", &[card(Suit::Spades, Rank::Number(3))], deck.waste_cards());
    test_cards("visible", &[card(Suit::Diamonds, Rank::Number(3))], deck.visible_cards());
    test_cards("remaining", &[card(Suit::Diamonds, Rank::Jack)], deck.remaining_cards());
}

#[test]
fn from_max_cards() {
    // 24 is max deck size
    let deck = Deck::from(
        3,
        &[
            card(Suit::Spades, Rank::Number(10)),
            card(Suit::Spades, Rank::Number(9)),
            card(Suit::Spades, Rank::Number(8)),
            card(Suit::Spades, Rank::Number(7)),
            card(Suit::Spades, Rank::Number(6)),
            card(Suit::Spades, Rank::Number(5)),
        ],
        &[
            card(Suit::Hearts, Rank::Number(10)),
            card(Suit::Hearts, Rank::Number(9)),
            card(Suit::Hearts, Rank::Number(8)),
        ],
        &[
            card(Suit::Hearts, Rank::Number(7)),
            card(Suit::Hearts, Rank::Number(6)),
            card(Suit::Hearts, Rank::Number(5)),
            card(Suit::Diamonds, Rank::Number(10)),
            card(Suit::Diamonds, Rank::Number(9)),
            card(Suit::Diamonds, Rank::Number(8)),
            card(Suit::Diamonds, Rank::Number(7)),
            card(Suit::Diamonds, Rank::Number(6)),
            card(Suit::Diamonds, Rank::Number(5)),
            card(Suit::Clubs, Rank::Number(10)),
            card(Suit::Clubs, Rank::Number(9)),
            card(Suit::Clubs, Rank::Number(8)),
            card(Suit::Clubs, Rank::Number(7)),
            card(Suit::Clubs, Rank::Number(6)),
            card(Suit::Clubs, Rank::Number(5)),
        ],
    );

    test_cards(
        "waste",
        &[
            card(Suit::Spades, Rank::Number(10)),
            card(Suit::Spades, Rank::Number(9)),
            card(Suit::Spades, Rank::Number(8)),
            card(Suit::Spades, Rank::Number(7)),
            card(Suit::Spades, Rank::Number(6)),
            card(Suit::Spades, Rank::Number(5)),
        ],
        deck.waste_cards(),
    );
    test_cards(
        "visible",
        &[
            card(Suit::Hearts, Rank::Number(10)),
            card(Suit::Hearts, Rank::Number(9)),
            card(Suit::Hearts, Rank::Number(8)),
        ],
        deck.visible_cards(),
    );
    test_cards(
        "remaining",
        &[
            card(Suit::Hearts, Rank::Number(7)),
            card(Suit::Hearts, Rank::Number(6)),
            card(Suit::Hearts, Rank::Number(5)),
            card(Suit::Diamonds, Rank::Number(10)),
            card(Suit::Diamonds, Rank::Number(9)),
            card(Suit::Diamonds, Rank::Number(8)),
            card(Suit::Diamonds, Rank::Number(7)),
            card(Suit::Diamonds, Rank::Number(6)),
            card(Suit::Diamonds, Rank::Number(5)),
            card(Suit::Clubs, Rank::Number(10)),
            card(Suit::Clubs, Rank::Number(9)),
            card(Suit::Clubs, Rank::Number(8)),
            card(Suit::Clubs, Rank::Number(7)),
            card(Suit::Clubs, Rank::Number(6)),
            card(Suit::Clubs, Rank::Number(5)),
        ],
        deck.remaining_cards(),
    );
}
