use klondike::french::{new_standard_deck, Color, FrenchPlayingCard, Rank, Suit};

#[test]
fn test_new_french_playing_card() {
    let card = FrenchPlayingCard::new(Suit::Spades, Rank::Ace);
    assert!(card.color() == Color::Black);
    assert!(card.suit() == Suit::Spades);
    assert!(card.rank() == Rank::Ace);

    assert!(card == FrenchPlayingCard::new(Suit::Spades, Rank::Ace));
    assert!(card != FrenchPlayingCard::new(Suit::Hearts, Rank::Ace));
    assert!(card != FrenchPlayingCard::new(Suit::Spades, Rank::Number(2)));
}

#[test]
fn test_new_standard_deck() {
    let deck = new_standard_deck();
    assert!(deck.len() == 52, "{} != 52", deck.len());

    assert!(deck.iter().filter(|c| c.color() == Color::Black).count() == 26);
    assert!(deck.iter().filter(|c| c.color() == Color::Red).count() == 26);

    assert!(deck.iter().filter(|c| c.suit() == Suit::Spades).count() == 13);
    assert!(deck.iter().filter(|c| c.suit() == Suit::Diamonds).count() == 13);
    assert!(deck.iter().filter(|c| c.suit() == Suit::Hearts).count() == 13);
    assert!(deck.iter().filter(|c| c.suit() == Suit::Clubs).count() == 13);

    assert!(deck.iter().filter(|c| c.rank() == Rank::Ace).count() == 4);
    assert!(deck.iter().filter(|c| c.rank() == Rank::Number(2)).count() == 4);
    assert!(deck.iter().filter(|c| c.rank() == Rank::Number(3)).count() == 4);
    assert!(deck.iter().filter(|c| c.rank() == Rank::Number(4)).count() == 4);
    assert!(deck.iter().filter(|c| c.rank() == Rank::Number(5)).count() == 4);
    assert!(deck.iter().filter(|c| c.rank() == Rank::Number(6)).count() == 4);
    assert!(deck.iter().filter(|c| c.rank() == Rank::Number(7)).count() == 4);
    assert!(deck.iter().filter(|c| c.rank() == Rank::Number(8)).count() == 4);
    assert!(deck.iter().filter(|c| c.rank() == Rank::Number(9)).count() == 4);
    assert!(deck.iter().filter(|c| c.rank() == Rank::Number(10)).count() == 4);
    assert!(deck.iter().filter(|c| c.rank() == Rank::Jack).count() == 4);
    assert!(deck.iter().filter(|c| c.rank() == Rank::Queen).count() == 4);
    assert!(deck.iter().filter(|c| c.rank() == Rank::King).count() == 4);
}
