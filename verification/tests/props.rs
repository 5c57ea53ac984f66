use klondike::deck::Deck;
use klondike::french::{new_standard_deck, FrenchPlayingCard, Rank, Suit};
use klondike::game::{Card, KlondikeErr, KlondikeSolitaireGame, MoveSource, MoveTarget};
use klondike::harness::worker_game_count;
use klondike::pile::Pile;
use klondike::shuffle::default_shuffle;
use klondike::strategy::{GameStrategy, SimpleKlondikeStrategy};

fn card(suit: Suit, rank: Rank) -> Card {
    FrenchPlayingCard::new(suit, rank)
}

fn suit_key(s: Suit) -> usize {
    match s {
        Suit::Diamonds => 0,
        Suit::Hearts => 1,
        Suit::Clubs => 2,
        Suit::Spades => 3,
    }
}

fn rank_key(r: Rank) -> usize {
    match r {
        Rank::Ace => 0,
        Rank::Number(n) => (n - 1) as usize,
        Rank::Jack => 10,
        Rank::Queen => 11,
        Rank::King => 12,
    }
}

fn card_key(c: &Card) -> usize {
    suit_key(c.suit()) * 13 + rank_key(c.rank())
}

/// Every card the game's zones hold, in no particular order.
fn all_zone_cards(game: &KlondikeSolitaireGame) -> Vec<Card> {
    let mut cards: Vec<Card> = Vec::new();
    cards.extend_from_slice(game.deck().waste_cards());
    cards.extend_from_slice(game.deck().visible_cards());
    cards.extend_from_slice(game.deck().remaining_cards());
    for suit in [Suit::Diamonds, Suit::Hearts, Suit::Clubs, Suit::Spades] {
        cards.extend(game.foundation(suit).cards());
    }
    for pile in game.piles() {
        cards.extend_from_slice(pile.hidden_cards());
        cards.extend_from_slice(pile.visible_cards());
    }
    cards
}

fn assert_holds_all_52(game: &KlondikeSolitaireGame) {
    let mut keys: Vec<usize> = all_zone_cards(game).iter().map(card_key).collect();
    keys.sort();
    assert_eq!(keys.len(), 52);
    for (i, k) in keys.iter().enumerate() {
        assert_eq!(*k, i);
    }
}

#[test]
fn scenario_deck_draw_cycle() {
    let cards = [
        card(Suit::Hearts, Rank::Jack),
        card(Suit::Diamonds, Rank::Number(3)),
        card(Suit::Hearts, Rank::Queen),
        card(Suit::Spades, Rank::Jack),
        card(Suit::Clubs, Rank::Ace),
        card(Suit::Hearts, Rank::Number(10)),
        card(Suit::Spades, Rank::Ace),
    ];
    let mut deck = Deck::from(3, &[], &[], &cards);

    deck.draw();
    assert_eq!(deck.visible_cards(), &cards[0..3]);
    assert_eq!(deck.waste_cards(), &[] as &[Card]);
    assert_eq!(deck.remaining_cards(), &cards[3..7]);

    deck.draw();
    assert_eq!(deck.visible_cards(), &cards[3..6]);
    assert_eq!(deck.waste_cards(), &cards[0..3]);
    assert_eq!(deck.remaining_cards(), &cards[6..7]);

    deck.draw();
    assert_eq!(deck.visible_cards(), &cards[6..7]);
    assert_eq!(deck.waste_cards(), &cards[0..6]);
    assert_eq!(deck.remaining_cards(), &[] as &[Card]);

    deck.draw();
    assert_eq!(deck.visible_cards(), &[] as &[Card]);
    assert_eq!(deck.waste_cards(), &[] as &[Card]);
    assert_eq!(deck.remaining_cards(), &cards[0..7]);
}

#[test]
fn scenario_empty_pile_accepts_only_king() {
    let mut pile = Pile::new();
    assert_eq!(pile.next_card(), Some((None, Rank::King)));

    assert_eq!(pile.push(card(Suit::Hearts, Rank::Queen)), Err(KlondikeErr::InvalidCard));
    assert!(pile.is_empty());

    assert!(pile.push(card(Suit::Spades, Rank::King)).is_ok());
    assert_eq!(pile.top(), Some(card(Suit::Spades, Rank::King)));
}

#[test]
fn scenario_ace_top_accepts_nothing() {
    let mut pile = Pile::new();
    pile.reset(&[card(Suit::Hearts, Rank::Ace)]);
    assert!(pile.next_card().is_none());

    assert_eq!(pile.push(card(Suit::Spades, Rank::King)), Err(KlondikeErr::Capacity));
    assert_eq!(pile.push(card(Suit::Clubs, Rank::Number(2))), Err(KlondikeErr::Capacity));
    assert_eq!(pile.top(), Some(card(Suit::Hearts, Rank::Ace)));
}

#[test]
fn default_shuffle_permutes() {
    let shuffled = default_shuffle(new_standard_deck());
    let mut keys: Vec<usize> = shuffled.iter().map(card_key).collect();
    keys.sort();
    assert_eq!(keys.len(), 52);
    for (i, k) in keys.iter().enumerate() {
        assert_eq!(*k, i);
    }
}

#[test]
fn new_deals_full_layout() {
    let game = KlondikeSolitaireGame::new(3);

    assert_eq!(game.deck().draw_count(), 3);
    assert_eq!(game.deck().len(), 24);
    assert!(game.deck().visible_cards().is_empty());
    assert!(game.deck().waste_cards().is_empty());

    for i in 0..7 {
        assert_eq!(game.pile(i).hidden_cards().len(), i);
        assert_eq!(game.pile(i).visible_cards().len(), 1);
    }
    for suit in [Suit::Diamonds, Suit::Hearts, Suit::Clubs, Suit::Spades] {
        assert!(game.foundation(suit).is_empty());
        assert_eq!(game.foundation(suit).suit(), suit);
    }
    assert!(!game.is_clear());

    assert_holds_all_52(&game);
}

#[test]
fn move_from_empty_deck_is_invalid() {
    let mut game = KlondikeSolitaireGame::new(1);
    // The freshly dealt deck has no visible card yet.
    assert_eq!(
        game.move_cards(MoveSource::Deck, MoveTarget::Foundation),
        Err(KlondikeErr::InvalidMove)
    );
    assert_eq!(
        game.move_cards(MoveSource::Deck, MoveTarget::Pile(0)),
        Err(KlondikeErr::InvalidMove)
    );
    assert_holds_all_52(&game);
}

#[test]
fn noop_moves_succeed() {
    let mut game = KlondikeSolitaireGame::new(1);
    assert!(game.move_cards(MoveSource::Foundation(Suit::Hearts), MoveTarget::Foundation).is_ok());
    assert!(game.move_cards(MoveSource::Pile(2), MoveTarget::Pile(2)).is_ok());
    assert_holds_all_52(&game);
}

#[test]
fn moves_conserve_cards() {
    let mut game = KlondikeSolitaireGame::new(3);
    // Try a handful of moves, legal or not: every zone still holds its
    // cards afterwards and nothing is lost or duplicated.
    game.draw();
    let _ = game.move_cards(MoveSource::Deck, MoveTarget::Foundation);
    for i in 0..7u8 {
        let _ = game.move_cards(MoveSource::Deck, MoveTarget::Pile(i));
        let _ = game.move_cards(MoveSource::Pile(i), MoveTarget::Foundation);
        let _ = game.move_cards(MoveSource::Pile(i), MoveTarget::Pile((i + 1) % 7));
    }
    assert_holds_all_52(&game);
}

#[test]
fn strategy_plays_to_termination() {
    let mut game = KlondikeSolitaireGame::new(1);
    let mut strategy = SimpleKlondikeStrategy::new();
    strategy.play(&mut game);
    // Won or stuck, the 52 cards are still all there.
    assert_holds_all_52(&game);
}

#[test]
fn foundation_cards_materializes_run() {
    let f = klondike::foundation::Foundation::from(Suit::Hearts, Some(Rank::Number(3)));
    let cards = f.cards();
    assert_eq!(
        cards,
        vec![
            card(Suit::Hearts, Rank::Ace),
            card(Suit::Hearts, Rank::Number(2)),
            card(Suit::Hearts, Rank::Number(3)),
        ]
    );

    let mut f = klondike::foundation::Foundation::new_full(Suit::Spades);
    assert_eq!(f.cards().len(), 13);
    // pop retreats the cursor and reports the new top card
    assert_eq!(f.pop(), Some(card(Suit::Spades, Rank::Queen)));
    assert_eq!(f.top(), Some(card(Suit::Spades, Rank::Queen)));
    assert_eq!(f.cards().len(), 12);
}

#[test]
fn worker_game_count_splits_evenly() {
    // 10 games over 3 workers: the remainder goes to the first worker.
    assert_eq!(worker_game_count(10, 3, 0), 4);
    assert_eq!(worker_game_count(10, 3, 1), 3);
    assert_eq!(worker_game_count(10, 3, 2), 3);

    // An exact split.
    assert_eq!(worker_game_count(8, 4, 0), 2);
    assert_eq!(worker_game_count(8, 4, 3), 2);

    // Fewer games than workers.
    let mut sum = 0;
    for i in 0..8 {
        sum += worker_game_count(5, 8, i);
    }
    assert_eq!(sum, 5);
}

#[test]
fn failed_move_leaves_zones_unchanged() {
    let mut game = KlondikeSolitaireGame::new(3);
    game.draw();

    let waste_before = game.deck().waste_cards().to_vec();
    let visible_before = game.deck().visible_cards().to_vec();
    let remaining_before = game.deck().remaining_cards().to_vec();
    let piles_before: Vec<(Vec<Card>, Vec<Card>)> = game
        .piles()
        .iter()
        .map(|p| (p.hidden_cards().to_vec(), p.visible_cards().to_vec()))
        .collect();
    let foundation_tops: Vec<Option<Card>> =
        [Suit::Diamonds, Suit::Hearts, Suit::Clubs, Suit::Spades]
            .iter()
            .map(|s| game.foundation(*s).top())
            .collect();

    // Find a pile-to-foundation move that is illegal and issue it, along
    // with a couple of structurally doomed moves.
    let mut failed = 0;
    for i in 0..7u8 {
        let top = game.pile(i as usize).top().unwrap();
        if game.foundation(top.suit()).next_card() != Some(top) {
            assert_eq!(
                game.move_cards(MoveSource::Pile(i), MoveTarget::Foundation),
                Err(KlondikeErr::InvalidMove)
            );
            failed += 1;
        }
    }
    // At most four pile tops can be aces, so at least three moves failed.
    assert!(failed >= 3);
    assert_eq!(
        game.move_cards(MoveSource::Foundation(Suit::Hearts), MoveTarget::Pile(0)),
        Err(KlondikeErr::InvalidMove)
    );

    assert_eq!(game.deck().waste_cards(), waste_before.as_slice());
    assert_eq!(game.deck().visible_cards(), visible_before.as_slice());
    assert_eq!(game.deck().remaining_cards(), remaining_before.as_slice());
    for (i, (hidden, visible)) in piles_before.iter().enumerate() {
        assert_eq!(game.pile(i).hidden_cards(), hidden.as_slice());
        assert_eq!(game.pile(i).visible_cards(), visible.as_slice());
    }
    for (i, s) in [Suit::Diamonds, Suit::Hearts, Suit::Clubs, Suit::Spades].iter().enumerate() {
        assert_eq!(game.foundation(*s).top(), foundation_tops[i]);
    }
}
