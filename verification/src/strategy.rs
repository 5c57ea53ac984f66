//! Strategies drive a game to a terminal state; the reference strategy is
//! a deterministic greedy policy: it moves cards to the foundations when it
//! can, plays the deck's top card otherwise, and draws until a full pass
//! over the deck yields no move.

use vstd::prelude::*;

use crate::deck::Deck;
use crate::game::{
    foundation_index_spec, same_game, same_piles_except, KlondikeSolitaireGame, MoveSource,
    MoveTarget,
};
use crate::pile::same_pile;

verus! {

/// Accepts or rejects a freshly dealt game before it is played.
pub trait GameFilter: Sized {
    fn new() -> Self;

    fn accept(&self, game: &KlondikeSolitaireGame) -> bool
        requires
            game.wf(),
    ;
}

/// Plays a game until it is won or the strategy gives up.
pub trait GameStrategy: Sized {
    fn new() -> Self;

    fn play(&mut self, game: &mut KlondikeSolitaireGame)
        requires
            old(game).wf(),
        ensures
            final(game).wf(),
            final(game).cards@ == old(game).cards@,
    ;
}

/// The filter that accepts every deal.
pub struct AllFilter;

impl GameFilter for AllFilter {
    fn new() -> (f: AllFilter) {
        AllFilter
    }

    fn accept(&self, _game: &KlondikeSolitaireGame) -> (r: bool)
        ensures
            r == true,
    {
        true
    }
}

/// Cards not yet on the foundations plus cards still in the deck: every
/// successful move of the greedy strategy shrinks it.
pub open spec fn progress_measure(g: KlondikeSolitaireGame) -> int {
    52 - (g.foundations@[0].cards_seq().len() + g.foundations@[1].cards_seq().len()
        + g.foundations@[2].cards_seq().len() + g.foundations@[3].cards_seq().len())
        + g.deck.cards@.len()
}

/// How far the deck's window is from wrapping back to its start state:
/// every draw that does not wrap shrinks it.
pub open spec fn window_measure(d: Deck) -> int {
    d.cards@.len() - (d.visible_index + d.visible_count) + if d.visible_index == 0
        && d.visible_count == 0 {
        1int
    } else {
        0int
    }
}

/// Pile `i`'s top card is exactly the card its suit's foundation requires
/// next, so a pile-to-foundation move from `i` would succeed.
pub open spec fn pile_foundation_ready(g: KlondikeSolitaireGame, i: int) -> bool {
    g.piles@[i].top_spec() matches Some(c) && g.foundations@[foundation_index_spec(
        c.suit,
    )].next_card_spec() == Some(c)
}

/// The greedy strategy has no move left: the deck's window has wrapped back
/// to its start (so nothing is visible to play) and no pile's top card can
/// go to its foundation.
pub open spec fn greedy_stuck(g: KlondikeSolitaireGame) -> bool {
    &&& g.deck.visible_index == 0
    &&& g.deck.visible_count == 0
    &&& forall|i: int| 0 <= i < 7 ==> !pile_foundation_ready(g, i)
}

/// The deck's window is back at its starting position: nothing visible,
/// nothing in the waste.
pub fn is_at_start(deck: &Deck) -> (r: bool)
    requires
        deck.wf(),
    ensures
        r <==> (deck.visible_index == 0 && deck.visible_count == 0),
{
    deck.visible_cards().is_empty() && deck.waste_cards().is_empty()
}

/// The lowest pile whose top card is the one its suit's foundation requires
/// next, as a ready-to-issue move; `None` exactly when no pile qualifies.
pub fn check_pile_to_foundation(game: &KlondikeSolitaireGame) -> (r: Option<
    (MoveSource, MoveTarget),
>)
    requires
        game.wf(),
    ensures
        r matches Some(mv) ==> {
            &&& mv.1 == MoveTarget::Foundation
            &&& mv.0 matches MoveSource::Pile(i) && (i as int) < 7 && pile_foundation_ready(
                *game,
                i as int,
            ) && forall|j: int| 0 <= j < i as int ==> !pile_foundation_ready(*game, j)
        },
        r is None ==> forall|i: int| 0 <= i < 7 ==> !pile_foundation_ready(*game, i),
{
    let mut index: usize = 0;
    while index < 7
        invariant
            game.wf(),
            index <= 7,
            forall|j: int| 0 <= j < index ==> !pile_foundation_ready(*game, j),
        decreases 7 - index,
    {
        match game.pile(index).top() {
            Some(card) => {
                let foundation = game.foundation(card.suit());
                let matches_next = match foundation.next_card() {
                    Some(n) => n == card,
                    None => false,
                };
                if matches_next {
                    return Some((MoveSource::Pile(index as u8), MoveTarget::Foundation));
                }
                proof {
                    assert(!pile_foundation_ready(*game, index as int));
                }
            },
            None => {
                proof {
                    assert(!pile_foundation_ready(*game, index as int));
                }
            },
        }
        index = index + 1;
    }
    None
}

/// The lowest pile that accepts the deck's top visible card, as a
/// ready-to-issue move; `None` exactly when no pile accepts it.
pub fn check_deck_to_pile(game: &KlondikeSolitaireGame) -> (r: Option<(MoveSource, MoveTarget)>)
    requires
        game.wf(),
        game.deck.visible_count > 0,
    ensures
        r matches Some(mv) ==> {
            &&& mv.0 == MoveSource::Deck
            &&& mv.1 matches MoveTarget::Pile(i) && (i as int) < 7 && game.piles@[
            i as int].accepts(game.deck.top_spec().unwrap()) && forall|j: int|
                0 <= j < i as int ==> !game.piles@[j].accepts(game.deck.top_spec().unwrap())
        },
        r is None ==> forall|i: int|
            0 <= i < 7 ==> !game.piles@[i].accepts(game.deck.top_spec().unwrap()),
{
    let deck_card = game.deck().top().unwrap();
    let mut index: usize = 0;
    while index < 7
        invariant
            game.wf(),
            index <= 7,
            game.deck.visible_count > 0,
            deck_card == game.deck.top_spec().unwrap(),
            forall|j: int| 0 <= j < index ==> !game.piles@[j].accepts(deck_card),
        decreases 7 - index,
    {
        if game.pile(index).can_push(deck_card).is_ok() {
            return Some((MoveSource::Deck, MoveTarget::Pile(index as u8)));
        }
        index = index + 1;
    }
    None
}

/// Issues a pile-to-foundation move that is known to be legal.
#[verifier::rlimit(100)]
fn move_pile_to_foundation(game: &mut KlondikeSolitaireGame, source: MoveSource, target: MoveTarget)
    requires
        old(game).wf(),
        target == MoveTarget::Foundation,
        source matches MoveSource::Pile(i) && (i as int) < 7 && pile_foundation_ready(
            *old(game),
            i as int,
        ),
    ensures
        final(game).wf(),
        final(game).cards@ == old(game).cards@,
        progress_measure(*final(game)) < progress_measure(*old(game)),
{
    let r = game.move_cards(source, target);
    proof {
        assert(r is Ok);
        assert(progress_measure(*game) < progress_measure(*old(game)));
    }
}

/// Tries to move the deck's top visible card to its foundation; reports
/// whether the move happened.
#[verifier::rlimit(100)]
fn try_deck_to_foundation(game: &mut KlondikeSolitaireGame) -> (r: bool)
    requires
        old(game).wf(),
    ensures
        final(game).wf(),
        final(game).cards@ == old(game).cards@,
        r ==> progress_measure(*final(game)) < progress_measure(*old(game)),
        !r ==> same_game(*final(game), *old(game)) && progress_measure(*final(game))
            == progress_measure(*old(game)) && window_measure(final(game).deck) == window_measure(
            old(game).deck,
        ),
{
    let r = game.move_cards(MoveSource::Deck, MoveTarget::Foundation);
    proof {
        if r is Ok {
            assert(progress_measure(*game) < progress_measure(*old(game)));
        }
    }
    r.is_ok()
}

/// Issues a deck-to-pile move that is known to be legal.
#[verifier::rlimit(100)]
fn move_deck_to_pile(game: &mut KlondikeSolitaireGame, source: MoveSource, target: MoveTarget)
    requires
        old(game).wf(),
        old(game).deck.visible_count > 0,
        source == MoveSource::Deck,
        target matches MoveTarget::Pile(i) && (i as int) < 7 && old(game).piles@[
            i as int].accepts(old(game).deck.top_spec().unwrap()),
    ensures
        final(game).wf(),
        final(game).cards@ == old(game).cards@,
        progress_measure(*final(game)) < progress_measure(*old(game)),
{
    let r = game.move_cards(source, target);
    proof {
        assert(r is Ok);
        assert(progress_measure(*game) < progress_measure(*old(game)));
    }
}

/// Draws, keeping the progress measure; unless the window wrapped back to
/// the start, the distance to the end of the deck shrank.
#[verifier::rlimit(100)]
fn draw_step(game: &mut KlondikeSolitaireGame)
    requires
        old(game).wf(),
    ensures
        final(game).wf(),
        final(game).cards@ == old(game).cards@,
        progress_measure(*final(game)) == progress_measure(*old(game)),
        (final(game).deck.visible_index == 0 && final(game).deck.visible_count == 0)
            || window_measure(final(game).deck) < window_measure(old(game).deck),
        final(game).foundations@ == old(game).foundations@,
        same_piles_except(old(game).piles@, final(game).piles@, -1, -1),
{
    game.draw();
}

/// The reference greedy strategy.
pub struct SimpleKlondikeStrategy;

impl GameStrategy for SimpleKlondikeStrategy {
    fn new() -> (s: SimpleKlondikeStrategy) {
        SimpleKlondikeStrategy
    }

    /// Plays until the game is won or a full pass over the deck produced no
    /// move: prefer pile-to-foundation moves, then deck-to-foundation, then
    /// deck-to-pile, and draw otherwise. On return the game is either clear
    /// or stuck for this strategy: the deck window is back at its start and
    /// no pile's top card fits its foundation.
    fn play(&mut self, game: &mut KlondikeSolitaireGame)
        ensures
            !final(game).is_clear_spec() ==> greedy_stuck(*final(game)),
    {
        let mut moved = false;
        let mut done = false;

        while !done && !game.is_clear()
            invariant
                game.wf(),
                game.cards@ == old(game).cards@,
                old(game).is_clear_spec() ==> same_game(*game, *old(game)),
                done ==> greedy_stuck(*game),
            decreases
                    (if done {
                        0int
                    } else {
                        1int
                    }),
                    progress_measure(*game),
                    (if moved {
                        1int
                    } else {
                        0int
                    }),
                    window_measure(game.deck),
        {
            let ghost at_check = *game;
            // Move pile to foundation
            let pile_move = check_pile_to_foundation(game);
            if let Some((source, target)) = pile_move {
                move_pile_to_foundation(game, source, target);
                moved = true;
            } else {
                let mut did_move = false;
                // Move deck to foundation or pile
                if !game.deck().visible_cards().is_empty() {
                    if try_deck_to_foundation(game) {
                        moved = true;
                        did_move = true;
                    } else {
                        let deck_move = check_deck_to_pile(game);
                        if let Some((source, target)) = deck_move {
                            move_deck_to_pile(game, source, target);
                            moved = true;
                            did_move = true;
                        }
                    }
                }
                if !did_move {
                    let ghost before_draw = *game;
                    draw_step(game);
                    // Stop once a full pass over the deck produced no move:
                    // nothing the deck could offer helped, and no pile's top
                    // card fits its foundation.
                    if is_at_start(game.deck()) {
                        if !moved {
                            done = true;
                            proof {
                                assert(game.foundations@ == at_check.foundations@);
                                assert forall|i: int| 0 <= i < 7 implies !pile_foundation_ready(
                                    *game,
                                    i,
                                ) by {
                                    assert(!pile_foundation_ready(at_check, i));
                                    assert(same_pile(at_check.piles@[i], before_draw.piles@[i]));
                                    assert(same_pile(before_draw.piles@[i], game.piles@[i]));
                                    assert(game.piles@[i].top_spec()
                                        == at_check.piles@[i].top_spec());
                                }
                                assert(greedy_stuck(*game));
                            }
                        } else {
                            moved = false;
                        }
                    }
                }
            }
        }
    }
}

} // verus!
