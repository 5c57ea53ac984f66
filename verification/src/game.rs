//! The Klondike solitaire game: one deck, four foundations, seven tableau
//! piles, the full 52-card pool, and the move state machine that transfers
//! cards between those zones. Every operation preserves the global
//! invariant that the zones together hold exactly the 52 standard cards.

use vstd::prelude::*;
use vstd::multiset::Multiset;

use crate::deck::{popped_deck, same_deck, Deck};
use crate::foundation::{advanced_foundation, retreated_foundation, Foundation};
use crate::french::{standard_deck, FrenchPlayingCard, Suit};
use crate::pile::{moved_piles, pile_seq, popped_pile, same_pile, Pile};

verus! {

pub type Card = FrenchPlayingCard;

#[derive(Debug, Copy, Clone, PartialEq, Eq, Hash, Structural)]
pub enum KlondikeErr {
    Capacity,
    InvalidCard,
    InvalidRank,
    InvalidSuit,
    InvalidColor,
    InvalidMove,
}

pub type KlondikeResult<T> = Result<T, KlondikeErr>;

/// Zone a move takes its card (or run of cards) from.
#[derive(Debug, Copy, Clone, PartialEq, Eq, Structural)]
pub enum MoveSource {
    Deck,
    Foundation(Suit),
    Pile(u8),
}

/// Zone a move delivers to; a foundation target is resolved by the suit of
/// the moved card.
#[derive(Debug, Copy, Clone, PartialEq, Eq, Structural)]
pub enum MoveTarget {
    Foundation,
    Pile(u8),
}

/// The fixed position of each suit's foundation.
pub open spec fn foundation_index_spec(suit: Suit) -> int {
    match suit {
        Suit::Hearts => 0,
        Suit::Diamonds => 1,
        Suit::Spades => 2,
        Suit::Clubs => 3,
    }
}

/// The suit whose foundation sits at a given position.
pub open spec fn foundation_suit(i: int) -> Suit {
    if i == 0 {
        Suit::Hearts
    } else if i == 1 {
        Suit::Diamonds
    } else if i == 2 {
        Suit::Spades
    } else {
        Suit::Clubs
    }
}

/// Where the deal for each pile starts in the shuffled pool: pile `i`
/// receives cards `deal_start(i) .. deal_start(i + 1)`, and the deck
/// receives the remainder from `deal_start(7)` on.
pub open spec fn deal_start(i: int) -> int {
    if i <= 0 {
        0
    } else if i == 1 {
        1
    } else if i == 2 {
        3
    } else if i == 3 {
        6
    } else if i == 4 {
        10
    } else if i == 5 {
        15
    } else if i == 6 {
        21
    } else {
        28
    }
}

/// All piles hold the same cards in both sequences, except possibly at the
/// two given positions.
pub open spec fn same_piles_except(a: Seq<Pile>, b: Seq<Pile>, i: int, j: int) -> bool {
    a.len() == b.len() && forall|m: int|
        0 <= m < a.len() && m != i && m != j ==> same_pile(#[trigger] a[m], b[m])
}

/// Two games whose zones all hold the same cards in the same order.
pub open spec fn same_game(a: KlondikeSolitaireGame, b: KlondikeSolitaireGame) -> bool {
    &&& a.cards@ == b.cards@
    &&& same_deck(a.deck, b.deck)
    &&& a.foundations@ == b.foundations@
    &&& same_piles_except(a.piles@, b.piles@, -1, -1)
}

/// The cards a row of piles holds, as a multiset.
pub open spec fn piles_mset(ps: Seq<Pile>) -> Multiset<Card>
    decreases ps.len(),
{
    if ps.len() == 0 {
        Multiset::empty()
    } else {
        piles_mset(ps.drop_last()).add(pile_seq(ps.last()).to_multiset())
    }
}

/// Replacing one pile exchanges exactly that pile's cards in the row's
/// multiset.
proof fn lemma_piles_mset_update(ps: Seq<Pile>, i: int, p: Pile)
    requires
        0 <= i < ps.len(),
    ensures
        piles_mset(ps.update(i, p)).add(pile_seq(ps[i]).to_multiset()) == piles_mset(ps).add(
            pile_seq(p).to_multiset(),
        ),
    decreases ps.len(),
{
    broadcast use vstd::multiset::group_multiset_axioms;

    let qs = ps.update(i, p);
    if i == ps.len() - 1 {
        assert(qs.drop_last() =~= ps.drop_last());
        assert(qs.last() == p);
        assert(piles_mset(qs) == piles_mset(ps.drop_last()).add(pile_seq(p).to_multiset()));
        assert(piles_mset(ps) == piles_mset(ps.drop_last()).add(pile_seq(ps[i]).to_multiset()));
        assert forall|x: Card|
            piles_mset(qs).add(pile_seq(ps[i]).to_multiset()).count(x) == piles_mset(ps).add(
                pile_seq(p).to_multiset(),
            ).count(x) by {
            broadcast use vstd::multiset::group_multiset_axioms;

            assert(piles_mset(ps.drop_last()).add(pile_seq(p).to_multiset()).count(x)
                == piles_mset(ps.drop_last()).count(x) + pile_seq(p).to_multiset().count(x));
            assert(piles_mset(ps.drop_last()).add(pile_seq(ps[i]).to_multiset()).count(x)
                == piles_mset(ps.drop_last()).count(x) + pile_seq(ps[i]).to_multiset().count(x));
        }
        assert(piles_mset(qs).add(pile_seq(ps[i]).to_multiset()) =~= piles_mset(ps).add(
            pile_seq(p).to_multiset(),
        ));
    } else {
        assert(qs.drop_last() =~= ps.drop_last().update(i, p));
        assert(qs.last() == ps.last());
        lemma_piles_mset_update(ps.drop_last(), i, p);
        assert(ps.drop_last()[i] == ps[i]);
        assert(piles_mset(qs) == piles_mset(ps.drop_last().update(i, p)).add(
            pile_seq(ps.last()).to_multiset(),
        ));
        assert(piles_mset(ps) == piles_mset(ps.drop_last()).add(pile_seq(ps.last()).to_multiset()));
        assert forall|x: Card|
            piles_mset(qs).add(pile_seq(ps[i]).to_multiset()).count(x) == piles_mset(ps).add(
                pile_seq(p).to_multiset(),
            ).count(x) by {
            broadcast use vstd::multiset::group_multiset_axioms;

            assert(piles_mset(ps.drop_last().update(i, p)).add(
                pile_seq(ps[i]).to_multiset(),
            ).count(x) == piles_mset(ps.drop_last()).add(pile_seq(p).to_multiset()).count(x));
            assert(piles_mset(qs).count(x) == piles_mset(ps.drop_last().update(i, p)).count(x)
                + pile_seq(ps.last()).to_multiset().count(x));
            assert(piles_mset(ps).count(x) == piles_mset(ps.drop_last()).count(x) + pile_seq(
                ps.last(),
            ).to_multiset().count(x));
        }
        assert(piles_mset(qs).add(pile_seq(ps[i]).to_multiset()) =~= piles_mset(ps).add(
            pile_seq(p).to_multiset(),
        ));
    }
}

/// The multiset of a seven-pile row, spelled out pile by pile.
proof fn lemma_piles_mset_unfold7(ps: Seq<Pile>)
    requires
        ps.len() == 7,
    ensures
        piles_mset(ps) == pile_seq(ps[0]).to_multiset().add(pile_seq(ps[1]).to_multiset()).add(
            pile_seq(ps[2]).to_multiset(),
        ).add(pile_seq(ps[3]).to_multiset()).add(pile_seq(ps[4]).to_multiset()).add(
            pile_seq(ps[5]).to_multiset(),
        ).add(pile_seq(ps[6]).to_multiset()),
{
    broadcast use vstd::multiset::group_multiset_axioms;

    let s6 = ps.drop_last();
    let s5 = s6.drop_last();
    let s4 = s5.drop_last();
    let s3 = s4.drop_last();
    let s2 = s3.drop_last();
    let s1 = s2.drop_last();
    let s0 = s1.drop_last();
    assert(piles_mset(s0) == Multiset::<Card>::empty());
    assert(piles_mset(s1) == piles_mset(s0).add(pile_seq(ps[0]).to_multiset()));
    assert(piles_mset(s2) == piles_mset(s1).add(pile_seq(ps[1]).to_multiset()));
    assert(piles_mset(s3) == piles_mset(s2).add(pile_seq(ps[2]).to_multiset()));
    assert(piles_mset(s4) == piles_mset(s3).add(pile_seq(ps[3]).to_multiset()));
    assert(piles_mset(s5) == piles_mset(s4).add(pile_seq(ps[4]).to_multiset()));
    assert(piles_mset(s6) == piles_mset(s5).add(pile_seq(ps[5]).to_multiset()));
    assert(piles_mset(ps) == piles_mset(s6).add(pile_seq(ps[6]).to_multiset()));
    assert(piles_mset(ps) =~= pile_seq(ps[0]).to_multiset().add(pile_seq(ps[1]).to_multiset()).add(
        pile_seq(ps[2]).to_multiset(),
    ).add(pile_seq(ps[3]).to_multiset()).add(pile_seq(ps[4]).to_multiset()).add(
        pile_seq(ps[5]).to_multiset(),
    ).add(pile_seq(ps[6]).to_multiset()));
}

/// The concatenated card sequences of the first `n` piles of a row.
pub open spec fn piles_prefix_seq(ps: Seq<Pile>, n: int) -> Seq<Card>
    decreases n,
{
    if n <= 0 {
        Seq::empty()
    } else {
        piles_prefix_seq(ps, n - 1) + pile_seq(ps[n - 1])
    }
}

pub struct KlondikeSolitaireGame {
    pub cards: Vec<Card>,
    pub foundations: Vec<Foundation>,
    pub piles: Vec<Pile>,
    pub deck: Deck,
}

impl KlondikeSolitaireGame {
    /// Every card held by the game's zones, as a multiset: the deck's
    /// backing sequence, the four foundations' runs, and the piles' hidden
    /// and visible regions.
    pub open spec fn zone_mset(self) -> Multiset<Card> {
        self.deck.cards@.to_multiset().add(self.foundations@[0].cards_seq().to_multiset()).add(
            self.foundations@[1].cards_seq().to_multiset(),
        ).add(self.foundations@[2].cards_seq().to_multiset()).add(
            self.foundations@[3].cards_seq().to_multiset(),
        ).add(piles_mset(self.piles@))
    }

    /// The game's frame: the pool holds exactly the 52 standard cards, the
    /// deck is structurally sound, and the four foundations sit in their
    /// fixed suit order over seven pile slots.
    pub open spec fn wf_base(self) -> bool {
        &&& self.cards@.to_multiset() == standard_deck().to_multiset()
        &&& self.deck.wf()
        &&& self.foundations@.len() == 4
        &&& forall|i: int|
            0 <= i < 4 ==> (#[trigger] self.foundations@[i]).wf() && self.foundations@[i].suit
                == foundation_suit(i)
        &&& self.piles@.len() == 7
    }

    /// The global invariant: the frame holds, every pile is well formed
    /// with no more hidden cards than its position allows, and the zones
    /// together hold exactly the 52 standard cards.
    pub open spec fn wf(self) -> bool {
        &&& self.wf_base()
        &&& forall|i: int|
            0 <= i < 7 ==> (#[trigger] self.piles@[i]).wf()
                && self.piles@[i].hidden_cards@.len() <= i
        &&& self.zone_mset() == standard_deck().to_multiset()
    }

    /// All four foundations are full.
    pub open spec fn is_clear_spec(self) -> bool {
        forall|i: int| 0 <= i < 4 ==> (#[trigger] self.foundations@[i]).is_full_spec()
    }

    /// The layout right after a deal: empty foundations, pile `i` holding
    /// cards `deal_start(i) .. deal_start(i + 1)` of the pool with only the
    /// last one face up, and the pool's last 24 cards in the deck with the
    /// window collapsed.
    pub open spec fn freshly_dealt(self) -> bool {
        &&& forall|i: int|
            0 <= i < 4 ==> (#[trigger] self.foundations@[i]).current_rank_index is None
        &&& forall|i: int|
            0 <= i < 7 ==> (#[trigger] self.piles@[i]).hidden_cards@ == self.cards@.subrange(
                deal_start(i),
                deal_start(i + 1) - 1,
            ) && self.piles@[i].visible_cards@ == seq![self.cards@[deal_start(i + 1) - 1]]
        &&& self.deck.cards@ == self.cards@.subrange(28, 52)
        &&& self.deck.visible_index == 0
        &&& self.deck.visible_count == 0
    }

    fn foundation_index(suit: Suit) -> (i: usize)
        ensures
            i == foundation_index_spec(suit),
    {
        match suit {
            Suit::Hearts => 0,
            Suit::Diamonds => 1,
            Suit::Spades => 2,
            Suit::Clubs => 3,
        }
    }

    pub fn foundation(&self, suit: Suit) -> (f: &Foundation)
        requires
            self.wf_base(),
        ensures
            *f == self.foundations@[foundation_index_spec(suit)],
            f.suit == suit,
    {
        &self.foundations[KlondikeSolitaireGame::foundation_index(suit)]
    }

    pub fn deck(&self) -> (d: &Deck)
        ensures
            *d == self.deck,
    {
        &self.deck
    }

    pub fn piles(&self) -> (p: &[Pile])
        ensures
            p@ == self.piles@,
    {
        self.piles.as_slice()
    }

    pub fn pile(&self, index: usize) -> (p: &Pile)
        requires
            index < self.piles@.len(),
        ensures
            *p == self.piles@[index as int],
    {
        &self.piles[index]
    }

    /// Each zone holds at most the 52 cards the game conserves.
    proof fn lemma_zone_sizes(self)
        requires
            self.wf(),
        ensures
            self.deck.cards@.len() <= 52,
            forall|i: int| 0 <= i < 7 ==> pile_seq(#[trigger] self.piles@[i]).len() <= 52,
    {
        broadcast use vstd::multiset::group_multiset_axioms;
        broadcast use vstd::seq_lib::group_to_multiset_ensures;

        crate::french::lemma_standard_deck_complete();
        lemma_piles_mset_unfold7(self.piles@);
        assert(standard_deck().to_multiset().len() == 52);
        assert forall|i: int| 0 <= i < 7 implies pile_seq(#[trigger] self.piles@[i]).len()
            <= 52 by {
            assert(pile_seq(self.piles@[i]).to_multiset().len() == pile_seq(
                self.piles@[i],
            ).len());
        }
    }

    pub fn new(draw_count: u8) -> (g: KlondikeSolitaireGame)
        requires
            1 <= draw_count <= 24,
        ensures
            g.wf(),
            g.deck.draw_count == draw_count as usize,
            g.freshly_dealt(),
    {
        KlondikeSolitaireGame::new_shuffle(draw_count, crate::shuffle::default_shuffle)
    }

    /// Builds a freshly dealt game from a shuffled standard deck; the
    /// shuffle function must permute the cards it is given.
    pub fn new_shuffle<F: FnOnce(Vec<Card>) -> Vec<Card>>(draw_count: u8, shuffle: F) -> (g:
        KlondikeSolitaireGame)
        requires
            1 <= draw_count <= 24,
            forall|v: Vec<Card>| v@ == standard_deck() ==> #[trigger] call_requires(shuffle, (v,)),
            forall|v: Vec<Card>, r: Vec<Card>| #[trigger]
                call_ensures(shuffle, (v,), r) ==> r@.to_multiset() == v@.to_multiset(),
        ensures
            g.wf(),
            g.deck.draw_count == draw_count as usize,
            g.freshly_dealt(),
            exists|v: Vec<Card>, r: Vec<Card>|
                v@ == standard_deck() && #[trigger] call_ensures(shuffle, (v,), r) && g.cards@
                    == r@,
    {
        let cards = crate::french::new_standard_deck();
        let ghost unshuffled = cards;
        let cards = shuffle(cards);
        let ghost shuffled = cards;
        let mut foundations: Vec<Foundation> = Vec::with_capacity(4);
        foundations.push(Foundation::new(Suit::Hearts));
        foundations.push(Foundation::new(Suit::Diamonds));
        foundations.push(Foundation::new(Suit::Spades));
        foundations.push(Foundation::new(Suit::Clubs));
        let mut piles: Vec<Pile> = Vec::with_capacity(7);
        let mut i: usize = 0;
        while i < 7
            invariant
                i <= 7,
                piles@.len() == i,
                forall|j: int|
                    0 <= j < i ==> (#[trigger] piles@[j]).wf() && piles@[j].visible_cards@.len()
                        == 0 && piles@[j].hidden_cards@.len() == 0,
            decreases 7 - i,
        {
            piles.push(Pile::new());
            i = i + 1;
        }
        let mut game = KlondikeSolitaireGame {
            cards,
            foundations,
            piles,
            deck: Deck::new(draw_count),
        };
        game.reset();
        proof {
            assert(unshuffled@ == standard_deck() && call_ensures(shuffle, (unshuffled,), shuffled)
                && game.cards@ == shuffled@);
        }
        game
    }

    /// The 52-card pool that `from` rebuilds: every zone walked in order —
    /// the deck's backing sequence, the given foundations, then each pile's
    /// hidden cards followed by its visible cards.
    pub open spec fn from_pool_seq(deck: Deck, fs: Seq<Foundation>, ps: Seq<Pile>) -> Seq<Card> {
        deck.cards@ + fs[0].cards_seq() + fs[1].cards_seq() + fs[2].cards_seq() + fs[3].cards_seq()
            + pile_seq(ps[0]) + pile_seq(ps[1]) + pile_seq(ps[2]) + pile_seq(ps[3]) + pile_seq(
            ps[4],
        ) + pile_seq(ps[5]) + pile_seq(ps[6])
    }

    /// The foundation with the given suit, among four that cover each suit
    /// once.
    fn foundation_with_suit(fs: &[Foundation; 4], suit: Suit) -> (f: Foundation)
        requires
            exists|j: int| 0 <= j < 4 && fs@[j].suit == suit,
        ensures
            f.suit == suit,
            exists|j: int| 0 <= j < 4 && fs@[j] == f,
    {
        if fs[0].suit() == suit {
            fs[0]
        } else if fs[1].suit() == suit {
            fs[1]
        } else if fs[2].suit() == suit {
            fs[2]
        } else {
            fs[3]
        }
    }

    /// Rebuilds a game from its zones. The zones together must hold 52
    /// distinct cards, the four foundations must cover each suit once, and
    /// each pile may hide no more cards than its position allows; the
    /// foundations are reordered into their canonical suit positions.
    #[verifier::rlimit(100)]
    pub fn from(deck: Deck, foundations: [Foundation; 4], piles: Vec<Pile>) -> (g:
        KlondikeSolitaireGame)
        requires
            deck.wf(),
            forall|i: int| 0 <= i < deck.cards@.len() ==> (#[trigger] deck.cards@[i]).wf(),
            forall|j: int| 0 <= j < 4 ==> (#[trigger] foundations@[j]).wf(),
            exists|j: int| 0 <= j < 4 && (#[trigger] foundations@[j]).suit == Suit::Hearts,
            exists|j: int| 0 <= j < 4 && (#[trigger] foundations@[j]).suit == Suit::Diamonds,
            exists|j: int| 0 <= j < 4 && (#[trigger] foundations@[j]).suit == Suit::Spades,
            exists|j: int| 0 <= j < 4 && (#[trigger] foundations@[j]).suit == Suit::Clubs,
            piles@.len() == 7,
            forall|i: int|
                0 <= i < 7 ==> (#[trigger] piles@[i]).wf() && piles@[i].hidden_cards@.len() <= i,
            Self::from_pool_seq(deck, foundations@, piles@).no_duplicates(),
            Self::from_pool_seq(deck, foundations@, piles@).len() == 52,
        ensures
            g.wf(),
            same_deck(g.deck, deck),
            forall|i: int| 0 <= i < 7 ==> same_pile(#[trigger] g.piles@[i], piles@[i]),
            forall|i: int| 0 <= i < 4 ==> (#[trigger] g.foundations@[i]).suit == foundation_suit(i),
            forall|j: int|
                0 <= j < 4 ==> g.foundations@[foundation_index_spec(
                    #[trigger] foundations@[j].suit,
                )] == foundations@[j],
            g.cards@ == Self::from_pool_seq(deck, foundations@, piles@),
    {
        let mut cards: Vec<Card> = Vec::with_capacity(52);
        cards.extend_from_slice(deck.waste_cards());
        cards.extend_from_slice(deck.visible_cards());
        cards.extend_from_slice(deck.remaining_cards());
        proof {
            assert(cards@ =~= deck.cards@);
        }
        let mut f0_cards = foundations[0].cards();
        let mut f1_cards = foundations[1].cards();
        let mut f2_cards = foundations[2].cards();
        let mut f3_cards = foundations[3].cards();
        cards.append(&mut f0_cards);
        cards.append(&mut f1_cards);
        cards.append(&mut f2_cards);
        cards.append(&mut f3_cards);
        let mut i: usize = 0;
        while i < 7
            invariant
                piles@.len() == 7,
                i <= 7,
                cards@ =~= (deck.cards@ + foundations@[0].cards_seq() + foundations@[1].cards_seq()
                    + foundations@[2].cards_seq() + foundations@[3].cards_seq()) + piles_prefix_seq(
                    piles@,
                    i as int,
                ),
            decreases 7 - i,
        {
            cards.extend_from_slice(piles[i].hidden_cards());
            cards.extend_from_slice(piles[i].visible_cards());
            proof {
                assert(piles_prefix_seq(piles@, i + 1) == piles_prefix_seq(piles@, i as int)
                    + pile_seq(piles@[i as int]));
                assert(cards@ =~= (deck.cards@ + foundations@[0].cards_seq()
                    + foundations@[1].cards_seq() + foundations@[2].cards_seq()
                    + foundations@[3].cards_seq()) + piles_prefix_seq(piles@, i + 1));
            }
            i = i + 1;
        }
        proof {
            let ps = piles@;
            assert(piles_prefix_seq(ps, 0) == Seq::<Card>::empty());
            assert(piles_prefix_seq(ps, 1) == piles_prefix_seq(ps, 0) + pile_seq(ps[0]));
            assert(piles_prefix_seq(ps, 2) == piles_prefix_seq(ps, 1) + pile_seq(ps[1]));
            assert(piles_prefix_seq(ps, 3) == piles_prefix_seq(ps, 2) + pile_seq(ps[2]));
            assert(piles_prefix_seq(ps, 4) == piles_prefix_seq(ps, 3) + pile_seq(ps[3]));
            assert(piles_prefix_seq(ps, 5) == piles_prefix_seq(ps, 4) + pile_seq(ps[4]));
            assert(piles_prefix_seq(ps, 6) == piles_prefix_seq(ps, 5) + pile_seq(ps[5]));
            assert(piles_prefix_seq(ps, 7) == piles_prefix_seq(ps, 6) + pile_seq(ps[6]));
            assert(cards@ =~= Self::from_pool_seq(deck, foundations@, piles@));
        }
        let mut sorted: Vec<Foundation> = Vec::with_capacity(4);
        sorted.push(KlondikeSolitaireGame::foundation_with_suit(&foundations, Suit::Hearts));
        sorted.push(KlondikeSolitaireGame::foundation_with_suit(&foundations, Suit::Diamonds));
        sorted.push(KlondikeSolitaireGame::foundation_with_suit(&foundations, Suit::Spades));
        sorted.push(KlondikeSolitaireGame::foundation_with_suit(&foundations, Suit::Clubs));
        let g = KlondikeSolitaireGame { cards, foundations: sorted, piles, deck };
        proof {
            KlondikeSolitaireGame::lemma_from_well_formed(g, deck, foundations@, piles@);
        }
        g
    }

    /// Every card of the walked pool has a standard rank: deck cards by
    /// assumption, foundation cards by construction, pile cards by the
    /// piles' own invariant.
    #[verifier::rlimit(100)]
    proof fn lemma_from_pool_wf(deck: Deck, fs: Seq<Foundation>, ps: Seq<Pile>)
        requires
            forall|i: int| 0 <= i < deck.cards@.len() ==> (#[trigger] deck.cards@[i]).wf(),
            forall|j: int| 0 <= j < 4 ==> (#[trigger] fs[j]).wf(),
            ps.len() == 7,
            forall|i: int| 0 <= i < 7 ==> (#[trigger] ps[i]).wf(),
        ensures
            forall|i: int|
                0 <= i < Self::from_pool_seq(deck, fs, ps).len() ==> (#[trigger] Self::from_pool_seq(
                    deck,
                    fs,
                    ps,
                )[i]).wf(),
    {
        crate::french::lemma_rank_ord_bijective();
        let pool = Self::from_pool_seq(deck, fs, ps);
        assert forall|i: int| 0 <= i < pool.len() implies (#[trigger] pool[i]).wf() by {
            assert forall|j: int, k: int|
                0 <= j < 4 && 0 <= k < fs[j].cards_seq().len() implies (#[trigger] fs[
            j].cards_seq()[k]).wf() by {
                assert(fs[j].cards_seq()[k] == crate::foundation::suit_card(fs[j].suit, k));
            }
        }
    }

    /// The reconstructed game is well formed: its pool holds 52 distinct
    /// well-formed cards (so exactly the canonical deck), and the zones
    /// hold the same cards as the pool.
    #[verifier::rlimit(100)]
    proof fn lemma_from_well_formed(
        g: KlondikeSolitaireGame,
        deck: Deck,
        fs: Seq<Foundation>,
        ps: Seq<Pile>,
    )
        requires
            deck.wf(),
            forall|i: int| 0 <= i < deck.cards@.len() ==> (#[trigger] deck.cards@[i]).wf(),
            forall|j: int| 0 <= j < 4 ==> (#[trigger] fs[j]).wf(),
            exists|j: int| 0 <= j < 4 && (#[trigger] fs[j]).suit == Suit::Hearts,
            exists|j: int| 0 <= j < 4 && (#[trigger] fs[j]).suit == Suit::Diamonds,
            exists|j: int| 0 <= j < 4 && (#[trigger] fs[j]).suit == Suit::Spades,
            exists|j: int| 0 <= j < 4 && (#[trigger] fs[j]).suit == Suit::Clubs,
            forall|i: int|
                0 <= i < 7 ==> (#[trigger] ps[i]).wf() && ps[i].hidden_cards@.len() <= i,
            Self::from_pool_seq(deck, fs, ps).no_duplicates(),
            Self::from_pool_seq(deck, fs, ps).len() == 52,
            g.cards@ == Self::from_pool_seq(deck, fs, ps),
            g.deck == deck,
            ps.len() == 7,
            g.piles@ == ps,
            g.foundations@.len() == 4,
            forall|i: int|
                0 <= i < 4 ==> (#[trigger] g.foundations@[i]).suit == foundation_suit(i)
                    && exists|j: int| 0 <= j < 4 && fs[j] == g.foundations@[i],
        ensures
            g.wf(),
    {
        let pool = Self::from_pool_seq(deck, fs, ps);
        Self::lemma_from_pool_wf(deck, fs, ps);
        crate::french::lemma_full_deck_mset(pool);
        // The zones' multiset is the pool's multiset: peel the twelve
        // segments off the concatenation one by one.
        let s1 = deck.cards@;
        let s2 = s1 + fs[0].cards_seq();
        let s3 = s2 + fs[1].cards_seq();
        let s4 = s3 + fs[2].cards_seq();
        let s5 = s4 + fs[3].cards_seq();
        let s6 = s5 + pile_seq(ps[0]);
        let s7 = s6 + pile_seq(ps[1]);
        let s8 = s7 + pile_seq(ps[2]);
        let s9 = s8 + pile_seq(ps[3]);
        let s10 = s9 + pile_seq(ps[4]);
        let s11 = s10 + pile_seq(ps[5]);
        vstd::seq_lib::lemma_multiset_commutative(s1, fs[0].cards_seq());
        vstd::seq_lib::lemma_multiset_commutative(s2, fs[1].cards_seq());
        vstd::seq_lib::lemma_multiset_commutative(s3, fs[2].cards_seq());
        vstd::seq_lib::lemma_multiset_commutative(s4, fs[3].cards_seq());
        vstd::seq_lib::lemma_multiset_commutative(s5, pile_seq(ps[0]));
        vstd::seq_lib::lemma_multiset_commutative(s6, pile_seq(ps[1]));
        vstd::seq_lib::lemma_multiset_commutative(s7, pile_seq(ps[2]));
        vstd::seq_lib::lemma_multiset_commutative(s8, pile_seq(ps[3]));
        vstd::seq_lib::lemma_multiset_commutative(s9, pile_seq(ps[4]));
        vstd::seq_lib::lemma_multiset_commutative(s10, pile_seq(ps[5]));
        vstd::seq_lib::lemma_multiset_commutative(s11, pile_seq(ps[6]));
        lemma_piles_mset_unfold7(ps);
        broadcast use vstd::multiset::group_multiset_axioms;

        // The four given foundations, reordered by suit, hold the same
        // cards: each canonical slot holds one of the given foundations and
        // distinct suits make the correspondence one to one.
        assert forall|a: int, b: int| 0 <= a < b < 4 implies fs[a].suit != fs[b].suit by {
            if fs[a].suit == fs[b].suit {
                let wit = |s: Suit| choose|j: int| 0 <= j < 4 && fs[j].suit == s;
                let jh = wit(Suit::Hearts);
                let jd = wit(Suit::Diamonds);
                let js = wit(Suit::Spades);
                let jc = wit(Suit::Clubs);
                assert(0 <= jh < 4 && fs[jh].suit == Suit::Hearts);
                assert(0 <= jd < 4 && fs[jd].suit == Suit::Diamonds);
                assert(0 <= js < 4 && fs[js].suit == Suit::Spades);
                assert(0 <= jc < 4 && fs[jc].suit == Suit::Clubs);
                assert(a == jh || a == jd || a == js || a == jc);
                assert(b == jh || b == jd || b == js || b == jc);
            }
        }
        let j0 = choose|j: int| 0 <= j < 4 && fs[j] == g.foundations@[0];
        let j1 = choose|j: int| 0 <= j < 4 && fs[j] == g.foundations@[1];
        let j2 = choose|j: int| 0 <= j < 4 && fs[j] == g.foundations@[2];
        let j3 = choose|j: int| 0 <= j < 4 && fs[j] == g.foundations@[3];
        assert(0 <= j0 < 4 && fs[j0] == g.foundations@[0]);
        assert(0 <= j1 < 4 && fs[j1] == g.foundations@[1]);
        assert(0 <= j2 < 4 && fs[j2] == g.foundations@[2]);
        assert(0 <= j3 < 4 && fs[j3] == g.foundations@[3]);
        assert(j0 != j1 && j0 != j2 && j0 != j3 && j1 != j2 && j1 != j3 && j2 != j3);
        assert forall|x: Card|
            g.zone_mset().count(x) == Self::from_pool_seq(deck, fs, ps).to_multiset().count(
                x,
            ) by {
            vstd::multiset::axiom_multiset_add(
                g.foundations@[0].cards_seq().to_multiset(),
                g.foundations@[1].cards_seq().to_multiset(),
                x,
            );
            assert(fs[j0].cards_seq().to_multiset().count(x) + fs[j1].cards_seq().to_multiset()
                .count(x) + fs[j2].cards_seq().to_multiset().count(x)
                + fs[j3].cards_seq().to_multiset().count(x) == fs[0].cards_seq().to_multiset()
                .count(x) + fs[1].cards_seq().to_multiset().count(x) + fs[2].cards_seq()
                .to_multiset().count(x) + fs[3].cards_seq().to_multiset().count(x));
        }
        assert(g.zone_mset() =~= standard_deck().to_multiset());
    }

    /// Clears the foundations, deals one to seven cards into the piles
    /// (pile `i` gets `i + 1`, the last one face up) and hands the
    /// remaining 24 cards to the deck.
    pub fn reset(&mut self)
        requires
            old(self).wf_base(),
        ensures
            final(self).wf(),
            final(self).cards@ == old(self).cards@,
            final(self).deck.draw_count == old(self).deck.draw_count,
            forall|i: int|
                0 <= i < 4 ==> (#[trigger] final(self).foundations@[i]).suit == old(self).foundations@[i].suit && final(self).foundations@[i].current_rank_index is None,
            forall|i: int|
                0 <= i < 7 ==> (#[trigger] final(self).piles@[i]).hidden_cards@ == old(self).cards@.subrange(deal_start(i), deal_start(i + 1) - 1) && final(self).piles@[i].visible_cards@ == seq![old(self).cards@[deal_start(i + 1) - 1]],
            final(self).deck.cards@ == old(self).cards@.subrange(28, 52),
            final(self).deck.visible_index == 0,
            final(self).deck.visible_count == 0,
            final(self).freshly_dealt(),
    {
        proof {
            crate::french::lemma_standard_mset_seq(self.cards@);
        }
        self.foundations[0].clear();
        self.foundations[1].clear();
        self.foundations[2].clear();
        self.foundations[3].clear();
        self.piles[0].reset(&self.cards[0..1]);
        self.piles[1].reset(&self.cards[1..3]);
        self.piles[2].reset(&self.cards[3..6]);
        self.piles[3].reset(&self.cards[6..10]);
        self.piles[4].reset(&self.cards[10..15]);
        self.piles[5].reset(&self.cards[15..21]);
        self.piles[6].reset(&self.cards[21..28]);
        let pool_len = self.cards.len();
        self.deck.reset(&self.cards[28..pool_len]);
        proof {
            let pool = self.cards@;
            assert(pool =~= pool.subrange(0, 1) + pool.subrange(1, 3) + pool.subrange(3, 6)
                + pool.subrange(6, 10) + pool.subrange(10, 15) + pool.subrange(15, 21)
                + pool.subrange(21, 28) + pool.subrange(28, 52));
            assert forall|i: int| 0 <= i < 7 implies pile_seq(#[trigger] self.piles@[i])
                == pool.subrange(deal_start(i), deal_start(i + 1)) by {
                assert(pile_seq(self.piles@[i]) == self.piles@[i].hidden_cards@
                    + self.piles@[i].visible_cards@);
                assert(pile_seq(self.piles@[i]) =~= pool.subrange(
                    deal_start(i),
                    deal_start(i + 1),
                ));
            }
            lemma_concat_mset_8(
                pool.subrange(0, 1),
                pool.subrange(1, 3),
                pool.subrange(3, 6),
                pool.subrange(6, 10),
                pool.subrange(10, 15),
                pool.subrange(15, 21),
                pool.subrange(21, 28),
                pool.subrange(28, 52),
            );
            broadcast use vstd::multiset::group_multiset_axioms;
            broadcast use vstd::seq_lib::group_to_multiset_ensures;

            assert(Seq::<Card>::empty().to_multiset() =~= Multiset::<Card>::empty()) by {
                vstd::multiset::lemma_multiset_empty_len(Seq::<Card>::empty().to_multiset());
            }
            lemma_piles_mset_unfold7(self.piles@);
            assert(self.zone_mset() =~= standard_deck().to_multiset());
            assert(self.cards@ == old(self).cards@);
            assert forall|i: int| 0 <= i < 7 implies (#[trigger] self.piles@[i]).hidden_cards@
                == self.cards@.subrange(deal_start(i), deal_start(i + 1) - 1)
                && self.piles@[i].visible_cards@ == seq![
                self.cards@[deal_start(i + 1) - 1],
            ] by {
                assert(self.piles@[i].hidden_cards@ == old(self).cards@.subrange(
                    deal_start(i),
                    deal_start(i + 1) - 1,
                ));
            }
            assert(self.freshly_dealt());
        }
    }

    /// True if the table is clear (all cards are in foundation); the
    /// conservation invariant then forces the piles and the deck empty.
    pub fn is_clear(&self) -> (r: bool)
        requires
            self.wf(),
        ensures
            r == self.is_clear_spec(),
            r ==> forall|i: int|
                0 <= i < 7 ==> pile_seq(#[trigger] self.piles@[i]).len() == 0,
            r ==> self.deck.cards@.len() == 0,
    {
        let clear = self.foundations[0].is_full() && self.foundations[1].is_full()
            && self.foundations[2].is_full() && self.foundations[3].is_full();
        proof {
            if clear {
                assert forall|i: int| 0 <= i < 4 implies (#[trigger]
                self.foundations@[i]).is_full_spec() by {
                    if i == 0 {
                    } else if i == 1 {
                    } else if i == 2 {
                    } else {
                    }
                }
                broadcast use vstd::multiset::group_multiset_axioms;
                broadcast use vstd::seq_lib::group_to_multiset_ensures;

                crate::french::lemma_standard_deck_complete();
                lemma_piles_mset_unfold7(self.piles@);
                assert(standard_deck().to_multiset().len() == 52);
                assert(self.foundations@[0].cards_seq().len() == 13);
                assert(self.foundations@[1].cards_seq().len() == 13);
                assert(self.foundations@[2].cards_seq().len() == 13);
                assert(self.foundations@[3].cards_seq().len() == 13);
            } else {
                assert(!self.foundations@[0].is_full_spec() || !self.foundations@[1].is_full_spec()
                    || !self.foundations@[2].is_full_spec()
                    || !self.foundations@[3].is_full_spec());
            }
        }
        clear
    }

    /// Advances the deck's visible window.
    pub fn draw(&mut self)
        requires
            old(self).wf(),
        ensures
            final(self).wf(),
            final(self).cards@ == old(self).cards@,
            final(self).foundations@ == old(self).foundations@,
            same_piles_except(old(self).piles@, final(self).piles@, -1, -1),
            final(self).deck.cards@ == old(self).deck.cards@,
            final(self).deck.draw_count == old(self).deck.draw_count,
            (final(self).deck.visible_index as int, final(self).deck.visible_count as int)
                == crate::deck::draw_window(
                old(self).deck.cards@.len() as int,
                old(self).deck.draw_count as int,
                old(self).deck.visible_index as int,
                old(self).deck.visible_count as int,
            ),
    {
        self.deck.draw()
    }

    /// The move state machine. Each transition checks its rule before any
    /// mutation, so a failed move returns `InvalidMove` and leaves every
    /// zone exactly as it was.
    pub fn move_cards(&mut self, source: MoveSource, target: MoveTarget) -> (r: KlondikeResult<()>)
        requires
            old(self).wf(),
            source matches MoveSource::Pile(i) ==> (i as int) < 7,
            target matches MoveTarget::Pile(i) ==> (i as int) < 7,
        ensures
            final(self).wf(),
            final(self).cards@ == old(self).cards@,
            r is Err ==> r == Err::<(), KlondikeErr>(KlondikeErr::InvalidMove) && same_game(
                *final(self),
                *old(self),
            ),
            match (source, target) {
                (MoveSource::Deck, MoveTarget::Foundation) => {
                    &&& (r is Ok <==> (old(self).deck.top_spec() matches Some(c) && old(
                        self,
                    ).foundations@[foundation_index_spec(c.suit)].next_card_spec() == Some(c)))
                    &&& (r is Ok ==> (old(self).deck.top_spec() matches Some(c) && {
                        &&& popped_deck(old(self).deck, final(self).deck)
                        &&& advanced_foundation(
                            old(self).foundations@[foundation_index_spec(c.suit)],
                            final(self).foundations@[foundation_index_spec(c.suit)],
                        )
                        &&& final(self).foundations@ == old(self).foundations@.update(
                            foundation_index_spec(c.suit),
                            final(self).foundations@[foundation_index_spec(c.suit)],
                        )
                        &&& same_piles_except(old(self).piles@, final(self).piles@, -1, -1)
                    }))
                },
                (MoveSource::Deck, MoveTarget::Pile(pi)) => {
                    &&& (r is Ok <==> (old(self).deck.top_spec() matches Some(c) && old(
                        self,
                    ).piles@[pi as int].accepts(c)))
                    &&& (r is Ok ==> (old(self).deck.top_spec() matches Some(c) && {
                        &&& popped_deck(old(self).deck, final(self).deck)
                        &&& final(self).piles@[pi as int].visible_cards@ == old(
                            self,
                        ).piles@[pi as int].visible_cards@.push(c)
                        &&& final(self).piles@[pi as int].hidden_cards@ == old(
                            self,
                        ).piles@[pi as int].hidden_cards@
                        &&& same_piles_except(
                            old(self).piles@,
                            final(self).piles@,
                            pi as int,
                            pi as int,
                        )
                        &&& final(self).foundations@ == old(self).foundations@
                    }))
                },
                (MoveSource::Foundation(_), MoveTarget::Foundation) => r is Ok && same_game(
                    *final(self),
                    *old(self),
                ),
                (MoveSource::Foundation(s), MoveTarget::Pile(pi)) => {
                    &&& (r is Ok <==> (old(
                        self,
                    ).foundations@[foundation_index_spec(s)].top_spec() matches Some(c) && old(
                        self,
                    ).piles@[pi as int].accepts(c)))
                    &&& (r is Ok ==> (old(
                        self,
                    ).foundations@[foundation_index_spec(s)].top_spec() matches Some(c) && {
                        &&& retreated_foundation(
                            old(self).foundations@[foundation_index_spec(s)],
                            final(self).foundations@[foundation_index_spec(s)],
                        )
                        &&& final(self).foundations@ == old(self).foundations@.update(
                            foundation_index_spec(s),
                            final(self).foundations@[foundation_index_spec(s)],
                        )
                        &&& final(self).piles@[pi as int].visible_cards@ == old(
                            self,
                        ).piles@[pi as int].visible_cards@.push(c)
                        &&& final(self).piles@[pi as int].hidden_cards@ == old(
                            self,
                        ).piles@[pi as int].hidden_cards@
                        &&& same_piles_except(
                            old(self).piles@,
                            final(self).piles@,
                            pi as int,
                            pi as int,
                        )
                        &&& same_deck(final(self).deck, old(self).deck)
                    }))
                },
                (MoveSource::Pile(si), MoveTarget::Pile(ti)) => {
                    if si == ti {
                        r is Ok && same_game(*final(self), *old(self))
                    } else {
                        &&& (r is Ok <==> exists|k: int|
                            0 <= k < old(self).piles@[si as int].visible_cards@.len() && old(
                                self,
                            ).piles@[ti as int].accepts(
                                #[trigger] old(self).piles@[si as int].visible_cards@[k],
                            ))
                        &&& (r is Ok ==> {
                            &&& moved_piles(
                                old(self).piles@[si as int],
                                old(self).piles@[ti as int],
                                final(self).piles@[si as int],
                                final(self).piles@[ti as int],
                            )
                            &&& same_piles_except(
                                old(self).piles@,
                                final(self).piles@,
                                si as int,
                                ti as int,
                            )
                            &&& final(self).foundations@ == old(self).foundations@
                            &&& same_deck(final(self).deck, old(self).deck)
                        })
                    }
                },
                (MoveSource::Pile(pi), MoveTarget::Foundation) => {
                    &&& (r is Ok <==> (old(self).piles@[pi as int].top_spec() matches Some(c)
                        && old(self).foundations@[foundation_index_spec(c.suit)].next_card_spec()
                        == Some(c)))
                    &&& (r is Ok ==> (old(self).piles@[pi as int].top_spec() matches Some(c) && {
                        &&& popped_pile(
                            old(self).piles@[pi as int],
                            final(self).piles@[pi as int],
                        )
                        &&& advanced_foundation(
                            old(self).foundations@[foundation_index_spec(c.suit)],
                            final(self).foundations@[foundation_index_spec(c.suit)],
                        )
                        &&& final(self).foundations@ == old(self).foundations@.update(
                            foundation_index_spec(c.suit),
                            final(self).foundations@[foundation_index_spec(c.suit)],
                        )
                        &&& same_piles_except(
                            old(self).piles@,
                            final(self).piles@,
                            pi as int,
                            pi as int,
                        )
                        &&& same_deck(final(self).deck, old(self).deck)
                    }))
                },
            },
    {
        match (source, target) {
            (MoveSource::Deck, MoveTarget::Foundation) => {
                let visible_card = match self.deck.top() {
                    Some(c) => c,
                    None => {
                        return Err(KlondikeErr::InvalidMove);
                    },
                };
                let fdx = KlondikeSolitaireGame::foundation_index(visible_card.suit());
                let matches_next = match self.foundations[fdx].next_card() {
                    Some(n) => n == visible_card,
                    None => false,
                };
                if !matches_next {
                    return Err(KlondikeErr::InvalidMove);
                }
                self.foundations[fdx].push();
                self.deck.pop();
                proof {
                    self.lemma_move_to_foundation_conserves(*old(self), visible_card, fdx as int);
                }
                Ok(())
            },
            (MoveSource::Deck, MoveTarget::Pile(pile_index)) => {
                let pile_index = pile_index as usize;
                let visible_card = match self.deck.top() {
                    Some(c) => c,
                    None => {
                        return Err(KlondikeErr::InvalidMove);
                    },
                };
                proof {
                    old(self).lemma_zone_sizes();
                }
                let pushed = self.piles[pile_index].push(visible_card);
                match pushed {
                    Ok(_) => {
                        self.deck.pop();
                        proof {
                            self.lemma_move_to_pile_conserves(
                                *old(self),
                                visible_card,
                                pile_index as int,
                            );
                        }
                        Ok(())
                    },
                    Err(_) => {
                        proof {
                            assert(self.piles@ =~= old(self).piles@);
                        }
                        Err(KlondikeErr::InvalidMove)
                    },
                }
            },
            (MoveSource::Foundation(_), MoveTarget::Foundation) => {
                // Noop
                Ok(())
            },
            (MoveSource::Foundation(suit), MoveTarget::Pile(pile_index)) => {
                let pile_index = pile_index as usize;
                let fdx = KlondikeSolitaireGame::foundation_index(suit);
                let visible_card = match self.foundations[fdx].top() {
                    Some(c) => c,
                    None => {
                        return Err(KlondikeErr::InvalidMove);
                    },
                };
                proof {
                    old(self).lemma_zone_sizes();
                }
                let pushed = self.piles[pile_index].push(visible_card);
                match pushed {
                    Ok(_) => {
                        self.foundations[fdx].pop();
                        proof {
                            self.lemma_move_from_foundation_conserves(
                                *old(self),
                                visible_card,
                                fdx as int,
                                pile_index as int,
                            );
                        }
                        Ok(())
                    },
                    Err(_) => {
                        proof {
                            assert(self.piles@ =~= old(self).piles@);
                        }
                        Err(KlondikeErr::InvalidMove)
                    },
                }
            },
            (MoveSource::Pile(source_pile_index), MoveTarget::Pile(target_pile_index)) => {
                let source_pile_index = source_pile_index as usize;
                let target_pile_index = target_pile_index as usize;
                if source_pile_index == target_pile_index {
                    // Noop
                    return Ok(());
                }
                let mut source_pile = self.piles.remove(source_pile_index);
                let adjusted_target = if target_pile_index < source_pile_index {
                    target_pile_index
                } else {
                    target_pile_index - 1
                };
                proof {
                    old(self).lemma_zone_sizes();
                    old(self).piles@.remove_ensures(source_pile_index as int);
                    assert(self.piles@[adjusted_target as int] == old(
                        self,
                    ).piles@[target_pile_index as int]);
                }
                let moved = source_pile.move_to(&mut self.piles[adjusted_target]);
                let ghost piles_mid = self.piles@;
                let ghost src_final = source_pile;
                self.piles.insert(source_pile_index, source_pile);
                proof {
                    let osi = source_pile_index as int;
                    let oti = target_pile_index as int;
                    let tj = adjusted_target as int;
                    let tgt_final = piles_mid[tj];
                    piles_mid.insert_ensures(osi, src_final);
                    assert(self.piles@.len() == 7);
                    assert(self.piles@[osi] == src_final);
                    assert(self.piles@[oti] == tgt_final);
                    assert forall|m: int|
                        0 <= m < 7 && m != osi && m != oti implies self.piles@[m] == old(
                        self,
                    ).piles@[m] by {
                        if m < osi {
                            assert(self.piles@[m] == piles_mid[m]);
                        } else {
                            assert(self.piles@[m] == piles_mid[m - 1]);
                        }
                    }
                    assert(self.piles@ =~= old(self).piles@.update(
                        oti,
                        self.piles@[oti],
                    ).update(osi, self.piles@[osi]));
                    if moved is Ok {
                        assert(moved_piles(
                            old(self).piles@[osi],
                            old(self).piles@[oti],
                            self.piles@[osi],
                            self.piles@[oti],
                        ));
                    } else {
                        assert(self.piles@ =~= old(self).piles@);
                    }
                    self.lemma_pile_to_pile_conserves(*old(self), osi, oti);
                }
                moved
            },
            (MoveSource::Pile(pile_index), MoveTarget::Foundation) => {
                let pile_index = pile_index as usize;
                let visible_card = match self.piles[pile_index].top() {
                    Some(c) => c,
                    None => {
                        return Err(KlondikeErr::InvalidMove);
                    },
                };
                let fdx = KlondikeSolitaireGame::foundation_index(visible_card.suit());
                let matches_next = match self.foundations[fdx].next_card() {
                    Some(n) => n == visible_card,
                    None => false,
                };
                if !matches_next {
                    return Err(KlondikeErr::InvalidMove);
                }
                self.foundations[fdx].push();
                self.piles[pile_index].pop();
                proof {
                    self.lemma_pile_to_foundation_conserves(
                        *old(self),
                        visible_card,
                        fdx as int,
                        pile_index as int,
                    );
                }
                Ok(())
            },
        }
    }
}


impl KlondikeSolitaireGame {
    /// Conservation across a deck-to-foundation transfer: the deck lost its
    /// top visible card and the matching foundation gained exactly it.
    #[verifier::rlimit(100)]
    proof fn lemma_move_to_foundation_conserves(self, prev: Self, c: Card, fdx: int)
        requires
            prev.wf(),
            0 <= fdx < 4,
            fdx == foundation_index_spec(c.suit),
            prev.deck.top_spec() == Some(c),
            prev.foundations@[fdx].next_card_spec() == Some(c),
            popped_deck(prev.deck, self.deck),
            advanced_foundation(prev.foundations@[fdx], self.foundations@[fdx]),
            self.foundations@ == prev.foundations@.update(fdx, self.foundations@[fdx]),
            self.piles@ == prev.piles@,
            self.cards@ == prev.cards@,
        ensures
            self.wf(),
    {
        broadcast use vstd::multiset::group_multiset_axioms;
        broadcast use vstd::seq_lib::group_to_multiset_ensures;

        lemma_piles_mset_unfold7(self.piles@);
        lemma_piles_mset_unfold7(prev.piles@);

        let oi = prev.deck.visible_index + prev.deck.visible_count - 1;
        assert(prev.deck.cards@[oi] == c);
        assert(prev.deck.cards@.contains(c));
        assert(self.deck.cards@.to_multiset() == prev.deck.cards@.to_multiset().remove(c));
        assert(self.foundations@[fdx].cards_seq().to_multiset()
            == prev.foundations@[fdx].cards_seq().to_multiset().insert(c));
        assert(self.zone_mset() =~= prev.zone_mset());
    }

    /// Conservation across a deck-to-pile transfer: the deck lost its top
    /// visible card and one pile's visible run gained exactly it.
    #[verifier::rlimit(100)]
    proof fn lemma_move_to_pile_conserves(self, prev: Self, c: Card, pi: int)
        requires
            prev.wf(),
            0 <= pi < 7,
            prev.deck.top_spec() == Some(c),
            popped_deck(prev.deck, self.deck),
            self.piles@[pi].wf(),
            self.piles@[pi].visible_cards@ == prev.piles@[pi].visible_cards@.push(c),
            self.piles@[pi].hidden_cards@ == prev.piles@[pi].hidden_cards@,
            self.piles@ == prev.piles@.update(pi, self.piles@[pi]),
            self.foundations@ == prev.foundations@,
            self.cards@ == prev.cards@,
        ensures
            self.wf(),
    {
        broadcast use vstd::multiset::group_multiset_axioms;
        broadcast use vstd::seq_lib::group_to_multiset_ensures;

        lemma_piles_mset_unfold7(self.piles@);
        lemma_piles_mset_unfold7(prev.piles@);

        let oi = prev.deck.visible_index + prev.deck.visible_count - 1;
        assert(prev.deck.cards@[oi] == c);
        assert(prev.deck.cards@.contains(c));
        assert(self.deck.cards@.to_multiset() == prev.deck.cards@.to_multiset().remove(c));
        assert(pile_seq(self.piles@[pi]) =~= pile_seq(prev.piles@[pi]).push(c));
        assert(pile_seq(self.piles@[pi]).to_multiset() == pile_seq(
            prev.piles@[pi],
        ).to_multiset().insert(c));
        assert(self.zone_mset() =~= prev.zone_mset());
    }

    /// Conservation across a foundation-to-pile transfer: the foundation
    /// lost its top card and one pile's visible run gained exactly it.
    #[verifier::rlimit(100)]
    proof fn lemma_move_from_foundation_conserves(self, prev: Self, c: Card, fdx: int, pi: int)
        requires
            prev.wf(),
            0 <= fdx < 4,
            0 <= pi < 7,
            prev.foundations@[fdx].top_spec() == Some(c),
            retreated_foundation(prev.foundations@[fdx], self.foundations@[fdx]),
            self.foundations@ == prev.foundations@.update(fdx, self.foundations@[fdx]),
            self.piles@[pi].wf(),
            self.piles@[pi].visible_cards@ == prev.piles@[pi].visible_cards@.push(c),
            self.piles@[pi].hidden_cards@ == prev.piles@[pi].hidden_cards@,
            self.piles@ == prev.piles@.update(pi, self.piles@[pi]),
            self.deck == prev.deck,
            self.cards@ == prev.cards@,
        ensures
            self.wf(),
    {
        broadcast use vstd::multiset::group_multiset_axioms;
        broadcast use vstd::seq_lib::group_to_multiset_ensures;

        lemma_piles_mset_unfold7(self.piles@);
        lemma_piles_mset_unfold7(prev.piles@);

        let f = prev.foundations@[fdx];
        let n = f.cards_seq().len();
        assert(f.cards_seq()[n - 1] == c);
        assert(self.foundations@[fdx].cards_seq() =~= f.cards_seq().remove(n - 1));
        assert(self.foundations@[fdx].cards_seq().to_multiset() == f.cards_seq().to_multiset()
            .remove(c));
        assert(pile_seq(self.piles@[pi]) =~= pile_seq(prev.piles@[pi]).push(c));
        assert(pile_seq(self.piles@[pi]).to_multiset() == pile_seq(
            prev.piles@[pi],
        ).to_multiset().insert(c));
        assert(self.zone_mset() =~= prev.zone_mset());
    }

    /// Conservation across a pile-to-foundation transfer: the pile lost its
    /// top visible card and the matching foundation gained exactly it.
    #[verifier::rlimit(100)]
    proof fn lemma_pile_to_foundation_conserves(self, prev: Self, c: Card, fdx: int, pi: int)
        requires
            prev.wf(),
            0 <= fdx < 4,
            0 <= pi < 7,
            fdx == foundation_index_spec(c.suit),
            prev.piles@[pi].top_spec() == Some(c),
            prev.foundations@[fdx].next_card_spec() == Some(c),
            popped_pile(prev.piles@[pi], self.piles@[pi]),
            self.piles@[pi].wf(),
            self.piles@ == prev.piles@.update(pi, self.piles@[pi]),
            advanced_foundation(prev.foundations@[fdx], self.foundations@[fdx]),
            self.foundations@ == prev.foundations@.update(fdx, self.foundations@[fdx]),
            self.deck == prev.deck,
            self.cards@ == prev.cards@,
        ensures
            self.wf(),
    {
        broadcast use vstd::multiset::group_multiset_axioms;
        broadcast use vstd::seq_lib::group_to_multiset_ensures;

        lemma_piles_mset_unfold7(self.piles@);
        lemma_piles_mset_unfold7(prev.piles@);

        crate::pile::lemma_popped_pile_seq(prev.piles@[pi], self.piles@[pi]);
        let p = pile_seq(prev.piles@[pi]);
        assert(p[p.len() - 1] == c);
        assert(pile_seq(self.piles@[pi]) =~= p.remove(p.len() - 1));
        assert(pile_seq(self.piles@[pi]).to_multiset() == p.to_multiset().remove(c));
        assert(self.foundations@[fdx].cards_seq().to_multiset()
            == prev.foundations@[fdx].cards_seq().to_multiset().insert(c));
        assert(self.piles@[pi].hidden_cards@.len() <= prev.piles@[pi].hidden_cards@.len());
        assert(self.zone_mset() =~= prev.zone_mset());
    }

    /// Conservation across a pile-to-pile transfer: the two piles together
    /// hold the same cards as before, every other zone is untouched.
    #[verifier::rlimit(100)]
    proof fn lemma_pile_to_pile_conserves(self, prev: Self, si: int, ti: int)
        requires
            prev.wf(),
            0 <= si < 7,
            0 <= ti < 7,
            si != ti,
            self.cards@ == prev.cards@,
            self.deck == prev.deck,
            self.foundations@ == prev.foundations@,
            self.piles@ == prev.piles@.update(ti, self.piles@[ti]).update(si, self.piles@[si]),
            self.piles@[si].wf(),
            self.piles@[ti].wf(),
            self.piles@[si].hidden_cards@.len() <= prev.piles@[si].hidden_cards@.len(),
            self.piles@[ti].hidden_cards@.len() == prev.piles@[ti].hidden_cards@.len(),
            pile_seq(self.piles@[si]).to_multiset().add(pile_seq(self.piles@[ti]).to_multiset())
                == pile_seq(prev.piles@[si]).to_multiset().add(
                pile_seq(prev.piles@[ti]).to_multiset(),
            ),
        ensures
            self.wf(),
    {
        broadcast use vstd::multiset::group_multiset_axioms;

        let mid = prev.piles@.update(ti, self.piles@[ti]);
        lemma_piles_mset_update(prev.piles@, ti, self.piles@[ti]);
        lemma_piles_mset_update(mid, si, self.piles@[si]);
        assert(mid[si] == prev.piles@[si]);
        assert forall|x: Card|
            piles_mset(self.piles@).count(x) == piles_mset(prev.piles@).count(x) by {
            broadcast use vstd::multiset::group_multiset_axioms;

            assert(piles_mset(self.piles@) == piles_mset(mid.update(si, self.piles@[si])));
            assert(piles_mset(mid.update(si, self.piles@[si])).add(
                pile_seq(mid[si]).to_multiset(),
            ).count(x) == piles_mset(mid).add(pile_seq(self.piles@[si]).to_multiset()).count(x));
            assert(piles_mset(mid.update(si, self.piles@[si])).add(
                pile_seq(mid[si]).to_multiset(),
            ).count(x) == piles_mset(mid.update(si, self.piles@[si])).count(x) + pile_seq(
                mid[si],
            ).to_multiset().count(x));
            assert(piles_mset(mid).add(pile_seq(self.piles@[si]).to_multiset()).count(x)
                == piles_mset(mid).count(x) + pile_seq(self.piles@[si]).to_multiset().count(x));
            assert(piles_mset(self.piles@).count(x) + pile_seq(
                prev.piles@[si],
            ).to_multiset().count(x) == piles_mset(mid).count(x) + pile_seq(
                self.piles@[si],
            ).to_multiset().count(x));
            assert(piles_mset(mid).add(pile_seq(prev.piles@[ti]).to_multiset()).count(x)
                == piles_mset(prev.piles@).add(pile_seq(self.piles@[ti]).to_multiset()).count(x));
            assert(piles_mset(mid).count(x) + pile_seq(prev.piles@[ti]).to_multiset().count(x)
                == piles_mset(prev.piles@).count(x) + pile_seq(
                self.piles@[ti],
            ).to_multiset().count(x));
            assert(pile_seq(self.piles@[si]).to_multiset().add(
                pile_seq(self.piles@[ti]).to_multiset(),
            ) == pile_seq(prev.piles@[si]).to_multiset().add(
                pile_seq(prev.piles@[ti]).to_multiset(),
            ));
            assert(pile_seq(self.piles@[si]).to_multiset().add(
                pile_seq(self.piles@[ti]).to_multiset(),
            ).count(x) == pile_seq(prev.piles@[si]).to_multiset().add(
                pile_seq(prev.piles@[ti]).to_multiset(),
            ).count(x));
            vstd::multiset::axiom_multiset_add(
                pile_seq(self.piles@[si]).to_multiset(),
                pile_seq(self.piles@[ti]).to_multiset(),
                x,
            );
            vstd::multiset::axiom_multiset_add(
                pile_seq(prev.piles@[si]).to_multiset(),
                pile_seq(prev.piles@[ti]).to_multiset(),
                x,
            );
            assert(pile_seq(self.piles@[si]).to_multiset().count(x) + pile_seq(
                self.piles@[ti],
            ).to_multiset().count(x) == pile_seq(prev.piles@[si]).to_multiset().count(x)
                + pile_seq(prev.piles@[ti]).to_multiset().count(x));
        }
        assert(piles_mset(self.piles@) =~= piles_mset(prev.piles@));
        assert(self.zone_mset() =~= prev.zone_mset());
    }
}

/// Card conservation law: in every well-formed game state the multiset of
/// cards across the deck, the four expanded foundations and the seven
/// piles' hidden and visible regions is exactly the 52 canonical cards —
/// one of each, no duplicates, no omissions.
pub proof fn lemma_card_conservation(g: KlondikeSolitaireGame)
    requires
        g.wf(),
    ensures
        g.zone_mset() == standard_deck().to_multiset(),
        g.zone_mset().len() == 52,
        forall|c: Card| #[trigger] g.zone_mset().count(c) == 1 <==> c.wf(),
        forall|c: Card| g.zone_mset().count(c) <= 1,
{
    broadcast use vstd::multiset::group_multiset_axioms;
    broadcast use vstd::seq_lib::group_to_multiset_ensures;

    crate::french::lemma_standard_deck_complete();
    standard_deck().lemma_multiset_has_no_duplicates();
    assert forall|c: Card| #[trigger] g.zone_mset().count(c) == 1 <==> c.wf() by {
        if c.wf() {
            assert(standard_deck().contains(c));
            assert(standard_deck().to_multiset().count(c) == 1);
        } else {
            if standard_deck().to_multiset().count(c) > 0 {
                assert(standard_deck().contains(c));
                let j = choose|j: int| 0 <= j < 52 && standard_deck()[j] == c;
                assert(standard_deck()[j].wf());
            }
        }
    }
    assert forall|c: Card| g.zone_mset().count(c) <= 1 by {
        if standard_deck().to_multiset().count(c) > 0 {
            assert(standard_deck().contains(c));
            assert(standard_deck().to_multiset().count(c) == 1);
        }
    }
}

/// The multiset of an eight-part concatenation is the sum of the parts'
/// multisets.
proof fn lemma_concat_mset_8(
    a: Seq<Card>,
    b: Seq<Card>,
    c: Seq<Card>,
    d: Seq<Card>,
    e: Seq<Card>,
    f: Seq<Card>,
    g: Seq<Card>,
    h: Seq<Card>,
)
    ensures
        (a + b + c + d + e + f + g + h).to_multiset() == a.to_multiset().add(b.to_multiset()).add(
            c.to_multiset(),
        ).add(d.to_multiset()).add(e.to_multiset()).add(f.to_multiset()).add(g.to_multiset()).add(
            h.to_multiset(),
        ),
{
    vstd::seq_lib::lemma_multiset_commutative(a, b);
    vstd::seq_lib::lemma_multiset_commutative(a + b, c);
    vstd::seq_lib::lemma_multiset_commutative(a + b + c, d);
    vstd::seq_lib::lemma_multiset_commutative(a + b + c + d, e);
    vstd::seq_lib::lemma_multiset_commutative(a + b + c + d + e, f);
    vstd::seq_lib::lemma_multiset_commutative(a + b + c + d + e + f, g);
    vstd::seq_lib::lemma_multiset_commutative(a + b + c + d + e + f + g, h);
}

} // verus!
