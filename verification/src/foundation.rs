//! A suit foundation: the ascending run Ace..King of one suit, represented
//! as a rank cursor rather than a card list. The represented set is always
//! a gapless prefix of the suit's thirteen ranks.

use vstd::prelude::*;

use crate::french::{rank_of_index, rank_of_ord, FrenchPlayingCard, Rank, Suit};
use crate::game::Card;

verus! {

/// The card of `suit` at position `k` of the ascending rank order.
pub open spec fn suit_card(suit: Suit, k: int) -> Card {
    FrenchPlayingCard { suit, rank: rank_of_ord(k) }
}

/// `g` is `f` after one successful push: the cursor advanced one rank and
/// the run grew by exactly the card the foundation required next.
pub open spec fn advanced_foundation(f: Foundation, g: Foundation) -> bool {
    &&& !f.is_full_spec()
    &&& g.suit == f.suit
    &&& g.current_rank_index == Some(
        (match f.current_rank_index {
            Some(i) => i + 1,
            None => 0,
        }) as usize,
    )
    &&& g.cards_seq() == f.cards_seq().push(f.next_card_spec().unwrap())
}

/// `g` is `f` after one pop: the cursor retreated one rank and the run
/// shrank by its top card.
pub open spec fn retreated_foundation(f: Foundation, g: Foundation) -> bool {
    &&& f.current_rank_index is Some
    &&& g.suit == f.suit
    &&& g.current_rank_index == (match f.current_rank_index {
        Some(i) => if i == 0 {
            None
        } else {
            Some((i - 1) as usize)
        },
        None => None,
    })
    &&& g.cards_seq() == f.cards_seq().drop_last()
}

#[derive(Copy, Clone)]
pub struct Foundation {
    pub suit: Suit,
    pub current_rank_index: Option<usize>,
}

impl Foundation {
    /// Structural invariant: the cursor, when set, is a position among the
    /// thirteen standard ranks.
    pub open spec fn wf(self) -> bool {
        match self.current_rank_index {
            Some(i) => i < 13,
            None => true,
        }
    }

    /// The cards the foundation holds: its suit's ranks from Ace up to the
    /// cursor, in ascending order.
    pub open spec fn cards_seq(self) -> Seq<Card> {
        match self.current_rank_index {
            Some(i) => Seq::new((i + 1) as nat, |k: int| suit_card(self.suit, k)),
            None => Seq::empty(),
        }
    }

    pub open spec fn is_full_spec(self) -> bool {
        self.current_rank_index == Some(12usize)
    }

    /// The rank the next pushed card must have: Ace when empty, one above
    /// the cursor otherwise, nothing when full.
    pub open spec fn next_rank_spec(self) -> Option<Rank> {
        match self.current_rank_index {
            Some(i) => if i == 12 {
                None
            } else {
                Some(rank_of_ord(i + 1))
            },
            None => Some(Rank::Ace),
        }
    }

    /// The card the foundation requires next, if it is not full.
    pub open spec fn next_card_spec(self) -> Option<Card> {
        match self.next_rank_spec() {
            Some(r) => Some(FrenchPlayingCard { suit: self.suit, rank: r }),
            None => None,
        }
    }

    /// The current top card.
    pub open spec fn top_spec(self) -> Option<Card> {
        match self.current_rank_index {
            Some(i) => Some(suit_card(self.suit, i as int)),
            None => None,
        }
    }

    pub fn new(suit: Suit) -> (f: Foundation)
        ensures
            f.wf(),
            f.suit == suit,
            f.current_rank_index is None,
    {
        Foundation { suit, current_rank_index: None }
    }

    /// Rebuilds a foundation whose top card has the given rank, or an empty
    /// one.
    pub fn from(suit: Suit, rank: Option<Rank>) -> (f: Foundation)
        requires
            rank matches Some(r) ==> r.is_standard(),
        ensures
            f.wf(),
            f.suit == suit,
            match rank {
                Some(r) => f.current_rank_index == Some(r.ord() as usize),
                None => f.current_rank_index is None,
            },
    {
        let current_rank_index = match rank {
            Some(r) => {
                let i = crate::french::rank_index(r);
                Some(i.unwrap())
            },
            None => None,
        };
        Foundation { suit, current_rank_index }
    }

    /// A foundation already holding its suit's full Ace..King run.
    pub fn new_full(suit: Suit) -> (f: Foundation)
        ensures
            f.wf(),
            f.suit == suit,
            f.is_full_spec(),
    {
        Foundation::from(suit, Some(Rank::King))
    }

    pub fn top(&self) -> (r: Option<Card>)
        requires
            self.wf(),
        ensures
            r == self.top_spec(),
    {
        match self.current_rank_index {
            Some(i) => Some(FrenchPlayingCard { suit: self.suit, rank: rank_of_index(i) }),
            None => None,
        }
    }

    /// Materializes the represented run as a card list, lowest rank first.
    pub fn cards(&self) -> (r: Vec<Card>)
        requires
            self.wf(),
        ensures
            r@ == self.cards_seq(),
    {
        let mut cards: Vec<Card> = Vec::new();
        match self.current_rank_index {
            Some(rank_index) => {
                let mut index: usize = 0;
                while index < rank_index + 1
                    invariant
                        self.wf(),
                        self.current_rank_index == Some(rank_index),
                        rank_index < 13,
                        index <= rank_index + 1,
                        cards@ =~= self.cards_seq().take(index as int),
                    decreases rank_index + 1 - index,
                {
                    cards.push(FrenchPlayingCard { suit: self.suit, rank: rank_of_index(index) });
                    proof {
                        assert(cards@ =~= self.cards_seq().take(index + 1));
                    }
                    index = index + 1;
                }
                proof {
                    assert(cards@ =~= self.cards_seq());
                }
            },
            None => {
                proof {
                    assert(cards@ =~= self.cards_seq());
                }
            },
        }
        cards
    }

    pub fn is_full(&self) -> (r: bool)
        ensures
            r == self.is_full_spec(),
    {
        match self.current_rank_index {
            Some(i) => i == 12,
            None => false,
        }
    }

    pub fn is_empty(&self) -> (r: bool)
        ensures
            r <==> self.current_rank_index is None,
    {
        match self.current_rank_index {
            Some(_) => false,
            None => true,
        }
    }

    pub fn suit(&self) -> (s: Suit)
        ensures
            s == self.suit,
    {
        self.suit
    }

    /// The rank the next pushed card must have, or none when full.
    pub fn next_rank(&self) -> (r: Option<Rank>)
        requires
            self.wf(),
        ensures
            r == self.next_rank_spec(),
    {
        match self.current_rank_index {
            Some(i) => if i == 12 {
                None
            } else {
                Some(rank_of_index(i + 1))
            },
            None => Some(Rank::Ace),
        }
    }

    /// The card the foundation requires next, or none when full.
    pub fn next_card(&self) -> (r: Option<Card>)
        requires
            self.wf(),
        ensures
            r == self.next_card_spec(),
    {
        match self.next_rank() {
            Some(r) => Some(FrenchPlayingCard { suit: self.suit, rank: r }),
            None => None,
        }
    }

    /// Advances the cursor by one rank unless the foundation is full. The
    /// caller is responsible for checking that the card it is placing
    /// equals `next_card()` before calling.
    pub fn push(&mut self) -> (r: Option<Card>)
        requires
            old(self).wf(),
        ensures
            final(self).wf(),
            final(self).suit == old(self).suit,
            old(self).is_full_spec() ==> *final(self) == *old(self) && r is None,
            !old(self).is_full_spec() ==> {
                &&& r == Some(
                    suit_card(
                        old(self).suit,
                        match old(self).current_rank_index {
                            Some(i) => i as int,
                            None => 0,
                        },
                    ),
                )
                &&& final(self).current_rank_index == Some(
                    (match old(self).current_rank_index {
                        Some(i) => i + 1,
                        None => 0,
                    }) as usize,
                )
                &&& final(self).cards_seq() == old(self).cards_seq().push(
                    old(self).next_card_spec().unwrap(),
                )
            },
    {
        let r = match self.current_rank_index {
            Some(i) => if i == 12 {
                None
            } else {
                self.current_rank_index = Some(i + 1);
                Some(FrenchPlayingCard { suit: self.suit, rank: rank_of_index(i) })
            },
            None => {
                self.current_rank_index = Some(0);
                Some(FrenchPlayingCard { suit: self.suit, rank: rank_of_index(0) })
            },
        };
        proof {
            if !old(self).is_full_spec() {
                assert(self.cards_seq() =~= old(self).cards_seq().push(
                    old(self).next_card_spec().unwrap(),
                ));
            }
        }
        r
    }

    /// Empties the foundation.
    pub fn clear(&mut self)
        ensures
            final(self).wf(),
            final(self).suit == old(self).suit,
            final(self).current_rank_index is None,
            final(self).cards_seq() == Seq::<Card>::empty(),
    {
        self.current_rank_index = None;
    }

    /// Retreats the cursor by one rank and returns the new top card (or
    /// none once the foundation is empty).
    pub fn pop(&mut self) -> (r: Option<Card>)
        requires
            old(self).wf(),
        ensures
            final(self).wf(),
            final(self).suit == old(self).suit,
            old(self).current_rank_index is None ==> *final(self) == *old(self) && r is None,
            old(self).current_rank_index matches Some(i) ==> {
                &&& final(self).current_rank_index == (if i == 0 {
                    None
                } else {
                    Some((i - 1) as usize)
                })
                &&& r == (if i == 0 {
                    Some(suit_card(old(self).suit, 0))
                } else {
                    Some(suit_card(old(self).suit, i - 1))
                })
                &&& final(self).cards_seq() == old(self).cards_seq().drop_last()
            },
    {
        let r = match self.current_rank_index {
            Some(i) => if i == 0 {
                self.current_rank_index = None;
                Some(FrenchPlayingCard { suit: self.suit, rank: rank_of_index(0) })
            } else {
                self.current_rank_index = Some(i - 1);
                Some(FrenchPlayingCard { suit: self.suit, rank: rank_of_index(i - 1) })
            },
            None => None,
        };
        proof {
            if old(self).current_rank_index matches Some(i) {
                assert(self.cards_seq() =~= old(self).cards_seq().drop_last());
            }
        }
        r
    }
}

/// Foundation gaplessness: a well-formed foundation holds exactly the cards
/// of its suit whose rank is at or below the cursor — the run has no gaps,
/// and the foundation is full exactly when the cursor sits at the King.
pub proof fn lemma_foundation_gapless(f: Foundation)
    requires
        f.wf(),
    ensures
        forall|c: Card| #[trigger]
            f.cards_seq().contains(c) <==> (c.suit == f.suit && c.rank.is_standard() && (
            f.current_rank_index matches Some(i) && c.rank.ord() <= i as int)),
        f.cards_seq().no_duplicates(),
        f.is_full_spec() <==> f.cards_seq().len() == 13,
{
    crate::french::lemma_rank_ord_bijective();
    assert forall|c: Card|
        (c.suit == f.suit && c.rank.is_standard() && (f.current_rank_index matches Some(i)
            && c.rank.ord() <= i as int)) implies #[trigger] f.cards_seq().contains(c) by {
        assert(f.cards_seq()[c.rank.ord()] == c);
    }
}

} // verus!
