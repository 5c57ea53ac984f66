//! French playing cards: colors, suits, ranks, the card value type, and the
//! canonical 52-card deck.

use vstd::prelude::*;

verus! {

pub const STANDARD_DECK_SIZE: u8 = 52;

#[derive(Debug, Copy, Clone, PartialEq, Eq, Hash, Structural)]
pub enum Color {
    Red,
    Black,
}

impl Color {
    /// The opposite color.
    pub open spec fn other_spec(self) -> Color {
        match self {
            Color::Red => Color::Black,
            Color::Black => Color::Red,
        }
    }

    pub fn other(&self) -> (c: Color)
        ensures
            c == self.other_spec(),
    {
        match *self {
            Color::Red => Color::Black,
            Color::Black => Color::Red,
        }
    }
}

#[derive(Debug, Copy, Clone, PartialEq, Eq, Hash, Structural)]
pub enum Suit {
    Diamonds,
    Hearts,
    Clubs,
    Spades,
}

impl Suit {
    /// The color of every card of this suit.
    pub open spec fn color_spec(self) -> Color {
        match self {
            Suit::Diamonds | Suit::Hearts => Color::Red,
            Suit::Clubs | Suit::Spades => Color::Black,
        }
    }

    pub fn color(&self) -> (c: Color)
        ensures
            c == self.color_spec(),
    {
        match *self {
            Suit::Diamonds | Suit::Hearts => Color::Red,
            Suit::Clubs | Suit::Spades => Color::Black,
        }
    }

    /// The four suits in their canonical deck-construction order.
    pub fn standard_iter() -> (suits: Vec<Suit>)
        ensures
            suits@ == seq![Suit::Diamonds, Suit::Hearts, Suit::Clubs, Suit::Spades],
    {
        let mut suits: Vec<Suit> = Vec::with_capacity(4);
        suits.push(Suit::Diamonds);
        suits.push(Suit::Hearts);
        suits.push(Suit::Clubs);
        suits.push(Suit::Spades);
        proof {
            assert(suits@ =~= seq![Suit::Diamonds, Suit::Hearts, Suit::Clubs, Suit::Spades]);
        }
        suits
    }
}

#[derive(Debug, Copy, Clone, PartialEq, Eq, Hash, Structural)]
pub enum Rank {
    Ace,
    Number(i8),
    Jack,
    Queen,
    King,
}

/// The thirteen standard ranks, lowest (Ace) first.
pub open spec fn standard_ranks() -> Seq<Rank> {
    seq![
        Rank::Ace,
        Rank::Number(2),
        Rank::Number(3),
        Rank::Number(4),
        Rank::Number(5),
        Rank::Number(6),
        Rank::Number(7),
        Rank::Number(8),
        Rank::Number(9),
        Rank::Number(10),
        Rank::Jack,
        Rank::Queen,
        Rank::King,
    ]
}

impl Rank {
    /// A rank drawn from the thirteen standard ranks; the only numeric
    /// ranks are 2 through 10.
    pub open spec fn is_standard(self) -> bool {
        match self {
            Rank::Ace | Rank::Jack | Rank::Queen | Rank::King => true,
            Rank::Number(n) => 2 <= n && n <= 10,
        }
    }

    /// Position of a standard rank in the ascending order Ace..King.
    pub open spec fn ord(self) -> int {
        match self {
            Rank::Ace => 0,
            Rank::Number(n) => n - 1,
            Rank::Jack => 10,
            Rank::Queen => 11,
            Rank::King => 12,
        }
    }

    /// The thirteen standard ranks in ascending order.
    pub fn standard_iter() -> (ranks: Vec<Rank>)
        ensures
            ranks@ == standard_ranks(),
    {
        let mut ranks: Vec<Rank> = Vec::with_capacity(13);
        ranks.push(Rank::Ace);
        ranks.push(Rank::Number(2));
        ranks.push(Rank::Number(3));
        ranks.push(Rank::Number(4));
        ranks.push(Rank::Number(5));
        ranks.push(Rank::Number(6));
        ranks.push(Rank::Number(7));
        ranks.push(Rank::Number(8));
        ranks.push(Rank::Number(9));
        ranks.push(Rank::Number(10));
        ranks.push(Rank::Jack);
        ranks.push(Rank::Queen);
        ranks.push(Rank::King);
        proof {
            assert(ranks@ =~= standard_ranks());
        }
        ranks
    }
}

/// The standard rank at a given position of the ascending order.
pub open spec fn rank_of_ord(i: int) -> Rank {
    if i == 0 {
        Rank::Ace
    } else if i <= 9 {
        Rank::Number((i + 1) as i8)
    } else if i == 10 {
        Rank::Jack
    } else if i == 11 {
        Rank::Queen
    } else {
        Rank::King
    }
}

/// `ord` and `rank_of_ord` are inverse on the standard ranks.
pub proof fn lemma_rank_ord_bijective()
    ensures
        forall|i: int| 0 <= i < 13 ==> (#[trigger] rank_of_ord(i)).is_standard() && rank_of_ord(
            i,
        ).ord() == i,
        forall|r: Rank| r.is_standard() ==> rank_of_ord(#[trigger] r.ord()) == r && 0 <= r.ord()
            < 13,
        forall|i: int| 0 <= i < 13 ==> rank_of_ord(i) == standard_ranks()[i],
{
}

/// Position of a rank in the standard ascending order, or `None` for a
/// rank outside the standard thirteen.
pub fn rank_index(rank: Rank) -> (r: Option<usize>)
    ensures
        rank.is_standard() <==> r is Some,
        r matches Some(i) ==> i == rank.ord(),
{
    match rank {
        Rank::Ace => Some(0),
        Rank::Number(n) => if 2 <= n && n <= 10 {
            Some((n - 1) as usize)
        } else {
            None
        },
        Rank::Jack => Some(10),
        Rank::Queen => Some(11),
        Rank::King => Some(12),
    }
}

/// The standard rank at a given position of the ascending order.
pub fn rank_of_index(i: usize) -> (r: Rank)
    requires
        i < 13,
    ensures
        r == rank_of_ord(i as int),
{
    if i == 0 {
        Rank::Ace
    } else if i <= 9 {
        Rank::Number((i + 1) as i8)
    } else if i == 10 {
        Rank::Jack
    } else if i == 11 {
        Rank::Queen
    } else {
        Rank::King
    }
}

/// Common French playing card.
///
/// Each card has a suit (spades, hearts, clubs, diamonds) and a rank (ace, 2,
/// 10, king, etc).
#[derive(Debug, Copy, Clone, PartialEq, Eq, Hash, Structural)]
pub struct FrenchPlayingCard {
    pub suit: Suit,
    pub rank: Rank,
}

impl FrenchPlayingCard {
    /// A card whose rank is one of the thirteen standard ranks.
    pub open spec fn wf(self) -> bool {
        self.rank.is_standard()
    }

    pub open spec fn color_spec(self) -> Color {
        self.suit.color_spec()
    }

    pub fn new(suit: Suit, rank: Rank) -> (c: FrenchPlayingCard)
        requires
            rank.is_standard(),
        ensures
            c == (FrenchPlayingCard { suit, rank }),
    {
        FrenchPlayingCard { suit, rank }
    }

    pub fn color(&self) -> (c: Color)
        ensures
            c == self.color_spec(),
    {
        self.suit.color()
    }

    pub fn suit(&self) -> (s: Suit)
        ensures
            s == self.suit,
    {
        self.suit
    }

    pub fn rank(&self) -> (r: Rank)
        ensures
            r == self.rank,
    {
        self.rank
    }
}

/// The card at a given position of the canonical deck order: thirteen
/// ascending ranks of diamonds, then hearts, clubs and spades.
pub open spec fn card_of_index(i: int) -> FrenchPlayingCard {
    FrenchPlayingCard {
        suit: if i / 13 == 0 {
            Suit::Diamonds
        } else if i / 13 == 1 {
            Suit::Hearts
        } else if i / 13 == 2 {
            Suit::Clubs
        } else {
            Suit::Spades
        },
        rank: rank_of_ord(i % 13),
    }
}

/// The 52 cards of a standard deck in canonical order.
pub open spec fn standard_deck() -> Seq<FrenchPlayingCard> {
    Seq::new(52, |i: int| card_of_index(i))
}

/// Constructs a new deck of standard French playing cards.
///
/// The resulting deck has 52 red and black cards with common ranks
/// (ace, 2-10, jack, queen, and king) and suits (spades, clubs, hearts,
/// and diamonds).
pub fn new_standard_deck() -> (deck: Vec<FrenchPlayingCard>)
    ensures
        deck@ == standard_deck(),
{
    let suits = Suit::standard_iter();
    let ranks = Rank::standard_iter();
    let mut deck: Vec<FrenchPlayingCard> = Vec::with_capacity(STANDARD_DECK_SIZE as usize);
    let mut s: usize = 0;
    while s < 4
        invariant
            s <= 4,
            suits@ == seq![Suit::Diamonds, Suit::Hearts, Suit::Clubs, Suit::Spades],
            ranks@ == standard_ranks(),
            deck@ =~= standard_deck().take(s as int * 13),
        decreases 4 - s,
    {
        let mut k: usize = 0;
        while k < 13
            invariant
                s < 4,
                k <= 13,
                suits@ == seq![Suit::Diamonds, Suit::Hearts, Suit::Clubs, Suit::Spades],
                ranks@ == standard_ranks(),
                deck@ =~= standard_deck().take(s as int * 13 + k as int),
            decreases 13 - k,
        {
            let card = FrenchPlayingCard { suit: suits[s], rank: ranks[k] };
            proof {
                let i = s as int * 13 + k as int;
                assert(i / 13 == s as int && i % 13 == k as int) by (nonlinear_arith)
                    requires
                        0 <= s < 4,
                        0 <= k < 13,
                        i == s as int * 13 + k as int,
                ;
                lemma_rank_ord_bijective();
                assert(card == card_of_index(i));
                assert(deck@.push(card) =~= standard_deck().take(i + 1));
            }
            deck.push(card);
            k = k + 1;
        }
        s = s + 1;
    }
    proof {
        assert(deck@ =~= standard_deck());
    }
    deck
}

/// Every card of the canonical deck is well formed, each card occurs there
/// exactly once, and every well-formed card occurs.
pub proof fn lemma_standard_deck_complete()
    ensures
        standard_deck().len() == 52,
        standard_deck().no_duplicates(),
        forall|i: int| 0 <= i < 52 ==> (#[trigger] standard_deck()[i]).wf(),
        forall|c: FrenchPlayingCard| c.wf() ==> standard_deck().contains(c),
{
    lemma_rank_ord_bijective();
    assert forall|i: int, j: int| 0 <= i < j < 52 implies standard_deck()[i]
        != standard_deck()[j] by {
        assert(i / 13 < 4 && j / 13 < 4 && i / 13 >= 0 && j / 13 >= 0 && 0 <= i % 13 < 13 && 0 <= j
            % 13 < 13);
        if i / 13 == j / 13 && i % 13 == j % 13 {
            assert(i == 13 * (i / 13) + i % 13) by {
                vstd::arithmetic::div_mod::lemma_fundamental_div_mod(i, 13);
            }
            assert(j == 13 * (j / 13) + j % 13) by {
                vstd::arithmetic::div_mod::lemma_fundamental_div_mod(j, 13);
            }
        } else if i % 13 == j % 13 {
            assert(standard_deck()[i].suit != standard_deck()[j].suit);
        } else {
            assert(rank_of_ord(i % 13).ord() != rank_of_ord(j % 13).ord());
        }
    }
    assert forall|c: FrenchPlayingCard| c.wf() implies standard_deck().contains(c) by {
        let s: int = match c.suit {
            Suit::Diamonds => 0,
            Suit::Hearts => 1,
            Suit::Clubs => 2,
            Suit::Spades => 3,
        };
        let i = s * 13 + c.rank.ord();
        assert(i / 13 == s && i % 13 == c.rank.ord()) by (nonlinear_arith)
            requires
                0 <= s < 4,
                0 <= c.rank.ord() < 13,
                i == s * 13 + c.rank.ord(),
        ;
        assert(standard_deck()[i] == c);
    }
}


/// A card sequence holding the same multiset as the canonical deck has 52
/// pairwise-distinct, well-formed cards.
pub proof fn lemma_standard_mset_seq(s: Seq<FrenchPlayingCard>)
    requires
        s.to_multiset() == standard_deck().to_multiset(),
    ensures
        s.len() == 52,
        s.no_duplicates(),
        forall|i: int| 0 <= i < s.len() ==> (#[trigger] s[i]).wf(),
{
    broadcast use vstd::seq_lib::group_to_multiset_ensures;

    lemma_standard_deck_complete();
    standard_deck().lemma_multiset_has_no_duplicates();
    assert(s.len() == s.to_multiset().len());
    assert(standard_deck().len() == standard_deck().to_multiset().len());
    assert forall|i: int| 0 <= i < s.len() implies (#[trigger] s[i]).wf() by {
        assert(s.contains(s[i]));
        assert(s.to_multiset().count(s[i]) > 0);
        assert(standard_deck().contains(s[i]));
        let j = choose|j: int| 0 <= j < 52 && standard_deck()[j] == s[i];
        assert(standard_deck()[j].wf());
    }
    assert forall|x: FrenchPlayingCard| s.to_multiset().contains(x) implies s.to_multiset().count(
        x,
    ) == 1 by {
        assert(standard_deck().to_multiset().contains(x));
        assert(standard_deck().contains(x));
        assert(standard_deck().to_multiset().count(x) == 1);
    }
    s.lemma_multiset_has_no_duplicates_conv();
}


/// Fifty-two pairwise-distinct well-formed cards are exactly the canonical
/// deck, as a multiset: there is no room to omit or repeat any card.
pub proof fn lemma_full_deck_mset(s: Seq<FrenchPlayingCard>)
    requires
        s.len() == 52,
        s.no_duplicates(),
        forall|i: int| 0 <= i < s.len() ==> (#[trigger] s[i]).wf(),
    ensures
        s.to_multiset() == standard_deck().to_multiset(),
{
    broadcast use vstd::seq_lib::group_to_multiset_ensures;

    lemma_standard_deck_complete();
    s.unique_seq_to_set();
    standard_deck().unique_seq_to_set();
    assert(s.to_set().subset_of(standard_deck().to_set())) by {
        assert forall|c: FrenchPlayingCard| s.to_set().contains(c) implies standard_deck().to_set()
            .contains(c) by {
            let i = choose|i: int| 0 <= i < s.len() && s[i] == c;
            assert(s[i].wf());
            assert(standard_deck().contains(c));
        }
    }
    vstd::set_lib::lemma_subset_equality(s.to_set(), standard_deck().to_set());
    s.lemma_multiset_has_no_duplicates();
    standard_deck().lemma_multiset_has_no_duplicates();
    assert forall|c: FrenchPlayingCard|
        s.to_multiset().count(c) == standard_deck().to_multiset().count(c) by {
        if s.contains(c) {
            assert(standard_deck().to_set().contains(c));
            assert(standard_deck().contains(c));
        } else {
            assert(s.to_multiset().count(c) == 0) by {
                if s.to_multiset().count(c) > 0 {
                    assert(s.contains(c));
                }
            }
            if standard_deck().contains(c) {
                assert(standard_deck().to_set().contains(c));
                assert(s.to_set().contains(c));
                assert(s.contains(c));
            }
            assert(standard_deck().to_multiset().count(c) == 0) by {
                if standard_deck().to_multiset().count(c) > 0 {
                    assert(standard_deck().contains(c));
                }
            }
        }
    }
    assert(s.to_multiset() =~= standard_deck().to_multiset());
}

} // verus!
