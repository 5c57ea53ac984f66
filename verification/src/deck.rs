//! The stock/waste deck: an ordered card sequence carrying a sliding
//! visible window of at most `draw_count` cards.
//!
//! The backing sequence is always partitioned into three contiguous
//! regions: `waste` (already passed over), `visible` (the current window)
//! and `remaining` (not yet reached). `draw` advances the window and wraps
//! back to an empty window once the sequence is exhausted, so repeated
//! draws cycle through the whole deck.

use vstd::prelude::*;

use crate::game::Card;

verus! {

pub const MAX_DECK_SIZE: usize = 24;

/// Two decks hold the same cards with the same draw count and window.
pub open spec fn same_deck(a: Deck, b: Deck) -> bool {
    &&& a.cards@ == b.cards@
    &&& a.draw_count == b.draw_count
    &&& a.visible_index == b.visible_index
    &&& a.visible_count == b.visible_count
}

/// `e` is `d` after its top visible card was removed: the card leaves the
/// backing sequence and the window shrinks by one.
pub open spec fn popped_deck(d: Deck, e: Deck) -> bool {
    &&& d.visible_count > 0
    &&& e.draw_count == d.draw_count
    &&& e.visible_index == d.visible_index
    &&& e.visible_count == d.visible_count - 1
    &&& e.cards@ == d.cards@.remove(d.visible_index + d.visible_count - 1)
}

pub struct Deck {
    pub cards: Vec<Card>,
    pub draw_count: usize,
    pub visible_index: usize,
    pub visible_count: usize,
}

/// The window that one `draw` produces from a window at `visible_index`
/// with `visible_count` cards, in a deck of `len` cards drawn `draw_count`
/// at a time: the start advances past the current window, and the window
/// wraps to empty once the start reaches the end of the deck.
pub open spec fn draw_window(len: int, draw_count: int, visible_index: int, visible_count: int) -> (
    int,
    int,
) {
    let start = visible_index + visible_count;
    if start >= len {
        (0, 0)
    } else {
        (start, if draw_count <= len - start {
            draw_count
        } else {
            len - start
        })
    }
}

/// The window after `n` draws from the window `(visible_index, visible_count)`.
pub open spec fn draw_window_n(
    len: int,
    draw_count: int,
    visible_index: int,
    visible_count: int,
    n: nat,
) -> (int, int)
    decreases n,
{
    if n == 0 {
        (visible_index, visible_count)
    } else {
        let prev = draw_window_n(len, draw_count, visible_index, visible_count, (n - 1) as nat);
        draw_window(len, draw_count, prev.0, prev.1)
    }
}

impl Deck {
    /// Structural invariant: the draw count is between 1 and the deck
    /// capacity, the deck never exceeds its capacity, the window is no
    /// larger than the draw count, and the window lies inside the deck.
    pub open spec fn wf(self) -> bool {
        &&& 1 <= self.draw_count <= MAX_DECK_SIZE
        &&& self.cards@.len() <= MAX_DECK_SIZE
        &&& self.visible_count <= self.draw_count
        &&& self.visible_index + self.visible_count <= self.cards@.len()
    }

    /// Cards already drawn past: everything left of the window.
    pub open spec fn waste_seq(self) -> Seq<Card> {
        self.cards@.take(self.visible_index as int)
    }

    /// The visible window.
    pub open spec fn visible_seq(self) -> Seq<Card> {
        self.cards@.subrange(
            self.visible_index as int,
            self.visible_index + self.visible_count,
        )
    }

    /// Cards the window has not reached yet.
    pub open spec fn remaining_seq(self) -> Seq<Card> {
        self.cards@.skip(self.visible_index + self.visible_count)
    }

    /// The most recently exposed visible card, if any.
    pub open spec fn top_spec(self) -> Option<Card> {
        if self.visible_count == 0 {
            None
        } else {
            Some(self.cards@[self.visible_index + self.visible_count - 1])
        }
    }

    pub fn new(draw_count: u8) -> (d: Deck)
        requires
            1 <= draw_count <= MAX_DECK_SIZE,
        ensures
            d.wf(),
            d.cards@ == Seq::<Card>::empty(),
            d.draw_count == draw_count as usize,
            d.visible_index == 0,
            d.visible_count == 0,
    {
        let d = Deck {
            cards: Vec::with_capacity(MAX_DECK_SIZE),
            draw_count: draw_count as usize,
            visible_index: 0,
            visible_count: 0,
        };
        proof {
            assert(d.cards@ =~= Seq::<Card>::empty());
        }
        d
    }

    /// Rebuilds a deck from its three regions. The regions must fit the
    /// deck's limits, hold no duplicate card, and hold only standard ranks.
    pub fn from(draw_count: u8, waste: &[Card], visible: &[Card], remaining: &[Card]) -> (d: Deck)
        requires
            1 <= draw_count <= MAX_DECK_SIZE,
            visible@.len() <= draw_count as int,
            waste@.len() + visible@.len() + remaining@.len() <= MAX_DECK_SIZE,
            (waste@ + visible@ + remaining@).no_duplicates(),
            forall|i: int|
                0 <= i < (waste@ + visible@ + remaining@).len() ==> (#[trigger] (waste@ + visible@
                    + remaining@)[i]).wf(),
        ensures
            d.wf(),
            d.draw_count == draw_count as usize,
            d.cards@ == waste@ + visible@ + remaining@,
            d.waste_seq() == waste@,
            d.visible_seq() == visible@,
            d.remaining_seq() == remaining@,
    {
        let mut cards: Vec<Card> = Vec::with_capacity(
            waste.len() + visible.len() + remaining.len(),
        );
        cards.extend_from_slice(waste);
        cards.extend_from_slice(visible);
        cards.extend_from_slice(remaining);
        let d = Deck {
            cards,
            draw_count: draw_count as usize,
            visible_index: waste.len(),
            visible_count: visible.len(),
        };
        proof {
            assert(d.cards@ =~= waste@ + visible@ + remaining@);
            assert(d.waste_seq() =~= waste@);
            assert(d.visible_seq() =~= visible@);
            assert(d.remaining_seq() =~= remaining@);
        }
        d
    }

    /// Replaces the deck's contents; the window collapses to empty, so all
    /// the new cards are in the `remaining` region.
    pub fn reset(&mut self, cards: &[Card])
        requires
            old(self).wf(),
            cards@.len() <= MAX_DECK_SIZE,
        ensures
            final(self).wf(),
            final(self).cards@ == cards@,
            final(self).draw_count == old(self).draw_count,
            final(self).visible_index == 0,
            final(self).visible_count == 0,
    {
        self.cards.clear();
        self.visible_index = 0;
        self.visible_count = 0;
        self.cards.extend_from_slice(cards);
        proof {
            assert(self.cards@ =~= cards@);
        }
    }

    pub fn is_empty(&self) -> (r: bool)
        ensures
            r <==> self.cards@.len() == 0,
    {
        self.cards.is_empty()
    }

    pub fn len(&self) -> (n: usize)
        ensures
            n == self.cards@.len(),
    {
        self.cards.len()
    }

    pub fn draw_count(&self) -> (n: u8)
        requires
            self.wf(),
        ensures
            n as usize == self.draw_count,
    {
        self.draw_count as u8
    }

    /// The last (most recently exposed) visible card, or none.
    pub fn top(&self) -> (r: Option<Card>)
        requires
            self.wf(),
        ensures
            r == self.top_spec(),
    {
        match self.visible_count {
            0 => None,
            count => Some(self.cards[self.visible_index + count - 1]),
        }
    }

    pub fn visible_cards(&self) -> (r: &[Card])
        requires
            self.wf(),
        ensures
            r@ == self.visible_seq(),
    {
        &self.cards[self.visible_index..self.visible_index + self.visible_count]
    }

    pub fn waste_cards(&self) -> (r: &[Card])
        requires
            self.wf(),
        ensures
            r@ == self.waste_seq(),
    {
        &self.cards[0..self.visible_index]
    }

    pub fn remaining_cards(&self) -> (r: &[Card])
        requires
            self.wf(),
        ensures
            r@ == self.remaining_seq(),
    {
        &self.cards[self.visible_index + self.visible_count..self.cards.len()]
    }

    /// Removes and returns the top visible card; the card leaves the
    /// backing sequence entirely.
    pub fn pop(&mut self) -> (r: Option<Card>)
        requires
            old(self).wf(),
        ensures
            final(self).wf(),
            r == old(self).top_spec(),
            final(self).draw_count == old(self).draw_count,
            final(self).visible_index == old(self).visible_index,
            old(self).visible_count == 0 ==> *final(self) == *old(self),
            old(self).visible_count > 0 ==> {
                &&& final(self).visible_count == old(self).visible_count - 1
                &&& final(self).cards@ == old(self).cards@.remove(
                    old(self).visible_index + old(self).visible_count - 1,
                )
                &&& final(self).waste_seq() == old(self).waste_seq()
                &&& final(self).visible_seq() == old(self).visible_seq().drop_last()
                &&& final(self).remaining_seq() == old(self).remaining_seq()
            },
    {
        match self.visible_count {
            0 => None,
            _ => {
                self.visible_count = self.visible_count - 1;
                let card = self.cards.remove(self.visible_index + self.visible_count);
                proof {
                    assert(self.waste_seq() =~= old(self).waste_seq());
                    assert(self.visible_seq() =~= old(self).visible_seq().drop_last());
                    assert(self.remaining_seq() =~= old(self).remaining_seq());
                }
                Some(card)
            },
        }
    }

    /// Advances the window past the current visible region, wrapping to an
    /// empty window at the start once the end of the deck is reached.
    pub fn draw(&mut self)
        requires
            old(self).wf(),
        ensures
            final(self).wf(),
            final(self).cards == old(self).cards,
            final(self).draw_count == old(self).draw_count,
            (final(self).visible_index as int, final(self).visible_count as int) == draw_window(
                old(self).cards@.len() as int,
                old(self).draw_count as int,
                old(self).visible_index as int,
                old(self).visible_count as int,
            ),
    {
        self.visible_index = self.visible_index + self.visible_count;

        if self.visible_index >= self.cards.len() {
            self.visible_index = 0;
            self.visible_count = 0;
        } else {
            let rest = self.cards.len() - self.visible_index;
            self.visible_count = if self.draw_count <= rest {
                self.draw_count
            } else {
                rest
            };
        }
    }
}

/// Window partition law: the waste, visible and remaining regions always
/// partition the deck's backing sequence, in that order and without gaps or
/// overlap, and the window never exceeds the draw count.
pub proof fn lemma_deck_partition(d: Deck)
    requires
        d.wf(),
    ensures
        d.waste_seq() + d.visible_seq() + d.remaining_seq() == d.cards@,
        d.visible_seq().len() <= d.draw_count,
{
    assert(d.waste_seq() + d.visible_seq() + d.remaining_seq() =~= d.cards@);
}

/// After `1 + k` draws from the empty window of a non-empty deck, and while
/// the deck is not yet exhausted, the window covers the cards from `k *
/// draw_count` on, up to `draw_count` of them.
proof fn lemma_draw_cycle_steps(len: int, draw_count: int, k: nat)
    requires
        0 < len,
        0 < draw_count,
        k * draw_count < len,
    ensures
        draw_window_n(len, draw_count, 0, 0, k + 1) == (
            k * draw_count,
            if draw_count <= len - k * draw_count {
                draw_count
            } else {
                len - k * draw_count
            },
        ),
    decreases k,
{
    if k == 0 {
        assert(k * draw_count == 0) by (nonlinear_arith)
            requires
                k == 0,
        ;
        assert(draw_window_n(len, draw_count, 0, 0, 0) == (0int, 0int));
        assert(draw_window_n(len, draw_count, 0, 0, 1) == draw_window(len, draw_count, 0, 0));
    } else {
        assert((k - 1) * draw_count < k * draw_count) by (nonlinear_arith)
            requires
                0 < draw_count,
                k >= 1,
        ;
        lemma_draw_cycle_steps(len, draw_count, (k - 1) as nat);
        let prev = draw_window_n(len, draw_count, 0, 0, k);
        assert((k - 1) * draw_count + draw_count == k * draw_count) by (nonlinear_arith);
        if draw_count <= len - (k - 1) * draw_count {
            assert(prev.0 + prev.1 == k * draw_count);
        } else {
            assert(prev.0 + prev.1 == len);
            assert(false);
        }
    }
}

/// Draw-cycle law: drawing through a non-empty deck that is not otherwise
/// touched returns the window to its empty starting state after exactly
/// `ceil(len / draw_count) + 1` draws, and the window is non-empty at every
/// draw before that.
pub proof fn lemma_draw_cycle(len: int, draw_count: int)
    requires
        0 < len,
        0 < draw_count,
    ensures
        draw_window_n(len, draw_count, 0, 0, (((len + draw_count - 1) / draw_count) + 1) as nat)
            == (0int, 0int),
        forall|j: nat|
            1 <= j <= (len + draw_count - 1) / draw_count ==> (#[trigger] draw_window_n(
                len,
                draw_count,
                0,
                0,
                j,
            )).1 > 0,
{
    let m = (len + draw_count - 1) / draw_count;
    vstd::arithmetic::div_mod::lemma_fundamental_div_mod(len + draw_count - 1, draw_count);
    let r = (len + draw_count - 1) % draw_count;
    assert(len + draw_count - 1 == draw_count * m + r);
    assert(0 <= r < draw_count) by {
        vstd::arithmetic::div_mod::lemma_mod_bound(len + draw_count - 1, draw_count);
    }
    assert(m * draw_count >= len) by (nonlinear_arith)
        requires
            len + draw_count - 1 == draw_count * m + r,
            0 <= r < draw_count,
    ;
    assert((m - 1) * draw_count < len) by (nonlinear_arith)
        requires
            len + draw_count - 1 == draw_count * m + r,
            0 <= r < draw_count,
    ;
    assert(m >= 1) by (nonlinear_arith)
        requires
            m * draw_count >= len,
            0 < len,
            0 < draw_count,
    ;
    assert forall|j: nat| 1 <= j <= m implies (#[trigger] draw_window_n(
        len,
        draw_count,
        0,
        0,
        j,
    )).1 > 0 by {
        let k = (j - 1) as nat;
        assert(k * draw_count <= (m - 1) * draw_count) by (nonlinear_arith)
            requires
                0 <= k <= m - 1,
                0 < draw_count,
        ;
        lemma_draw_cycle_steps(len, draw_count, k);
    }
    lemma_draw_cycle_steps(len, draw_count, (m - 1) as nat);
    let last = draw_window_n(len, draw_count, 0, 0, m as nat);
    assert(last.0 + last.1 == if draw_count <= len - (m - 1) * draw_count {
        (m - 1) * draw_count + draw_count
    } else {
        len
    });
    assert((m - 1) * draw_count + draw_count == m * draw_count) by (nonlinear_arith);
    assert(last.0 + last.1 >= len);
    assert(draw_window_n(len, draw_count, 0, 0, (m + 1) as nat) == draw_window(
        len,
        draw_count,
        last.0,
        last.1,
    ));
}

} // verus!
