//! A tableau pile: a face-down (hidden) prefix under a face-up (visible)
//! run. The visible run, read bottom to top, always descends one rank at a
//! time with strictly alternating colors; an empty pile accepts only a
//! King, and a pile whose top is an Ace accepts nothing.

use vstd::prelude::*;

use crate::french::{rank_index, rank_of_ord, Color, Rank};
use crate::game::{Card, KlondikeErr, KlondikeResult};

verus! {

/// `lower` may sit directly on `upper` in a tableau run: one rank below,
/// opposite color.
pub open spec fn follows(upper: Card, lower: Card) -> bool {
    &&& lower.rank.ord() == upper.rank.ord() - 1
    &&& lower.color_spec() == upper.color_spec().other_spec()
}

/// A valid visible run, bottom to top: each card sits on the one before it.
pub open spec fn descending_run(s: Seq<Card>) -> bool {
    forall|i: int| 0 <= i < s.len() - 1 ==> follows(#[trigger] s[i], s[i + 1])
}

/// A run stays a run when restricted to a contiguous part.
pub proof fn lemma_run_subrange(s: Seq<Card>, a: int, b: int)
    requires
        descending_run(s),
        0 <= a <= b <= s.len(),
    ensures
        descending_run(s.subrange(a, b)),
{
    assert forall|i: int| 0 <= i < b - a - 1 implies follows(
        #[trigger] s.subrange(a, b)[i],
        s.subrange(a, b)[i + 1],
    ) by {
        assert(follows(s[a + i], s[a + i + 1]));
    }
}

/// Two runs whose boundary cards fit together concatenate to a run.
pub proof fn lemma_run_concat(a: Seq<Card>, b: Seq<Card>)
    requires
        descending_run(a),
        descending_run(b),
        a.len() > 0 && b.len() > 0 ==> follows(a.last(), b.first()),
    ensures
        descending_run(a + b),
{
    let c = a + b;
    assert forall|i: int| 0 <= i < c.len() - 1 implies follows(#[trigger] c[i], c[i + 1]) by {
        if i < a.len() - 1 {
            assert(follows(a[i], a[i + 1]));
        } else if i == a.len() - 1 {
            assert(c[i] == a.last() && c[i + 1] == b.first());
        } else {
            assert(follows(b[i - a.len()], b[i - a.len() + 1]));
        }
    }
}


/// Pile ordering law: in every well-formed pile — and `push`, `pop` and
/// `move_to` all keep piles well formed — the visible region read bottom to
/// top descends one rank at a time with strictly alternating colors.
pub proof fn lemma_pile_ordering(p: Pile)
    requires
        p.wf(),
    ensures
        descending_run(p.visible_cards@),
        forall|i: int|
            0 <= i < p.visible_cards@.len() - 1 ==> (#[trigger] p.visible_cards@[i + 1]).rank.ord()
                == p.visible_cards@[i].rank.ord() - 1 && p.visible_cards@[i + 1].color_spec()
                != p.visible_cards@[i].color_spec(),
{
    assert forall|i: int| 0 <= i < p.visible_cards@.len() - 1 implies (#[trigger] p.visible_cards@[
    i + 1]).rank.ord() == p.visible_cards@[i].rank.ord() - 1 && p.visible_cards@[i
        + 1].color_spec() != p.visible_cards@[i].color_spec() by {
        assert(follows(p.visible_cards@[i], p.visible_cards@[i + 1]));
    }
}

/// `src2`/`tgt2` are `src`/`tgt` after the smallest acceptable visible
/// suffix of `src` moved, in order, onto `tgt`'s visible run; `src` then
/// revealed a hidden card if the move emptied its visible region.
pub open spec fn moved_piles(src: Pile, tgt: Pile, src2: Pile, tgt2: Pile) -> bool {
    exists|k: int|
        {
            &&& 0 <= k < src.visible_cards@.len()
            &&& tgt.accepts(#[trigger] src.visible_cards@[k])
            &&& forall|j: int| 0 <= j < k ==> !tgt.accepts(#[trigger] src.visible_cards@[j])
            &&& tgt2.hidden_cards@ == tgt.hidden_cards@
            &&& tgt2.visible_cards@ == tgt.visible_cards@ + src.visible_cards@.skip(k)
            &&& src2.hidden_cards@ + src2.visible_cards@ == src.hidden_cards@
                + src.visible_cards@.take(k)
            &&& (k > 0 ==> src2.visible_cards@ == src.visible_cards@.take(k)
                && src2.hidden_cards@ == src.hidden_cards@)
            &&& (k == 0 && src.hidden_cards@.len() == 0 ==> src2.visible_cards@.len() == 0
                && src2.hidden_cards@.len() == 0)
            &&& (k == 0 && src.hidden_cards@.len() > 0 ==> src2.visible_cards@ == seq![
                src.hidden_cards@.last(),
            ] && src2.hidden_cards@ == src.hidden_cards@.drop_last())
        }
}

pub struct Pile {
    pub visible_cards: Vec<Card>,
    pub hidden_cards: Vec<Card>,
}

/// Two piles hold the same cards in the same regions and order.
pub open spec fn same_pile(a: Pile, b: Pile) -> bool {
    a.hidden_cards@ == b.hidden_cards@ && a.visible_cards@ == b.visible_cards@
}

/// All of a pile's cards, bottom to top: the hidden prefix, then the
/// visible run.
pub open spec fn pile_seq(p: Pile) -> Seq<Card> {
    p.hidden_cards@ + p.visible_cards@
}

/// `q` is `p` after its top visible card was removed: the run shrinks by
/// one, and when that empties it the top hidden card (if any) is revealed.
pub open spec fn popped_pile(p: Pile, q: Pile) -> bool {
    if p.visible_cards@.len() > 1 {
        q.visible_cards@ == p.visible_cards@.drop_last() && q.hidden_cards@ == p.hidden_cards@
    } else if p.visible_cards@.len() == 1 {
        if p.hidden_cards@.len() == 0 {
            q.visible_cards@.len() == 0 && q.hidden_cards@.len() == 0
        } else {
            q.visible_cards@ == seq![p.hidden_cards@.last()] && q.hidden_cards@
                == p.hidden_cards@.drop_last()
        }
    } else {
        same_pile(p, q)
    }
}

/// A removed top visible card shortens a pile's card sequence by exactly
/// that card.
pub proof fn lemma_popped_pile_seq(p: Pile, q: Pile)
    requires
        popped_pile(p, q),
        p.visible_cards@.len() > 0,
    ensures
        pile_seq(q) == pile_seq(p).drop_last(),
        pile_seq(p).len() > 0,
        pile_seq(p).last() == p.visible_cards@.last(),
{
    if p.visible_cards@.len() > 1 {
        assert(pile_seq(q) =~= pile_seq(p).drop_last());
    } else if p.hidden_cards@.len() == 0 {
        assert(pile_seq(q) =~= pile_seq(p).drop_last());
    } else {
        assert(pile_seq(q) =~= pile_seq(p).drop_last());
    }
}

impl Pile {
    /// Structural invariant: every card has a standard rank, the visible
    /// region is a valid descending run, and hidden cards never sit without
    /// a visible card above them.
    pub open spec fn wf(self) -> bool {
        &&& forall|i: int|
            0 <= i < self.visible_cards@.len() ==> (#[trigger] self.visible_cards@[i]).wf()
        &&& forall|i: int|
            0 <= i < self.hidden_cards@.len() ==> (#[trigger] self.hidden_cards@[i]).wf()
        &&& descending_run(self.visible_cards@)
        &&& self.hidden_cards@.len() > 0 ==> self.visible_cards@.len() > 0
    }

    pub open spec fn top_spec(self) -> Option<Card> {
        if self.visible_cards@.len() == 0 {
            None
        } else {
            Some(self.visible_cards@.last())
        }
    }

    /// The color and rank the next pushed card must have: any-color King on
    /// an empty pile, the opposite color one rank down otherwise, and
    /// nothing once the top card is an Ace.
    pub open spec fn next_card_spec(self) -> Option<(Option<Color>, Rank)> {
        if self.visible_cards@.len() == 0 {
            Some((None::<Color>, Rank::King))
        } else {
            let top = self.visible_cards@.last();
            if top.rank.ord() == 0 {
                None
            } else {
                Some((Some(top.color_spec().other_spec()), rank_of_ord(top.rank.ord() - 1)))
            }
        }
    }

    /// Whether a card matches the required color and rank exactly.
    pub open spec fn accepts(self, card: Card) -> bool {
        match self.next_card_spec() {
            Some((Some(color), rank)) => card.color_spec() == color && card.rank == rank,
            Some((None, rank)) => card.rank == rank,
            None => false,
        }
    }

    /// The outcome `can_push` reports for a card: `Capacity` when nothing
    /// is accepted any more, `InvalidCard` on a color/rank mismatch.
    pub open spec fn can_push_res(self, card: Card) -> KlondikeResult<()> {
        if self.next_card_spec() is None {
            Err(KlondikeErr::Capacity)
        } else if self.accepts(card) {
            Ok(())
        } else {
            Err(KlondikeErr::InvalidCard)
        }
    }

    pub fn new() -> (p: Pile)
        ensures
            p.wf(),
            p.visible_cards@ == Seq::<Card>::empty(),
            p.hidden_cards@ == Seq::<Card>::empty(),
    {
        let p = Pile { visible_cards: Vec::new(), hidden_cards: Vec::with_capacity(6) };
        proof {
            assert(p.visible_cards@ =~= Seq::<Card>::empty());
            assert(p.hidden_cards@ =~= Seq::<Card>::empty());
        }
        p
    }

    /// Rebuilds a pile from its two regions. Hidden cards demand a visible
    /// card above them, at most six cards may be hidden, all cards must be
    /// distinct standard ranks, and the visible region must already be a
    /// valid run.
    pub fn from(hidden: &[Card], visible: &[Card]) -> (p: Pile)
        requires
            hidden@.len() > 0 ==> visible@.len() > 0,
            hidden@.len() <= 6,
            (hidden@ + visible@).no_duplicates(),
            forall|i: int| 0 <= i < hidden@.len() ==> (#[trigger] hidden@[i]).wf(),
            forall|i: int| 0 <= i < visible@.len() ==> (#[trigger] visible@[i]).wf(),
            descending_run(visible@),
        ensures
            p.wf(),
            p.hidden_cards@ == hidden@,
            p.visible_cards@ == visible@,
    {
        let mut visible_cards: Vec<Card> = Vec::new();
        let mut hidden_cards: Vec<Card> = Vec::new();
        visible_cards.extend_from_slice(visible);
        hidden_cards.extend_from_slice(hidden);
        proof {
            assert(visible_cards@ =~= visible@);
            assert(hidden_cards@ =~= hidden@);
        }
        Pile { visible_cards, hidden_cards }
    }

    pub fn top(&self) -> (r: Option<Card>)
        ensures
            r == self.top_spec(),
    {
        match self.visible_cards.last() {
            Some(c) => Some(*c),
            None => None,
        }
    }

    pub fn len(&self) -> (n: usize)
        requires
            self.visible_cards@.len() + self.hidden_cards@.len() <= usize::MAX,
        ensures
            n == self.visible_cards@.len() + self.hidden_cards@.len(),
    {
        self.visible_cards.len() + self.hidden_cards.len()
    }

    pub fn is_empty(&self) -> (r: bool)
        ensures
            r <==> self.visible_cards@.len() == 0,
    {
        self.visible_cards.is_empty()
    }

    pub fn visible_cards(&self) -> (r: &[Card])
        ensures
            r@ == self.visible_cards@,
    {
        self.visible_cards.as_slice()
    }

    pub fn hidden_cards(&self) -> (r: &[Card])
        ensures
            r@ == self.hidden_cards@,
    {
        self.hidden_cards.as_slice()
    }

    /// Deals a pile: all cards but the last go face down, the last becomes
    /// the sole visible card.
    pub fn reset(&mut self, cards: &[Card])
        requires
            1 <= cards@.len() <= 7,
            forall|i: int| 0 <= i < cards@.len() ==> (#[trigger] cards@[i]).wf(),
        ensures
            final(self).wf(),
            final(self).hidden_cards@ == cards@.drop_last(),
            final(self).visible_cards@ == seq![cards@.last()],
            final(self).hidden_cards@ + final(self).visible_cards@ == cards@,
    {
        self.hidden_cards.clear();
        if cards.len() > 1 {
            self.hidden_cards.extend_from_slice(&cards[0..cards.len() - 1]);
        }
        self.visible_cards.clear();
        let last = cards[cards.len() - 1];
        self.visible_cards.push(last);
        proof {
            assert(self.hidden_cards@ =~= cards@.drop_last());
            assert(self.visible_cards@ =~= seq![cards@.last()]);
            assert(self.hidden_cards@ + self.visible_cards@ =~= cards@);
        }
    }

    /// The color and rank required of the next pushed card, `(None, King)`
    /// on an empty pile, or `None` when the top card is an Ace.
    pub fn next_card(&self) -> (r: Option<(Option<Color>, Rank)>)
        requires
            self.wf(),
        ensures
            r == self.next_card_spec(),
    {
        match self.visible_cards.last() {
            Some(card) => {
                let i = rank_index(card.rank()).unwrap();
                proof {
                    crate::french::lemma_rank_ord_bijective();
                }
                if i == 0 {
                    None
                } else {
                    Some((Some(card.color().other()), crate::french::rank_of_index(i - 1)))
                }
            },
            None => Some((None, Rank::King)),
        }
    }

    /// Whether the pile accepts this card: `Capacity` when nothing is
    /// accepted (top card is an Ace), `InvalidCard` on a color or rank
    /// mismatch.
    pub fn can_push(&self, card: Card) -> (r: KlondikeResult<()>)
        requires
            self.wf(),
        ensures
            r == self.can_push_res(card),
            r is Ok <==> self.accepts(card),
    {
        match self.next_card() {
            Some((Some(color), rank)) => {
                if card.color() == color && card.rank() == rank {
                    Ok(())
                } else {
                    Err(KlondikeErr::InvalidCard)
                }
            },
            Some((None, rank)) => {
                if card.rank() == rank {
                    Ok(())
                } else {
                    Err(KlondikeErr::InvalidCard)
                }
            },
            None => Err(KlondikeErr::Capacity),
        }
    }

    /// Appends the card to the visible run when it is acceptable; reports
    /// the same outcome as `can_push` and changes nothing on failure.
    pub fn push(&mut self, card: Card) -> (r: KlondikeResult<()>)
        requires
            old(self).wf(),
            old(self).visible_cards@.len() < usize::MAX,
        ensures
            final(self).wf(),
            r == old(self).can_push_res(card),
            r is Ok ==> final(self).visible_cards@ == old(self).visible_cards@.push(card)
                && final(self).hidden_cards@ == old(self).hidden_cards@,
            r is Err ==> *final(self) == *old(self),
    {
        let result = self.can_push(card);
        if result.is_ok() {
            proof {
                crate::french::lemma_rank_ord_bijective();
                let v = self.visible_cards@;
                assert(descending_run(v.push(card))) by {
                    assert forall|i: int| 0 <= i < v.push(card).len() - 1 implies follows(
                        #[trigger] v.push(card)[i],
                        v.push(card)[i + 1],
                    ) by {
                        if i < v.len() - 1 {
                            assert(follows(v[i], v[i + 1]));
                        }
                    }
                }
            }
            self.visible_cards.push(card);
        }
        result
    }

    /// Removes the top visible card; when this empties the visible region
    /// and hidden cards remain, the top hidden card is revealed.
    pub fn pop(&mut self) -> (r: Option<Card>)
        requires
            old(self).wf(),
        ensures
            final(self).wf(),
            r == old(self).top_spec(),
            r is None ==> same_pile(*final(self), *old(self)),
            old(self).visible_cards@.len() > 1 ==> final(self).visible_cards@ == old(self).visible_cards@.drop_last() && final(self).hidden_cards@ == old(self).hidden_cards@,
            old(self).visible_cards@.len() == 1 ==> {
                &&& final(self).hidden_cards@ + final(self).visible_cards@ == old(self).hidden_cards@
                &&& (old(self).hidden_cards@.len() == 0 ==> final(self).visible_cards@.len() == 0
                    && final(self).hidden_cards@.len() == 0)
                &&& (old(self).hidden_cards@.len() > 0 ==> final(self).visible_cards@ == seq![
                    old(self).hidden_cards@.last(),
                ] && final(self).hidden_cards@ == old(self).hidden_cards@.drop_last())
            },
    {
        match self.visible_cards.pop() {
            Some(card) => {
                proof {
                    lemma_run_subrange(
                        old(self).visible_cards@,
                        0,
                        old(self).visible_cards@.len() - 1,
                    );
                    assert(old(self).visible_cards@.drop_last() =~= old(self).visible_cards@.subrange(0, old(self).visible_cards@.len() - 1));
                }
                self.check_visible();
                proof {
                    if old(self).visible_cards@.len() == 1 && old(self).hidden_cards@.len() > 0 {
                        assert(self.hidden_cards@ + self.visible_cards@ =~= old(self).hidden_cards@);
                    }
                    if old(self).visible_cards@.len() == 1 && old(self).hidden_cards@.len() == 0 {
                        assert(self.hidden_cards@ + self.visible_cards@ =~= old(self).hidden_cards@);
                    }
                }
                Some(card)
            },
            None => None,
        }
    }

    /// Reveal rule: when the visible region is empty and hidden cards
    /// remain, move the top hidden card into the visible region.
    fn check_visible(&mut self)
        requires
            forall|i: int|
                0 <= i < old(self).hidden_cards@.len() ==> (#[trigger] old(self).hidden_cards@[i]).wf(),
            forall|i: int|
                0 <= i < old(self).visible_cards@.len() ==> (#[trigger] old(self).visible_cards@[i]).wf(),
            descending_run(old(self).visible_cards@),
        ensures
            final(self).wf(),
            old(self).visible_cards@.len() > 0 ==> *final(self) == *old(self),
            old(self).visible_cards@.len() == 0 && old(self).hidden_cards@.len() == 0
                ==> same_pile(*final(self), *old(self)),
            old(self).visible_cards@.len() == 0 && old(self).hidden_cards@.len() > 0 ==> {
                &&& final(self).visible_cards@ == seq![old(self).hidden_cards@.last()]
                &&& final(self).hidden_cards@ == old(self).hidden_cards@.drop_last()
            },
    {
        if self.visible_cards.is_empty() {
            if let Some(next_card) = self.hidden_cards.pop() {
                self.visible_cards.push(next_card);
                proof {
                    assert(self.visible_cards@ =~= seq![old(self).hidden_cards@.last()]);
                }
            }
        }
    }

    /// Moves the smallest acceptable visible suffix onto `target`: the
    /// lowest visible card that `target` accepts and everything above it
    /// move as one block, preserving order. Fails with `InvalidMove`, and
    /// changes nothing, when no visible card is acceptable.
    pub fn move_to(&mut self, target: &mut Pile) -> (r: KlondikeResult<()>)
        requires
            old(self).wf(),
            old(target).wf(),
            old(target).visible_cards@.len() + old(self).visible_cards@.len() <= usize::MAX,
        ensures
            final(self).wf(),
            final(target).wf(),
            r is Err ==> r == Err::<(), KlondikeErr>(KlondikeErr::InvalidMove) && *final(self)
                == *old(self) && *final(target) == *old(target),
            r is Ok <==> exists|k: int|
                0 <= k < old(self).visible_cards@.len() && old(target).accepts(
                    #[trigger] old(self).visible_cards@[k],
                ),
            r is Ok ==> moved_piles(*old(self), *old(target), *final(self), *final(target)),
            r is Ok ==> pile_seq(*final(self)).to_multiset().add(
                pile_seq(*final(target)).to_multiset(),
            ) == pile_seq(*old(self)).to_multiset().add(pile_seq(*old(target)).to_multiset()),
            r is Ok ==> final(self).hidden_cards@.len() <= old(self).hidden_cards@.len(),
            r is Ok ==> final(target).hidden_cards@ == old(target).hidden_cards@,
    {
        let n = self.visible_cards.len();
        let mut index: usize = 0;
        let mut found = false;
        while index < n && !found
            invariant
                old(self).wf(),
                old(target).wf(),
                *self == *old(self),
                *target == *old(target),
                n == self.visible_cards@.len(),
                index <= n,
                !found ==> forall|j: int|
                    0 <= j < index ==> !old(target).accepts(
                        #[trigger] old(self).visible_cards@[j],
                    ),
                found ==> index < n && old(target).accepts(old(self).visible_cards@[index as int])
                    && forall|j: int|
                    0 <= j < index ==> !old(target).accepts(
                        #[trigger] old(self).visible_cards@[j],
                    ),
            decreases n - index, (if found { 0int } else { 1int }),
        {
            if target.can_push(self.visible_cards[index]).is_ok() {
                found = true;
            } else {
                index = index + 1;
            }
        }
        if !found {
            return Err(KlondikeErr::InvalidMove);
        }
        let ghost k = index as int;
        let ghost block = old(self).visible_cards@.skip(k);
        proof {
            crate::french::lemma_rank_ord_bijective();
            lemma_run_subrange(old(self).visible_cards@, k, old(self).visible_cards@.len() as int);
            lemma_run_concat(old(target).visible_cards@, block);
        }
        let moved: &[Card] = &self.visible_cards[index..n];
        target.visible_cards.extend_from_slice(moved);
        proof {
            assert(target.visible_cards@ =~= old(target).visible_cards@ + block);
        }
        self.visible_cards.truncate(index);
        proof {
            assert(self.visible_cards@ =~= old(self).visible_cards@.take(k));
            lemma_run_subrange(old(self).visible_cards@, 0, k);
        }
        self.check_visible();
        proof {
            if k == 0 && old(self).hidden_cards@.len() > 0 {
                assert(self.hidden_cards@ + self.visible_cards@ =~= old(self).hidden_cards@ + old(self).visible_cards@.take(0));
            }
            if k == 0 && old(self).hidden_cards@.len() == 0 {
                assert(self.hidden_cards@ + self.visible_cards@ =~= old(self).hidden_cards@ + old(self).visible_cards@.take(0));
            }
            if k > 0 {
                assert(self.hidden_cards@ + self.visible_cards@ =~= old(self).hidden_cards@ + old(self).visible_cards@.take(k));
            }
            broadcast use vstd::multiset::group_multiset_axioms;

            let hs = old(self).hidden_cards@;
            let v = old(self).visible_cards@;
            let ht = old(target).hidden_cards@;
            let vt = old(target).visible_cards@;
            assert(v.take(k) + v.skip(k) =~= v);
            vstd::seq_lib::lemma_multiset_commutative(hs, v);
            vstd::seq_lib::lemma_multiset_commutative(hs, v.take(k));
            vstd::seq_lib::lemma_multiset_commutative(v.take(k), v.skip(k));
            vstd::seq_lib::lemma_multiset_commutative(ht, vt);
            vstd::seq_lib::lemma_multiset_commutative(ht, vt + v.skip(k));
            vstd::seq_lib::lemma_multiset_commutative(vt, v.skip(k));
            assert(pile_seq(*self).to_multiset() == (hs + v.take(k)).to_multiset());
            assert(pile_seq(*self).to_multiset().add(pile_seq(*target).to_multiset())
                =~= pile_seq(*old(self)).to_multiset().add(pile_seq(*old(target)).to_multiset()));
        }
        Ok(())
    }
}

} // verus!
