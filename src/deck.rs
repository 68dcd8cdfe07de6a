use vstd::prelude::*;

use crate::card::{rank_at, suit_at, Card, Rank, Suit};

verus! {

/// A deck of distinct cards; dealing takes from the end.
#[derive(Clone)]
pub struct Deck {
    cards: Vec<Card>,
}

/// The card at position `i` (0..52) of a fresh deck, suit by suit.
pub open spec fn deck_card(i: int) -> Card {
    Card { rank: rank_at(i % 13), suit: suit_at(i / 13) }
}

/// The 52 cards of a fresh deck, in suit-then-rank order.
pub open spec fn full_deck() -> Seq<Card> {
    Seq::new(52, |i: int| deck_card(i))
}

impl View for Deck {
    type V = Seq<Card>;

    closed spec fn view(&self) -> Seq<Card> {
        self.cards@
    }
}

/// Relies on rand's `SliceRandom::shuffle` with `thread_rng`: it only swaps
/// elements, so the result holds the same cards.
#[verifier::external_body]
fn shuffle_cards(cards: &mut Vec<Card>)
    ensures
        final(cards)@.to_multiset() == old(cards)@.to_multiset(),
        final(cards)@.len() == old(cards)@.len(),
{
    rand::seq::SliceRandom::shuffle(cards.as_mut_slice(), &mut rand::thread_rng())
}

proof fn lemma_full_deck_distinct()
    ensures
        full_deck().no_duplicates(),
{
    assert forall|i: int, j: int| 0 <= i < 52 && 0 <= j < 52 && i != j implies
        #[trigger] full_deck()[i] != #[trigger] full_deck()[j] by {
        assert(0 <= i % 13 < 13 && 0 <= j % 13 < 13);
        assert(i == 13 * (i / 13) + i % 13);
        assert(j == 13 * (j / 13) + j % 13);
    }
}

impl Deck {
    /// Well-formed: no card occurs twice.
    pub open spec fn wf(&self) -> bool {
        self@.no_duplicates()
    }

    /// A deck of the 52 distinct cards in a uniformly random order.
    pub fn new_shuffled() -> (d: Deck)
        ensures
            d.wf(),
            d@.len() == 52,
            d@.to_multiset() == full_deck().to_multiset(),
    {
        let mut cards: Vec<Card> = Vec::new();
        let mut i: usize = 0;
        while i < 52
            invariant
                i <= 52,
                cards@ =~= full_deck().take(i as int),
            decreases 52 - i,
        {
            let c = Card { rank: Rank::from_index(i % 13), suit: Suit::from_index(i / 13) };
            cards.push(c);
            i += 1;
        }
        assert(cards@ =~= full_deck());
        let ghost before = cards@;
        shuffle_cards(&mut cards);
        proof {
            lemma_full_deck_distinct();
            before.lemma_multiset_has_no_duplicates();
            cards@.lemma_multiset_has_no_duplicates_conv();
        }
        Deck { cards }
    }

    /// A deck holding the given cards; the last one is dealt first.
    pub fn from_cards(cards: Vec<Card>) -> (d: Deck)
        requires
            cards@.no_duplicates(),
        ensures
            d.wf(),
            d@ == cards@,
    {
        Deck { cards }
    }

    /// Number of cards left.
    pub fn len(&self) -> (n: usize)
        ensures
            n == self@.len(),
    {
        self.cards.len()
    }

    /// Removes and returns the last card, or `None` when the deck is empty.
    pub fn deal(&mut self) -> (r: Option<Card>)
        requires
            old(self).wf(),
        ensures
            final(self).wf(),
            old(self)@.len() == 0 ==> r is None && final(self)@ == old(self)@,
            old(self)@.len() > 0 ==> r == Some(old(self)@.last()) && final(self)@
                == old(self)@.drop_last(),
    {
        let r = self.cards.pop();
        proof {
            if old(self)@.len() > 0 {
                assert(self@ =~= old(self)@.drop_last());
                assert forall|i: int, j: int| 0 <= i < self@.len() && 0 <= j < self@.len() && i != j
                    implies self@[i] != self@[j] by {
                    assert(self@[i] == old(self)@[i] && self@[j] == old(self)@[j]);
                }
            }
        }
        r
    }
}

} // verus!
