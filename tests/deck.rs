use std::collections::HashSet;

use poker_draw::card::{rank_val, Card, Rank, Suit};
use poker_draw::deck::Deck;

#[test]
fn fresh_deck_holds_52_distinct_cards() {
    let mut d = Deck::new_shuffled();
    assert_eq!(d.len(), 52);
    let mut seen: HashSet<Card> = HashSet::new();
    while let Some(card) = d.deal() {
        assert!(seen.insert(card));
    }
    assert_eq!(seen.len(), 52);
    assert_eq!(d.deal(), None);
}

#[test]
fn deal_takes_the_last_card() {
    let a = Card { rank: Rank::Ace, suit: Suit::Hearts };
    let b = Card { rank: Rank::Two, suit: Suit::Spades };
    let mut d = Deck::from_cards(vec![a, b]);
    assert_eq!(d.deal(), Some(b));
    assert_eq!(d.deal(), Some(a));
    assert_eq!(d.deal(), None);
    assert_eq!(d.len(), 0);
}

#[test]
fn rank_values_run_from_two_to_ace_high() {
    assert_eq!(rank_val(Rank::Two), 2);
    assert_eq!(rank_val(Rank::Ten), 10);
    assert_eq!(rank_val(Rank::Ace), 14);
    assert_eq!(Rank::from_index(12), Rank::Ace);
    assert_eq!(Suit::from_index(3), Suit::Spades);
}
