use std::cmp::Ordering;

use poker_draw::card::{Card, Rank, Suit};
use poker_draw::deck::Deck;
use poker_draw::hand::{compare, discard_positions, evaluate, Category, Hand};

fn c(rank: Rank, suit: Suit) -> Card {
    Card { rank, suit }
}

fn hand(cards: &[Card]) -> Hand {
    let mut h = Hand::new();
    for &x in cards {
        h.add(x);
    }
    h
}

fn royal() -> Hand {
    hand(&[
        c(Rank::Ace, Suit::Spades),
        c(Rank::King, Suit::Spades),
        c(Rank::Queen, Suit::Spades),
        c(Rank::Jack, Suit::Spades),
        c(Rank::Ten, Suit::Spades),
    ])
}

#[test]
fn royal_flush_is_straight_flush_ace_high() {
    let e = evaluate(&royal());
    assert_eq!(e.cat, Category::StraightFlush);
    assert_eq!(e.keys, [14, 0, 0, 0, 0]);
}

#[test]
fn four_sevens_with_deuce_kicker() {
    let h = hand(&[
        c(Rank::Seven, Suit::Clubs),
        c(Rank::Seven, Suit::Diamonds),
        c(Rank::Seven, Suit::Hearts),
        c(Rank::Seven, Suit::Spades),
        c(Rank::Two, Suit::Clubs),
    ]);
    let e = evaluate(&h);
    assert_eq!(e.cat, Category::FourKind);
    assert_eq!(e.keys, [7, 7, 7, 7, 2]);
}

#[test]
fn nines_full_of_fours() {
    let h = hand(&[
        c(Rank::Nine, Suit::Clubs),
        c(Rank::Nine, Suit::Diamonds),
        c(Rank::Nine, Suit::Hearts),
        c(Rank::Four, Suit::Spades),
        c(Rank::Four, Suit::Clubs),
    ]);
    let e = evaluate(&h);
    assert_eq!(e.cat, Category::FullHouse);
    assert_eq!(e.keys, [9, 9, 9, 4, 4]);
}

#[test]
fn wheel_is_five_high_and_lowest_straight() {
    let wheel = hand(&[
        c(Rank::Two, Suit::Clubs),
        c(Rank::Three, Suit::Diamonds),
        c(Rank::Four, Suit::Hearts),
        c(Rank::Five, Suit::Spades),
        c(Rank::Ace, Suit::Clubs),
    ]);
    let six_high = hand(&[
        c(Rank::Six, Suit::Clubs),
        c(Rank::Five, Suit::Diamonds),
        c(Rank::Four, Suit::Hearts),
        c(Rank::Three, Suit::Spades),
        c(Rank::Two, Suit::Clubs),
    ]);
    let e = evaluate(&wheel);
    assert_eq!(e.cat, Category::Straight);
    assert_eq!(e.keys, [5, 0, 0, 0, 0]);
    let f = evaluate(&six_high);
    assert_eq!(f.cat, Category::Straight);
    assert_eq!(f.keys, [6, 0, 0, 0, 0]);
    assert_eq!(compare(&wheel, &six_high), Ordering::Less);
    assert_eq!(compare(&six_high, &wheel), Ordering::Greater);
}

#[test]
fn two_pair_orders_pairs_and_kicker() {
    let h = hand(&[
        c(Rank::Four, Suit::Clubs),
        c(Rank::King, Suit::Diamonds),
        c(Rank::Four, Suit::Hearts),
        c(Rank::King, Suit::Spades),
        c(Rank::Nine, Suit::Clubs),
    ]);
    let e = evaluate(&h);
    assert_eq!(e.cat, Category::TwoPair);
    assert_eq!(e.keys, [13, 13, 4, 4, 9]);
}

#[test]
fn three_kind_pair_flush_and_high_card_keys() {
    let trips = hand(&[
        c(Rank::Jack, Suit::Clubs),
        c(Rank::Three, Suit::Diamonds),
        c(Rank::Jack, Suit::Hearts),
        c(Rank::Queen, Suit::Spades),
        c(Rank::Jack, Suit::Spades),
    ]);
    let e = evaluate(&trips);
    assert_eq!(e.cat, Category::ThreeKind);
    assert_eq!(e.keys, [11, 11, 11, 12, 3]);

    let pair = hand(&[
        c(Rank::Two, Suit::Clubs),
        c(Rank::Eight, Suit::Diamonds),
        c(Rank::Ace, Suit::Hearts),
        c(Rank::Eight, Suit::Spades),
        c(Rank::Five, Suit::Spades),
    ]);
    let e = evaluate(&pair);
    assert_eq!(e.cat, Category::OnePair);
    assert_eq!(e.keys, [8, 8, 14, 5, 2]);

    let flush = hand(&[
        c(Rank::Two, Suit::Hearts),
        c(Rank::Nine, Suit::Hearts),
        c(Rank::Jack, Suit::Hearts),
        c(Rank::Four, Suit::Hearts),
        c(Rank::King, Suit::Hearts),
    ]);
    let e = evaluate(&flush);
    assert_eq!(e.cat, Category::Flush);
    assert_eq!(e.keys, [13, 11, 9, 4, 2]);

    let high = hand(&[
        c(Rank::Two, Suit::Hearts),
        c(Rank::Nine, Suit::Clubs),
        c(Rank::Jack, Suit::Hearts),
        c(Rank::Four, Suit::Hearts),
        c(Rank::King, Suit::Hearts),
    ]);
    let e = evaluate(&high);
    assert_eq!(e.cat, Category::HighCard);
    assert_eq!(e.keys, [13, 11, 9, 4, 2]);
    assert_eq!(compare(&high, &pair), Ordering::Less);
    assert_eq!(compare(&flush, &trips), Ordering::Greater);
}

#[test]
fn evaluation_ignores_card_order() {
    let a = royal();
    let mut cards = a.cards.clone();
    cards.reverse();
    cards.swap(1, 3);
    let b = Hand { cards };
    let ea = evaluate(&a);
    let eb = evaluate(&b);
    assert_eq!(ea.cat, eb.cat);
    assert_eq!(ea.keys, eb.keys);
    assert_eq!(compare(&a, &b), Ordering::Equal);
    assert!(ea == eb);
}

#[test]
fn rank_values_compare_with_operators() {
    let top = evaluate(&royal());
    let quads = evaluate(&hand(&[
        c(Rank::Seven, Suit::Clubs),
        c(Rank::Seven, Suit::Diamonds),
        c(Rank::Seven, Suit::Hearts),
        c(Rank::Seven, Suit::Spades),
        c(Rank::Two, Suit::Clubs),
    ]));
    assert!(quads < top);
    assert!(top != quads);
    assert_eq!(top.partial_cmp(&quads), Some(Ordering::Greater));
    assert_eq!(quads.cmp_to(&top), Ordering::Less);
}

#[test]
fn a_hand_compares_equal_to_itself_and_order_is_transitive() {
    let a = royal();
    assert_eq!(compare(&a, &a), Ordering::Equal);
    let b = hand(&[
        c(Rank::Nine, Suit::Clubs),
        c(Rank::Nine, Suit::Diamonds),
        c(Rank::Nine, Suit::Hearts),
        c(Rank::Four, Suit::Spades),
        c(Rank::Four, Suit::Clubs),
    ]);
    let d = hand(&[
        c(Rank::Two, Suit::Clubs),
        c(Rank::Eight, Suit::Diamonds),
        c(Rank::Ace, Suit::Hearts),
        c(Rank::Eight, Suit::Spades),
        c(Rank::Five, Suit::Spades),
    ]);
    assert_eq!(compare(&d, &b), Ordering::Less);
    assert_eq!(compare(&b, &a), Ordering::Less);
    assert_eq!(compare(&d, &a), Ordering::Less);
}

#[test]
fn discard_indices_removes_listed_positions_only() {
    let mut h = royal();
    h.discard_indices(vec![4, 0, 4, 9]);
    assert_eq!(h.cards.len(), 3);
    assert_eq!(h.cards[0], c(Rank::King, Suit::Spades));
    assert_eq!(h.cards[2], c(Rank::Jack, Suit::Spades));
}

#[test]
fn fmt_inline_joins_card_texts() {
    let h = hand(&[c(Rank::Ace, Suit::Spades), c(Rank::Ten, Suit::Diamonds)]);
    assert_eq!(h.fmt_inline(), "A♠ T♦");
    assert_eq!(Hand::new().fmt_inline(), "");
    assert_eq!(c(Rank::Two, Suit::Clubs).to_text(), "2♣");
}

#[test]
fn standing_pat_keeps_hand_and_deck() {
    let mut h = royal();
    let before = h.cards.clone();
    let mut deck = Deck::from_cards(vec![c(Rank::Two, Suit::Clubs), c(Rank::Three, Suit::Clubs)]);
    h.draw(Vec::new(), 3, &mut deck);
    assert_eq!(h.cards, before);
    assert_eq!(deck.len(), 2);
}

#[test]
fn draw_discards_at_most_the_limit_and_refills_from_the_deck_end() {
    let mut h = royal();
    let mut deck = Deck::from_cards(vec![
        c(Rank::Two, Suit::Clubs),
        c(Rank::Three, Suit::Clubs),
        c(Rank::Four, Suit::Clubs),
    ]);
    h.draw(vec![0, 1, 2, 3], 2, &mut deck);
    assert_eq!(h.cards.len(), 5);
    assert_eq!(h.cards[0], c(Rank::Queen, Suit::Spades));
    assert_eq!(h.cards[3], c(Rank::Four, Suit::Clubs));
    assert_eq!(h.cards[4], c(Rank::Three, Suit::Clubs));
    assert_eq!(deck.len(), 1);
}

#[test]
fn discard_numbers_become_positions() {
    assert_eq!(discard_positions(&vec![1, 5, 3]), Some(vec![0, 4, 2]));
    assert_eq!(discard_positions(&vec![]), None);
    assert_eq!(discard_positions(&vec![2, 0]), None);
    assert_eq!(discard_positions(&vec![6]), None);
}
