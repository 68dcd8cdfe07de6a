use poker_draw::card::{Card, Rank, Suit};
use poker_draw::game::{Game, GameSettings};
use poker_draw::hand::Hand;
use poker_draw::pot::build_pots;

fn c(rank: Rank, suit: Suit) -> Card {
    Card { rank, suit }
}

fn settings(n: usize) -> GameSettings {
    GameSettings { num_players: n, starting_chips: 1000, min_bet: 10, turn_timeout_secs: 30, max_discards: 3 }
}

fn pair_of_eights(s: Suit, t: Suit) -> Hand {
    Hand {
        cards: vec![
            c(Rank::Eight, s),
            c(Rank::Eight, t),
            c(Rank::Two, Suit::Clubs),
            c(Rank::Five, Suit::Diamonds),
            c(Rank::Nine, Suit::Hearts),
        ],
    }
}

fn royal() -> Hand {
    Hand {
        cards: vec![
            c(Rank::Ace, Suit::Spades),
            c(Rank::King, Suit::Spades),
            c(Rank::Queen, Suit::Spades),
            c(Rank::Jack, Suit::Spades),
            c(Rank::Ten, Suit::Spades),
        ],
    }
}

#[test]
fn all_in_player_wins_main_pot_and_tied_pair_splits_side_pot() {
    let mut g = Game::new(settings(3));
    g.setup_players();
    let contributed = [100u32, 100, 50];
    let hands = [pair_of_eights(Suit::Clubs, Suit::Diamonds), pair_of_eights(Suit::Hearts, Suit::Spades), royal()];
    for i in 0..3 {
        g.players[i].reset_for_hand();
        g.players[i].chips = 1000 - contributed[i];
        g.players[i].contributed_total = contributed[i];
        g.players[i].hand = Some(hands[i].clone());
    }
    g.players[2].chips = 0;
    g.players[2].all_in = true;
    let (pots, awards) = g.settle_showdown();
    assert_eq!(pots.len(), 2);
    assert_eq!(pots[0].amount, 150);
    assert_eq!(pots[0].eligible, vec![0, 1, 2]);
    assert_eq!(pots[1].amount, 100);
    assert_eq!(pots[1].eligible, vec![0, 1]);
    assert_eq!(awards[0].winners, vec![2]);
    assert_eq!(awards[1].winners, vec![0, 1]);
    assert_eq!(awards[1].share, 50);
    assert_eq!(g.players[2].chips, 150);
    assert_eq!(g.players[0].chips, 950);
    assert_eq!(g.players[1].chips, 950);
}

#[test]
fn slices_add_up_to_all_contributions() {
    let c = vec![30u32, 120, 75, 0, 200];
    let live = vec![true, true, true, false, false];
    let pots = build_pots(&c, &live);
    let sum: u32 = pots.iter().map(|p| p.amount).sum();
    assert_eq!(sum, 425);
    assert_eq!(pots.len(), 4);
    assert_eq!(pots[0].amount, 120);
    assert_eq!(pots[0].cap, 30);
    assert_eq!(pots[1].amount, 45 * 3);
    assert_eq!(pots[1].eligible, vec![1, 2]);
    assert_eq!(pots[2].amount, 90);
    assert_eq!(pots[2].eligible, vec![1]);
    assert!(!pots[3].capped);
    assert_eq!(pots[3].amount, 80);
    assert_eq!(pots[3].eligible, vec![0, 1, 2]);
}

#[test]
fn no_contributions_give_no_slices() {
    let pots = build_pots(&vec![0, 0], &vec![true, true]);
    assert!(pots.is_empty());
}

#[test]
fn odd_chip_goes_to_first_tied_winner() {
    let mut g = Game::new(settings(3));
    g.setup_players();
    for i in 0..3 {
        g.players[i].reset_for_hand();
        g.players[i].chips = 0;
        g.players[i].contributed_total = 51;
    }
    g.players[0].hand = Some(pair_of_eights(Suit::Clubs, Suit::Diamonds));
    g.players[1].hand = Some(pair_of_eights(Suit::Hearts, Suit::Spades));
    g.players[2].hand = Some(royal());
    g.players[2].folded = true;
    let (pots, awards) = g.settle_showdown();
    assert_eq!(pots.len(), 1);
    assert_eq!(pots[0].amount, 153);
    assert_eq!(awards[0].share, 76);
    assert_eq!(g.players[0].chips, 77);
    assert_eq!(g.players[1].chips, 76);
    assert_eq!(g.players[2].chips, 0);
}
