use poker_draw::card::{Card, Rank, Suit};
use poker_draw::deck::Deck;
use poker_draw::game::{Game, GameSettings};

fn game(stacks: &[u32]) -> Game {
    let mut g = Game::new(GameSettings {
        num_players: stacks.len(),
        starting_chips: 100,
        min_bet: 10,
        turn_timeout_secs: 30,
        max_discards: 3,
    });
    g.names = vec!["Ann".to_string()];
    g.setup_players();
    for (i, &s) in stacks.iter().enumerate() {
        g.players[i].chips = s;
    }
    g
}

#[test]
fn setup_uses_given_names_then_defaults() {
    let g = game(&[100, 100, 100]);
    assert_eq!(g.players.len(), 3);
    assert_eq!(g.players[0].name, "Ann");
    assert_eq!(g.players[1].name, "Player 2");
    assert_eq!(g.players[2].name, "Player 3");
    assert_eq!(g.players[2].id, 2);
}

#[test]
fn seat_order_wraps_and_skips_empty_stacks() {
    let g = game(&[100, 0, 100, 100]);
    assert_eq!(g.seat_order_from(2), vec![2, 3, 0]);
    assert_eq!(g.seat_order_from(9), vec![2, 3, 0]);
    assert_eq!(g.next_seat(3), 0);
    assert_eq!(g.active_player_ids(), vec![0, 2, 3]);
}

#[test]
fn dealer_moves_to_next_funded_seat() {
    let mut g = game(&[100, 0, 100, 100]);
    g.dealer = 0;
    g.rotate_dealer();
    assert_eq!(g.dealer, 2);
    g.rotate_dealer();
    assert_eq!(g.dealer, 3);
    g.rotate_dealer();
    assert_eq!(g.dealer, 0);
    g.dealer = 1;
    g.rotate_dealer();
    assert_eq!(g.dealer, 2);
}

#[test]
fn table_winner_only_when_one_stack_left() {
    let g = game(&[0, 80, 0]);
    assert_eq!(g.find_table_winner(), Some(1));
    let h = game(&[10, 80, 0]);
    assert_eq!(h.find_table_winner(), None);
}

#[test]
fn quitting_shares_chips_among_funded_seats() {
    let mut g = game(&[100, 0, 50, 60]);
    g.logger.start_hand();
    g.handle_player_quit(0);
    assert_eq!(g.players[0].chips, 0);
    assert!(g.players[0].folded);
    assert!(g.players[0].hand.is_none());
    assert_eq!(g.players[0].last_action, "quit");
    assert_eq!(g.players[1].chips, 0);
    assert_eq!(g.players[2].chips, 100);
    assert_eq!(g.players[3].chips, 110);
    assert_eq!(g.logger.hands[0].events[0].action, "quit (stack: 0)");
}

#[test]
fn log_action_notes_the_stack() {
    let mut g = game(&[75, 100]);
    g.logger.start_hand();
    g.log_action(0, "checked");
    g.log_private(1, "initial hand [A♠]");
    assert_eq!(g.logger.hands[0].events[0].action, "checked (stack: 75)");
    assert_eq!(g.logger.hands[0].events[0].player, "Ann");
    assert_eq!(g.logger.hands[0].private[0].player, "Player 2");
}

#[test]
fn uncontested_pot_goes_to_last_seat() {
    let mut g = game(&[90, 80]);
    g.players[0].contributed_total = 10;
    g.players[1].contributed_total = 20;
    g.award_uncontested(1);
    assert_eq!(g.players[1].chips, 110);
    assert_eq!(g.players[0].chips, 90);
}

#[test]
fn button_leaves_a_broke_dealer_clockwise() {
    let mut g = game(&[5, 5, 0, 5]);
    g.dealer = 2;
    g.rotate_dealer();
    assert_eq!(g.dealer, 3);
    let mut h = game(&[5, 5, 0, 0]);
    h.dealer = 3;
    h.rotate_dealer();
    assert_eq!(h.dealer, 0);
    let mut e = game(&[0, 0, 0]);
    e.dealer = 1;
    e.rotate_dealer();
    assert_eq!(e.dealer, 1);
}

#[test]
fn deal_gives_five_cards_round_robin_from_the_dealers_left() {
    let mut g = game(&[100, 0, 100, 100]);
    g.dealer = 3;
    g.players[1].contributed_total = 7;
    let mut cards = Vec::new();
    for r in [Rank::Two, Rank::Three, Rank::Four, Rank::Five, Rank::Six] {
        for s in [Suit::Clubs, Suit::Diamonds, Suit::Hearts, Suit::Spades] {
            cards.push(Card { rank: r, suit: s });
        }
    }
    let mut deck = Deck::from_cards(cards.clone());
    g.deal_hand(&mut deck);
    assert_eq!(deck.len(), 20 - 15);
    // order is seats 0, 2, 3; seat 0 gets the last card, then every third one
    let h0 = &g.players[0].hand.as_ref().unwrap().cards;
    let h2 = &g.players[2].hand.as_ref().unwrap().cards;
    let h3 = &g.players[3].hand.as_ref().unwrap().cards;
    assert_eq!(h0.len(), 5);
    assert_eq!(h0[0], cards[19]);
    assert_eq!(h2[0], cards[18]);
    assert_eq!(h3[0], cards[17]);
    assert_eq!(h0[1], cards[16]);
    assert_eq!(h3[4], cards[19 - 14]);
    assert!(g.players[1].folded);
    assert!(g.players[1].hand.is_none());
    assert_eq!(g.players[1].contributed_total, 7);
    assert_eq!(g.players[0].contributed_total, 0);
}
