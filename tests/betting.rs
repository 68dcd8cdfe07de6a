use poker_draw::betting::{count_live, reveal_positions, street_total, BetAction, BetError, BettingRound};
use poker_draw::player::Player;

fn table(stacks: &[u32]) -> Vec<Player> {
    let mut ps = Vec::new();
    for (i, &s) in stacks.iter().enumerate() {
        let mut p = Player::new(i, s);
        p.reset_for_hand();
        ps.push(p);
    }
    ps
}

fn in_play(ps: &[Player]) -> Vec<u32> {
    ps.iter().map(|p| p.chips + p.contributed_total).collect()
}

#[test]
fn round_ends_once_all_but_one_fold() {
    let mut ps = table(&[100, 100, 100]);
    let mut r = BettingRound::start(&mut ps, vec![1, 2, 0], 10);
    assert!(!r.is_over(&ps));
    assert_eq!(r.seat_to_act(), 1);
    r.apply(&mut ps, BetAction::Fold(vec![0, 2])).unwrap();
    assert_eq!(ps[1].revealed_on_fold, vec![0, 2]);
    assert_eq!(ps[1].last_action, "folded");
    assert!(!r.is_over(&ps));
    r.apply(&mut ps, BetAction::TimedOut).unwrap();
    assert_eq!(ps[2].last_action, "folded (timeout)");
    assert_eq!(count_live(&ps), 1);
    assert!(r.is_over(&ps));
}

#[test]
fn chips_in_play_are_conserved_per_seat() {
    let mut ps = table(&[100, 60, 200]);
    let before = in_play(&ps);
    let mut r = BettingRound::start(&mut ps, vec![0, 1, 2], 10);
    assert_eq!(r.apply(&mut ps, BetAction::BetOrRaise(20)), Ok(20));
    assert_eq!(in_play(&ps), before);
    assert_eq!(r.apply(&mut ps, BetAction::BetOrRaise(30)), Ok(50));
    assert_eq!(ps[1].last_action, "raised to 50");
    assert_eq!(in_play(&ps), before);
    assert_eq!(r.apply(&mut ps, BetAction::AllIn), Ok(200));
    assert!(ps[2].all_in);
    assert_eq!(ps[2].chips, 0);
    assert_eq!(r.current_bet, 200);
    assert_eq!(r.last_raiser, Some(2));
    assert_eq!(in_play(&ps), before);
    assert_eq!(r.call_amount(&ps), 180);
    assert_eq!(r.apply(&mut ps, BetAction::CheckOrCall), Ok(80));
    assert_eq!(ps[0].last_action, "all-in 80");
    assert_eq!(in_play(&ps), before);
    let total: u32 = ps.iter().map(|p| p.contributed_total).sum();
    assert_eq!(total, 100 + 50 + 200);
}

#[test]
fn invalid_bets_are_rejected_without_change() {
    let mut ps = table(&[100, 100]);
    let mut r = BettingRound::start(&mut ps, vec![0, 1], 10);
    assert_eq!(r.apply(&mut ps, BetAction::BetOrRaise(5)), Err(BetError::BetBelowMinimum));
    assert_eq!(r.apply(&mut ps, BetAction::BetOrRaise(500)), Err(BetError::BetAboveStack));
    assert_eq!(ps[0].chips, 100);
    assert_eq!(r.seat_to_act(), 0);
    assert_eq!(r.apply(&mut ps, BetAction::BetOrRaise(10)), Ok(10));
    assert_eq!(ps[0].last_action, "bet 10");
    assert_eq!(r.apply(&mut ps, BetAction::BetOrRaise(5)), Err(BetError::RaiseBelowMinimum));
    assert_eq!(ps[1].chips, 100);
    assert_eq!(r.seat_to_act(), 1);
}

#[test]
fn short_stack_may_bet_below_minimum_all_in() {
    let mut ps = table(&[5, 100]);
    let mut r = BettingRound::start(&mut ps, vec![0, 1], 10);
    assert_eq!(r.apply(&mut ps, BetAction::BetOrRaise(5)), Ok(5));
    assert!(ps[0].all_in);
    assert_eq!(ps[0].last_action, "all-in 5");
    assert_eq!(r.current_bet, 5);
    assert_eq!(r.last_raiser, None);
}

#[test]
fn oversized_raise_becomes_a_call() {
    let mut ps = table(&[100, 40]);
    let mut r = BettingRound::start(&mut ps, vec![0, 1], 10);
    r.apply(&mut ps, BetAction::BetOrRaise(30)).unwrap();
    assert_eq!(r.apply(&mut ps, BetAction::BetOrRaise(20)), Ok(30));
    assert_eq!(ps[1].last_action, "called 30");
    assert_eq!(ps[1].chips, 10);
    assert!(r.is_over(&ps));
}

#[test]
fn checks_around_end_the_round() {
    let mut ps = table(&[100, 100, 100]);
    let mut r = BettingRound::start(&mut ps, vec![2, 0, 1], 10);
    assert!(r.can_raise(&ps));
    assert!(r.can_go_all_in(&ps));
    for _ in 0..3 {
        assert!(!r.is_over(&ps));
        assert_eq!(r.apply(&mut ps, BetAction::CheckOrCall), Ok(0));
    }
    assert_eq!(ps[2].last_action, "checked");
    assert!(r.is_over(&ps));
}

#[test]
fn a_raise_reopens_the_action() {
    let mut ps = table(&[100, 100]);
    let mut r = BettingRound::start(&mut ps, vec![0, 1], 10);
    r.apply(&mut ps, BetAction::CheckOrCall).unwrap();
    r.apply(&mut ps, BetAction::BetOrRaise(10)).unwrap();
    assert_eq!(r.last_raiser, Some(1));
    assert_eq!(r.seen_since_raise, vec![false, true]);
    assert!(!r.is_over(&ps));
    r.apply(&mut ps, BetAction::CheckOrCall).unwrap();
    assert_eq!(ps[0].last_action, "called 10");
    assert!(r.is_over(&ps));
}

#[test]
fn pass_turn_marks_the_seat_and_moves_on() {
    let mut ps = table(&[100, 0, 100]);
    let mut r = BettingRound::start(&mut ps, vec![0, 1, 2], 10);
    r.apply(&mut ps, BetAction::CheckOrCall).unwrap();
    assert!(!ps[1].can_act());
    r.pass_turn();
    assert!(r.seen_since_raise[1]);
    assert_eq!(r.seat_to_act(), 2);
}

#[test]
fn short_all_in_above_the_bet_counts_as_a_call() {
    let mut ps = table(&[100, 15]);
    let mut r = BettingRound::start(&mut ps, vec![0, 1], 10);
    r.apply(&mut ps, BetAction::BetOrRaise(10)).unwrap();
    assert_eq!(r.apply(&mut ps, BetAction::AllIn), Ok(15));
    assert_eq!(ps[1].last_action, "all-in 15");
    assert_eq!(ps[1].contributed_this_round, 15);
    assert_eq!(r.current_bet, 10);
    assert_eq!(r.last_raiser, Some(0));
    assert!(r.is_over(&ps));
}

#[test]
fn reveal_positions_are_sorted_unique_and_in_range() {
    assert_eq!(reveal_positions(&vec![4, 1, 4, 9, 0]), vec![0, 1, 4]);
    assert!(reveal_positions(&vec![]).is_empty());
    assert!(reveal_positions(&vec![5, 7]).is_empty());
}

#[test]
fn street_total_sums_this_street_only() {
    let mut ps = table(&[100, 100]);
    ps[0].contributed_total = 0;
    let mut r = BettingRound::start(&mut ps, vec![0, 1], 10);
    r.apply(&mut ps, BetAction::BetOrRaise(20)).unwrap();
    r.apply(&mut ps, BetAction::CheckOrCall).unwrap();
    assert_eq!(street_total(&ps), 40);
    let _ = BettingRound::start(&mut ps, vec![0, 1], 10);
    assert_eq!(street_total(&ps), 0);
    assert_eq!(ps[0].contributed_total, 20);
}
