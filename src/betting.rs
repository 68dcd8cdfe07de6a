use vstd::prelude::*;

use crate::player::Player;
use crate::pot::{sum_contributions, total};
use crate::text::{decimal_text, push_decimal};

verus! {

/// A decision of the seat to act.
pub enum BetAction {
    /// Check when nothing is owed, else call (capped at the seat's chips).
    CheckOrCall,
    /// Bet this amount when nothing is owed, else raise by this amount over the call.
    BetOrRaise(u32),
    /// Put every remaining chip in.
    AllIn,
    /// Fold, showing the cards at the listed positions.
    Fold(Vec<usize>),
    /// No decision came before the deadline: the seat folds.
    TimedOut,
}

/// A rejected bet or raise; the seat is asked again and nothing changes.
#[derive(Copy, Clone, Debug, PartialEq, Eq, Structural)]
pub enum BetError {
    /// A bet larger than the seat's chips.
    BetAboveStack,
    /// A bet under the minimum that is not the whole stack.
    BetBelowMinimum,
    /// A raise by less than the minimum.
    RaiseBelowMinimum,
}

/// State of one street of betting.
pub struct BettingRound {
    /// Seats that had chips when the street began, from the dealer's left.
    pub order: Vec<usize>,
    /// Position in `order` of the seat to act.
    pub idx: usize,
    /// The street contribution every live seat must match.
    pub current_bet: u32,
    /// The last seat that raised the bet by at least the minimum.
    pub last_raiser: Option<usize>,
    /// Per seat: has it acted since the last full raise.
    pub seen_since_raise: Vec<bool>,
    /// The minimum bet and raise.
    pub min_bet: u32,
}

/// Number of seats with a live, unfolded hand.
pub open spec fn live_count(ps: Seq<Player>) -> nat
    decreases ps.len(),
{
    if ps.len() == 0 {
        0
    } else {
        live_count(ps.drop_last()) + if ps.last().is_live() {
            1nat
        } else {
            0nat
        }
    }
}

/// The positions below `n` that occur in `asked`, ascending.
pub open spec fn listed_below(asked: Seq<usize>, n: int) -> Seq<usize>
    decreases n,
{
    if n <= 0 {
        Seq::empty()
    } else if asked.contains((n - 1) as usize) {
        listed_below(asked, n - 1).push((n - 1) as usize)
    } else {
        listed_below(asked, n - 1)
    }
}

/// The card positions a folding seat shows: those asked for that name one of
/// the five cards, each once, ascending.
pub fn reveal_positions(asked: &Vec<usize>) -> (r: Vec<usize>)
    ensures
        r@ == listed_below(asked@, 5),
{
    let mut out: Vec<usize> = Vec::new();
    let mut k: usize = 0;
    while k < 5
        invariant
            k <= 5,
            out@ == listed_below(asked@, k as int),
        decreases 5 - k,
    {
        let mut found = false;
        let mut i: usize = 0;
        while i < asked.len()
            invariant
                i <= asked@.len(),
                found == exists|j: int| 0 <= j < i && asked@[j] == k,
            decreases asked@.len() - i,
        {
            if asked[i] == k {
                found = true;
            }
            i += 1;
        }
        if found {
            out.push(k);
        }
        k += 1;
    }
    out
}

/// The text `prefix` followed by the decimal text of `n`.
pub open spec fn amount_label(prefix: Seq<char>, n: int) -> Seq<char> {
    prefix + decimal_text(n as nat)
}

/// Whether the action folds.
pub open spec fn is_fold(a: BetAction) -> bool {
    a is Fold || a is TimedOut
}

fn label(prefix: &str, n: u32) -> (s: String)
    ensures
        s@ == amount_label(prefix@, n as int),
{
    let mut s = String::new();
    s.push_str(prefix);
    push_decimal(&mut s, n as u64);
    s
}

/// Each seat's contribution to the current street.
pub open spec fn street_contributions(ps: Seq<Player>) -> Seq<u32> {
    ps.map_values(|p: Player| p.contributed_this_round)
}

/// The chips moved into the pot during the current street: the sum of every
/// seat's street contribution.
pub fn street_total(players: &Vec<Player>) -> (r: u32)
    requires
        total(street_contributions(players@)) <= u32::MAX,
    ensures
        r == total(street_contributions(players@)),
{
    let mut c: Vec<u32> = Vec::new();
    let mut i: usize = 0;
    while i < players.len()
        invariant
            i <= players@.len(),
            c@ == street_contributions(players@).take(i as int),
        decreases players@.len() - i,
    {
        c.push(players[i].contributed_this_round);
        i += 1;
    }
    assert(c@ =~= street_contributions(players@));
    sum_contributions(&c)
}

/// Number of seats with a live, unfolded hand.
pub fn count_live(players: &Vec<Player>) -> (n: usize)
    ensures
        n == live_count(players@),
{
    let mut n: usize = 0;
    let mut i: usize = 0;
    while i < players.len()
        invariant
            i <= players.len(),
            n == live_count(players@.take(i as int)),
            n <= i,
        decreases players.len() - i,
    {
        assert(players@.take(i + 1).drop_last() =~= players@.take(i as int));
        if !players[i].folded && players[i].hand.is_some() {
            n += 1;
        }
        i += 1;
    }
    assert(players@.take(i as int) =~= players@);
    n
}

impl BettingRound {
    /// Bookkeeping that holds throughout the street.
    pub open spec fn wf(&self, ps: Seq<Player>) -> bool {
        &&& self.seen_since_raise@.len() == ps.len()
        &&& forall|k: int| 0 <= k < self.order@.len() ==> #[trigger] self.order@[k] < ps.len()
        &&& self.order@.len() > 0 ==> self.idx < self.order@.len()
        &&& self.last_raiser is Some ==> self.last_raiser->0 < ps.len()
        &&& forall|j: int| 0 <= j < ps.len() ==> #[trigger] ps[j].wf()
        &&& forall|j: int|
            0 <= j < ps.len() ==> #[trigger] ps[j].contributed_this_round <= self.current_bet || ps[j].all_in
    }

    /// The seat to act.
    pub open spec fn seat(&self) -> int {
        self.order@[self.idx as int] as int
    }

    /// Seat `i` still has to put chips in or to speak.
    pub open spec fn owes(&self, ps: Seq<Player>, i: int) -> bool {
        &&& !ps[i].folded
        &&& !ps[i].all_in
        &&& (ps[i].contributed_this_round < self.current_bet || (self.current_bet == 0
            && !self.seen_since_raise@[i]))
    }

    /// The last full raiser has not yet had the action back.
    pub open spec fn raiser_pending(&self) -> bool {
        self.last_raiser is Some && !self.seen_since_raise@[self.last_raiser->0 as int]
    }

    /// The street is over: fewer than two live hands, nobody in the order
    /// can act, or nobody owes anything and no raise awaits an answer.
    pub open spec fn over(&self, ps: Seq<Player>) -> bool {
        ||| self.order@.len() == 0
        ||| live_count(ps) <= 1
        ||| !(exists|k: int| 0 <= k < self.order@.len() && #[trigger] ps[self.order@[k] as int].may_act())
        ||| (!(exists|k: int| 0 <= k < self.order@.len() && self.owes(ps, #[trigger] self.order@[k] as int))
            && !self.raiser_pending())
    }

    /// What seat `p` must add to match the current bet.
    pub open spec fn call_due(&self, p: Player) -> int {
        if self.current_bet > p.contributed_this_round {
            self.current_bet - p.contributed_this_round
        } else {
            0
        }
    }

    /// Chips the action moves into the pot, or why it is rejected.
    pub open spec fn outcome(&self, p: Player, a: BetAction) -> Result<int, BetError> {
        let due = self.call_due(p);
        let capped = if due < p.chips {
            due
        } else {
            p.chips as int
        };
        match a {
            BetAction::CheckOrCall => Ok(capped),
            BetAction::AllIn => Ok(p.chips as int),
            BetAction::Fold(_) => Ok(0),
            BetAction::TimedOut => Ok(0),
            BetAction::BetOrRaise(x) => {
                if due == 0 {
                    if x > p.chips {
                        Err(BetError::BetAboveStack)
                    } else if x < self.min_bet && x != p.chips {
                        Err(BetError::BetBelowMinimum)
                    } else {
                        Ok(x as int)
                    }
                } else if due + x > p.chips {
                    Ok(capped)
                } else if x < self.min_bet {
                    Err(BetError::RaiseBelowMinimum)
                } else {
                    Ok(due + x)
                }
            },
        }
    }

    /// The action label recorded for seat `p` after moving `m` chips.
    pub open spec fn action_label(&self, p: Player, a: BetAction, m: int) -> Seq<char> {
        let due = self.call_due(p);
        let empties = m == p.chips;
        match a {
            BetAction::Fold(_) => "folded"@,
            BetAction::TimedOut => "folded (timeout)"@,
            BetAction::AllIn => amount_label("all-in "@, m),
            BetAction::CheckOrCall => {
                if due == 0 {
                    "checked"@
                } else if empties {
                    amount_label("all-in "@, m)
                } else {
                    amount_label("called "@, m)
                }
            },
            BetAction::BetOrRaise(x) => {
                if due == 0 {
                    if empties {
                        amount_label("all-in "@, m)
                    } else {
                        amount_label("bet "@, m)
                    }
                } else if due + x > p.chips {
                    if empties {
                        amount_label("all-in "@, m)
                    } else {
                        amount_label("called "@, m)
                    }
                } else {
                    amount_label("raised to "@, p.contributed_this_round + m)
                }
            },
        }
    }

    /// Starts a street over the seats of `order`: clears every seat's street
    /// contribution and last action.
    pub fn start(players: &mut Vec<Player>, order: Vec<usize>, min_bet: u32) -> (r: BettingRound)
        requires
            forall|k: int| 0 <= k < order@.len() ==> #[trigger] order@[k] < old(players)@.len(),
            forall|j: int| 0 <= j < old(players)@.len() ==> #[trigger] old(players)@[j].wf(),
        ensures
            r.wf(final(players)@),
            r.order == order,
            r.idx == 0,
            r.current_bet == 0,
            r.last_raiser is None,
            r.min_bet == min_bet,
            forall|j: int| 0 <= j < r.seen_since_raise@.len() ==> !#[trigger] r.seen_since_raise@[j],
            final(players)@.len() == old(players)@.len(),
            forall|j: int| 0 <= j < final(players)@.len() ==> {
                let (q, p) = (#[trigger] final(players)@[j], old(players)@[j]);
                &&& q == Player { contributed_this_round: 0, last_action: q.last_action, ..p }
                &&& q.last_action@.len() == 0
            },
    {
        let mut i: usize = 0;
        let mut seen: Vec<bool> = Vec::new();
        while i < players.len()
            invariant
                i <= players.len(),
                players@.len() == old(players)@.len(),
                forall|j: int| 0 <= j < old(players)@.len() ==> #[trigger] old(players)@[j].wf(),
                seen@.len() == i,
                forall|j: int| 0 <= j < i ==> !#[trigger] seen@[j],
                forall|j: int| 0 <= j < players@.len() ==> {
                    let (q, p) = (#[trigger] players@[j], old(players)@[j]);
                    if j < i {
                        &&& q == Player { contributed_this_round: 0, last_action: q.last_action, ..p }
                        &&& q.last_action@.len() == 0
                    } else {
                        q == p
                    }
                },
            decreases players.len() - i,
        {
            players[i].contributed_this_round = 0;
            players[i].last_action = String::new();
            seen.push(false);
            i += 1;
        }
        let r = BettingRound { order, idx: 0, current_bet: 0, last_raiser: None, seen_since_raise: seen, min_bet };
        assert forall|j: int| 0 <= j < players@.len() implies #[trigger] players@[j].wf() by {
            assert(old(players)@[j].wf());
        }
        r
    }

    /// The seat to act.
    pub fn seat_to_act(&self) -> (s: usize)
        requires
            self.order@.len() > 0,
            self.order@.len() > 0 ==> self.idx < self.order@.len(),
        ensures
            s == self.seat(),
    {
        self.order[self.idx]
    }

    /// Whether the street is over.
    pub fn is_over(&self, players: &Vec<Player>) -> (r: bool)
        requires
            self.wf(players@),
        ensures
            r == self.over(players@),
    {
        if self.order.len() == 0 || count_live(players) <= 1 {
            return true;
        }
        let mut can_act = false;
        let mut owing = false;
        let mut k: usize = 0;
        while k < self.order.len()
            invariant
                self.wf(players@),
                k <= self.order@.len(),
                can_act == exists|q: int| 0 <= q < k && #[trigger] players@[self.order@[q] as int].may_act(),
                owing == exists|q: int| 0 <= q < k && self.owes(players@, #[trigger] self.order@[q] as int),
            decreases self.order.len() - k,
        {
            let i = self.order[k];
            let p = &players[i];
            if p.can_act() {
                can_act = true;
            }
            if !p.folded && !p.all_in && (p.contributed_this_round < self.current_bet || (
            self.current_bet == 0 && !self.seen_since_raise[i])) {
                owing = true;
            }
            k += 1;
        }
        let pending = match self.last_raiser {
            Some(lr) => !self.seen_since_raise[lr],
            None => false,
        };
        !can_act || (!owing && !pending)
    }

    /// What the seat to act must add to match the current bet.
    pub fn call_amount(&self, players: &Vec<Player>) -> (r: u32)
        requires
            self.wf(players@),
            self.order@.len() > 0,
        ensures
            r == self.call_due(players@[self.seat()]),
    {
        let p = &players[self.order[self.idx]];
        if self.current_bet > p.contributed_this_round {
            self.current_bet - p.contributed_this_round
        } else {
            0
        }
    }

    /// Whether a bet or raise is on offer to the seat to act: after calling it
    /// keeps at least the minimum, and some other seat could still match more.
    pub fn can_raise(&self, players: &Vec<Player>) -> (r: bool)
        requires
            self.wf(players@),
            self.order@.len() > 0,
        ensures
            r == {
                let p = players@[self.seat()];
                &&& (if p.chips > self.call_due(p) {
                    p.chips - self.call_due(p)
                } else {
                    0
                }) >= self.min_bet
                &&& exists|k: int| 0 <= k < self.order@.len() && {
                    let j = #[trigger] self.order@[k] as int;
                    &&& j != self.seat()
                    &&& players@[j].may_act()
                    &&& players@[j].chips + players@[j].contributed_this_round > self.current_bet
                }
            },
    {
        let pid = self.order[self.idx];
        let due = self.call_amount(players);
        let chips = players[pid].chips;
        let after_call = if chips > due {
            chips - due
        } else {
            0
        };
        if after_call < self.min_bet {
            return false;
        }
        let mut k: usize = 0;
        while k < self.order.len()
            invariant
                self.wf(players@),
                k <= self.order@.len(),
                pid == self.seat(),
                chips == players@[pid as int].chips,
                due == self.call_due(players@[pid as int]),
                after_call == (if chips > due {
                    chips - due
                } else {
                    0
                }),
                after_call >= self.min_bet,
                forall|q: int| 0 <= q < k ==> {
                    let j = #[trigger] self.order@[q] as int;
                    !(j != pid && players@[j].may_act() && players@[j].chips
                        + players@[j].contributed_this_round > self.current_bet)
                },
            decreases self.order.len() - k,
        {
            let j = self.order[k];
            let q = &players[j];
            if j != pid && q.can_act() && q.chips as u64 + q.contributed_this_round as u64
                > self.current_bet as u64 {
                assert(players@[self.order@[k as int] as int].may_act());
                return true;
            }
            k += 1;
        }
        false
    }

    /// Whether going all-in is on offer: nothing is owed, or the call leaves chips.
    pub fn can_go_all_in(&self, players: &Vec<Player>) -> (r: bool)
        requires
            self.wf(players@),
            self.order@.len() > 0,
        ensures
            r == {
                let p = players@[self.seat()];
                p.contributed_this_round == self.current_bet || self.call_due(p) < p.chips
            },
    {
        let p = &players[self.order[self.idx]];
        p.contributed_this_round == self.current_bet || self.call_amount(players) < p.chips
    }

    /// Passes over the seat to act (it cannot act, or it left the table).
    pub fn pass_turn(&mut self)
        requires
            old(self).order@.len() > 0,
            old(self).idx < old(self).order@.len(),
            old(self).seat() < old(self).seen_since_raise@.len(),
        ensures
            *final(self) == (BettingRound {
                idx: ((old(self).idx + 1) % old(self).order@.len() as int) as usize,
                seen_since_raise: final(self).seen_since_raise,
                ..*old(self)
            }),
            final(self).seen_since_raise@ == old(self).seen_since_raise@.update(old(self).seat(), true),
    {
        let pid = self.order[self.idx];
        let n = self.order.len();
        let next = (self.idx + 1) % n;
        self.seen_since_raise.set(pid, true);
        self.idx = next;
    }

    /// Applies the decision of the seat to act, then passes the turn on.
    /// A rejected bet or raise changes nothing. Chips leave the seat's stack
    /// only into its own street and hand contributions.
    pub fn apply(&mut self, players: &mut Vec<Player>, action: BetAction) -> (r: Result<u32, BetError>)
        requires
            old(self).wf(old(players)@),
            old(self).order@.len() > 0,
            old(players)@[old(self).seat()].may_act(),
        ensures
            ({
                let o = old(self).outcome(old(players)@[old(self).seat()], action);
                &&& (r is Err <==> o is Err)
                &&& (r is Err ==> r->Err_0 == o->Err_0)
                &&& (r is Ok ==> r->Ok_0 == o->Ok_0)
            }),
            r is Err ==> *final(self) == *old(self) && final(players)@ == old(players)@,
            final(players)@.len() == old(players)@.len(),
            forall|j: int|
                0 <= j < old(players)@.len() && j != old(self).seat() ==> #[trigger] final(players)@[j]
                    == old(players)@[j],
            forall|j: int|
                0 <= j < old(players)@.len() ==> #[trigger] final(players)@[j].chips
                    + final(players)@[j].contributed_total == old(players)@[j].chips
                    + old(players)@[j].contributed_total,
            r is Ok ==> {
                let s = old(self).seat();
                let p = old(players)@[s];
                let q = final(players)@[s];
                let m = r->Ok_0 as int;
                let nr = p.contributed_this_round + m;
                let full_raise = nr > old(self).current_bet && nr - old(self).current_bet
                    >= old(self).min_bet;
                &&& final(self).wf(final(players)@)
                &&& q.chips == p.chips - m
                &&& q.contributed_this_round == nr
                &&& q.contributed_total == p.contributed_total + m
                &&& q.folded == is_fold(action)
                &&& q.all_in == (!is_fold(action) && q.chips == 0)
                &&& q.id == p.id && q.name == p.name && q.hand == p.hand
                &&& q.last_action@ == old(self).action_label(p, action, m)
                &&& (match action {
                    BetAction::Fold(v) => q.revealed_on_fold == v,
                    BetAction::TimedOut => q.revealed_on_fold@.len() == 0,
                    _ => q.revealed_on_fold == p.revealed_on_fold,
                })
                &&& final(self).current_bet == if nr > old(self).current_bet && (!(action is AllIn)
                    || full_raise) {
                    nr
                } else {
                    old(self).current_bet as int
                }
                &&& final(self).order == old(self).order
                &&& final(self).min_bet == old(self).min_bet
                &&& final(self).idx == (old(self).idx + 1) % old(self).order@.len() as int
                &&& full_raise ==> final(self).last_raiser == Some(s as usize)
                    && final(self).seen_since_raise@ == Seq::new(
                    old(players)@.len(),
                    |j: int| j == s,
                )
                &&& !full_raise ==> final(self).last_raiser == old(self).last_raiser
                    && final(self).seen_since_raise@ == old(self).seen_since_raise@.update(s, true)
            },
    {
        let pid = self.order[self.idx];
        let n = self.order.len();
        let next = (self.idx + 1) % n;
        let chips = players[pid].chips;
        let round = players[pid].contributed_this_round;
        let due: u32 = if self.current_bet > round {
            self.current_bet - round
        } else {
            0
        };
        let capped = if due < chips {
            due
        } else {
            chips
        };
        let shove = matches!(action, BetAction::AllIn);
        let ghost p = players@[pid as int];
        assert(p.wf());
        assert(p.contributed_this_round <= self.current_bet);
        let (m, lbl, folding, reveal): (u32, String, bool, Vec<usize>) = match action {
            BetAction::Fold(v) => (0, "folded".to_owned(), true, v),
            BetAction::TimedOut => (0, "folded (timeout)".to_owned(), true, Vec::new()),
            BetAction::AllIn => (chips, label("all-in ", chips), false, Vec::new()),
            BetAction::CheckOrCall => {
                if due == 0 {
                    (0, "checked".to_owned(), false, Vec::new())
                } else if capped == chips {
                    (capped, label("all-in ", capped), false, Vec::new())
                } else {
                    (capped, label("called ", capped), false, Vec::new())
                }
            },
            BetAction::BetOrRaise(x) => {
                if due == 0 {
                    if x > chips {
                        return Err(BetError::BetAboveStack);
                    }
                    if x < self.min_bet && x != chips {
                        return Err(BetError::BetBelowMinimum);
                    }
                    if x == chips {
                        (x, label("all-in ", x), false, Vec::new())
                    } else {
                        (x, label("bet ", x), false, Vec::new())
                    }
                } else if due as u64 + x as u64 > chips as u64 {
                    if capped == chips {
                        (capped, label("all-in ", capped), false, Vec::new())
                    } else {
                        (capped, label("called ", capped), false, Vec::new())
                    }
                } else if x < self.min_bet {
                    return Err(BetError::RaiseBelowMinimum);
                } else {
                    (due + x, label("raised to ", round + due + x), false, Vec::new())
                }
            },
        };
        players[pid].chips = chips - m;
        players[pid].contributed_this_round = round + m;
        players[pid].contributed_total = players[pid].contributed_total + m;
        players[pid].last_action = lbl;
        if folding {
            players[pid].folded = true;
            players[pid].revealed_on_fold = reveal;
        } else {
            players[pid].all_in = chips - m == 0;
        }
        let nr = round + m;
        let prev = self.current_bet;
        // an all-in that tops the bet by less than the minimum only calls
        if nr > prev && (!shove || nr - prev >= self.min_bet) {
            self.current_bet = nr;
        }
        if nr > prev && nr - prev >= self.min_bet {
            self.last_raiser = Some(pid);
            let len = self.seen_since_raise.len();
            let mut cleared: Vec<bool> = Vec::new();
            while cleared.len() < len
                invariant
                    cleared@.len() <= len,
                    forall|k: int| 0 <= k < cleared@.len() ==> !#[trigger] cleared@[k],
                decreases len - cleared@.len(),
            {
                cleared.push(false);
            }
            self.seen_since_raise = cleared;
        }
        self.seen_since_raise.set(pid, true);
        self.idx = next;
        proof {
            assert(self.seen_since_raise@.len() == old(self).seen_since_raise@.len());
            assert(players@[pid as int].wf());
            assert(players@[pid as int].contributed_this_round <= self.current_bet
                || players@[pid as int].all_in);
            if nr > prev && nr - prev >= self.min_bet {
                assert(self.seen_since_raise@ =~= Seq::new(old(players)@.len(), |j: int| j == pid));
            }
            assert forall|j: int| 0 <= j < players@.len() implies #[trigger] players@[j].wf()
                && (players@[j].contributed_this_round <= self.current_bet || players@[j].all_in) by {
                if j != pid {
                    assert(players@[j] == old(players)@[j]);
                    assert(old(players)@[j].wf());
                    assert(old(players)@[j].contributed_this_round <= old(self).current_bet
                        || old(players)@[j].all_in);
                }
            }
        }
        Ok(m)
    }
}

/// A street with at most one live hand left is over, whatever seats have
/// not yet acted.
pub proof fn lemma_over_with_one_live_hand(round: BettingRound, ps: Seq<Player>)
    requires
        live_count(ps) <= 1,
    ensures
        round.over(ps),
{
}

} // verus!
