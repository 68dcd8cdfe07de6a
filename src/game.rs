use vstd::prelude::*;

use crate::card::Card;
use crate::deck::Deck;
use crate::hand::Hand;
use crate::logger::TableLog;
use crate::player::{default_name, Player};
use crate::pot::{
    award_pots, build_pots, gain_upto, is_pot_split, pay_slice, pots_ready, seats_at_least,
    showdown_ready, total, total_gain, Pot, PotAward,
};
use crate::text::{decimal_text, push_decimal};

verus! {

/// Table settings chosen before the first hand.
#[derive(Copy, Clone)]
pub struct GameSettings {
    pub num_players: usize,
    pub starting_chips: u32,
    pub min_bet: u32,
    pub turn_timeout_secs: u64,
    pub max_discards: usize,
}

/// The table: its seats, the dealer button and the log.
pub struct Game {
    pub settings: GameSettings,
    pub players: Vec<Player>,
    /// Names chosen for the seats, by seat; missing ones get the default name.
    pub names: Vec<String>,
    /// Seat of the dealer.
    pub dealer: usize,
    pub logger: TableLog,
    /// Whether the last fold of the hand came from a timeout.
    pub last_fold_was_timeout: bool,
}

/// Seats among the first `n`, other than `skip`, that hold chips, ascending.
pub open spec fn seats_with_chips(ps: Seq<Player>, skip: int, n: int) -> Seq<usize>
    decreases n,
{
    if n <= 0 {
        Seq::empty()
    } else {
        let rest = seats_with_chips(ps, skip, n - 1);
        if n - 1 != skip && ps[n - 1].chips > 0 {
            rest.push((n - 1) as usize)
        } else {
            rest
        }
    }
}

/// Seats that hold chips, ascending.
pub open spec fn funded_seats(ps: Seq<Player>) -> Seq<usize> {
    seats_with_chips(ps, -1, ps.len() as int)
}

/// The first `m` seats clockwise from `start` (wrapping), keeping those with chips.
pub open spec fn order_from(ps: Seq<Player>, start: int, m: int) -> Seq<usize>
    decreases m,
{
    if m <= 0 {
        Seq::empty()
    } else {
        let rest = order_from(ps, start, m - 1);
        let s = (start + m - 1) % (ps.len() as int);
        if ps[s].chips > 0 {
            rest.push(s as usize)
        } else {
            rest
        }
    }
}

/// Each seat's contribution to the hand.
pub open spec fn contributions_of(ps: Seq<Player>) -> Seq<u32> {
    ps.map_values(|p: Player| p.contributed_total)
}

/// Per seat: does it hold a live, unfolded hand.
pub open spec fn live_flags(ps: Seq<Player>) -> Seq<bool> {
    ps.map_values(|p: Player| p.is_live())
}

/// The logged text of an action: the action and the seat's stack.
pub open spec fn stack_note(action: Seq<char>, chips: u32) -> Seq<char> {
    action + " (stack: "@ + decimal_text(chips as nat) + ")"@
}

/// The cards a deal of rounds over `k` seats gives the seat at position `q`
/// of the dealing order, after `count` rounds: one card per round, taken
/// from the end of `deck` one at a time around the order.
pub open spec fn dealt_cards(deck: Seq<Card>, k: int, q: int, count: int) -> Seq<Card> {
    Seq::new(count as nat, |i: int| deck[deck.len() - 1 - (i * k + q)])
}

/// Seat `q` is seat `p` made ready for a new hand: with chips it gets an
/// empty hand and cleared per-hand state; without chips it sits the hand out.
pub open spec fn ready_for_hand(q: Player, p: Player) -> bool {
    if p.chips > 0 {
        &&& q.id == p.id && q.name == p.name && q.chips == p.chips
        &&& !q.folded && !q.all_in
        &&& q.hand is Some
        &&& q.contributed_this_round == 0 && q.contributed_total == 0
        &&& q.last_action@.len() == 0 && q.revealed_on_fold@.len() == 0
    } else {
        q == Player { folded: true, hand: None, ..p }
    }
}

proof fn lemma_seats_in_range(ps: Seq<Player>, skip: int, n: int)
    requires
        n <= ps.len() <= usize::MAX,
    ensures
        forall|k: int| 0 <= k < seats_with_chips(ps, skip, n).len() ==> {
            let s = #[trigger] seats_with_chips(ps, skip, n)[k];
            &&& s < n
            &&& s != skip
            &&& ps[s as int].chips > 0
        },
        forall|a: int, b: int| 0 <= a < b < seats_with_chips(ps, skip, n).len() ==>
            seats_with_chips(ps, skip, n)[a] < seats_with_chips(ps, skip, n)[b],
    decreases n,
{
    if n > 0 {
        lemma_seats_in_range(ps, skip, n - 1);
        let rest = seats_with_chips(ps, skip, n - 1);
        if n - 1 != skip && ps[n - 1].chips > 0 {
            let r = rest.push((n - 1) as usize);
            assert forall|k: int| 0 <= k < r.len() implies {
                let s = #[trigger] r[k];
                &&& s < n
                &&& s != skip
                &&& ps[s as int].chips > 0
            } by {
                if k < rest.len() {
                    assert(r[k] == rest[k]);
                }
            }
            assert forall|a: int, b: int| 0 <= a < b < r.len() implies r[a] < r[b] by {
                assert(r[a] == rest[a]);
                if b < rest.len() {
                    assert(r[b] == rest[b]);
                }
            }
        }
    }
}

/// Every live seat holds five cards.
pub open spec fn live_hands_ready(ps: Seq<Player>, live: Seq<bool>) -> bool {
    forall|j: int| 0 <= j < ps.len() && #[trigger] live[j] ==> ps[j].hand is Some && ps[j].hand->0.cards@.len() == 5
}

proof fn lemma_live_seats_ready(c: Seq<u32>, live: Seq<bool>, ps: Seq<Player>, level: int, n: int)
    requires
        n <= c.len() <= usize::MAX,
        c.len() == live.len(),
        live.len() == ps.len(),
        live_hands_ready(ps, live),
    ensures
        showdown_ready(ps, seats_at_least(c, live, level, n)),
    decreases n,
{
    if n > 0 {
        lemma_live_seats_ready(c, live, ps, level, n - 1);
        let rest = seats_at_least(c, live, level, n - 1);
        if live[n - 1] && c[n - 1] >= level {
            let r = rest.push((n - 1) as usize);
            assert(live[n - 1]);
            assert forall|k: int| 0 <= k < r.len() implies {
                let s = #[trigger] r[k];
                &&& s < ps.len()
                &&& ps[s as int].hand is Some
                &&& ps[s as int].hand->0.cards@.len() == 5
            } by {
                if k < rest.len() {
                    assert(r[k] == rest[k]);
                }
            }
        }
    }
}

impl Game {
    /// A table with no seats yet, the dealer button on seat 0.
    pub fn new(settings: GameSettings) -> (g: Game)
        ensures
            g.settings == settings,
            g.players@.len() == 0,
            g.names@.len() == 0,
            g.dealer == 0,
            g.logger.hands@.len() == 0,
            !g.last_fold_was_timeout,
    {
        Game {
            settings,
            players: Vec::new(),
            names: Vec::new(),
            dealer: 0,
            logger: TableLog::new(),
            last_fold_was_timeout: false,
        }
    }

    /// Seats `num_players` players with the starting chips, each named from
    /// `names` where a name is given for its seat, else by default.
    pub fn setup_players(&mut self)
        requires
            old(self).settings.num_players < usize::MAX,
        ensures
            final(self).settings == old(self).settings,
            final(self).names == old(self).names,
            final(self).players@.len() == old(self).settings.num_players,
            forall|i: int| 0 <= i < final(self).players@.len() ==> {
                let p = #[trigger] final(self).players@[i];
                &&& p.wf()
                &&& p.id == i
                &&& p.chips == old(self).settings.starting_chips
                &&& !p.folded && !p.all_in && p.hand is None
                &&& p.contributed_total == 0 && p.contributed_this_round == 0
                &&& p.name@ == if i < old(self).names@.len() {
                    old(self).names@[i]@
                } else {
                    default_name(i as nat)
                }
            },
    {
        let mut players: Vec<Player> = Vec::new();
        let n = self.settings.num_players;
        let mut i: usize = 0;
        while i < n
            invariant
                n == self.settings.num_players,
                n < usize::MAX,
                i <= n,
                self.names == old(self).names,
                self.settings == old(self).settings,
                players@.len() == i,
                forall|k: int| 0 <= k < i ==> {
                    let p = #[trigger] players@[k];
                    &&& p.wf()
                    &&& p.id == k
                    &&& p.chips == old(self).settings.starting_chips
                    &&& !p.folded && !p.all_in && p.hand is None
                    &&& p.contributed_total == 0 && p.contributed_this_round == 0
                    &&& p.name@ == if k < old(self).names@.len() {
                        old(self).names@[k]@
                    } else {
                        default_name(k as nat)
                    }
                },
            decreases n - i,
        {
            let mut player = Player::new(i, self.settings.starting_chips);
            if i < self.names.len() {
                player.name = self.names[i].clone();
            }
            players.push(player);
            i += 1;
        }
        self.players = players;
    }

    /// Records a public action of seat `pid`, with its stack, in the log.
    pub fn log_action(&mut self, pid: usize, action: &str)
        requires
            pid < old(self).players@.len(),
        ensures
            final(self).players == old(self).players,
            final(self).settings == old(self).settings,
            final(self).dealer == old(self).dealer,
            final(self).logger.hands@.len() == old(self).logger.hands@.len(),
            old(self).logger.hands@.len() > 0 ==> {
                let (h, g) = (final(self).logger.hands@.last(), old(self).logger.hands@.last());
                &&& h.events@.len() == g.events@.len() + 1
                &&& h.events@.last().player@ == old(self).players@[pid as int].name@
                &&& h.events@.last().action@ == stack_note(action@, old(self).players@[pid as int].chips)
            },
    {
        let stack = self.players[pid].chips;
        let mut text = String::new();
        text.push_str(action);
        text.push_str(" (stack: ");
        push_decimal(&mut text, stack as u64);
        text.push_str(")");
        let name = self.players[pid].name.clone();
        self.logger.log_action(name.as_str(), text.as_str());
    }

    /// Records a private note for seat `pid` in the log.
    pub fn log_private(&mut self, pid: usize, action: &str)
        requires
            pid < old(self).players@.len(),
        ensures
            final(self).players == old(self).players,
            final(self).settings == old(self).settings,
            final(self).dealer == old(self).dealer,
            final(self).logger.hands@.len() == old(self).logger.hands@.len(),
            old(self).logger.hands@.len() > 0 ==> {
                let (h, g) = (final(self).logger.hands@.last(), old(self).logger.hands@.last());
                &&& h.private@.len() == g.private@.len() + 1
                &&& h.private@.last().player@ == old(self).players@[pid as int].name@
                &&& h.private@.last().action@ == action@
            },
    {
        let name = self.players[pid].name.clone();
        self.logger.log_private(name.as_str(), action);
    }

    /// Seats `skip` excepted, those that hold chips, ascending.
    fn seats_holding_chips(&self, skip: Option<usize>) -> (r: Vec<usize>)
        ensures
            r@ == seats_with_chips(self.players@, if skip is Some {
                skip->0 as int
            } else {
                -1
            }, self.players@.len() as int),
    {
        let ghost sk: int = if skip is Some {
            skip->0 as int
        } else {
            -1
        };
        let mut r: Vec<usize> = Vec::new();
        let mut i: usize = 0;
        while i < self.players.len()
            invariant
                i <= self.players@.len(),
                sk == if skip is Some {
                    skip->0 as int
                } else {
                    -1
                },
                r@ == seats_with_chips(self.players@, sk, i as int),
            decreases self.players@.len() - i,
        {
            let skipped = match skip {
                Some(s) => s == i,
                None => false,
            };
            if !skipped && self.players[i].chips > 0 {
                r.push(i);
            }
            i += 1;
        }
        r
    }

    /// Seats that hold chips, ascending.
    pub fn active_player_ids(&self) -> (r: Vec<usize>)
        ensures
            r@ == funded_seats(self.players@),
    {
        self.seats_holding_chips(None)
    }

    /// The one seat left holding chips, if exactly one is.
    pub fn find_table_winner(&self) -> (r: Option<usize>)
        ensures
            r == if funded_seats(self.players@).len() == 1 {
                Some(funded_seats(self.players@)[0])
            } else {
                None::<usize>
            },
    {
        let alive = self.active_player_ids();
        if alive.len() == 1 {
            Some(alive[0])
        } else {
            None
        }
    }

    /// Moves the dealer button clockwise to the next seat that holds chips,
    /// whether or not the dealer's own seat still does. With no chips left
    /// anywhere the button stays.
    pub fn rotate_dealer(&mut self)
        ensures
            final(self).players == old(self).players,
            final(self).settings == old(self).settings,
            funded_seats(old(self).players@).len() == 0 ==> final(self).dealer == old(self).dealer,
            funded_seats(old(self).players@).len() > 0 ==> final(self).dealer == order_from(
                old(self).players@,
                old(self).dealer + 1,
                old(self).players@.len() as int,
            )[0],
    {
        let actives = self.active_player_ids();
        if actives.len() == 0 {
            return;
        }
        let n = self.players.len();
        let ghost ps = self.players@;
        proof {
            lemma_seats_in_range(ps, -1, n as int);
            let j = actives@[0] as int;
            lemma_order_from_nonempty(ps, self.dealer + 1, j);
            lemma_order_from_shift(ps, self.dealer as int, n as int);
        }
        let start = self.dealer % n + 1;
        let order = self.seat_order_from(start);
        self.dealer = order[0];
    }

    /// Starts a hand: every seat with chips gets cleared per-hand state and an
    /// empty hand, every seat without chips sits the hand out. Then five
    /// rounds are dealt, one card at a time from the end of the deck, to the
    /// seats with chips clockwise from the dealer's left.
    pub fn deal_hand(&mut self, deck: &mut Deck)
        requires
            old(deck).wf(),
            old(self).players@.len() > 0,
            old(deck)@.len() >= 5 * old(self).players@.len(),
        ensures
            final(deck).wf(),
            final(self).settings == old(self).settings,
            final(self).dealer == old(self).dealer,
            final(self).players@.len() == old(self).players@.len(),
            ({
                let ps = old(self).players@;
                let order = order_from(ps, old(self).dealer + 1, ps.len() as int);
                let k = order.len() as int;
                let d = old(deck)@;
                &&& forall|j: int| 0 <= j < ps.len() ==> ready_for_hand(#[trigger] final(self).players@[j], ps[j])
                &&& forall|q: int| 0 <= q < k ==> (#[trigger] final(self).players@[order[q] as int]).hand->0.cards@
                    == dealt_cards(d, k, q, 5)
                &&& final(deck)@ == d.take(d.len() - 5 * k)
            }),
    {
        let ghost ps = self.players@;
        let ghost d = deck@;
        let n = self.players.len();
        let mut j: usize = 0;
        while j < n
            invariant
                n == self.players@.len(),
                n == ps.len(),
                j <= n,
                self.dealer == old(self).dealer,
                self.settings == old(self).settings,
                forall|x: int| 0 <= x < j ==> ready_for_hand(#[trigger] self.players@[x], ps[x]),
                forall|x: int| j <= x < n ==> #[trigger] self.players@[x] == ps[x],
            decreases n - j,
        {
            if self.players[j].chips > 0 {
                self.players[j].reset_for_hand();
            } else {
                self.players[j].folded = true;
                self.players[j].hand = None;
            }
            j += 1;
        }
        let start = self.dealer % n + 1;
        let order = self.seat_order_from(start);
        proof {
            assert forall|x: int| 0 <= x < n implies #[trigger] self.players@[x].chips == ps[x].chips by {
                assert(ready_for_hand(self.players@[x], ps[x]));
            }
            assert forall|m: int| 0 <= m <= n implies order_from(self.players@, start as int, m) == order_from(ps, start as int, m) by {
                lemma_order_from_same_chips(self.players@, ps, start as int, m);
            }
            lemma_order_from_shift(ps, self.dealer as int, n as int);
            lemma_order_from_seats(ps, self.dealer + 1, n as int);
        }
        let ghost og = order@;
        let k = order.len();
        assert(k <= n) by {
            lemma_order_from_len(ps, self.dealer + 1, n as int);
        }
        let mut piles: Vec<Vec<Card>> = Vec::new();
        while piles.len() < k
            invariant
                piles@.len() <= k,
                forall|q: int| 0 <= q < piles@.len() ==> (#[trigger] piles@[q])@.len() == 0,
            decreases k - piles@.len(),
        {
            piles.push(Vec::new());
        }
        let mut r: usize = 0;
        while r < 5
            invariant
                r <= 5,
                k <= n,
                d.len() >= 5 * n,
                piles@.len() == k,
                deck.wf(),
                deck@ == d.take(d.len() - r * k),
                forall|q: int| 0 <= q < k ==> (#[trigger] piles@[q])@ == dealt_cards(d, k as int, q, r as int),
            decreases 5 - r,
        {
            let mut q: usize = 0;
            while q < k
                invariant
                    r < 5,
                    q <= k,
                    k <= n,
                    d.len() >= 5 * n,
                    piles@.len() == k,
                    deck.wf(),
                    deck@ == d.take(d.len() - (r * k + q)),
                    forall|x: int| 0 <= x < k ==> (#[trigger] piles@[x])@ == dealt_cards(d, k as int, x, if x < q {
                        r + 1
                    } else {
                        r as int
                    }),
                decreases k - q,
            {
                assert(r * k + q < 5 * n) by (nonlinear_arith)
                    requires r < 5, q < k, k <= n;
                assert(0 <= r * k) by (nonlinear_arith)
                    requires r >= 0, k >= 0;
                let ghost before = piles@;
                match deck.deal() {
                    Some(c) => {
                        piles[q].push(c);
                        proof {
                            assert(c == d[d.len() - 1 - (r * k + q)]);
                            assert forall|x: int| 0 <= x < k implies (#[trigger] piles@[x])@ == dealt_cards(d, k as int, x, if x < q + 1 {
                                r + 1
                            } else {
                                r as int
                            }) by {
                                if x == q {
                                    assert(piles@[x]@ =~= dealt_cards(d, k as int, x, r + 1));
                                } else {
                                    assert(piles@[x] == before[x]);
                                }
                            }
                            assert(deck@ =~= d.take(d.len() - (r * k + q + 1)));
                        }
                    },
                    None => {
                        assert(false);
                    },
                }
                q += 1;
            }
            assert((r + 1) * k == r * k + k) by (nonlinear_arith);
            r += 1;
        }
        let ghost mid = self.players@;
        let mut q = k;
        while q > 0
            invariant
                q <= k,
                k == og.len(),
                og == order@,
                piles@.len() == q,
                forall|x: int| 0 <= x < q ==> (#[trigger] piles@[x])@ == dealt_cards(d, k as int, x, 5),
                forall|x: int| 0 <= x < k ==> #[trigger] og[x] < n,
                forall|a: int, b: int| 0 <= a < b < k ==> og[a] != og[b],
                forall|x: int| 0 <= x < k ==> ps[#[trigger] og[x] as int].chips > 0,
                self.players@.len() == n,
                self.dealer == old(self).dealer,
                self.settings == old(self).settings,
                forall|x: int| 0 <= x < n ==> ready_for_hand(#[trigger] self.players@[x], ps[x]),
                forall|x: int| q <= x < k ==> (#[trigger] self.players@[og[x] as int]).hand->0.cards@
                    == dealt_cards(d, k as int, x, 5),
                forall|y: int| 0 <= y < n && (forall|x: int| q <= x < k ==> og[x] != y) ==> #[trigger] self.players@[y].hand
                    == mid[y].hand,
            decreases q,
        {
            q -= 1;
            let cards = piles.pop().unwrap();
            let s = order[q];
            let ghost before = self.players@;
            self.players[s].hand = Some(Hand { cards });
            proof {
                assert forall|x: int| 0 <= x < n implies ready_for_hand(#[trigger] self.players@[x], ps[x]) by {
                    if x != s {
                        assert(self.players@[x] == before[x]);
                    } else {
                        assert(ready_for_hand(before[x], ps[x]));
                    }
                }
                assert forall|x: int| q <= x < k implies (#[trigger] self.players@[og[x] as int]).hand->0.cards@
                    == dealt_cards(d, k as int, x, 5) by {
                    if x > q {
                        assert(og[x] != og[q as int]);
                        assert(self.players@[og[x] as int] == before[og[x] as int]);
                    }
                }
            }
        }
    }

    /// The seats clockwise from `start`, once around the table, that hold chips.
    pub fn seat_order_from(&self, start: usize) -> (r: Vec<usize>)
        ensures
            self.players@.len() > 0 ==> r@ == order_from(self.players@, start as int, self.players@.len() as int),
            self.players@.len() == 0 ==> r@.len() == 0,
            forall|k: int| 0 <= k < r@.len() ==> #[trigger] r@[k] < self.players@.len(),
    {
        let n = self.players.len();
        let mut r: Vec<usize> = Vec::new();
        if n == 0 {
            return r;
        }
        let base = start % n;
        let mut i: usize = 0;
        while i < n
            invariant
                n == self.players@.len(),
                n > 0,
                base == start % n,
                i <= n,
                r@ == order_from(self.players@, start as int, i as int),
                forall|k: int| 0 <= k < r@.len() ==> #[trigger] r@[k] < n,
            decreases n - i,
        {
            let s = if i < n - base {
                base + i
            } else {
                i - (n - base)
            };
            proof {
                vstd::arithmetic::div_mod::lemma_add_mod_noop(start as int, i as int, n as int);
                vstd::arithmetic::div_mod::lemma_small_mod(i as nat, n as nat);
                if i < n - base {
                    vstd::arithmetic::div_mod::lemma_small_mod((base + i) as nat, n as nat);
                } else {
                    vstd::arithmetic::div_mod::lemma_mod_sub_multiples_vanish(base + i, n as int);
                    vstd::arithmetic::div_mod::lemma_small_mod(s as nat, n as nat);
                }
            }
            if self.players[s].chips > 0 {
                r.push(s);
            }
            i += 1;
        }
        r
    }

    /// The seat after `i`, clockwise.
    pub fn next_seat(&self, i: usize) -> (r: usize)
        requires
            self.players@.len() > 0,
            i < usize::MAX,
        ensures
            r == (i + 1) % (self.players@.len() as int),
    {
        (i + 1) % self.players.len()
    }

    /// Seat `pid` leaves the table: its chips are shared evenly among the
    /// other seats holding chips (remainder chips one each to the first of
    /// them in seat order), and it is left folded, empty-handed and without chips.
    pub fn handle_player_quit(&mut self, pid: usize)
        requires
            pid < old(self).players@.len(),
            forall|j: int| 0 <= j < old(self).players@.len() ==> #[trigger] old(self).players@[j].chips
                + old(self).players@[pid as int].chips <= u32::MAX,
        ensures
            final(self).players@.len() == old(self).players@.len(),
            final(self).settings == old(self).settings,
            final(self).dealer == old(self).dealer,
            !final(self).last_fold_was_timeout,
            ({
                let ps = old(self).players@;
                let rec = seats_with_chips(ps, pid as int, ps.len() as int);
                let c = ps[pid as int].chips;
                forall|j: int| 0 <= j < ps.len() && j != pid ==> {
                    let q = #[trigger] final(self).players@[j];
                    &&& q == Player { chips: q.chips, ..ps[j] }
                    &&& q.chips == ps[j].chips + gain_upto(rec, c as int, j as usize, rec.len() as int)
                }
            }),
            ({
                let (q, p) = (final(self).players@[pid as int], old(self).players@[pid as int]);
                &&& q.chips == 0
                &&& q.folded
                &&& q.hand is None
                &&& q.last_action@ == "quit"@
                &&& q.id == p.id && q.name == p.name && q.all_in == p.all_in
                &&& q.contributed_total == p.contributed_total
                &&& q.contributed_this_round == p.contributed_this_round
            }),
    {
        let chips = self.players[pid].chips;
        let recipients = self.seats_holding_chips(Some(pid));
        let _n = self.players.len();
        proof {
            lemma_seats_in_range(self.players@, pid as int, self.players@.len() as int);
        }
        let ghost before = self.players@;
        if chips > 0 {
            pay_slice(&mut self.players, &recipients, chips);
        } else {
            proof {
                lemma_zero_gain(recipients@, pid, recipients@.len() as int);
                assert forall|j: int| 0 <= j < before.len() implies #[trigger] gain_upto(recipients@, 0, j as usize, recipients@.len() as int) == 0 by {
                    lemma_zero_gain(recipients@, j as usize, recipients@.len() as int);
                }
            }
        }
        proof {
            lemma_not_listed_gains_nothing(recipients@, chips as int, pid, recipients@.len() as int);
        }
        self.players[pid].chips = 0;
        self.players[pid].folded = true;
        self.players[pid].hand = None;
        self.players[pid].last_action = "quit".to_owned();
        self.log_action(pid, "quit");
        self.last_fold_was_timeout = false;
    }

    /// Gives the whole pot, every seat's contribution to the hand, to the one
    /// seat left in it.
    pub fn award_uncontested(&mut self, winner: usize)
        requires
            winner < old(self).players@.len(),
            total(contributions_of(old(self).players@)) + old(self).players@[winner as int].chips <= u32::MAX,
        ensures
            final(self).players@ == old(self).players@.update(
                winner as int,
                Player {
                    chips: (old(self).players@[winner as int].chips + total(contributions_of(old(self).players@))) as u32,
                    ..old(self).players@[winner as int]
                },
            ),
            final(self).settings == old(self).settings,
            final(self).dealer == old(self).dealer,
    {
        let c = self.contributions();
        let pot = crate::pot::sum_contributions(&c);
        self.players[winner].chips = self.players[winner].chips + pot;
    }

    /// Each seat's contribution to the hand.
    fn contributions(&self) -> (c: Vec<u32>)
        ensures
            c@ == contributions_of(self.players@),
    {
        let mut c: Vec<u32> = Vec::new();
        let mut i: usize = 0;
        while i < self.players.len()
            invariant
                i <= self.players@.len(),
                c@ == contributions_of(self.players@).take(i as int),
            decreases self.players@.len() - i,
        {
            c.push(self.players[i].contributed_total);
            i += 1;
        }
        assert(c@ =~= contributions_of(self.players@));
        c
    }

    /// Per seat: does it hold a live, unfolded hand.
    fn live(&self) -> (l: Vec<bool>)
        ensures
            l@ == live_flags(self.players@),
    {
        let mut l: Vec<bool> = Vec::new();
        let mut i: usize = 0;
        while i < self.players.len()
            invariant
                i <= self.players@.len(),
                l@ == live_flags(self.players@).take(i as int),
            decreases self.players@.len() - i,
        {
            l.push(!self.players[i].folded && self.players[i].hand.is_some());
            i += 1;
        }
        assert(l@ =~= live_flags(self.players@));
        l
    }

    /// The showdown: splits the contributions into slices and pays each one
    /// to the best live hands eligible for it. Returns the slices and how each
    /// was paid.
    pub fn settle_showdown(&mut self) -> (r: (Vec<Pot>, Vec<PotAward>))
        requires
            live_hands_ready(old(self).players@, live_flags(old(self).players@)),
            total(contributions_of(old(self).players@)) <= u32::MAX,
            forall|j: int| 0 <= j < old(self).players@.len() ==> #[trigger] old(self).players@[j].chips
                + total(contributions_of(old(self).players@)) <= u32::MAX,
        ensures
            is_pot_split(contributions_of(old(self).players@), live_flags(old(self).players@), r.0@),
            crate::pot::pots_total(r.0@) == total(contributions_of(old(self).players@)),
            final(self).settings == old(self).settings,
            final(self).dealer == old(self).dealer,
            final(self).players@.len() == old(self).players@.len(),
            forall|j: int| 0 <= j < old(self).players@.len() ==> {
                let (q, p) = (#[trigger] final(self).players@[j], old(self).players@[j]);
                &&& q == Player { chips: q.chips, ..p }
                &&& q.chips == p.chips + total_gain(old(self).players@, r.0@, j as usize, r.0@.len() as int)
            },
            r.1@.len() == r.0@.len(),
    {
        let c = self.contributions();
        let l = self.live();
        let pots = build_pots(&c, &l);
        let _n = self.players.len();
        proof {
            lemma_split_ready(self.players@, c@, l@, pots@);
        }
        let awards = award_pots(&mut self.players, &pots);
        (pots, awards)
    }
}

proof fn lemma_split_ready(ps: Seq<Player>, c: Seq<u32>, l: Seq<bool>, pots: Seq<Pot>)
    requires
        ps.len() <= usize::MAX,
        c == contributions_of(ps),
        l == live_flags(ps),
        live_hands_ready(ps, l),
        is_pot_split(c, l, pots),
    ensures
        pots_ready(ps, pots),
{
    assert forall|k: int| 0 <= k < pots.len() implies showdown_ready(ps, #[trigger] pots[k].eligible@) by {
        let nl = crate::pot::level_slices(pots);
        let level: int = if k < nl {
            pots[k].cap as int
        } else {
            0
        };
        lemma_live_seats_ready(c, l, ps, level, c.len() as int);
    }
}

proof fn lemma_order_from_shift(ps: Seq<Player>, d: int, m: int)
    requires
        ps.len() > 0,
        d >= 0,
        m >= 0,
    ensures
        order_from(ps, d % (ps.len() as int) + 1, m) == order_from(ps, d + 1, m),
    decreases m,
{
    if m > 0 {
        let n = ps.len() as int;
        lemma_order_from_shift(ps, d, m - 1);
        vstd::arithmetic::div_mod::lemma_add_mod_noop(d, m, n);
        vstd::arithmetic::div_mod::lemma_add_mod_noop_right(d % n, m, n);
        assert((d % n + 1 + m - 1) % n == (d + 1 + m - 1) % n);
    }
}

proof fn lemma_mod_distinct(start: int, i: int, j: int, n: int)
    requires
        0 <= i < j < n,
        start >= 0,
    ensures
        (start + i) % n != (start + j) % n,
{
    let a = (start + i) % n;
    let d = j - i;
    vstd::arithmetic::div_mod::lemma_add_mod_noop(start + i, d, n);
    vstd::arithmetic::div_mod::lemma_small_mod(d as nat, n as nat);
    assert(0 <= a < n);
    if a + d < n {
        vstd::arithmetic::div_mod::lemma_small_mod((a + d) as nat, n as nat);
    } else {
        vstd::arithmetic::div_mod::lemma_mod_sub_multiples_vanish(a + d, n);
        vstd::arithmetic::div_mod::lemma_small_mod((a + d - n) as nat, n as nat);
    }
}

/// The seat `i` places clockwise from `start` at a table of `n` seats.
pub open spec fn clockwise(start: int, i: int, n: int) -> int {
    (start + i) % n
}

proof fn lemma_not_in_prefix(ps: Seq<Player>, start: int, m: int, i: int)
    requires
        0 < ps.len() <= usize::MAX,
        start >= 0,
        0 <= m <= i < ps.len(),
    ensures
        forall|x: int| 0 <= x < order_from(ps, start, m).len() ==> #[trigger] order_from(ps, start, m)[x] as int
            != clockwise(start, i, ps.len() as int),
    decreases m,
{
    if m > 0 {
        let n = ps.len() as int;
        lemma_not_in_prefix(ps, start, m - 1, i);
        lemma_mod_distinct(start, m - 1, i, n);
        let rest = order_from(ps, start, m - 1);
        let o = order_from(ps, start, m);
        let sv = (start + m - 1) % n;
        assert(0 <= sv < n);
        assert forall|x: int| 0 <= x < o.len() implies #[trigger] o[x] as int != clockwise(start, i, n) by {
            if x < rest.len() {
                assert(o[x] == rest[x]);
            } else {
                assert(o[x] as int == sv);
            }
        }
    }
}

proof fn lemma_order_from_seats(ps: Seq<Player>, start: int, m: int)
    requires
        0 < ps.len() <= usize::MAX,
        start >= 0,
        0 <= m <= ps.len(),
    ensures
        forall|x: int| 0 <= x < order_from(ps, start, m).len() ==> ps[#[trigger] order_from(ps, start, m)[x] as int].chips > 0,
        forall|a: int, b: int| 0 <= a < b < order_from(ps, start, m).len() ==> order_from(ps, start, m)[a]
            != order_from(ps, start, m)[b],
    decreases m,
{
    if m > 0 {
        let n = ps.len() as int;
        lemma_order_from_seats(ps, start, m - 1);
        lemma_not_in_prefix(ps, start, m - 1, m - 1);
        let rest = order_from(ps, start, m - 1);
        let o = order_from(ps, start, m);
        let sv = (start + m - 1) % n;
        assert(0 <= sv < n);
        if ps[sv].chips > 0 {
            assert(o == rest.push(sv as usize));
            assert forall|x: int| 0 <= x < o.len() implies ps[#[trigger] o[x] as int].chips > 0 by {
                if x < rest.len() {
                    assert(o[x] == rest[x]);
                }
            }
            assert forall|a: int, b: int| 0 <= a < b < o.len() implies o[a] != o[b] by {
                assert(o[a] == rest[a]);
                if b < rest.len() {
                    assert(o[b] == rest[b]);
                } else {
                    assert(o[b] as int == clockwise(start, m - 1, n));
                }
            }
        } else {
            assert(o == rest);
        }
    }
}

proof fn lemma_order_from_grows(ps: Seq<Player>, start: int, i: int, m: int)
    requires
        ps.len() > 0,
        0 <= i < m,
        ps[(start + i) % (ps.len() as int)].chips > 0,
    ensures
        order_from(ps, start, m).len() > 0,
    decreases m,
{
    if m - 1 > i {
        lemma_order_from_grows(ps, start, i, m - 1);
    }
}

proof fn lemma_order_from_nonempty(ps: Seq<Player>, start: int, j: int)
    requires
        0 <= j < ps.len(),
        ps[j].chips > 0,
    ensures
        order_from(ps, start, ps.len() as int).len() > 0,
{
    let n = ps.len() as int;
    let i = (j - start) % n;
    vstd::arithmetic::div_mod::lemma_add_mod_noop_right(start, j - start, n);
    vstd::arithmetic::div_mod::lemma_small_mod(j as nat, n as nat);
    assert((start + i) % n == j);
    lemma_order_from_grows(ps, start, i, n);
}

proof fn lemma_order_from_same_chips(a: Seq<Player>, b: Seq<Player>, start: int, m: int)
    requires
        a.len() == b.len(),
        a.len() > 0,
        forall|x: int| 0 <= x < a.len() ==> #[trigger] a[x].chips == b[x].chips,
    ensures
        order_from(a, start, m) == order_from(b, start, m),
    decreases m,
{
    if m > 0 {
        lemma_order_from_same_chips(a, b, start, m - 1);
        let sv = (start + m - 1) % (a.len() as int);
        assert(a[sv].chips == b[sv].chips);
    }
}

proof fn lemma_order_from_len(ps: Seq<Player>, start: int, m: int)
    requires
        m >= 0,
    ensures
        order_from(ps, start, m).len() <= m,
    decreases m,
{
    if m > 0 {
        lemma_order_from_len(ps, start, m - 1);
    }
}

proof fn lemma_zero_gain(w: Seq<usize>, j: usize, m: int)
    requires
        0 <= m <= w.len(),
    ensures
        gain_upto(w, 0, j, m) == 0,
    decreases m,
{
    if m > 0 {
        lemma_zero_gain(w, j, m - 1);
    }
}

proof fn lemma_not_listed_gains_nothing(w: Seq<usize>, amount: int, j: usize, m: int)
    requires
        0 <= m <= w.len(),
        forall|k: int| 0 <= k < w.len() ==> #[trigger] w[k] != j,
    ensures
        gain_upto(w, amount, j, m) == 0,
    decreases m,
{
    if m > 0 {
        lemma_not_listed_gains_nothing(w, amount, j, m - 1);
    }
}

} // verus!
