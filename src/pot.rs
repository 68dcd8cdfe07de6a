use vstd::prelude::*;

use core::cmp::Ordering;

use crate::card::Card;
use crate::hand::{compare, hand_order, lemma_compare_antisymmetric, lemma_compare_transitive};
use crate::player::Player;

verus! {

/// One slice of the pot.
pub struct Pot {
    /// Chips in the slice.
    pub amount: u32,
    /// The contribution level the slice is capped at; for the residual slice,
    /// the level below it.
    pub cap: u32,
    /// Whether the slice is capped at a live contribution level (else it is
    /// the residual above every live level).
    pub capped: bool,
    /// Seats that may win the slice, in ascending order.
    pub eligible: Vec<usize>,
}

/// Sum of all contributions.
pub open spec fn total(c: Seq<u32>) -> int
    decreases c.len(),
{
    if c.len() == 0 {
        0
    } else {
        total(c.drop_last()) + c.last()
    }
}

/// Sum of the contributions, each counted up to `level` at most.
pub open spec fn capped_total(c: Seq<u32>, level: int) -> int
    decreases c.len(),
{
    if c.len() == 0 {
        0
    } else {
        capped_total(c.drop_last(), level) + if c.last() < level {
            c.last() as int
        } else {
            level
        }
    }
}

/// `v` is the positive contribution of some live seat.
pub open spec fn is_level(c: Seq<u32>, live: Seq<bool>, v: int) -> bool {
    exists|i: int| 0 <= i < c.len() && live[i] && c[i] > 0 && #[trigger] c[i] == v
}

/// The live seats among the first `n` whose contribution is at least `level`,
/// in ascending order.
pub open spec fn seats_at_least(c: Seq<u32>, live: Seq<bool>, level: int, n: int) -> Seq<usize>
    decreases n,
{
    if n <= 0 {
        Seq::empty()
    } else {
        let rest = seats_at_least(c, live, level, n - 1);
        if live[n - 1] && c[n - 1] >= level {
            rest.push((n - 1) as usize)
        } else {
            rest
        }
    }
}

/// Sum of the slices' amounts.
pub open spec fn pots_total(ps: Seq<Pot>) -> int
    decreases ps.len(),
{
    if ps.len() == 0 {
        0
    } else {
        pots_total(ps.drop_last()) + ps.last().amount
    }
}

/// Number of slices capped at a live level: all but a residual last slice.
pub open spec fn level_slices(ps: Seq<Pot>) -> int {
    if ps.len() > 0 && !ps.last().capped {
        ps.len() - 1
    } else {
        ps.len() as int
    }
}

/// The contributions counted up to the highest live level of the slices.
pub open spec fn top_capped_total(c: Seq<u32>, ps: Seq<Pot>) -> int {
    let nl = level_slices(ps);
    capped_total(c, if nl == 0 {
        0
    } else {
        ps[nl - 1].cap as int
    })
}

/// `r` is the split of contributions `c` into slices: one per distinct
/// positive live contribution level, ascending, each holding what every seat
/// put in up to its level beyond the lower slices and open to the live seats
/// that reached it; then, if chips remain above the top level, one residual
/// slice with them, open to every live seat.
pub open spec fn is_pot_split(c: Seq<u32>, live: Seq<bool>, r: Seq<Pot>) -> bool {
    let nl = level_slices(r);
    &&& forall|k: int| 0 <= k < nl ==> (#[trigger] r[k]).capped && is_level(c, live, r[k].cap as int)
    &&& forall|v: int| is_level(c, live, v) ==> exists|k: int| 0 <= k < nl && (#[trigger] r[k]).cap == v
    &&& forall|k: int| 0 < k < nl ==> r[k - 1].cap < (#[trigger] r[k]).cap
    &&& forall|k: int| 0 <= k < nl ==> (#[trigger] r[k]).amount == capped_total(c, r[k].cap as int) - if k == 0 {
        0
    } else {
        capped_total(c, r[k - 1].cap as int)
    }
    &&& forall|k: int| 0 <= k < nl ==> (#[trigger] r[k]).eligible@ == seats_at_least(c, live, r[k].cap as int, c.len() as int)
    &&& nl < r.len() <==> top_capped_total(c, r) < total(c)
    &&& nl < r.len() ==> r.len() == nl + 1 && r.last().amount == total(c) - top_capped_total(c, r)
        && r.last().eligible@ == seats_at_least(c, live, 0, c.len() as int)
        && r.last().cap == if nl == 0 {
            0
        } else {
            r[nl - 1].cap
        }
}

proof fn lemma_total_prefix(c: Seq<u32>, i: int)
    requires
        0 <= i <= c.len(),
    ensures
        0 <= total(c.take(i)) <= total(c),
    decreases c.len(),
{
    if i < c.len() {
        assert(c.drop_last().take(i) =~= c.take(i));
        lemma_total_prefix(c.drop_last(), i);
    } else {
        assert(c.take(i) =~= c);
        if c.len() > 0 {
            lemma_total_prefix(c.drop_last(), i - 1);
        }
    }
}

proof fn lemma_capped_bounds(c: Seq<u32>, a: int, b: int)
    requires
        0 <= a <= b,
    ensures
        0 <= capped_total(c, a) <= capped_total(c, b) <= total(c),
    decreases c.len(),
{
    if c.len() > 0 {
        lemma_capped_bounds(c.drop_last(), a, b);
    }
}

proof fn lemma_capped_zero(c: Seq<u32>)
    ensures
        capped_total(c, 0) == 0,
    decreases c.len(),
{
    if c.len() > 0 {
        lemma_capped_zero(c.drop_last());
    }
}

proof fn lemma_level_slices_telescope(c: Seq<u32>, live: Seq<bool>, r: Seq<Pot>, k: int)
    requires
        is_pot_split(c, live, r),
        0 < k <= level_slices(r),
    ensures
        pots_total(r.take(k)) == capped_total(c, r[k - 1].cap as int),
    decreases k,
{
    assert(r.take(k).drop_last() =~= r.take(k - 1));
    assert(r.take(k).last() == r[k - 1]);
    assert(pots_total(r.take(k)) == pots_total(r.take(k).drop_last()) + r.take(k).last().amount);
    assert(r[k - 1].capped);
    assert(r[k - 1].amount == capped_total(c, r[k - 1].cap as int) - if k - 1 == 0 {
        0
    } else {
        capped_total(c, r[k - 2].cap as int)
    });
    if k > 1 {
        lemma_level_slices_telescope(c, live, r, k - 1);
    } else {
        assert(r.take(0) =~= Seq::<Pot>::empty());
    }
}

/// Every chip contributed lies in exactly one slice: the slices of any split
/// of the contributions add up to the sum of all contributions, folded
/// seats' chips included.
pub proof fn lemma_split_holds_every_chip(c: Seq<u32>, live: Seq<bool>, r: Seq<Pot>)
    requires
        is_pot_split(c, live, r),
    ensures
        pots_total(r) == total(c),
{
    let nl = level_slices(r);
    let top = if nl == 0 {
        0
    } else {
        r[nl - 1].cap as int
    };
    if nl > 0 {
        lemma_level_slices_telescope(c, live, r, nl);
    } else {
        assert(r.take(0) =~= Seq::<Pot>::empty());
        lemma_capped_zero(c);
    }
    assert(pots_total(r.take(nl)) == capped_total(c, top));
    lemma_capped_bounds(c, top, top);
    if nl < r.len() {
        assert(r.take(nl) =~= r.drop_last());
    } else {
        assert(r.take(nl) =~= r);
    }
}

/// Sum of all contributions.
pub(crate) fn sum_contributions(c: &Vec<u32>) -> (s: u32)
    requires
        total(c@) <= u32::MAX,
    ensures
        s == total(c@),
{
    let mut s: u32 = 0;
    let mut i: usize = 0;
    while i < c.len()
        invariant
            i <= c.len(),
            total(c@) <= u32::MAX,
            s == total(c@.take(i as int)),
        decreases c.len() - i,
    {
        assert(c@.take(i + 1).drop_last() =~= c@.take(i as int));
        proof {
            lemma_total_prefix(c@, i + 1);
        }
        s = s + c[i];
        i += 1;
    }
    assert(c@.take(i as int) =~= c@);
    s
}

/// Sum of the contributions, each counted up to `level` at most.
fn capped_sum(c: &Vec<u32>, level: u32) -> (s: u32)
    requires
        total(c@) <= u32::MAX,
    ensures
        s == capped_total(c@, level as int),
{
    let mut s: u32 = 0;
    let mut i: usize = 0;
    while i < c.len()
        invariant
            i <= c.len(),
            total(c@) <= u32::MAX,
            s == capped_total(c@.take(i as int), level as int),
        decreases c.len() - i,
    {
        assert(c@.take(i + 1).drop_last() =~= c@.take(i as int));
        proof {
            lemma_total_prefix(c@, i + 1);
            lemma_capped_bounds(c@.take(i + 1), level as int, level as int);
        }
        let v = if c[i] < level {
            c[i]
        } else {
            level
        };
        s = s + v;
        i += 1;
    }
    assert(c@.take(i as int) =~= c@);
    s
}

/// The smallest live contribution above `above`, if any.
fn next_level(c: &Vec<u32>, live: &Vec<bool>, above: u32) -> (r: Option<u32>)
    requires
        c@.len() == live@.len(),
    ensures
        r is None ==> forall|i: int| 0 <= i < c@.len() && live@[i] ==> c@[i] <= above,
        r is Some ==> r->0 > above && is_level(c@, live@, r->0 as int) && forall|i: int|
            0 <= i < c@.len() && live@[i] && c@[i] > above ==> c@[i] >= r->0,
{
    let mut best: Option<u32> = None;
    let mut i: usize = 0;
    while i < c.len()
        invariant
            i <= c.len(),
            c@.len() == live@.len(),
            best is None ==> forall|k: int| 0 <= k < i && live@[k] ==> c@[k] <= above,
            best is Some ==> best->0 > above && is_level(c@, live@, best->0 as int) && forall|k: int|
                0 <= k < i && live@[k] && c@[k] > above ==> c@[k] >= best->0,
        decreases c.len() - i,
    {
        if live[i] && c[i] > above {
            let better = match best {
                None => true,
                Some(b) => c[i] < b,
            };
            if better {
                best = Some(c[i]);
                assert(is_level(c@, live@, c@[i as int] as int));
            }
        }
        i += 1;
    }
    best
}

/// The live seats whose contribution is at least `level`, in ascending order.
fn seats_from(c: &Vec<u32>, live: &Vec<bool>, level: u32) -> (r: Vec<usize>)
    requires
        c@.len() == live@.len(),
    ensures
        r@ == seats_at_least(c@, live@, level as int, c@.len() as int),
{
    let mut r: Vec<usize> = Vec::new();
    let mut i: usize = 0;
    while i < c.len()
        invariant
            i <= c.len(),
            c@.len() == live@.len(),
            r@ == seats_at_least(c@, live@, level as int, i as int),
        decreases c.len() - i,
    {
        if live[i] && c[i] >= level {
            r.push(i);
        }
        i += 1;
    }
    r
}

/// Splits the hand's contributions into slices. Each distinct positive
/// contribution level `L` of a live seat, ascending, gives a slice holding
/// what every seat put in up to `L` beyond the lower slices, open to the
/// live seats that put in at least `L`. Chips above the highest live level
/// (bets of folded seats) form a last slice open to every live seat.
#[verifier::rlimit(100)]
pub fn build_pots(contributions: &Vec<u32>, live: &Vec<bool>) -> (r: Vec<Pot>)
    requires
        contributions@.len() == live@.len(),
        total(contributions@) <= u32::MAX,
    ensures
        pots_total(r@) == total(contributions@),
        is_pot_split(contributions@, live@, r@),
{
    let ghost c = contributions@;
    let mut pots: Vec<Pot> = Vec::new();
    let mut prev: u32 = 0;
    let mut last: u32 = 0;
    let tot = sum_contributions(contributions);
    proof {
        lemma_capped_zero(c);
    }
    loop
        invariant
            c == contributions@,
            c.len() == live@.len(),
            total(c) <= u32::MAX,
            tot == total(c),
            prev == capped_total(c, last as int),
            pots_total(pots@) == prev,
            pots@.len() == 0 ==> last == 0,
            pots@.len() > 0 ==> last == pots@.last().cap,
            forall|k: int| 0 <= k < pots@.len() ==> (#[trigger] pots@[k]).capped && is_level(c, live@, pots@[k].cap as int),
            forall|v: int| is_level(c, live@, v) && v <= last ==> exists|k: int| 0 <= k < pots@.len() && (#[trigger] pots@[k]).cap == v,
            forall|k: int| 0 < k < pots@.len() ==> pots@[k - 1].cap < (#[trigger] pots@[k]).cap,
            forall|k: int| 0 <= k < pots@.len() ==> (#[trigger] pots@[k]).amount == capped_total(c, pots@[k].cap as int) - if k == 0 {
                0
            } else {
                capped_total(c, pots@[k - 1].cap as int)
            },
            forall|k: int| 0 <= k < pots@.len() ==> (#[trigger] pots@[k]).eligible@ == seats_at_least(c, live@, pots@[k].cap as int, c.len() as int),
        ensures
            forall|i: int| 0 <= i < c.len() && live@[i] ==> c[i] <= last,
        decreases u32::MAX - last,
    {
        match next_level(contributions, live, last) {
            None => {
                break;
            },
            Some(level) => {
                let cum = capped_sum(contributions, level);
                proof {
                    lemma_capped_bounds(c, last as int, level as int);
                }
                let eligible = seats_from(contributions, live, level);
                let ghost old_pots = pots@;
                pots.push(Pot { amount: cum - prev, cap: level, capped: true, eligible });
                assert(pots@.drop_last() =~= old_pots);
                proof {
                    assert forall|v: int| is_level(c, live@, v) && v <= level implies exists|k: int|
                        0 <= k < pots@.len() && (#[trigger] pots@[k]).cap == v by {
                        if v <= last {
                            let k = choose|k: int| 0 <= k < old_pots.len() && (#[trigger] old_pots[k]).cap == v;
                            assert(pots@[k] == old_pots[k]);
                        } else {
                            let i = choose|i: int| 0 <= i < c.len() && live@[i] && c[i] > 0 && #[trigger] c[i] == v;
                            assert(c[i] >= level);
                            assert(pots@[pots@.len() - 1].cap == v);
                        }
                    }
                }
                prev = cum;
                last = level;
            },
        }
    }
    proof {
        lemma_capped_bounds(c, last as int, last as int);
        assert forall|v: int| is_level(c, live@, v) implies v <= last by {
            let i = choose|i: int| 0 <= i < c.len() && live@[i] && c[i] > 0 && #[trigger] c[i] == v;
        }
    }
    if prev < tot {
        let eligible = seats_from(contributions, live, 0);
        let ghost old_pots = pots@;
        pots.push(Pot { amount: tot - prev, cap: last, capped: false, eligible });
        assert(pots@.drop_last() =~= old_pots);
        assert(forall|k: int| 0 <= k < old_pots.len() ==> pots@[k] == old_pots[k]);
        assert(!pots@.last().capped);
    } else {
        proof {
            assert(prev == tot);
            assert(pots@.len() > 0 ==> pots@.last().capped);
        }
    }
    pots
}

/// The cards held at seat `s`.
pub open spec fn cards_at(ps: Seq<Player>, s: usize) -> Seq<Card> {
    ps[s as int].hand->0.cards@
}

/// Every listed seat exists and holds five cards.
pub open spec fn showdown_ready(ps: Seq<Player>, seats: Seq<usize>) -> bool {
    forall|k: int| 0 <= k < seats.len() ==> {
        let s = #[trigger] seats[k];
        &&& s < ps.len()
        &&& ps[s as int].hand is Some
        &&& ps[s as int].hand->0.cards@.len() == 5
    }
}

/// No listed hand beats the hand at seat `s`.
pub open spec fn holds_best(ps: Seq<Player>, seats: Seq<usize>, s: usize) -> bool {
    forall|k: int| 0 <= k < seats.len() ==> hand_order(cards_at(ps, #[trigger] seats[k]), cards_at(ps, s))
        != Ordering::Greater
}

/// The first `n` listed seats that hold a best hand among all listed seats, in list order.
pub open spec fn best_prefix(ps: Seq<Player>, seats: Seq<usize>, n: int) -> Seq<usize>
    decreases n,
{
    if n <= 0 {
        Seq::empty()
    } else {
        let rest = best_prefix(ps, seats, n - 1);
        if holds_best(ps, seats, seats[n - 1]) {
            rest.push(seats[n - 1])
        } else {
            rest
        }
    }
}

/// The listed seats that hold a best hand among them, in list order.
pub open spec fn pot_winners(ps: Seq<Player>, seats: Seq<usize>) -> Seq<usize> {
    best_prefix(ps, seats, seats.len() as int)
}

/// The seats among `eligible` whose hand no other eligible hand beats, in
/// the order of `eligible`. Tied best hands are all returned.
pub fn best_seats(players: &Vec<Player>, eligible: &Vec<usize>) -> (r: Vec<usize>)
    requires
        showdown_ready(players@, eligible@),
    ensures
        r@ == pot_winners(players@, eligible@),
        eligible@.len() > 0 ==> r@.len() > 0,
{
    let ghost ps = players@;
    let ghost el = eligible@;
    if eligible.len() == 0 {
        return Vec::new();
    }
    let mut top: usize = eligible[0];
    let mut k: usize = 1;
    proof {
        crate::hand::lemma_compare_reflexive(cards_at(ps, top));
        assert(el.contains(el[0]));
    }
    while k < eligible.len()
        invariant
            showdown_ready(ps, el),
            ps == players@,
            el == eligible@,
            1 <= k <= el.len(),
            el.contains(top),
            forall|q: int| 0 <= q < k ==> hand_order(cards_at(ps, #[trigger] el[q]), cards_at(ps, top)) != Ordering::Greater,
        decreases el.len() - k,
    {
        let s = eligible[k];
        let ghost prev = top;
        let o = compare(players[top].hand.as_ref().unwrap(), players[s].hand.as_ref().unwrap());
        if matches!(o, Ordering::Less) {
            top = s;
            proof {
                assert forall|q: int| 0 <= q < k + 1 implies hand_order(cards_at(ps, #[trigger] el[q]), cards_at(ps, top)) != Ordering::Greater by {
                    if q < k {
                        lemma_compare_antisymmetric(cards_at(ps, prev), cards_at(ps, s));
                        lemma_compare_transitive(cards_at(ps, el[q]), cards_at(ps, prev), cards_at(ps, s));
                    } else {
                        crate::hand::lemma_compare_reflexive(cards_at(ps, s));
                    }
                }
            }
        } else {
            proof {
                lemma_compare_antisymmetric(cards_at(ps, prev), cards_at(ps, s));
            }
        }
        k += 1;
    }
    assert(holds_best(ps, el, top));
    let mut r: Vec<usize> = Vec::new();
    let mut i: usize = 0;
    while i < eligible.len()
        invariant
            showdown_ready(ps, el),
            ps == players@,
            el == eligible@,
            i <= el.len(),
            el.contains(top),
            holds_best(ps, el, top),
            r@ == best_prefix(ps, el, i as int),
            i > 0 && holds_best(ps, el, el[0]) ==> r@.len() > 0,
        decreases el.len() - i,
    {
        let s = eligible[i];
        let o = compare(players[s].hand.as_ref().unwrap(), players[top].hand.as_ref().unwrap());
        proof {
            let j = choose|j: int| 0 <= j < el.len() && el[j] == top;
            lemma_compare_antisymmetric(cards_at(ps, s), cards_at(ps, top));
            if o == Ordering::Equal {
                assert forall|q: int| 0 <= q < el.len() implies hand_order(cards_at(ps, #[trigger] el[q]), cards_at(ps, s)) != Ordering::Greater by {
                    lemma_compare_transitive(cards_at(ps, el[q]), cards_at(ps, top), cards_at(ps, s));
                }
            } else {
                assert(hand_order(cards_at(ps, el[j]), cards_at(ps, s)) == Ordering::Greater);
            }
        }
        if matches!(o, Ordering::Equal) {
            r.push(s);
        }
        i += 1;
    }
    proof {
        if !holds_best(ps, el, el[0]) {
            let j = choose|j: int| 0 <= j < el.len() && el[j] == top;
            assert(r@.len() > 0) by {
                lemma_best_prefix_has(ps, el, j, el.len() as int);
            }
        }
    }
    r
}

proof fn lemma_best_prefix_has(ps: Seq<Player>, seats: Seq<usize>, j: int, n: int)
    requires
        0 <= j < n <= seats.len(),
        holds_best(ps, seats, seats[j]),
    ensures
        best_prefix(ps, seats, n).len() > 0,
    decreases n,
{
    if j < n - 1 {
        lemma_best_prefix_has(ps, seats, j, n - 1);
    }
}

/// Chips that the winner at position `k` of `n` tied winners takes from a
/// slice of `amount`: the even share, plus one remainder chip for each of the
/// first `amount % n` winners in seat order.
pub open spec fn share_of(amount: int, n: int, k: int) -> int {
    amount / n + if k < amount % n {
        1int
    } else {
        0int
    }
}

/// Sum of the shares of the first `m` of `n` winners.
pub open spec fn shares_upto(amount: int, n: int, m: int) -> int
    decreases m,
{
    if m <= 0 {
        0
    } else {
        shares_upto(amount, n, m - 1) + share_of(amount, n, m - 1)
    }
}

/// What seat `j` takes, as one of the first `m` of `winners`, from a slice of `amount`.
pub open spec fn gain_upto(winners: Seq<usize>, amount: int, j: usize, m: int) -> int
    decreases m,
{
    if m <= 0 {
        0
    } else {
        gain_upto(winners, amount, j, m - 1) + if winners[m - 1] == j {
            share_of(amount, winners.len() as int, m - 1)
        } else {
            0
        }
    }
}

/// What seat `j` takes from the first `m` slices.
pub open spec fn total_gain(ps: Seq<Player>, pots: Seq<Pot>, j: usize, m: int) -> int
    decreases m,
{
    if m <= 0 {
        0
    } else {
        let w = pot_winners(ps, pots[m - 1].eligible@);
        total_gain(ps, pots, j, m - 1) + gain_upto(w, pots[m - 1].amount as int, j, w.len() as int)
    }
}

/// Every listed slice can go to a showdown among its eligible seats.
pub open spec fn pots_ready(ps: Seq<Player>, pots: Seq<Pot>) -> bool {
    forall|k: int| 0 <= k < pots.len() ==> showdown_ready(ps, #[trigger] pots[k].eligible@)
}

/// How one slice was paid out.
pub struct PotAward {
    /// Chips in the slice.
    pub amount: u32,
    /// Seats that won it, in seat order.
    pub winners: Vec<usize>,
    /// The even share of each winner, before remainder chips.
    pub share: u32,
}

proof fn lemma_shares_upto(amount: int, n: int, m: int)
    requires
        0 <= amount,
        0 < n,
        0 <= m <= n,
    ensures
        shares_upto(amount, n, m) == m * (amount / n) + if m < amount % n {
            m
        } else {
            amount % n
        },
    decreases m,
{
    let q = amount / n;
    let r = amount % n;
    if m > 0 {
        lemma_shares_upto(amount, n, m - 1);
        assert(m * q == (m - 1) * q + q) by (nonlinear_arith);
        assert(shares_upto(amount, n, m) == shares_upto(amount, n, m - 1) + share_of(amount, n, m - 1));
        assert(share_of(amount, n, m - 1) == q + if m - 1 < r {
            1int
        } else {
            0int
        });
    } else {
        assert(0 * q == 0) by (nonlinear_arith);
        assert(0 <= r);
    }
}

/// The shares of all winners of a slice add up to the whole slice: no chip
/// is lost to rounding.
pub proof fn lemma_shares_sum_to_slice(amount: int, n: int)
    requires
        0 <= amount,
        0 < n,
    ensures
        shares_upto(amount, n, n) == amount,
{
    lemma_shares_upto(amount, n, n);
    assert(amount % n < n);
    assert(n * (amount / n) + amount % n == amount) by (nonlinear_arith)
        requires 0 < n;
}

/// What seats `0..n` together take, as the first `m` of `winners`, from a slice of `amount`.
pub open spec fn seats_gain(winners: Seq<usize>, amount: int, n: int, m: int) -> int
    decreases n,
{
    if n <= 0 {
        0
    } else {
        seats_gain(winners, amount, n - 1, m) + gain_upto(winners, amount, (n - 1) as usize, m)
    }
}

proof fn lemma_seats_gain_step(winners: Seq<usize>, amount: int, n: int, m: int)
    requires
        0 < m <= winners.len(),
        0 <= n <= usize::MAX + 1,
    ensures
        seats_gain(winners, amount, n, m) == seats_gain(winners, amount, n, m - 1) + if winners[m - 1] < n {
            share_of(amount, winners.len() as int, m - 1)
        } else {
            0
        },
    decreases n,
{
    if n > 0 {
        lemma_seats_gain_step(winners, amount, n - 1, m);
    }
}

/// Paying a slice neither makes nor loses chips: when every winner is one of
/// the seats `0..n`, those seats together take exactly the slice.
pub proof fn lemma_slice_fully_paid(winners: Seq<usize>, amount: int, n: int)
    requires
        0 <= amount,
        0 < winners.len(),
        0 <= n <= usize::MAX + 1,
        forall|i: int| 0 <= i < winners.len() ==> #[trigger] winners[i] < n,
    ensures
        seats_gain(winners, amount, n, winners.len() as int) == amount,
{
    lemma_seats_gain_prefix(winners, amount, n, winners.len() as int);
    lemma_shares_sum_to_slice(amount, winners.len() as int);
}

proof fn lemma_seats_gain_prefix(winners: Seq<usize>, amount: int, n: int, m: int)
    requires
        0 <= m <= winners.len(),
        0 <= n <= usize::MAX + 1,
        forall|i: int| 0 <= i < winners.len() ==> #[trigger] winners[i] < n,
    ensures
        seats_gain(winners, amount, n, m) == shares_upto(amount, winners.len() as int, m),
    decreases m,
{
    if m > 0 {
        lemma_seats_gain_prefix(winners, amount, n, m - 1);
        lemma_seats_gain_step(winners, amount, n, m);
    } else {
        lemma_seats_gain_zero(winners, amount, n);
    }
}

proof fn lemma_seats_gain_zero(winners: Seq<usize>, amount: int, n: int)
    ensures
        seats_gain(winners, amount, n, 0) == 0,
    decreases n,
{
    if n > 0 {
        lemma_seats_gain_zero(winners, amount, n - 1);
    }
}

proof fn lemma_gain_bounded(w: Seq<usize>, amount: int, j: usize, m: int)
    requires
        0 <= amount,
        0 < w.len(),
        0 <= m <= w.len(),
    ensures
        0 <= gain_upto(w, amount, j, m) <= shares_upto(amount, w.len() as int, m),
    decreases m,
{
    if m > 0 {
        lemma_gain_bounded(w, amount, j, m - 1);
        assert(0 <= amount / (w.len() as int)) by (nonlinear_arith)
            requires 0 <= amount, 0 < w.len();
    }
}

proof fn lemma_shares_monotone(amount: int, n: int, m: int)
    requires
        0 <= amount,
        0 < n,
        0 <= m <= n,
    ensures
        0 <= shares_upto(amount, n, m) <= amount,
{
    lemma_shares_upto(amount, n, m);
    lemma_shares_sum_to_slice(amount, n);
    lemma_shares_upto(amount, n, n);
    assert(0 <= amount / n) by (nonlinear_arith)
        requires 0 <= amount, 0 < n;
    assert(m * (amount / n) <= n * (amount / n)) by (nonlinear_arith)
        requires m <= n, 0 <= amount / n;
    assert(0 <= m * (amount / n)) by (nonlinear_arith)
        requires 0 <= m, 0 <= amount / n;
}

proof fn lemma_winners_follow_hands(a: Seq<Player>, b: Seq<Player>, seats: Seq<usize>, n: int)
    requires
        a.len() == b.len(),
        forall|j: int| 0 <= j < a.len() ==> #[trigger] a[j].hand == b[j].hand,
        showdown_ready(a, seats),
        n <= seats.len(),
    ensures
        best_prefix(a, seats, n) == best_prefix(b, seats, n),
    decreases n,
{
    assert forall|k: int| 0 <= k < seats.len() implies cards_at(a, #[trigger] seats[k]) == cards_at(b, seats[k]) by {
        assert(a[seats[k] as int].hand == b[seats[k] as int].hand);
    }
    if n > 0 {
        lemma_winners_follow_hands(a, b, seats, n - 1);
        let s = seats[n - 1];
        assert(holds_best(a, seats, s) == holds_best(b, seats, s)) by {
            assert(cards_at(a, s) == cards_at(b, s));
        }
    }
}

proof fn lemma_pots_total_prefix(pots: Seq<Pot>, m: int)
    requires
        0 <= m < pots.len(),
    ensures
        pots_total(pots.take(m + 1)) == pots_total(pots.take(m)) + pots[m].amount,
        pots_total(pots.take(m + 1)) <= pots_total(pots),
    decreases pots.len(),
{
    assert(pots.take(m + 1).drop_last() =~= pots.take(m));
    if m + 1 < pots.len() {
        lemma_pots_total_prefix(pots.drop_last(), m);
        assert(pots.drop_last().take(m + 1) =~= pots.take(m + 1));
        assert(pots.drop_last().take(m) =~= pots.take(m));
    } else {
        assert(pots.take(m + 1) =~= pots);
    }
}

proof fn lemma_total_gain_bounded(ps: Seq<Player>, pots: Seq<Pot>, j: usize, m: int)
    requires
        0 <= m <= pots.len(),
        pots_ready(ps, pots),
    ensures
        0 <= total_gain(ps, pots, j, m) <= pots_total(pots.take(m)),
    decreases m,
{
    if m > 0 {
        lemma_total_gain_bounded(ps, pots, j, m - 1);
        lemma_pots_total_prefix(pots, m - 1);
        let w = pot_winners(ps, pots[m - 1].eligible@);
        if w.len() > 0 {
            lemma_gain_bounded(w, pots[m - 1].amount as int, j, w.len() as int);
            lemma_shares_monotone(pots[m - 1].amount as int, w.len() as int, w.len() as int);
        }
    } else {
        assert(pots.take(0) =~= Seq::<Pot>::empty());
    }
}

proof fn lemma_winners_ready(ps: Seq<Player>, seats: Seq<usize>, n: int)
    requires
        showdown_ready(ps, seats),
        n <= seats.len(),
    ensures
        showdown_ready(ps, best_prefix(ps, seats, n)),
    decreases n,
{
    if n > 0 {
        lemma_winners_ready(ps, seats, n - 1);
        let rest = best_prefix(ps, seats, n - 1);
        if holds_best(ps, seats, seats[n - 1]) {
            assert forall|k: int| 0 <= k < rest.len() + 1 implies #[trigger] rest.push(seats[n - 1])[k] < ps.len() by {
                if k < rest.len() {
                    assert(rest.push(seats[n - 1])[k] == rest[k]);
                }
            }
        }
    }
}

/// Pays a slice of `amount` to `winners`: each takes the even share, and the
/// first `amount % n` of them one remainder chip more. Only stacks change.
pub(crate) fn pay_slice(players: &mut Vec<Player>, winners: &Vec<usize>, amount: u32)
    requires
        forall|i: int| 0 <= i < winners@.len() ==> #[trigger] winners@[i] < old(players)@.len(),
        forall|j: int| 0 <= j < old(players)@.len() ==> #[trigger] old(players)@[j].chips + amount <= u32::MAX,
    ensures
        final(players)@.len() == old(players)@.len(),
        forall|j: int| 0 <= j < old(players)@.len() ==> {
            let (q, p) = (#[trigger] final(players)@[j], old(players)@[j]);
            &&& q == Player { chips: q.chips, ..p }
            &&& q.chips == p.chips + gain_upto(winners@, amount as int, j as usize, winners@.len() as int)
        },
{
    let ghost w = winners@;
    let n = winners.len();
    let np = players.len();
    if n == 0 {
        return;
    }
    let share: u32 = (amount as u64 / n as u64) as u32;
    let rem: usize = (amount as u64 % n as u64) as usize;
    assert(share <= amount) by (nonlinear_arith)
        requires share == amount as int / n as int, n > 0;
    let mut p: usize = 0;
    while p < n
        invariant
            n == w.len(),
            n > 0,
            w == winners@,
            p <= n,
            share == amount as int / (n as int),
            rem == amount as int % (n as int),
            players@.len() == old(players)@.len(),
            np == players@.len(),
            forall|i: int| 0 <= i < n ==> #[trigger] w[i] < old(players)@.len(),
            forall|j: int| 0 <= j < old(players)@.len() ==> #[trigger] old(players)@[j].chips + amount <= u32::MAX,
            forall|j: int| 0 <= j < old(players)@.len() ==> {
                let q = #[trigger] players@[j];
                &&& q == Player { chips: q.chips, ..old(players)@[j] }
                &&& q.chips == old(players)@[j].chips + gain_upto(w, amount as int, j as usize, p as int)
            },
        decreases n - p,
    {
        let s = winners[p];
        let extra: u32 = if p < rem {
            1
        } else {
            0
        };
        proof {
            lemma_gain_bounded(w, amount as int, s, p + 1);
            lemma_shares_monotone(amount as int, n as int, p + 1);
            assert(old(players)@[s as int].chips + amount <= u32::MAX);
        }
        let ghost before = players@;
        players[s].chips = players[s].chips + share + extra;
        proof {
            assert forall|j: int| 0 <= j < old(players)@.len() implies {
                let q = #[trigger] players@[j];
                &&& q == Player { chips: q.chips, ..old(players)@[j] }
                &&& q.chips == old(players)@[j].chips + gain_upto(w, amount as int, j as usize, p + 1)
            } by {
                assert(gain_upto(w, amount as int, j as usize, p + 1) == gain_upto(w, amount as int, j as usize, p as int)
                    + if w[p as int] == j as usize {
                    share_of(amount as int, n as int, p as int)
                } else {
                    0
                });
                let q0 = before[j];
                assert(q0 == Player { chips: q0.chips, ..old(players)@[j] });
                assert(q0.chips == old(players)@[j].chips + gain_upto(w, amount as int, j as usize, p as int));
                if j != s {
                    assert(players@[j] == before[j]);
                } else {
                    assert(players@[j].chips == q0.chips + share + extra);
                    assert(share + extra == share_of(amount as int, n as int, p as int));
                    assert(w[p as int] == j as usize);
                    assert(players@[j] == Player { chips: players@[j].chips, ..old(players)@[j] });
                }
                assert(players@[j].chips == old(players)@[j].chips + gain_upto(w, amount as int, j as usize, p + 1));
            }
        }
        p += 1;
    }
}

/// Pays every slice to the best hands among its eligible seats. Tied winners
/// split a slice evenly; the remainder chips go one each to the first
/// winners in seat order. Only stacks change.
pub fn award_pots(players: &mut Vec<Player>, pots: &Vec<Pot>) -> (r: Vec<PotAward>)
    requires
        pots_ready(old(players)@, pots@),
        forall|j: int| 0 <= j < old(players)@.len() ==> #[trigger] old(players)@[j].chips
            + pots_total(pots@) <= u32::MAX,
    ensures
        final(players)@.len() == old(players)@.len(),
        forall|j: int| 0 <= j < old(players)@.len() ==> {
            let (q, p) = (#[trigger] final(players)@[j], old(players)@[j]);
            &&& q == Player { chips: q.chips, ..p }
            &&& q.chips == p.chips + total_gain(old(players)@, pots@, j as usize, pots@.len() as int)
        },
        r@.len() == pots@.len(),
        forall|k: int| 0 <= k < r@.len() ==> {
            let a = #[trigger] r@[k];
            &&& a.amount == pots@[k].amount
            &&& a.winners@ == pot_winners(old(players)@, pots@[k].eligible@)
            &&& a.winners@.len() > 0 ==> a.share == pots@[k].amount as int / a.winners@.len() as int
        },
{
    let ghost ps = old(players)@;
    let mut awards: Vec<PotAward> = Vec::new();
    let mut k: usize = 0;
    while k < pots.len()
        invariant
            k <= pots@.len(),
            pots_ready(ps, pots@),
            forall|j: int| 0 <= j < ps.len() ==> #[trigger] ps[j].chips + pots_total(pots@) <= u32::MAX,
            players@.len() == ps.len(),
            forall|j: int| 0 <= j < ps.len() ==> {
                let (q, p) = (#[trigger] players@[j], ps[j]);
                &&& q == Player { chips: q.chips, ..p }
                &&& q.chips == p.chips + total_gain(ps, pots@, j as usize, k as int)
            },
            awards@.len() == k,
            forall|q: int| 0 <= q < k ==> {
                let a = #[trigger] awards@[q];
                &&& a.amount == pots@[q].amount
                &&& a.winners@ == pot_winners(ps, pots@[q].eligible@)
                &&& a.winners@.len() > 0 ==> a.share == pots@[q].amount as int / a.winners@.len() as int
            },
        decreases pots@.len() - k,
    {
        let pot = &pots[k];
        proof {
            assert(showdown_ready(ps, pots@[k as int].eligible@));
            assert forall|j: int| 0 <= j < ps.len() implies #[trigger] ps[j].hand == players@[j].hand by {
                assert(players@[j] == Player { chips: players@[j].chips, ..ps[j] });
            }
            lemma_winners_follow_hands(ps, players@, pot.eligible@, pot.eligible@.len() as int);
            assert(showdown_ready(players@, pot.eligible@));
        }
        let winners = best_seats(players, &pot.eligible);
        let n = winners.len();
        let amount = pot.amount;
        let ghost base = players@;
        let share: u32 = if n > 0 {
            (amount as u64 / n as u64) as u32
        } else {
            0
        };
        proof {
            lemma_pots_total_prefix(pots@, k as int);
            if n > 0 {
                lemma_shares_monotone(amount as int, n as int, n as int);
            }
        }
        proof {
            lemma_winners_ready(ps, pot.eligible@, pot.eligible@.len() as int);
            assert forall|j: int| 0 <= j < ps.len() implies #[trigger] players@[j].chips + amount <= u32::MAX by {
                lemma_total_gain_bounded(ps, pots@, j as usize, k as int);
            }
        }
        pay_slice(players, &winners, amount);
        proof {
            assert forall|j: int| 0 <= j < ps.len() implies #[trigger] players@[j].chips == ps[j].chips
                + total_gain(ps, pots@, j as usize, k + 1) by {
                assert(base[j].chips == ps[j].chips + total_gain(ps, pots@, j as usize, k as int));
                assert(players@[j].chips == base[j].chips + gain_upto(winners@, amount as int, j as usize, n as int));
            }
        }
        awards.push(PotAward { amount, winners, share });
        k += 1;
    }
    awards
}

} // verus!
