use vstd::prelude::*;

use crate::card::{card_text, rank_val, rank_value, Card};
use crate::deck::Deck;
use vstd::relations::{sorted_by, total_ordering};
use core::cmp::Ordering;

verus! {

/// The cards a player holds, in the order they were received.
#[derive(Clone, Debug)]
pub struct Hand {
    pub cards: Vec<Card>,
}

/// The cards of `s` whose positions are not listed in `idxs`, in their order.
pub open spec fn keep_unlisted(s: Seq<Card>, idxs: Seq<usize>) -> Seq<Card>
    decreases s.len(),
{
    if s.len() == 0 {
        s
    } else {
        let rest = keep_unlisted(s.drop_last(), idxs);
        if idxs.contains((s.len() - 1) as usize) {
            rest
        } else {
            rest.push(s.last())
        }
    }
}

/// The card texts of `s`, separated by single spaces.
pub open spec fn hand_text(s: Seq<Card>) -> Seq<char>
    decreases s.len(),
{
    if s.len() == 0 {
        Seq::empty()
    } else if s.len() == 1 {
        card_text(s[0])
    } else {
        hand_text(s.drop_last()).push(' ') + card_text(s.last())
    }
}

/// Whether `i` occurs in `idxs`.
fn lists(idxs: &Vec<usize>, i: usize) -> (r: bool)
    ensures
        r == idxs@.contains(i),
{
    let mut k: usize = 0;
    while k < idxs.len()
        invariant
            k <= idxs.len(),
            forall|j: int| 0 <= j < k ==> idxs@[j] != i,
        decreases idxs.len() - k,
    {
        if idxs[k] == i {
            return true;
        }
        k += 1;
    }
    false
}

impl Hand {
    /// An empty hand.
    pub fn new() -> (h: Hand)
        ensures
            h.cards@ == Seq::<Card>::empty(),
    {
        Hand { cards: Vec::new() }
    }

    /// Appends a card.
    pub fn add(&mut self, c: Card)
        ensures
            final(self).cards@ == old(self).cards@.push(c),
    {
        self.cards.push(c);
    }

    /// Removes the cards at the listed positions; positions out of range and
    /// repeated positions are ignored. The other cards keep their order.
    pub fn discard_indices(&mut self, idxs: Vec<usize>)
        ensures
            final(self).cards@ == keep_unlisted(old(self).cards@, idxs@),
    {
        let mut kept: Vec<Card> = Vec::new();
        let mut i: usize = 0;
        while i < self.cards.len()
            invariant
                i <= self.cards.len(),
                self.cards@ == old(self).cards@,
                kept@ == keep_unlisted(self.cards@.take(i as int), idxs@),
            decreases self.cards.len() - i,
        {
            assert(self.cards@.take(i + 1).drop_last() =~= self.cards@.take(i as int));
            if !lists(&idxs, i) {
                kept.push(self.cards[i]);
            }
            i += 1;
        }
        assert(self.cards@.take(i as int) =~= self.cards@);
        self.cards = kept;
    }

    /// The hand's cards as text, separated by spaces (e.g. `A♠ K♦`).
    pub fn fmt_inline(&self) -> (r: String)
        ensures
            r@ == hand_text(self.cards@),
    {
        let mut out = String::new();
        let mut i: usize = 0;
        while i < self.cards.len()
            invariant
                i <= self.cards.len(),
                out@ == hand_text(self.cards@.take(i as int)),
            decreases self.cards.len() - i,
        {
            let ghost before = out@;
            assert(self.cards@.take(i + 1).drop_last() =~= self.cards@.take(i as int));
            if i > 0 {
                out.push(' ');
            }
            self.cards[i].write_to(&mut out);
            proof {
                if i == 0 {
                    assert(before =~= Seq::<char>::empty());
                    assert(out@ =~= card_text(self.cards@[0]));
                }
            }
            i += 1;
        }
        assert(self.cards@.take(i as int) =~= self.cards@);
        out
    }
}

/// Refills `cards` to five from the end of `deck`, one card at a time, while
/// the deck lasts; gives the new hand and what is left of the deck.
pub open spec fn refill(cards: Seq<Card>, deck: Seq<Card>) -> (Seq<Card>, Seq<Card>)
    decreases deck.len(),
{
    if cards.len() >= 5 || deck.len() == 0 {
        (cards, deck)
    } else {
        refill(cards.push(deck.last()), deck.drop_last())
    }
}

/// The positions a draw discards: the first `max_discards` of those asked for.
pub open spec fn draw_positions(idxs: Seq<usize>, max_discards: int) -> Seq<usize> {
    if idxs.len() > max_discards {
        idxs.take(max_discards)
    } else {
        idxs
    }
}

impl Hand {
    /// The draw: discards the cards at the first `max_discards` listed
    /// positions, then refills the hand to five cards from the deck.
    pub fn draw(&mut self, idxs: Vec<usize>, max_discards: usize, deck: &mut Deck)
        requires
            old(deck).wf(),
        ensures
            final(deck).wf(),
            (final(self).cards@, final(deck)@) == refill(
                keep_unlisted(old(self).cards@, draw_positions(idxs@, max_discards as int)),
                old(deck)@,
            ),
    {
        let ghost asked = idxs@;
        let mut idxs = idxs;
        if idxs.len() > max_discards {
            idxs.truncate(max_discards);
        }
        assert(idxs@ == draw_positions(asked, max_discards as int)) by {
            if asked.len() > max_discards {
                assert(idxs@ =~= asked.take(max_discards as int));
            }
        }
        self.discard_indices(idxs);
        while self.cards.len() < 5
            invariant
                deck.wf(),
                refill(self.cards@, deck@) == refill(
                    keep_unlisted(old(self).cards@, draw_positions(asked, max_discards as int)),
                    old(deck)@,
                ),
            ensures
                deck.wf(),
                refill(self.cards@, deck@) == (self.cards@, deck@),
                refill(self.cards@, deck@) == refill(
                    keep_unlisted(old(self).cards@, draw_positions(asked, max_discards as int)),
                    old(deck)@,
                ),
            decreases 5 - self.cards@.len(),
        {
            match deck.deal() {
                Some(c) => {
                    self.cards.push(c);
                },
                None => {
                    break;
                },
            }
        }
    }
}

/// The card positions named by card numbers 1 to 5, in the order given; `None`
/// when no number is given or one is outside 1..=5.
pub fn discard_positions(numbers: &Vec<usize>) -> (r: Option<Vec<usize>>)
    ensures
        r is None <==> (numbers@.len() == 0 || exists|i: int|
            0 <= i < numbers@.len() && (#[trigger] numbers@[i] == 0 || numbers@[i] > 5)),
        r is Some ==> r->0@ == numbers@.map_values(|n: usize| (n - 1) as usize),
{
    if numbers.len() == 0 {
        return None;
    }
    let mut out: Vec<usize> = Vec::new();
    let mut i: usize = 0;
    while i < numbers.len()
        invariant
            i <= numbers@.len(),
            forall|k: int| 0 <= k < i ==> 1 <= #[trigger] numbers@[k] <= 5,
            out@ == numbers@.take(i as int).map_values(|n: usize| (n - 1) as usize),
        decreases numbers@.len() - i,
    {
        let n = numbers[i];
        if n == 0 || n > 5 {
            return None;
        }
        out.push(n - 1);
        assert(numbers@.take(i + 1).map_values(|n: usize| (n - 1) as usize) =~= numbers@.take(
            i as int,
        ).map_values(|n: usize| (n - 1) as usize).push((n - 1) as usize));
        i += 1;
    }
    assert(numbers@.take(i as int) =~= numbers@);
    Some(out)
}

/// Standing pat (asking to discard no card) leaves a five-card hand and the
/// deck exactly as they were.
pub proof fn lemma_stand_pat(cards: Seq<Card>, deck: Seq<Card>, max_discards: int)
    requires
        cards.len() == 5,
        max_discards >= 0,
    ensures
        refill(keep_unlisted(cards, draw_positions(Seq::empty(), max_discards)), deck) == (cards, deck),
{
    lemma_discard_nothing(cards);
}

/// Discarding nothing leaves the hand's cards exactly as they were.
pub proof fn lemma_discard_nothing(s: Seq<Card>)
    ensures
        keep_unlisted(s, Seq::empty()) == s,
    decreases s.len(),
{
    if s.len() > 0 {
        lemma_discard_nothing(s.drop_last());
        assert(s.drop_last().push(s.last()) =~= s);
    }
}

/// Hand category, weakest first.
#[derive(Clone, Copy, Debug, PartialEq, Eq, Structural, PartialOrd, Ord)]
pub enum Category {
    HighCard,
    OnePair,
    TwoPair,
    ThreeKind,
    Straight,
    Flush,
    FullHouse,
    FourKind,
    StraightFlush,
}

/// Strength of a category: 1 for a high card up to 9 for a straight flush.
pub open spec fn category_value(c: Category) -> int {
    match c {
        Category::HighCard => 1,
        Category::OnePair => 2,
        Category::TwoPair => 3,
        Category::ThreeKind => 4,
        Category::Straight => 5,
        Category::Flush => 6,
        Category::FullHouse => 7,
        Category::FourKind => 8,
        Category::StraightFlush => 9,
    }
}

/// The rank value of a hand: its category and five tie-break values.
#[derive(Clone, Debug, Eq, Ord)]
pub struct Evaluated {
    pub cat: Category,
    /// Tie-break rank values, most significant first; unused places hold 0.
    pub keys: [u8; 5],
}

/// The order "at least as high as" on rank values.
pub open spec fn rank_desc() -> spec_fn(u8, u8) -> bool {
    |a: u8, b: u8| a >= b
}

/// The rank values of the cards, in card order.
pub open spec fn hand_ranks(cards: Seq<Card>) -> Seq<u8> {
    cards.map_values(|c: Card| rank_value(c.rank))
}

/// The rank values of the cards, highest first.
pub open spec fn sorted_ranks(cards: Seq<Card>) -> Seq<u8> {
    hand_ranks(cards).sort_by(rank_desc())
}

/// All cards share one suit.
pub open spec fn is_flush(cards: Seq<Card>) -> bool {
    cards.len() > 0 && forall|i: int| 0 <= i < cards.len() ==> #[trigger] cards[i].suit == cards[0].suit
}

/// For five rank values sorted highest first: the high card of the straight
/// they form, if any. The wheel A-5-4-3-2 is a straight with high card 5.
pub open spec fn straight_high(s: Seq<u8>) -> Option<u8> {
    if s[0] == s[1] + 1 && s[1] == s[2] + 1 && s[2] == s[3] + 1 && s[3] == s[4] + 1 {
        Some(s[0])
    } else if s[0] == 14 && s[1] == 5 && s[2] == 4 && s[3] == 3 && s[4] == 2 {
        Some(5u8)
    } else {
        None
    }
}

/// Category and tie-break values of five rank values sorted highest first,
/// with `flush` telling whether the cards share one suit. Within a category
/// rank groups come by size, larger first, then by rank, higher first.
pub open spec fn ranking(s: Seq<u8>, flush: bool) -> (Category, Seq<u8>) {
    let st = straight_high(s);
    if st is Some && flush {
        (Category::StraightFlush, seq![st->0, 0, 0, 0, 0])
    } else if s[0] == s[4] {
        // five equal ranks can only come from repeated cards
        if flush {
            (Category::Flush, s)
        } else {
            (Category::HighCard, s)
        }
    } else if s[0] == s[3] {
        (Category::FourKind, seq![s[0], s[0], s[0], s[0], s[4]])
    } else if s[1] == s[4] {
        (Category::FourKind, seq![s[1], s[1], s[1], s[1], s[0]])
    } else if s[0] == s[2] && s[3] == s[4] {
        (Category::FullHouse, seq![s[0], s[0], s[0], s[3], s[3]])
    } else if s[0] == s[1] && s[2] == s[4] {
        (Category::FullHouse, seq![s[2], s[2], s[2], s[0], s[0]])
    } else if flush {
        (Category::Flush, s)
    } else if st is Some {
        (Category::Straight, seq![st->0, 0, 0, 0, 0])
    } else if s[0] == s[2] {
        (Category::ThreeKind, seq![s[0], s[0], s[0], s[3], s[4]])
    } else if s[1] == s[3] {
        (Category::ThreeKind, seq![s[1], s[1], s[1], s[0], s[4]])
    } else if s[2] == s[4] {
        (Category::ThreeKind, seq![s[2], s[2], s[2], s[0], s[1]])
    } else if s[0] == s[1] && s[2] == s[3] {
        (Category::TwoPair, seq![s[0], s[0], s[2], s[2], s[4]])
    } else if s[0] == s[1] && s[3] == s[4] {
        (Category::TwoPair, seq![s[0], s[0], s[3], s[3], s[2]])
    } else if s[1] == s[2] && s[3] == s[4] {
        (Category::TwoPair, seq![s[1], s[1], s[3], s[3], s[0]])
    } else if s[0] == s[1] {
        (Category::OnePair, seq![s[0], s[0], s[2], s[3], s[4]])
    } else if s[1] == s[2] {
        (Category::OnePair, seq![s[1], s[1], s[0], s[3], s[4]])
    } else if s[2] == s[3] {
        (Category::OnePair, seq![s[2], s[2], s[0], s[1], s[4]])
    } else if s[3] == s[4] {
        (Category::OnePair, seq![s[3], s[3], s[0], s[1], s[2]])
    } else {
        (Category::HighCard, s)
    }
}

/// Category and tie-break values of a five-card hand.
pub open spec fn hand_ranking(cards: Seq<Card>) -> (Category, Seq<u8>) {
    ranking(sorted_ranks(cards), is_flush(cards))
}

proof fn lemma_rank_desc_total()
    ensures
        total_ordering(rank_desc()),
{
}

/// The rank values of the cards, highest first.
fn sorted_rank_values(cards: &Vec<Card>) -> (r: Vec<u8>)
    ensures
        r@ == sorted_ranks(cards@),
        r@.len() == cards@.len(),
{
    let ghost leq = rank_desc();
    let mut out: Vec<u8> = Vec::new();
    let mut i: usize = 0;
    proof {
        broadcast use vstd::seq_lib::group_to_multiset_ensures;
        assert(hand_ranks(cards@.take(0)) =~= out@);
    }
    while i < cards.len()
        invariant
            i <= cards.len(),
            out@.len() == i,
            forall|a: int, b: int| 0 <= a < b < out@.len() ==> out@[a] >= out@[b],
            out@.to_multiset() == hand_ranks(cards@.take(i as int)).to_multiset(),
        decreases cards.len() - i,
    {
        let v = rank_val(cards[i].rank);
        let mut j: usize = 0;
        while j < out.len() && out[j] >= v
            invariant
                j <= out.len(),
                forall|k: int| 0 <= k < j ==> out@[k] >= v,
            decreases out.len() - j,
        {
            j += 1;
        }
        let ghost old_out = out@;
        out.insert(j, v);
        proof {
            broadcast use vstd::seq_lib::group_to_multiset_ensures;
            assert(hand_ranks(cards@.take(i + 1)) =~= hand_ranks(cards@.take(i as int)).push(v));
            vstd::seq_lib::to_multiset_insert(old_out, j as int, v);
            assert(j < old_out.len() ==> old_out[j as int] < v);
            assert forall|a: int, b: int| 0 <= a < b < out@.len() implies out@[a] >= out@[b] by {
                if b < j {
                    assert(out@[a] == old_out[a] && out@[b] == old_out[b]);
                } else if b == j {
                    assert(out@[a] == old_out[a]);
                } else if a == j {
                    assert(out@[b] == old_out[b - 1]);
                    assert(old_out[j as int] >= old_out[b - 1]);
                } else if a < j {
                    assert(out@[a] == old_out[a] && out@[b] == old_out[b - 1]);
                } else {
                    assert(out@[a] == old_out[a - 1] && out@[b] == old_out[b - 1]);
                }
            }
        }
        i += 1;
    }
    proof {
        assert(cards@.take(i as int) =~= cards@);
        assert(sorted_by(out@, leq));
        lemma_rank_desc_total();
        hand_ranks(cards@).lemma_sort_by_ensures(leq);
        vstd::seq_lib::lemma_sorted_unique(out@, sorted_ranks(cards@), leq);
    }
    out
}

/// Whether all cards share the first card's suit.
fn all_one_suit(cards: &Vec<Card>) -> (r: bool)
    requires
        cards.len() > 0,
    ensures
        r == is_flush(cards@),
{
    let first = cards[0].suit;
    let mut i: usize = 1;
    while i < cards.len()
        invariant
            1 <= i <= cards.len(),
            first == cards@[0].suit,
            forall|k: int| 0 <= k < i ==> #[trigger] cards@[k].suit == first,
        decreases cards.len() - i,
    {
        if cards[i].suit != first {
            return false;
        }
        i += 1;
    }
    true
}

/// Lexicographic comparison of two sequences of rank values.
pub open spec fn lex_cmp(a: Seq<u8>, b: Seq<u8>) -> Ordering
    decreases a.len(),
{
    if a.len() == 0 || b.len() == 0 {
        if a.len() == b.len() {
            Ordering::Equal
        } else if a.len() < b.len() {
            Ordering::Less
        } else {
            Ordering::Greater
        }
    } else if a[0] < b[0] {
        Ordering::Less
    } else if a[0] > b[0] {
        Ordering::Greater
    } else {
        lex_cmp(a.drop_first(), b.drop_first())
    }
}

/// Order of two rank values: by category, then by tie-break values.
pub open spec fn ranking_cmp(x: (Category, Seq<u8>), y: (Category, Seq<u8>)) -> Ordering {
    if category_value(x.0) < category_value(y.0) {
        Ordering::Less
    } else if category_value(x.0) > category_value(y.0) {
        Ordering::Greater
    } else {
        lex_cmp(x.1, y.1)
    }
}

/// Order of two five-card hands by their rank values.
pub open spec fn hand_order(a: Seq<Card>, b: Seq<Card>) -> Ordering {
    ranking_cmp(hand_ranking(a), hand_ranking(b))
}

impl Category {
    /// Strength of the category, 1 (high card) to 9 (straight flush).
    pub fn strength(self) -> (v: u8)
        ensures
            v as int == category_value(self),
    {
        match self {
            Category::HighCard => 1,
            Category::OnePair => 2,
            Category::TwoPair => 3,
            Category::ThreeKind => 4,
            Category::Straight => 5,
            Category::Flush => 6,
            Category::FullHouse => 7,
            Category::FourKind => 8,
            Category::StraightFlush => 9,
        }
    }
}

impl Evaluated {
    /// The rank value as a category and a sequence of tie-break values.
    pub open spec fn value(&self) -> (Category, Seq<u8>) {
        (self.cat, self.keys@)
    }

    fn make(cat: Category, a: u8, b: u8, c: u8, d: u8, e: u8) -> (r: Evaluated)
        ensures
            r.value() == (cat, seq![a, b, c, d, e]),
    {
        let r = Evaluated { cat, keys: [a, b, c, d, e] };
        assert(r.keys@ =~= seq![a, b, c, d, e]);
        r
    }

    /// Compares two rank values: category first, then tie-break values in order.
    pub fn cmp_to(&self, other: &Evaluated) -> (r: Ordering)
        ensures
            r == ranking_cmp(self.value(), other.value()),
    {
        let a = self.cat.strength();
        let b = other.cat.strength();
        if a < b {
            return Ordering::Less;
        } else if a > b {
            return Ordering::Greater;
        }
        let mut i: usize = 0;
        assert(self.keys@.skip(0) =~= self.keys@);
        assert(other.keys@.skip(0) =~= other.keys@);
        while i < 5
            invariant
                i <= 5,
                category_value(self.cat) == category_value(other.cat),
                lex_cmp(self.keys@, other.keys@) == lex_cmp(self.keys@.skip(i as int), other.keys@.skip(i as int)),
            decreases 5 - i,
        {
            assert(self.keys@.skip(i as int).drop_first() =~= self.keys@.skip(i + 1));
            assert(other.keys@.skip(i as int).drop_first() =~= other.keys@.skip(i + 1));
            assert(self.keys@.skip(i as int)[0] == self.keys@[i as int]);
            assert(other.keys@.skip(i as int)[0] == other.keys@[i as int]);
            assert(self.keys@.skip(i as int).len() > 0 && other.keys@.skip(i as int).len() > 0);
            if self.keys[i] < other.keys[i] {
                return Ordering::Less;
            } else if self.keys[i] > other.keys[i] {
                return Ordering::Greater;
            }
            i += 1;
        }
        assert(self.keys@.skip(5).len() == 0 && other.keys@.skip(5).len() == 0);
        Ordering::Equal
    }
}

proof fn lemma_lex_equal(a: Seq<u8>, b: Seq<u8>)
    requires
        lex_cmp(a, b) == Ordering::Equal,
    ensures
        a == b,
    decreases a.len(),
{
    if a.len() > 0 && b.len() > 0 {
        lemma_lex_equal(a.drop_first(), b.drop_first());
        assert(a =~= seq![a[0]] + a.drop_first());
        assert(b =~= seq![b[0]] + b.drop_first());
    } else {
        assert(a =~= b);
    }
}

impl PartialEq for Evaluated {
    /// Equal rank values: same category and same tie-break values.
    fn eq(&self, other: &Evaluated) -> (r: bool)
        ensures
            r == (self.value() == other.value()),
    {
        let o = self.cmp_to(other);
        proof {
            if o == Ordering::Equal {
                lemma_lex_equal(self.keys@, other.keys@);
            }
            if self.value() == other.value() {
                lemma_lex_reflexive(self.keys@);
            }
        }
        matches!(o, Ordering::Equal)
    }
}

impl vstd::std_specs::cmp::PartialEqSpecImpl for Evaluated {
    open spec fn obeys_eq_spec() -> bool {
        true
    }

    open spec fn eq_spec(&self, other: &Evaluated) -> bool {
        self.value() == other.value()
    }
}

impl PartialOrd for Evaluated {
    /// Orders rank values by category, then tie-break values.
    fn partial_cmp(&self, other: &Evaluated) -> (r: Option<Ordering>)
        ensures
            r == Some(ranking_cmp(self.value(), other.value())),
    {
        Some(self.cmp_to(other))
    }
}

impl vstd::std_specs::cmp::PartialOrdSpecImpl for Evaluated {
    open spec fn obeys_partial_cmp_spec() -> bool {
        true
    }

    open spec fn partial_cmp_spec(&self, other: &Evaluated) -> Option<Ordering> {
        Some(ranking_cmp(self.value(), other.value()))
    }
}

/// The rank value of a five-card hand: its category and tie-break values.
pub fn evaluate(hand: &Hand) -> (r: Evaluated)
    requires
        hand.cards.len() == 5,
    ensures
        r.value() == hand_ranking(hand.cards@),
{
    let s = sorted_rank_values(&hand.cards);
    let flush = all_one_suit(&hand.cards);
    let s0 = s[0];
    let s1 = s[1];
    let s2 = s[2];
    let s3 = s[3];
    let s4 = s[4];
    let ghost sv = s@;
    assert(sv =~= seq![s0, s1, s2, s3, s4]);
    let straight: Option<u8> = if s0 as u16 == s1 as u16 + 1 && s1 as u16 == s2 as u16 + 1
        && s2 as u16 == s3 as u16 + 1 && s3 as u16 == s4 as u16 + 1 {
        Some(s0)
    } else if s0 == 14 && s1 == 5 && s2 == 4 && s3 == 3 && s4 == 2 {
        Some(5)
    } else {
        None
    };
    assert(straight == straight_high(sv));
    if straight.is_some() && flush {
        Evaluated::make(Category::StraightFlush, straight.unwrap(), 0, 0, 0, 0)
    } else if s0 == s4 {
        if flush {
            Evaluated::make(Category::Flush, s0, s1, s2, s3, s4)
        } else {
            Evaluated::make(Category::HighCard, s0, s1, s2, s3, s4)
        }
    } else if s0 == s3 {
        Evaluated::make(Category::FourKind, s0, s0, s0, s0, s4)
    } else if s1 == s4 {
        Evaluated::make(Category::FourKind, s1, s1, s1, s1, s0)
    } else if s0 == s2 && s3 == s4 {
        Evaluated::make(Category::FullHouse, s0, s0, s0, s3, s3)
    } else if s0 == s1 && s2 == s4 {
        Evaluated::make(Category::FullHouse, s2, s2, s2, s0, s0)
    } else if flush {
        Evaluated::make(Category::Flush, s0, s1, s2, s3, s4)
    } else if straight.is_some() {
        Evaluated::make(Category::Straight, straight.unwrap(), 0, 0, 0, 0)
    } else if s0 == s2 {
        Evaluated::make(Category::ThreeKind, s0, s0, s0, s3, s4)
    } else if s1 == s3 {
        Evaluated::make(Category::ThreeKind, s1, s1, s1, s0, s4)
    } else if s2 == s4 {
        Evaluated::make(Category::ThreeKind, s2, s2, s2, s0, s1)
    } else if s0 == s1 && s2 == s3 {
        Evaluated::make(Category::TwoPair, s0, s0, s2, s2, s4)
    } else if s0 == s1 && s3 == s4 {
        Evaluated::make(Category::TwoPair, s0, s0, s3, s3, s2)
    } else if s1 == s2 && s3 == s4 {
        Evaluated::make(Category::TwoPair, s1, s1, s3, s3, s0)
    } else if s0 == s1 {
        Evaluated::make(Category::OnePair, s0, s0, s2, s3, s4)
    } else if s1 == s2 {
        Evaluated::make(Category::OnePair, s1, s1, s0, s3, s4)
    } else if s2 == s3 {
        Evaluated::make(Category::OnePair, s2, s2, s0, s1, s4)
    } else if s3 == s4 {
        Evaluated::make(Category::OnePair, s3, s3, s0, s1, s2)
    } else {
        Evaluated::make(Category::HighCard, s0, s1, s2, s3, s4)
    }
}

/// Compares two five-card hands by their rank values.
pub fn compare(h1: &Hand, h2: &Hand) -> (r: Ordering)
    requires
        h1.cards.len() == 5,
        h2.cards.len() == 5,
    ensures
        r == hand_order(h1.cards@, h2.cards@),
{
    evaluate(h1).cmp_to(&evaluate(h2))
}

/// How many of the cards have rank value `v`.
pub open spec fn rank_count(cards: Seq<Card>, v: u8) -> nat {
    hand_ranks(cards).to_multiset().count(v)
}

proof fn lemma_count_five(s: Seq<u8>, v: u8)
    requires
        s.len() == 5,
    ensures
        s.to_multiset().count(v) == (if s[0] == v { 1nat } else { 0nat }) + (if s[1] == v { 1nat } else { 0nat })
            + (if s[2] == v { 1nat } else { 0nat }) + (if s[3] == v { 1nat } else { 0nat }) + (if s[4] == v {
            1nat
        } else {
            0nat
        }),
{
    broadcast use vstd::seq_lib::group_to_multiset_ensures;
    broadcast use vstd::multiset::group_multiset_axioms;
    let e = Seq::<u8>::empty();
    assert(s =~= e.push(s[0]).push(s[1]).push(s[2]).push(s[3]).push(s[4]));
    assert(e.to_multiset() =~= vstd::multiset::Multiset::empty());
}

/// The tie-break values follow the rank groups of the hand: a four of a kind
/// leads with the rank held four times, a full house with the rank held three
/// times then the pair's, three of a kind with the triple then the two single
/// ranks high to low, two pair with the higher then the lower pair then the
/// single rank, one pair with the pair then the three single ranks high to
/// low; a flush or a high card lists all five ranks high to low.
pub proof fn lemma_keys_follow_rank_groups(cards: Seq<Card>)
    requires
        cards.len() == 5,
    ensures
        ({
            let (cat, k) = hand_ranking(cards);
            &&& cat == Category::FourKind ==> rank_count(cards, k[0]) == 4 && rank_count(cards, k[4]) == 1
            &&& cat == Category::FullHouse ==> rank_count(cards, k[0]) == 3 && rank_count(cards, k[3]) == 2
            &&& cat == Category::ThreeKind ==> rank_count(cards, k[0]) == 3 && rank_count(cards, k[3]) == 1
                && rank_count(cards, k[4]) == 1 && k[3] > k[4]
            &&& cat == Category::TwoPair ==> rank_count(cards, k[0]) == 2 && rank_count(cards, k[2]) == 2
                && k[0] > k[2] && rank_count(cards, k[4]) == 1
            &&& cat == Category::OnePair ==> rank_count(cards, k[0]) == 2 && rank_count(cards, k[2]) == 1
                && rank_count(cards, k[3]) == 1 && rank_count(cards, k[4]) == 1 && k[2] > k[3] > k[4]
            &&& (cat == Category::Flush || cat == Category::HighCard) ==> k == sorted_ranks(cards)
        }),
{
    let leq = rank_desc();
    lemma_rank_desc_total();
    hand_ranks(cards).lemma_sort_by_ensures(leq);
    let s = sorted_ranks(cards);
    vstd::seq_lib::to_multiset_len(s);
    vstd::seq_lib::to_multiset_len(hand_ranks(cards));
    assert(s.len() == 5);
    assert(s[0] >= s[1] && s[1] >= s[2] && s[2] >= s[3] && s[3] >= s[4]) by {
        assert(leq(s[0], s[1]) && leq(s[1], s[2]) && leq(s[2], s[3]) && leq(s[3], s[4]));
    }
    let k = hand_ranking(cards).1;
    assert forall|v: u8| rank_count(cards, v) == s.to_multiset().count(v) by {}
    lemma_count_five(s, k[0]);
    lemma_count_five(s, k[2]);
    lemma_count_five(s, k[3]);
    lemma_count_five(s, k[4]);
}

proof fn lemma_lex_reflexive(a: Seq<u8>)
    ensures
        lex_cmp(a, a) == Ordering::Equal,
    decreases a.len(),
{
    if a.len() > 0 {
        lemma_lex_reflexive(a.drop_first());
    }
}

proof fn lemma_lex_flip(a: Seq<u8>, b: Seq<u8>)
    ensures
        lex_cmp(a, b) == Ordering::Less <==> lex_cmp(b, a) == Ordering::Greater,
        lex_cmp(a, b) == Ordering::Equal <==> lex_cmp(b, a) == Ordering::Equal,
    decreases a.len(),
{
    if a.len() > 0 && b.len() > 0 {
        lemma_lex_flip(a.drop_first(), b.drop_first());
    }
}

proof fn lemma_lex_transitive(a: Seq<u8>, b: Seq<u8>, c: Seq<u8>)
    ensures
        lex_cmp(a, b) != Ordering::Greater && lex_cmp(b, c) != Ordering::Greater
            ==> lex_cmp(a, c) != Ordering::Greater,
        lex_cmp(a, b) == Ordering::Less && lex_cmp(b, c) != Ordering::Greater
            ==> lex_cmp(a, c) == Ordering::Less,
        lex_cmp(a, b) != Ordering::Greater && lex_cmp(b, c) == Ordering::Less
            ==> lex_cmp(a, c) == Ordering::Less,
    decreases a.len(),
{
    if a.len() > 0 && b.len() > 0 && c.len() > 0 {
        lemma_lex_transitive(a.drop_first(), b.drop_first(), c.drop_first());
    }
}

/// A hand compares equal to itself.
pub proof fn lemma_compare_reflexive(h: Seq<Card>)
    ensures
        hand_order(h, h) == Ordering::Equal,
{
    lemma_lex_reflexive(hand_ranking(h).1);
}

/// Exchanging the two hands exchanges "less" and "greater" and keeps "equal".
pub proof fn lemma_compare_antisymmetric(a: Seq<Card>, b: Seq<Card>)
    ensures
        hand_order(a, b) == Ordering::Less <==> hand_order(b, a) == Ordering::Greater,
        hand_order(a, b) == Ordering::Equal <==> hand_order(b, a) == Ordering::Equal,
{
    lemma_lex_flip(hand_ranking(a).1, hand_ranking(b).1);
}

/// Hand order is transitive, for "at most" and for "less", across all categories.
pub proof fn lemma_compare_transitive(a: Seq<Card>, b: Seq<Card>, c: Seq<Card>)
    ensures
        hand_order(a, b) != Ordering::Greater && hand_order(b, c) != Ordering::Greater
            ==> hand_order(a, c) != Ordering::Greater,
        hand_order(a, b) == Ordering::Less && hand_order(b, c) != Ordering::Greater
            ==> hand_order(a, c) == Ordering::Less,
        hand_order(a, b) != Ordering::Greater && hand_order(b, c) == Ordering::Less
            ==> hand_order(a, c) == Ordering::Less,
{
    lemma_lex_transitive(hand_ranking(a).1, hand_ranking(b).1, hand_ranking(c).1);
}

proof fn lemma_ranks_permutation(a: Seq<Card>, b: Seq<Card>)
    requires
        a.to_multiset() == b.to_multiset(),
    ensures
        hand_ranks(a).to_multiset() == hand_ranks(b).to_multiset(),
    decreases a.len(),
{
    broadcast use vstd::seq_lib::group_to_multiset_ensures;
    broadcast use vstd::multiset::group_multiset_axioms;
    if a.len() == 0 {
        assert(b.to_multiset().len() == 0);
        assert(hand_ranks(a) =~= Seq::<u8>::empty());
        assert(hand_ranks(b) =~= Seq::<u8>::empty());
    } else {
        let x = a[0];
        assert(a.contains(x));
        assert(b.to_multiset().count(x) > 0);
        assert(b.contains(x));
        let i = choose|i: int| 0 <= i < b.len() && b[i] == x;
        let a2 = a.drop_first();
        let b2 = b.remove(i);
        assert(a =~= seq![x] + a2);
        assert(a.remove(0) =~= a2);
        assert(a2.to_multiset() =~= a.to_multiset().remove(x));
        assert(b2.to_multiset() =~= b.to_multiset().remove(x));
        lemma_ranks_permutation(a2, b2);
        let v = rank_value(x.rank);
        assert(hand_ranks(a).remove(0) =~= hand_ranks(a2));
        assert(hand_ranks(b).remove(i) =~= hand_ranks(b2));
        assert(hand_ranks(a2).to_multiset() =~= hand_ranks(a).to_multiset().remove(v));
        assert(hand_ranks(b2).to_multiset() =~= hand_ranks(b).to_multiset().remove(v));
        assert(hand_ranks(a).to_multiset().count(v) > 0);
        assert(hand_ranks(b).to_multiset().count(v) > 0);
        assert(hand_ranks(a).to_multiset() =~= hand_ranks(a2).to_multiset().insert(v));
        assert(hand_ranks(b).to_multiset() =~= hand_ranks(b2).to_multiset().insert(v));
    }
}

proof fn lemma_flush_permutation(a: Seq<Card>, b: Seq<Card>)
    requires
        a.to_multiset() == b.to_multiset(),
        is_flush(a),
    ensures
        is_flush(b),
{
    broadcast use vstd::seq_lib::group_to_multiset_ensures;
    vstd::seq_lib::to_multiset_len(a);
    vstd::seq_lib::to_multiset_len(b);
    assert forall|j: int| 0 <= j < b.len() implies #[trigger] b[j].suit == a[0].suit by {
        assert(b.contains(b[j]));
        assert(a.to_multiset().count(b[j]) > 0);
        assert(a.contains(b[j]));
    }
    assert(b[0].suit == a[0].suit);
}

/// The rank value of a hand depends only on its multiset of cards: any two
/// orderings of the same cards get the same category and tie-break values.
pub proof fn lemma_evaluate_ignores_order(a: Seq<Card>, b: Seq<Card>)
    requires
        a.len() == 5,
        a.to_multiset() == b.to_multiset(),
    ensures
        hand_ranking(a) == hand_ranking(b),
{
    let leq = rank_desc();
    lemma_rank_desc_total();
    lemma_ranks_permutation(a, b);
    hand_ranks(a).lemma_sort_by_ensures(leq);
    hand_ranks(b).lemma_sort_by_ensures(leq);
    vstd::seq_lib::lemma_sorted_unique(sorted_ranks(a), sorted_ranks(b), leq);
    if is_flush(a) {
        lemma_flush_permutation(a, b);
    }
    if is_flush(b) {
        lemma_flush_permutation(b, a);
    }
}

} // verus!
