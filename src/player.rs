use vstd::prelude::*;

use crate::hand::Hand;
use crate::text::{decimal_text, push_decimal};

verus! {

/// One seat at the table: its stack and per-hand betting state.
#[derive(Clone)]
pub struct Player {
    pub id: usize,
    pub name: String,
    pub chips: u32,
    pub folded: bool,
    pub all_in: bool,
    pub hand: Option<Hand>,
    pub contributed_this_round: u32,
    pub contributed_total: u32,
    pub last_action: String,
    pub revealed_on_fold: Vec<usize>,
}

/// The default name of the seat with id `id`: "Player " and the seat number, counted from 1.
pub open spec fn default_name(id: nat) -> Seq<char> {
    "Player "@ + decimal_text(id + 1)
}

impl Player {
    /// Chips held and chips committed this hand fit together in a `u32`, and
    /// this street's contribution is part of the hand's.
    pub open spec fn wf(&self) -> bool {
        &&& self.chips + self.contributed_total <= u32::MAX
        &&& self.contributed_this_round <= self.contributed_total
    }

    /// Whether the seat still has a live, unfolded hand.
    pub open spec fn is_live(&self) -> bool {
        !self.folded && self.hand is Some
    }

    /// Whether the seat can still bet or call.
    pub open spec fn may_act(&self) -> bool {
        !self.folded && !self.all_in && self.chips > 0
    }

    /// A new seat with the given chips and the default name.
    pub fn new(id: usize, chips: u32) -> (p: Player)
        requires
            id < usize::MAX,
        ensures
            p.wf(),
            p.id == id,
            p.name@ == default_name(id as nat),
            p.chips == chips,
            !p.folded,
            !p.all_in,
            p.hand is None,
            p.contributed_this_round == 0,
            p.contributed_total == 0,
            p.last_action@.len() == 0,
            p.revealed_on_fold@.len() == 0,
    {
        let mut name = String::new();
        name.push_str("Player ");
        push_decimal(&mut name, id as u64 + 1);
        Player {
            id,
            name,
            chips,
            folded: false,
            all_in: false,
            hand: None,
            contributed_this_round: 0,
            contributed_total: 0,
            last_action: String::new(),
            revealed_on_fold: Vec::new(),
        }
    }

    /// Clears the per-hand state and gives the seat an empty hand.
    pub fn reset_for_hand(&mut self)
        ensures
            final(self).wf(),
            final(self).id == old(self).id,
            final(self).name == old(self).name,
            final(self).chips == old(self).chips,
            !final(self).folded,
            !final(self).all_in,
            final(self).hand is Some,
            final(self).hand->0.cards@.len() == 0,
            final(self).contributed_this_round == 0,
            final(self).contributed_total == 0,
            final(self).last_action@.len() == 0,
            final(self).revealed_on_fold@.len() == 0,
    {
        self.folded = false;
        self.all_in = false;
        self.hand = Some(Hand::new());
        self.contributed_this_round = 0;
        self.contributed_total = 0;
        self.last_action = String::new();
        self.revealed_on_fold = Vec::new();
    }

    /// Whether the seat can still bet or call: not folded, not all-in, chips left.
    pub fn can_act(&self) -> (r: bool)
        ensures
            r == self.may_act(),
    {
        !self.folded && !self.all_in && self.chips > 0
    }
}

} // verus!
