use vstd::prelude::*;

verus! {

/// Card suit.
#[derive(Copy, Clone, Debug, PartialEq, Eq, Hash, Structural, PartialOrd, Ord)]
pub enum Suit {
    Clubs,
    Diamonds,
    Hearts,
    Spades,
}

/// Card rank, from deuce up to ace.
#[derive(Copy, Clone, Debug, PartialEq, Eq, Hash, Structural, PartialOrd, Ord)]
pub enum Rank {
    Two,
    Three,
    Four,
    Five,
    Six,
    Seven,
    Eight,
    Nine,
    Ten,
    Jack,
    Queen,
    King,
    Ace,
}

/// A playing card; equal exactly when rank and suit are equal.
#[derive(Copy, Clone, Debug, PartialEq, Eq, Hash, Structural)]
pub struct Card {
    pub rank: Rank,
    pub suit: Suit,
}

/// Numeric value of a rank: 2 through 14, the ace counting high.
pub open spec fn rank_value(r: Rank) -> u8 {
    match r {
        Rank::Two => 2,
        Rank::Three => 3,
        Rank::Four => 4,
        Rank::Five => 5,
        Rank::Six => 6,
        Rank::Seven => 7,
        Rank::Eight => 8,
        Rank::Nine => 9,
        Rank::Ten => 10,
        Rank::Jack => 11,
        Rank::Queen => 12,
        Rank::King => 13,
        Rank::Ace => 14,
    }
}

/// The rank at position `i` (0..13) of the ascending rank order.
pub open spec fn rank_at(i: int) -> Rank {
    if i <= 0 {
        Rank::Two
    } else if i == 1 {
        Rank::Three
    } else if i == 2 {
        Rank::Four
    } else if i == 3 {
        Rank::Five
    } else if i == 4 {
        Rank::Six
    } else if i == 5 {
        Rank::Seven
    } else if i == 6 {
        Rank::Eight
    } else if i == 7 {
        Rank::Nine
    } else if i == 8 {
        Rank::Ten
    } else if i == 9 {
        Rank::Jack
    } else if i == 10 {
        Rank::Queen
    } else if i == 11 {
        Rank::King
    } else {
        Rank::Ace
    }
}

/// The suit at position `i` (0..4) of the order clubs, diamonds, hearts, spades.
pub open spec fn suit_at(i: int) -> Suit {
    if i <= 0 {
        Suit::Clubs
    } else if i == 1 {
        Suit::Diamonds
    } else if i == 2 {
        Suit::Hearts
    } else {
        Suit::Spades
    }
}

/// The one-character rank symbol: digits, then T J Q K A.
pub open spec fn rank_symbol(r: Rank) -> char {
    match r {
        Rank::Two => '2',
        Rank::Three => '3',
        Rank::Four => '4',
        Rank::Five => '5',
        Rank::Six => '6',
        Rank::Seven => '7',
        Rank::Eight => '8',
        Rank::Nine => '9',
        Rank::Ten => 'T',
        Rank::Jack => 'J',
        Rank::Queen => 'Q',
        Rank::King => 'K',
        Rank::Ace => 'A',
    }
}

/// The suit symbol.
pub open spec fn suit_symbol(s: Suit) -> char {
    match s {
        Suit::Clubs => '♣',
        Suit::Diamonds => '♦',
        Suit::Hearts => '♥',
        Suit::Spades => '♠',
    }
}

/// The text of a card: its rank symbol followed by its suit symbol.
pub open spec fn card_text(c: Card) -> Seq<char> {
    seq![rank_symbol(c.rank), suit_symbol(c.suit)]
}

/// Relies on `String::push`: the character is appended at the end.
pub assume_specification[ String::push ](s: &mut String, ch: char)
    ensures
        final(s)@ == old(s)@.push(ch),
;

/// Relies on `String::push_str`: the slice is appended at the end.
pub assume_specification[ String::push_str ](s: &mut String, t: &str)
    ensures
        final(s)@ == old(s)@ + t@,
;

/// Numeric value of a rank (2..=14, ace high).
pub fn rank_val(r: Rank) -> (v: u8)
    ensures
        v == rank_value(r),
        2 <= v <= 14,
{
    match r {
        Rank::Two => 2,
        Rank::Three => 3,
        Rank::Four => 4,
        Rank::Five => 5,
        Rank::Six => 6,
        Rank::Seven => 7,
        Rank::Eight => 8,
        Rank::Nine => 9,
        Rank::Ten => 10,
        Rank::Jack => 11,
        Rank::Queen => 12,
        Rank::King => 13,
        Rank::Ace => 14,
    }
}

impl Rank {
    /// The rank at position `i` of the ascending order.
    pub fn from_index(i: usize) -> (r: Rank)
        requires
            i < 13,
        ensures
            r == rank_at(i as int),
    {
        if i == 0 {
            Rank::Two
        } else if i == 1 {
            Rank::Three
        } else if i == 2 {
            Rank::Four
        } else if i == 3 {
            Rank::Five
        } else if i == 4 {
            Rank::Six
        } else if i == 5 {
            Rank::Seven
        } else if i == 6 {
            Rank::Eight
        } else if i == 7 {
            Rank::Nine
        } else if i == 8 {
            Rank::Ten
        } else if i == 9 {
            Rank::Jack
        } else if i == 10 {
            Rank::Queen
        } else if i == 11 {
            Rank::King
        } else {
            Rank::Ace
        }
    }

    /// The rank's one-character symbol.
    pub fn symbol(self) -> (c: char)
        ensures
            c == rank_symbol(self),
    {
        match self {
            Rank::Two => '2',
            Rank::Three => '3',
            Rank::Four => '4',
            Rank::Five => '5',
            Rank::Six => '6',
            Rank::Seven => '7',
            Rank::Eight => '8',
            Rank::Nine => '9',
            Rank::Ten => 'T',
            Rank::Jack => 'J',
            Rank::Queen => 'Q',
            Rank::King => 'K',
            Rank::Ace => 'A',
        }
    }
}

impl Suit {
    /// The suit at position `i` of the order clubs, diamonds, hearts, spades.
    pub fn from_index(i: usize) -> (s: Suit)
        requires
            i < 4,
        ensures
            s == suit_at(i as int),
    {
        if i == 0 {
            Suit::Clubs
        } else if i == 1 {
            Suit::Diamonds
        } else if i == 2 {
            Suit::Hearts
        } else {
            Suit::Spades
        }
    }

    /// The suit's symbol.
    pub fn symbol(self) -> (c: char)
        ensures
            c == suit_symbol(self),
    {
        match self {
            Suit::Clubs => '♣',
            Suit::Diamonds => '♦',
            Suit::Hearts => '♥',
            Suit::Spades => '♠',
        }
    }
}

impl Card {
    /// Appends this card's text to `out`.
    pub fn write_to(&self, out: &mut String)
        ensures
            final(out)@ == old(out)@ + card_text(*self),
    {
        out.push(self.rank.symbol());
        out.push(self.suit.symbol());
        assert(out@ =~= old(out)@ + card_text(*self));
    }

    /// This card's text, such as `A♠` or `T♦`.
    pub fn to_text(&self) -> (r: String)
        ensures
            r@ == card_text(*self),
    {
        let mut s = String::new();
        self.write_to(&mut s);
        assert(s@ =~= card_text(*self));
        s
    }
}

} // verus!
