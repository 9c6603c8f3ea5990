//! The card value model: ranks, suits, and cards.
//!
//! A card is a rank paired with a suit. Cards are ordered by rank alone:
//! suit never breaks a tie in this ruleset.

use vstd::prelude::*;

use core::cmp::Ordering;

verus! {

/// One of the 13 card ranks, in play order from Two (weakest) to Ace
/// (strongest).
#[derive(Clone, Copy, Debug, PartialEq, Eq, Hash, PartialOrd, Ord, Structural)]
pub enum Rank {
    Two,
    Three,
    Four,
    Five,
    Six,
    Seven,
    Eight,
    Nine,
    Ten,
    Jack,
    Queen,
    King,
    Ace,
}

/// One of the 4 suits. No ranking rule reads the suit order; the listing
/// order exists only for enumerating all suits.
#[derive(Clone, Copy, Debug, PartialEq, Eq, Hash, Structural)]
pub enum Suit {
    Diamonds,
    Clubs,
    Hearts,
    Spades,
}

/// The numeric strength of a rank: Two is 2, counting up to Ace as 14.
pub open spec fn rank_value(r: Rank) -> int {
    match r {
        Rank::Two => 2,
        Rank::Three => 3,
        Rank::Four => 4,
        Rank::Five => 5,
        Rank::Six => 6,
        Rank::Seven => 7,
        Rank::Eight => 8,
        Rank::Nine => 9,
        Rank::Ten => 10,
        Rank::Jack => 11,
        Rank::Queen => 12,
        Rank::King => 13,
        Rank::Ace => 14,
    }
}

/// The rank whose strength is `v`; values outside 2 through 13 give Ace.
pub open spec fn rank_of_value(v: int) -> Rank {
    if v == 2 {
        Rank::Two
    } else if v == 3 {
        Rank::Three
    } else if v == 4 {
        Rank::Four
    } else if v == 5 {
        Rank::Five
    } else if v == 6 {
        Rank::Six
    } else if v == 7 {
        Rank::Seven
    } else if v == 8 {
        Rank::Eight
    } else if v == 9 {
        Rank::Nine
    } else if v == 10 {
        Rank::Ten
    } else if v == 11 {
        Rank::Jack
    } else if v == 12 {
        Rank::Queen
    } else if v == 13 {
        Rank::King
    } else {
        Rank::Ace
    }
}

pub proof fn lemma_rank_value_bijective()
    ensures
        forall|r: Rank| rank_of_value(#[trigger] rank_value(r)) == r,
        forall|v: int| 2 <= v <= 14 ==> rank_value(#[trigger] rank_of_value(v)) == v,
        forall|r: Rank| 2 <= #[trigger] rank_value(r) <= 14,
{
}

impl Rank {
    /// The strength of this rank as a machine integer, 2 through 14.
    pub fn value(self) -> (v: u8)
        ensures
            v as int == rank_value(self),
    {
        match self {
            Rank::Two => 2,
            Rank::Three => 3,
            Rank::Four => 4,
            Rank::Five => 5,
            Rank::Six => 6,
            Rank::Seven => 7,
            Rank::Eight => 8,
            Rank::Nine => 9,
            Rank::Ten => 10,
            Rank::Jack => 11,
            Rank::Queen => 12,
            Rank::King => 13,
            Rank::Ace => 14,
        }
    }

    /// The rank of the given strength, 2 through 14.
    pub fn from_value(v: u8) -> (r: Rank)
        requires
            2 <= v <= 14,
        ensures
            r == rank_of_value(v as int),
    {
        match v {
            2 => Rank::Two,
            3 => Rank::Three,
            4 => Rank::Four,
            5 => Rank::Five,
            6 => Rank::Six,
            7 => Rank::Seven,
            8 => Rank::Eight,
            9 => Rank::Nine,
            10 => Rank::Ten,
            11 => Rank::Jack,
            12 => Rank::Queen,
            13 => Rank::King,
            _ => Rank::Ace,
        }
    }
}

impl Suit {
    /// All four suits, in their fixed enumeration order.
    pub fn list() -> (r: Vec<Suit>)
        ensures
            r@ == seq![Suit::Diamonds, Suit::Clubs, Suit::Hearts, Suit::Spades],
    {
        let r = vec![Suit::Diamonds, Suit::Clubs, Suit::Hearts, Suit::Spades];
        proof {
            assert(r@ =~= seq![Suit::Diamonds, Suit::Clubs, Suit::Hearts, Suit::Spades]);
        }
        r
    }
}

/// A playing card: a rank and a suit.
#[derive(Clone, Copy, Debug, PartialEq, Eq, Hash, Structural)]
pub struct Card(pub Rank, pub Suit);

impl Card {
    pub fn new(rank: Rank, suit: Suit) -> (c: Card)
        ensures
            c == Card(rank, suit),
    {
        Card(rank, suit)
    }

    pub fn rank(&self) -> (r: Rank)
        ensures
            r == self.0,
    {
        self.0
    }

    pub fn suit(&self) -> (s: Suit)
        ensures
            s == self.1,
    {
        self.1
    }
}

/// How two cards compare: by rank alone, so cards of equal rank and
/// different suit compare equal.
pub open spec fn card_cmp(a: Card, b: Card) -> Ordering {
    if rank_value(a.0) < rank_value(b.0) {
        Ordering::Less
    } else if rank_value(a.0) == rank_value(b.0) {
        Ordering::Equal
    } else {
        Ordering::Greater
    }
}

impl PartialOrd for Card {
    fn partial_cmp(&self, other: &Card) -> (r: Option<Ordering>) {
        let a = self.0.value();
        let b = other.0.value();
        if a < b {
            Some(Ordering::Less)
        } else if a == b {
            Some(Ordering::Equal)
        } else {
            Some(Ordering::Greater)
        }
    }
}

impl vstd::std_specs::cmp::PartialOrdSpecImpl for Card {
    open spec fn obeys_partial_cmp_spec() -> bool {
        true
    }

    open spec fn partial_cmp_spec(&self, other: &Card) -> Option<Ordering> {
        Some(card_cmp(*self, *other))
    }
}

/// Law: card ordering is suit-blind — two cards of the same rank compare
/// equal whatever their suits.
pub proof fn lemma_card_order_suit_blind(r: Rank, s1: Suit, s2: Suit)
    ensures
        card_cmp(Card(r, s1), Card(r, s2)) == Ordering::Equal,
{
}

} // verus!
