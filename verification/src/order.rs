//! The total order over combinations used at showdown.
//!
//! Kind precedence comes first: high card below pair below two pairs, and
//! so on up to straight flush. Inside one kind the tie-break ranks compare
//! in the kind's priority order. Straights are special: the `Ace` rank is
//! the wheel sentinel and compares below every other straight, equal only
//! to another wheel.

use vstd::prelude::*;

use core::cmp::Ordering;

use crate::card::Rank;
use crate::card::lemma_rank_value_bijective;
use crate::card::rank_value;
use crate::combination::Combination;

verus! {

/// Where a combination's kind stands in the precedence chain, 0 (high
/// card) through 8 (straight flush).
pub open spec fn kind_strength(c: Combination) -> int {
    match c {
        Combination::HighCard { .. } => 0,
        Combination::Pair { .. } => 1,
        Combination::TwoPairs { .. } => 2,
        Combination::ThreeOfAKind { .. } => 3,
        Combination::Straight { .. } => 4,
        Combination::Flush { .. } => 5,
        Combination::FullHouse { .. } => 6,
        Combination::FourOfAKind { .. } => 7,
        Combination::StraightFlush { .. } => 8,
    }
}

/// A straight's tie-break strength. The wheel, stored as `Ace`, is the
/// weakest straight: it gets strength 1, below the Two of the next-lowest
/// run.
pub open spec fn straight_strength(r: Rank) -> int {
    if r == Rank::Ace {
        1
    } else {
        rank_value(r)
    }
}

/// The tie-break values compared inside one kind, in priority order;
/// unused positions are 0.
pub open spec fn tiebreaks(c: Combination) -> (int, int, int) {
    match c {
        Combination::HighCard { rank } => (rank_value(rank), 0, 0),
        Combination::Pair { rank, kicker } => (rank_value(rank), rank_value(kicker), 0),
        Combination::TwoPairs { low, high, kicker } => (
            rank_value(high),
            rank_value(low),
            rank_value(kicker),
        ),
        Combination::ThreeOfAKind { rank, kicker } => (rank_value(rank), rank_value(kicker), 0),
        Combination::Straight { rank } => (straight_strength(rank), 0, 0),
        Combination::Flush { rank } => (rank_value(rank), 0, 0),
        Combination::FullHouse { two, three } => (rank_value(three), rank_value(two), 0),
        Combination::FourOfAKind { rank, kicker } => (rank_value(rank), rank_value(kicker), 0),
        Combination::StraightFlush { rank } => (straight_strength(rank), 0, 0),
    }
}

pub open spec fn cmp_int(x: int, y: int) -> Ordering {
    if x < y {
        Ordering::Less
    } else if x == y {
        Ordering::Equal
    } else {
        Ordering::Greater
    }
}

/// How two combinations compare: by kind precedence first, then by the
/// kind's tie-break values in order.
pub open spec fn combination_cmp(a: Combination, b: Combination) -> Ordering {
    if kind_strength(a) != kind_strength(b) {
        cmp_int(kind_strength(a), kind_strength(b))
    } else if tiebreaks(a).0 != tiebreaks(b).0 {
        cmp_int(tiebreaks(a).0, tiebreaks(b).0)
    } else if tiebreaks(a).1 != tiebreaks(b).1 {
        cmp_int(tiebreaks(a).1, tiebreaks(b).1)
    } else {
        cmp_int(tiebreaks(a).2, tiebreaks(b).2)
    }
}

/// `a` is no stronger than `b`.
pub open spec fn combination_le(a: Combination, b: Combination) -> bool {
    combination_cmp(a, b) != Ordering::Greater
}

impl Combination {
    fn kind_value(&self) -> (k: u8)
        ensures
            k as int == kind_strength(*self),
    {
        match self {
            Combination::HighCard { .. } => 0,
            Combination::Pair { .. } => 1,
            Combination::TwoPairs { .. } => 2,
            Combination::ThreeOfAKind { .. } => 3,
            Combination::Straight { .. } => 4,
            Combination::Flush { .. } => 5,
            Combination::FullHouse { .. } => 6,
            Combination::FourOfAKind { .. } => 7,
            Combination::StraightFlush { .. } => 8,
        }
    }

    fn tiebreak_values(&self) -> (t: (u8, u8, u8))
        ensures
            tiebreaks(*self) == (t.0 as int, t.1 as int, t.2 as int),
    {
        match self {
            Combination::HighCard { rank } => (rank.value(), 0, 0),
            Combination::Pair { rank, kicker } => (rank.value(), kicker.value(), 0),
            Combination::TwoPairs { low, high, kicker } => (
                high.value(),
                low.value(),
                kicker.value(),
            ),
            Combination::ThreeOfAKind { rank, kicker } => (rank.value(), kicker.value(), 0),
            Combination::Straight { rank } => (
                if *rank == Rank::Ace {
                    1
                } else {
                    rank.value()
                },
                0,
                0,
            ),
            Combination::Flush { rank } => (rank.value(), 0, 0),
            Combination::FullHouse { two, three } => (three.value(), two.value(), 0),
            Combination::FourOfAKind { rank, kicker } => (rank.value(), kicker.value(), 0),
            Combination::StraightFlush { rank } => (
                if *rank == Rank::Ace {
                    1
                } else {
                    rank.value()
                },
                0,
                0,
            ),
        }
    }
}

impl PartialOrd for Combination {
    fn partial_cmp(&self, other: &Combination) -> (r: Option<Ordering>) {
        let ka = self.kind_value();
        let kb = other.kind_value();
        if ka != kb {
            return Some(if ka < kb {
                Ordering::Less
            } else {
                Ordering::Greater
            });
        }
        let ta = self.tiebreak_values();
        let tb = other.tiebreak_values();
        if ta.0 != tb.0 {
            Some(if ta.0 < tb.0 {
                Ordering::Less
            } else {
                Ordering::Greater
            })
        } else if ta.1 != tb.1 {
            Some(if ta.1 < tb.1 {
                Ordering::Less
            } else {
                Ordering::Greater
            })
        } else if ta.2 != tb.2 {
            Some(if ta.2 < tb.2 {
                Ordering::Less
            } else {
                Ordering::Greater
            })
        } else {
            Some(Ordering::Equal)
        }
    }
}

impl vstd::std_specs::cmp::PartialOrdSpecImpl for Combination {
    open spec fn obeys_partial_cmp_spec() -> bool {
        true
    }

    open spec fn partial_cmp_spec(&self, other: &Combination) -> Option<Ordering> {
        Some(combination_cmp(*self, *other))
    }
}

/// Law: the comparison is a strict total order. For any two combinations
/// exactly one of less, equal, greater holds; equality is exact equality of
/// kind and tie-break fields; and swapping the sides reverses the answer.
pub proof fn lemma_combination_order_total(a: Combination, b: Combination)
    ensures
        (combination_cmp(a, b) == Ordering::Equal) <==> a == b,
        (combination_cmp(a, b) == Ordering::Less) <==> (combination_cmp(b, a)
            == Ordering::Greater),
{
    lemma_rank_value_bijective();
    assert(combination_cmp(a, b) == Ordering::Equal ==> a == b) by {
        lemma_rank_value_bijective();
        if combination_cmp(a, b) == Ordering::Equal {
            assert(kind_strength(a) == kind_strength(b));
            assert(tiebreaks(a) == tiebreaks(b));
        }
    }
}

/// Law: the comparison is transitive.
pub proof fn lemma_combination_order_transitive(a: Combination, b: Combination, c: Combination)
    ensures
        combination_cmp(a, b) == Ordering::Less && combination_cmp(b, c) == Ordering::Less
            ==> combination_cmp(a, c) == Ordering::Less,
        combination_le(a, b) && combination_le(b, c) ==> combination_le(a, c),
{
}

/// Law: kind precedence is absolute — a combination of a stronger kind
/// beats every combination of a weaker kind, whatever the ranks inside.
pub proof fn lemma_kind_precedence(a: Combination, b: Combination)
    ensures
        kind_strength(a) < kind_strength(b) ==> combination_cmp(a, b) == Ordering::Less,
{
}

/// Law: the wheel is the weakest straight. A straight or straight flush
/// whose rank is the `Ace` sentinel is strictly below one of any other
/// rank, and two wheels compare equal.
pub proof fn lemma_wheel_weakest(r: Rank)
    ensures
        r != Rank::Ace ==> combination_cmp(
            Combination::Straight { rank: Rank::Ace },
            Combination::Straight { rank: r },
        ) == Ordering::Less,
        r != Rank::Ace ==> combination_cmp(
            Combination::StraightFlush { rank: Rank::Ace },
            Combination::StraightFlush { rank: r },
        ) == Ordering::Less,
        combination_cmp(
            Combination::Straight { rank: Rank::Ace },
            Combination::Straight { rank: Rank::Ace },
        ) == Ordering::Equal,
{
    lemma_rank_value_bijective();
}

} // verus!
