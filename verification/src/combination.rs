//! The hand classifier: a five-card `Variant` and the `Combination` it ranks
//! as.
//!
//! Classification follows the standard poker categories, tried from
//! strongest to weakest; the first matching category wins, so every
//! five-card hand gets exactly one combination. A straight's `rank` field is
//! the lowest card of its run, except that `Ace` is reserved as a sentinel
//! for the ace-low wheel (Two through Five plus Ace); the ten-high run
//! ending in Ace stores `Ten`.

use vstd::prelude::*;

use crate::card::Card;
use crate::card::Rank;
use crate::card::lemma_rank_value_bijective;
use crate::card::rank_of_value;
use crate::card::rank_value;

verus! {

/// A poker hand category with the ranks needed to break ties inside it.
#[derive(Clone, Copy, Debug, PartialEq, Eq, Hash, Structural)]
pub enum Combination {
    HighCard { rank: Rank },
    Pair { rank: Rank, kicker: Rank },
    TwoPairs { low: Rank, high: Rank, kicker: Rank },
    ThreeOfAKind { rank: Rank, kicker: Rank },
    Straight { rank: Rank },
    Flush { rank: Rank },
    FullHouse { two: Rank, three: Rank },
    FourOfAKind { rank: Rank, kicker: Rank },
    StraightFlush { rank: Rank },
}

/// Exactly five cards: the unit the classifier works on.
#[derive(Clone, Copy, Debug, PartialEq, Eq)]
pub struct Variant(pub [Card; 5]);

/// Constructing a fixed-size card container from a collection of the wrong
/// length fails with this error.
#[derive(Clone, Copy, Debug, PartialEq, Eq, Structural)]
pub struct InvalidSize;

impl View for Variant {
    type V = Seq<Card>;

    open spec fn view(&self) -> Seq<Card> {
        self.0@
    }
}

impl Variant {
    /// The five cards as a list, in their stored order.
    pub fn cards(&self) -> (r: Vec<Card>)
        ensures
            r@ == self@,
    {
        let r = vec![self.0[0], self.0[1], self.0[2], self.0[3], self.0[4]];
        proof {
            assert(r@ =~= self@);
        }
        r
    }

    /// Builds a `Variant` from a list of cards; fails unless there are
    /// exactly five.
    pub fn try_from(value: Vec<Card>) -> (r: Result<Variant, InvalidSize>)
        ensures
            r is Ok <==> value@.len() == 5,
            r matches Ok(v) ==> v@ == value@,
    {
        if value.len() == 5 {
            let cards = [value[0], value[1], value[2], value[3], value[4]];
            proof {
                assert(cards@ =~= value@);
            }
            Ok(Variant(cards))
        } else {
            Err(InvalidSize)
        }
    }
}

/// How many of the cards have rank `r`.
pub open spec fn count_rank(cards: Seq<Card>, r: Rank) -> int
    decreases cards.len(),
{
    if cards.len() == 0 {
        0
    } else {
        count_rank(cards.drop_last(), r) + if cards.last().0 == r {
            1int
        } else {
            0int
        }
    }
}

pub proof fn lemma_count_rank_bounds(cards: Seq<Card>, r: Rank)
    ensures
        0 <= count_rank(cards, r) <= cards.len(),
    decreases cards.len(),
{
    if cards.len() > 0 {
        lemma_count_rank_bounds(cards.drop_last(), r);
    }
}

/// Extending a prefix by one card raises exactly that card's rank count.
pub proof fn lemma_count_rank_take_step(cards: Seq<Card>, i: int, r: Rank)
    requires
        0 <= i < cards.len(),
    ensures
        count_rank(cards.take(i + 1), r) == count_rank(cards.take(i), r) + if cards[i].0 == r {
            1int
        } else {
            0int
        },
{
    assert(cards.take(i + 1).drop_last() =~= cards.take(i));
    assert(cards.take(i + 1).last() == cards[i]);
}

/// A card at any position makes its own rank's count positive.
pub proof fn lemma_count_rank_present(cards: Seq<Card>, i: int)
    ensures
        0 <= i < cards.len() ==> count_rank(cards, cards[i].0) >= 1,
    decreases cards.len(),
{
    lemma_count_rank_bounds(cards, if 0 <= i < cards.len() {
        cards[i].0
    } else {
        Rank::Two
    });
    if 0 <= i < cards.len() {
        if i == cards.len() - 1 {
            lemma_count_rank_bounds(cards.drop_last(), cards[i].0);
        } else {
            lemma_count_rank_present(cards.drop_last(), i);
        }
    }
}

/// All five cards share one suit.
pub open spec fn is_flush(cards: Seq<Card>) -> bool {
    forall|i: int| 0 <= i < cards.len() ==> (#[trigger] cards[i]).1 == cards[0].1
}

/// The ace-low straight: one each of Ace, Two, Three, Four, Five.
pub open spec fn is_wheel(cards: Seq<Card>) -> bool {
    &&& count_rank(cards, Rank::Ace) == 1
    &&& count_rank(cards, Rank::Two) == 1
    &&& count_rank(cards, Rank::Three) == 1
    &&& count_rank(cards, Rank::Four) == 1
    &&& count_rank(cards, Rank::Five) == 1
}

/// One card each of the five consecutive rank strengths starting at `lo`.
pub open spec fn is_run_from(cards: Seq<Card>, lo: int) -> bool {
    forall|v: int| lo <= v < lo + 5 ==> count_rank(cards, #[trigger] rank_of_value(v)) == 1
}

/// The ranks form a straight: one of the nine ordinary runs (lowest card
/// Two through Ten) or the wheel.
pub open spec fn is_straight(cards: Seq<Card>) -> bool {
    is_wheel(cards) || exists|lo: int| 2 <= lo <= 10 && is_run_from(cards, lo)
}

pub open spec fn run_low_from(cards: Seq<Card>, lo: int) -> int
    decreases 11 - lo when lo <= 11
{
    if lo < 2 || lo > 10 {
        0
    } else if is_run_from(cards, lo) {
        lo
    } else {
        run_low_from(cards, lo + 1)
    }
}

/// The lowest strength of a straight's run, or 0 when no ordinary run is
/// present.
pub open spec fn run_low(cards: Seq<Card>) -> int {
    run_low_from(cards, 2)
}

/// The rank stored for a straight: the lowest card of the run, with `Ace`
/// reserved to mean the wheel.
pub open spec fn straight_rank(cards: Seq<Card>) -> Rank {
    if is_wheel(cards) {
        Rank::Ace
    } else {
        rank_of_value(run_low(cards))
    }
}

proof fn lemma_run_low_from_range(cards: Seq<Card>, lo: int)
    requires
        2 <= lo <= 11,
    ensures
        run_low_from(cards, lo) == 0 || lo <= run_low_from(cards, lo) <= 10,
        run_low_from(cards, lo) != 0 <==> exists|l: int| lo <= l <= 10 && is_run_from(cards, l),
    decreases 11 - lo,
{
    if lo <= 10 && !is_run_from(cards, lo) {
        lemma_run_low_from_range(cards, lo + 1);
    }
}

/// Law: the `Ace` straight rank is a sentinel. Among straights it stands
/// exactly for the wheel; every other straight stores the lowest card of
/// its run, Two through Ten — the ace-high run stores Ten, never Ace.
pub proof fn lemma_straight_rank_sentinel(cards: Seq<Card>)
    requires
        is_straight(cards),
    ensures
        straight_rank(cards) == Rank::Ace <==> is_wheel(cards),
        !is_wheel(cards) ==> 2 <= rank_value(straight_rank(cards)) <= 10,
{
    lemma_rank_value_bijective();
    if !is_wheel(cards) {
        lemma_run_low_from_range(cards, 2);
    }
}

/// The first strength at which the run scan stops is the scan's value.
proof fn lemma_run_low_from_found(cards: Seq<Card>, lo: int, at: int)
    requires
        2 <= lo <= at <= 10,
        is_run_from(cards, at),
        forall|l: int| lo <= l < at ==> !is_run_from(cards, l),
    ensures
        run_low_from(cards, lo) == at,
    decreases at - lo,
{
    if lo < at {
        lemma_run_low_from_found(cards, lo + 1, at);
    }
}

/// The highest strength up to `v` whose rank appears exactly `n` times, or
/// 0 when there is none.
pub open spec fn top_value_with_count_from(cards: Seq<Card>, n: int, v: int) -> int
    decreases v when v >= 1
{
    if v < 2 {
        0
    } else if count_rank(cards, rank_of_value(v)) == n {
        v
    } else {
        top_value_with_count_from(cards, n, v - 1)
    }
}

/// The highest rank that appears exactly `n` times among the cards.
pub open spec fn top_rank_with_count(cards: Seq<Card>, n: int) -> Rank {
    rank_of_value(top_value_with_count_from(cards, n, 14))
}

/// The second-highest rank that appears exactly `n` times among the cards.
pub open spec fn second_rank_with_count(cards: Seq<Card>, n: int) -> Rank {
    rank_of_value(top_value_with_count_from(cards, n, top_value_with_count_from(cards, n, 14) - 1))
}

pub proof fn lemma_top_value_props(cards: Seq<Card>, n: int, v: int)
    requires
        1 <= v <= 14,
    ensures
        top_value_with_count_from(cards, n, v) != 0 <==> exists|w: int|
            2 <= w <= v && count_rank(cards, #[trigger] rank_of_value(w)) == n,
        top_value_with_count_from(cards, n, v) != 0 ==> {
            let t = top_value_with_count_from(cards, n, v);
            &&& 2 <= t <= v
            &&& count_rank(cards, rank_of_value(t)) == n
            &&& forall|w: int| t < w <= v ==> count_rank(cards, #[trigger] rank_of_value(w)) != n
        },
    decreases v,
{
    if v >= 2 && count_rank(cards, rank_of_value(v)) != n {
        lemma_top_value_props(cards, n, v - 1);
    }
}

/// The highest strength up to `v` whose rank appears at all, or 0 when none
/// does.
pub open spec fn top_value_present_from(cards: Seq<Card>, v: int) -> int
    decreases v when v >= 1
{
    if v < 2 {
        0
    } else if count_rank(cards, rank_of_value(v)) >= 1 {
        v
    } else {
        top_value_present_from(cards, v - 1)
    }
}

/// The highest rank among the cards.
pub open spec fn max_rank(cards: Seq<Card>) -> Rank {
    rank_of_value(top_value_present_from(cards, 14))
}

pub proof fn lemma_top_present_props(cards: Seq<Card>, v: int)
    requires
        1 <= v <= 14,
    ensures
        top_value_present_from(cards, v) != 0 <==> exists|w: int|
            2 <= w <= v && count_rank(cards, #[trigger] rank_of_value(w)) >= 1,
        top_value_present_from(cards, v) != 0 ==> {
            let t = top_value_present_from(cards, v);
            &&& 2 <= t <= v
            &&& count_rank(cards, rank_of_value(t)) >= 1
            &&& forall|w: int| t < w <= v ==> count_rank(cards, #[trigger] rank_of_value(w)) == 0
        },
    decreases v,
{
    if v >= 2 && count_rank(cards, rank_of_value(v)) < 1 {
        lemma_top_present_props(cards, v - 1);
        lemma_count_rank_bounds(cards, rank_of_value(v));
    }
}

/// How many distinct rank strengths up to `v` appear exactly `n` times.
pub open spec fn num_values_with_count_from(cards: Seq<Card>, n: int, v: int) -> int
    decreases v when v >= 1
{
    if v < 2 {
        0
    } else {
        num_values_with_count_from(cards, n, v - 1) + if count_rank(cards, rank_of_value(v)) == n {
            1int
        } else {
            0int
        }
    }
}

/// How many distinct ranks appear exactly `n` times among the cards.
pub open spec fn num_ranks_with_count(cards: Seq<Card>, n: int) -> int {
    num_values_with_count_from(cards, n, 14)
}

pub proof fn lemma_num_values_props(cards: Seq<Card>, n: int, v: int)
    requires
        1 <= v <= 14,
    ensures
        num_values_with_count_from(cards, n, v) >= 1 <==> exists|w: int|
            2 <= w <= v && count_rank(cards, #[trigger] rank_of_value(w)) == n,
        num_values_with_count_from(cards, n, v) >= 0,
    decreases v,
{
    if v >= 2 {
        lemma_num_values_props(cards, n, v - 1);
    }
}

/// When only the strength `t` can carry count `n`, at most one strength
/// does.
proof fn lemma_num_values_at_most_one(cards: Seq<Card>, n: int, v: int, t: int)
    requires
        1 <= v <= 14,
        forall|w: int| 2 <= w <= v && w != t ==> count_rank(cards, #[trigger] rank_of_value(w)) != n,
    ensures
        num_values_with_count_from(cards, n, v) <= 1,
    decreases v,
{
    if v >= 2 {
        lemma_num_values_at_most_one(cards, n, v - 1, t);
        if count_rank(cards, rank_of_value(v)) == n {
            assert(v == t);
            assert(forall|w: int|
                2 <= w <= v - 1 ==> count_rank(cards, #[trigger] rank_of_value(w)) != n);
            lemma_num_values_none(cards, n, v - 1);
        }
    }
}

proof fn lemma_num_values_none(cards: Seq<Card>, n: int, v: int)
    requires
        1 <= v <= 14,
        forall|w: int| 2 <= w <= v ==> count_rank(cards, #[trigger] rank_of_value(w)) != n,
    ensures
        num_values_with_count_from(cards, n, v) == 0,
    decreases v,
{
    if v >= 2 {
        lemma_num_values_none(cards, n, v - 1);
    }
}

/// The category of a five-card hand, by the standard chain from strongest
/// to weakest; the first matching category wins.
pub open spec fn spec_classify(cards: Seq<Card>) -> Combination {
    if is_flush(cards) && is_straight(cards) {
        Combination::StraightFlush { rank: straight_rank(cards) }
    } else if num_ranks_with_count(cards, 4) >= 1 && num_ranks_with_count(cards, 1) >= 1 {
        Combination::FourOfAKind {
            rank: top_rank_with_count(cards, 4),
            kicker: top_rank_with_count(cards, 1),
        }
    } else if num_ranks_with_count(cards, 3) >= 1 && num_ranks_with_count(cards, 2) >= 1 {
        Combination::FullHouse {
            three: top_rank_with_count(cards, 3),
            two: top_rank_with_count(cards, 2),
        }
    } else if is_flush(cards) {
        Combination::Flush { rank: max_rank(cards) }
    } else if is_straight(cards) {
        Combination::Straight { rank: straight_rank(cards) }
    } else if num_ranks_with_count(cards, 3) >= 1 && num_ranks_with_count(cards, 1) >= 1 {
        Combination::ThreeOfAKind {
            rank: top_rank_with_count(cards, 3),
            kicker: top_rank_with_count(cards, 1),
        }
    } else if num_ranks_with_count(cards, 2) == 2 && num_ranks_with_count(cards, 1) >= 1 {
        Combination::TwoPairs {
            low: second_rank_with_count(cards, 2),
            high: top_rank_with_count(cards, 2),
            kicker: top_rank_with_count(cards, 1),
        }
    } else if num_ranks_with_count(cards, 2) >= 1 && num_ranks_with_count(cards, 1) >= 1 {
        Combination::Pair {
            rank: top_rank_with_count(cards, 2),
            kicker: top_rank_with_count(cards, 1),
        }
    } else {
        Combination::HighCard { rank: max_rank(cards) }
    }
}

/// Counts per rank strength: entry `w - 2` is how many cards have the rank
/// of strength `w`.
fn rank_counts(v: &Variant) -> (counts: Vec<u8>)
    ensures
        counts@.len() == 13,
        forall|w: int|
            2 <= w <= 14 ==> counts@[w - 2] as int == count_rank(
                v@,
                #[trigger] rank_of_value(w),
            ),
{
    let mut counts: Vec<u8> = vec![0, 0, 0, 0, 0, 0, 0, 0, 0, 0, 0, 0, 0];
    let mut i: usize = 0;
    proof {
        assert(v@.take(0) =~= Seq::<Card>::empty());
    }
    while i < 5
        invariant
            counts@.len() == 13,
            i <= 5,
            v@.len() == 5,
            forall|w: int|
                2 <= w <= 14 ==> #[trigger] counts@[w - 2] as int == count_rank(
                    v@.take(i as int),
                    rank_of_value(w),
                ),
        decreases 5 - i,
    {
        let val = v.0[i].0.value();
        let idx = (val - 2) as usize;
        let c = counts[idx];
        proof {
            lemma_rank_value_bijective();
            lemma_count_rank_bounds(v@.take(i as int), rank_of_value(val as int));
        }
        counts.set(idx, c + 1);
        proof {
            assert forall|w: int|
                2 <= w <= 14 implies #[trigger] counts@[w - 2] as int == count_rank(
                v@.take(i + 1),
                rank_of_value(w),
            ) by {
                lemma_count_rank_take_step(v@, i as int, rank_of_value(w));
                lemma_rank_value_bijective();
            }
        }
        i += 1;
    }
    proof {
        assert(v@.take(5) =~= v@);
    }
    counts
}

/// The highest strength not above `hi` whose rank appears exactly `n`
/// times, if any.
fn top_with_count_below(v: &Variant, counts: &Vec<u8>, n: u8, hi: u8) -> (r: Option<u8>)
    requires
        counts@.len() == 13,
        forall|w: int|
            2 <= w <= 14 ==> counts@[w - 2] as int == count_rank(
                v@,
                #[trigger] rank_of_value(w),
            ),
        1 <= hi <= 14,
    ensures
        match r {
            Some(t) => 2 <= t <= hi && t as int == top_value_with_count_from(
                v@,
                n as int,
                hi as int,
            ),
            None => top_value_with_count_from(v@, n as int, hi as int) == 0,
        },
{
    let mut w: u8 = hi;
    while w >= 2
        invariant
            1 <= w <= hi <= 14,
            counts@.len() == 13,
            forall|x: int|
                2 <= x <= 14 ==> counts@[x - 2] as int == count_rank(
                    v@,
                    #[trigger] rank_of_value(x),
                ),
            forall|x: int|
                w < x <= hi ==> count_rank(v@, #[trigger] rank_of_value(x)) != n as int,
        decreases w,
    {
        if counts[(w - 2) as usize] == n {
            proof {
                assert(count_rank(v@, rank_of_value(w as int)) == n as int);
                lemma_top_value_props(v@, n as int, hi as int);
            }
            return Some(w);
        }
        proof {
            assert(count_rank(v@, rank_of_value(w as int)) != n as int);
        }
        w -= 1;
    }
    proof {
        lemma_top_value_props(v@, n as int, hi as int);
    }
    None
}

/// The strength of the highest rank among the five cards.
fn max_value(v: &Variant, counts: &Vec<u8>) -> (t: u8)
    requires
        counts@.len() == 13,
        forall|w: int|
            2 <= w <= 14 ==> counts@[w - 2] as int == count_rank(
                v@,
                #[trigger] rank_of_value(w),
            ),
    ensures
        t as int == top_value_present_from(v@, 14),
        2 <= t <= 14,
{
    let mut w: u8 = 14;
    while w >= 2
        invariant
            1 <= w <= 14,
            counts@.len() == 13,
            forall|x: int|
                2 <= x <= 14 ==> counts@[x - 2] as int == count_rank(
                    v@,
                    #[trigger] rank_of_value(x),
                ),
            forall|x: int| w < x <= 14 ==> count_rank(v@, #[trigger] rank_of_value(x)) == 0,
        decreases w,
    {
        if counts[(w - 2) as usize] >= 1 {
            proof {
                lemma_top_present_props(v@, 14);
            }
            return w;
        }
        proof {
            lemma_count_rank_bounds(v@, rank_of_value(w as int));
        }
        w -= 1;
    }
    proof {
        lemma_count_rank_present(v@, 0);
        lemma_rank_value_bijective();
        assert(count_rank(v@, rank_of_value(rank_value(v@[0].0))) >= 1);
        assert(false);
    }
    2
}

/// How many distinct ranks appear exactly `n` times among the five cards.
fn num_with_count(v: &Variant, counts: &Vec<u8>, n: u8) -> (c: u8)
    requires
        counts@.len() == 13,
        forall|w: int|
            2 <= w <= 14 ==> counts@[w - 2] as int == count_rank(
                v@,
                #[trigger] rank_of_value(w),
            ),
    ensures
        c as int == num_ranks_with_count(v@, n as int),
{
    let mut c: u8 = 0;
    let mut w: u8 = 2;
    while w <= 14
        invariant
            2 <= w <= 15,
            counts@.len() == 13,
            forall|x: int|
                2 <= x <= 14 ==> counts@[x - 2] as int == count_rank(
                    v@,
                    #[trigger] rank_of_value(x),
                ),
            c as int == num_values_with_count_from(v@, n as int, w - 1),
            c <= 13,
        decreases 15 - w,
    {
        proof {
            lemma_num_values_bound(v@, n as int, w as int);
        }
        if counts[(w - 2) as usize] == n {
            c += 1;
        }
        w += 1;
    }
    c
}

proof fn lemma_num_values_bound(cards: Seq<Card>, n: int, v: int)
    requires
        1 <= v,
    ensures
        0 <= num_values_with_count_from(cards, n, v) <= v - 1,
    decreases v,
{
    if v >= 2 {
        lemma_num_values_bound(cards, n, v - 1);
    }
}

/// The straight encoding of the five cards: 14 for the wheel, the run's
/// lowest strength for an ordinary run, nothing when the ranks form no
/// straight.
fn straight_value(v: &Variant, counts: &Vec<u8>) -> (r: Option<u8>)
    requires
        counts@.len() == 13,
        forall|w: int|
            2 <= w <= 14 ==> counts@[w - 2] as int == count_rank(
                v@,
                #[trigger] rank_of_value(w),
            ),
    ensures
        match r {
            Some(t) => is_straight(v@) && 2 <= t <= 14 && t as int == (if is_wheel(v@) {
                14int
            } else {
                run_low(v@)
            }),
            None => !is_straight(v@),
        },
{
    let ace = counts[12];
    let two = counts[0];
    let three = counts[1];
    let four = counts[2];
    let five = counts[3];
    proof {
        assert(ace as int == count_rank(v@, rank_of_value(14)));
        assert(two as int == count_rank(v@, rank_of_value(2)));
        assert(three as int == count_rank(v@, rank_of_value(3)));
        assert(four as int == count_rank(v@, rank_of_value(4)));
        assert(five as int == count_rank(v@, rank_of_value(5)));
    }
    if ace == 1 && two == 1 && three == 1 && four == 1 && five == 1 {
        return Some(14);
    }
    let mut lo: u8 = 2;
    while lo <= 10
        invariant
            2 <= lo <= 11,
            !is_wheel(v@),
            counts@.len() == 13,
            forall|x: int|
                2 <= x <= 14 ==> counts@[x - 2] as int == count_rank(
                    v@,
                    #[trigger] rank_of_value(x),
                ),
            forall|l: int| 2 <= l < lo ==> !is_run_from(v@, l),
        decreases 11 - lo,
    {
        let c0 = counts[(lo - 2) as usize];
        let c1 = counts[(lo - 1) as usize];
        let c2 = counts[lo as usize];
        let c3 = counts[(lo + 1) as usize];
        let c4 = counts[(lo + 2) as usize];
        if c0 == 1 && c1 == 1 && c2 == 1 && c3 == 1 && c4 == 1 {
            proof {
                assert forall|x: int|
                    lo <= x < lo + 5 implies count_rank(v@, #[trigger] rank_of_value(x))
                    == 1 by {
                    assert(counts@[x - 2] as int == count_rank(v@, rank_of_value(x)));
                }
                lemma_run_low_from_found(v@, 2, lo as int);
            }
            return Some(lo);
        }
        proof {
            assert(!is_run_from(v@, lo as int)) by {
                if is_run_from(v@, lo as int) {
                    assert(count_rank(v@, rank_of_value(lo as int)) == 1);
                    assert(count_rank(v@, rank_of_value(lo + 1)) == 1);
                    assert(count_rank(v@, rank_of_value(lo + 2)) == 1);
                    assert(count_rank(v@, rank_of_value(lo + 3)) == 1);
                    assert(count_rank(v@, rank_of_value(lo + 4)) == 1);
                }
            }
        }
        lo += 1;
    }
    None
}

impl Combination {
    /// Classifies a five-card hand, trying the categories from strongest to
    /// weakest and returning the first match.
    pub fn from_variant(variant: Variant) -> (r: Combination)
        ensures
            r == spec_classify(variant@),
    {
        if let Some(c) = Self::try_straight_flush(variant) {
            return c;
        }
        if let Some(c) = Self::try_four_of_a_kind(variant) {
            return c;
        }
        if let Some(c) = Self::try_full_house(variant) {
            return c;
        }
        if let Some(c) = Self::try_flush(variant) {
            return c;
        }
        if let Some(c) = Self::try_straight(variant) {
            return c;
        }
        if let Some(c) = Self::try_three_of_a_kind(variant) {
            return c;
        }
        if let Some(c) = Self::try_two_pairs(variant) {
            return c;
        }
        if let Some(c) = Self::try_pair(variant) {
            return c;
        }
        Self::try_high_card(variant).unwrap()
    }

    /// A straight flush: one suit throughout and the ranks form a straight.
    pub fn try_straight_flush(variant: Variant) -> (r: Option<Combination>)
        ensures
            r == if is_flush(variant@) && is_straight(variant@) {
                Some(Combination::StraightFlush { rank: straight_rank(variant@) })
            } else {
                None::<Combination>
            },
    {
        if let Some(_flush) = Self::try_flush(variant) {
            match Self::try_straight(variant) {
                Some(Combination::Straight { rank }) => Some(
                    Combination::StraightFlush { rank },
                ),
                _ => None,
            }
        } else {
            None
        }
    }

    /// Four of a kind: some rank four times, with the leftover card as
    /// kicker.
    pub fn try_four_of_a_kind(variant: Variant) -> (r: Option<Combination>)
        ensures
            r == if num_ranks_with_count(variant@, 4) >= 1 && num_ranks_with_count(variant@, 1)
                >= 1 {
                Some(
                    Combination::FourOfAKind {
                        rank: top_rank_with_count(variant@, 4),
                        kicker: top_rank_with_count(variant@, 1),
                    },
                )
            } else {
                None::<Combination>
            },
    {
        let counts = rank_counts(&variant);
        let t4 = top_with_count_below(&variant, &counts, 4, 14);
        let t1 = top_with_count_below(&variant, &counts, 1, 14);
        proof {
            lemma_top_value_props(variant@, 4, 14);
            lemma_top_value_props(variant@, 1, 14);
            lemma_num_values_props(variant@, 4, 14);
            lemma_num_values_props(variant@, 1, 14);
        }
        match (t4, t1) {
            (Some(a), Some(b)) => Some(
                Combination::FourOfAKind {
                    rank: Rank::from_value(a),
                    kicker: Rank::from_value(b),
                },
            ),
            _ => None,
        }
    }

    /// A full house: some rank three times and another twice.
    pub fn try_full_house(variant: Variant) -> (r: Option<Combination>)
        ensures
            r == if num_ranks_with_count(variant@, 3) >= 1 && num_ranks_with_count(variant@, 2)
                >= 1 {
                Some(
                    Combination::FullHouse {
                        three: top_rank_with_count(variant@, 3),
                        two: top_rank_with_count(variant@, 2),
                    },
                )
            } else {
                None::<Combination>
            },
    {
        let counts = rank_counts(&variant);
        let t3 = top_with_count_below(&variant, &counts, 3, 14);
        let t2 = top_with_count_below(&variant, &counts, 2, 14);
        proof {
            lemma_top_value_props(variant@, 3, 14);
            lemma_top_value_props(variant@, 2, 14);
            lemma_num_values_props(variant@, 3, 14);
            lemma_num_values_props(variant@, 2, 14);
        }
        match (t3, t2) {
            (Some(a), Some(b)) => Some(
                Combination::FullHouse {
                    three: Rank::from_value(a),
                    two: Rank::from_value(b),
                },
            ),
            _ => None,
        }
    }

    /// A flush: one suit throughout; ranked by the highest card.
    pub fn try_flush(variant: Variant) -> (r: Option<Combination>)
        ensures
            r == if is_flush(variant@) {
                Some(Combination::Flush { rank: max_rank(variant@) })
            } else {
                None::<Combination>
            },
    {
        let s = variant.0[0].1;
        if variant.0[1].1 == s && variant.0[2].1 == s && variant.0[3].1 == s && variant.0[4].1
            == s {
            let counts = rank_counts(&variant);
            let m = max_value(&variant, &counts);
            proof {
                assert forall|i: int| 0 <= i < variant@.len() implies (#[trigger] variant@[i]).1
                    == variant@[0].1 by {
                }
            }
            Some(Combination::Flush { rank: Rank::from_value(m) })
        } else {
            None
        }
    }

    /// A straight: the ranks form a run or the wheel; ranked by the run's
    /// lowest card, with `Ace` standing for the wheel.
    pub fn try_straight(variant: Variant) -> (r: Option<Combination>)
        ensures
            r == if is_straight(variant@) {
                Some(Combination::Straight { rank: straight_rank(variant@) })
            } else {
                None::<Combination>
            },
    {
        let counts = rank_counts(&variant);
        match straight_value(&variant, &counts) {
            Some(t) => Some(Combination::Straight { rank: Rank::from_value(t) }),
            None => None,
        }
    }

    /// Three of a kind: some rank three times, the rest unpaired; the
    /// kicker is the highest leftover.
    pub fn try_three_of_a_kind(variant: Variant) -> (r: Option<Combination>)
        ensures
            r == if num_ranks_with_count(variant@, 3) >= 1 && num_ranks_with_count(variant@, 1)
                >= 1 {
                Some(
                    Combination::ThreeOfAKind {
                        rank: top_rank_with_count(variant@, 3),
                        kicker: top_rank_with_count(variant@, 1),
                    },
                )
            } else {
                None::<Combination>
            },
    {
        let counts = rank_counts(&variant);
        let t3 = top_with_count_below(&variant, &counts, 3, 14);
        let t1 = top_with_count_below(&variant, &counts, 1, 14);
        proof {
            lemma_top_value_props(variant@, 3, 14);
            lemma_top_value_props(variant@, 1, 14);
            lemma_num_values_props(variant@, 3, 14);
            lemma_num_values_props(variant@, 1, 14);
        }
        match (t3, t1) {
            (Some(a), Some(b)) => Some(
                Combination::ThreeOfAKind {
                    rank: Rank::from_value(a),
                    kicker: Rank::from_value(b),
                },
            ),
            _ => None,
        }
    }

    /// Two pairs: exactly two ranks appear twice; they order as low and
    /// high, with the leftover card as kicker.
    pub fn try_two_pairs(variant: Variant) -> (r: Option<Combination>)
        ensures
            r == if num_ranks_with_count(variant@, 2) == 2 && num_ranks_with_count(variant@, 1)
                >= 1 {
                Some(
                    Combination::TwoPairs {
                        low: second_rank_with_count(variant@, 2),
                        high: top_rank_with_count(variant@, 2),
                        kicker: top_rank_with_count(variant@, 1),
                    },
                )
            } else {
                None::<Combination>
            },
    {
        let counts = rank_counts(&variant);
        let n2 = num_with_count(&variant, &counts, 2);
        if n2 != 2 {
            return None;
        }
        let t_hi = top_with_count_below(&variant, &counts, 2, 14);
        proof {
            lemma_top_value_props(variant@, 2, 14);
            lemma_num_values_props(variant@, 2, 14);
        }
        match t_hi {
            Some(hi) => {
                let t_lo = top_with_count_below(&variant, &counts, 2, hi - 1);
                let t1 = top_with_count_below(&variant, &counts, 1, 14);
                proof {
                    lemma_top_value_props(variant@, 2, hi - 1);
                    lemma_top_value_props(variant@, 1, 14);
                    lemma_num_values_props(variant@, 1, 14);
                }
                match (t_lo, t1) {
                    (Some(lo2), Some(k)) => Some(
                        Combination::TwoPairs {
                            low: Rank::from_value(lo2),
                            high: Rank::from_value(hi),
                            kicker: Rank::from_value(k),
                        },
                    ),
                    (None, _) => {
                        proof {
                            lemma_num_values_at_most_one(variant@, 2, 14, hi as int);
                            assert(false);
                        }
                        None
                    },
                    (_, None) => None,
                }
            },
            None => {
                proof {
                    assert(false);
                }
                None
            },
        }
    }

    /// A pair: some rank exactly twice, the rest unpaired; the kicker is
    /// the highest leftover.
    pub fn try_pair(variant: Variant) -> (r: Option<Combination>)
        ensures
            r == if num_ranks_with_count(variant@, 2) >= 1 && num_ranks_with_count(variant@, 1)
                >= 1 {
                Some(
                    Combination::Pair {
                        rank: top_rank_with_count(variant@, 2),
                        kicker: top_rank_with_count(variant@, 1),
                    },
                )
            } else {
                None::<Combination>
            },
    {
        let counts = rank_counts(&variant);
        let t2 = top_with_count_below(&variant, &counts, 2, 14);
        let t1 = top_with_count_below(&variant, &counts, 1, 14);
        proof {
            lemma_top_value_props(variant@, 2, 14);
            lemma_top_value_props(variant@, 1, 14);
            lemma_num_values_props(variant@, 2, 14);
            lemma_num_values_props(variant@, 1, 14);
        }
        match (t2, t1) {
            (Some(a), Some(b)) => Some(
                Combination::Pair {
                    rank: Rank::from_value(a),
                    kicker: Rank::from_value(b),
                },
            ),
            _ => None,
        }
    }

    /// The fallback category: the hand ranked by its highest card. Always
    /// matches.
    pub fn try_high_card(variant: Variant) -> (r: Option<Combination>)
        ensures
            r == Some(Combination::HighCard { rank: max_rank(variant@) }),
    {
        let counts = rank_counts(&variant);
        let m = max_value(&variant, &counts);
        Some(Combination::HighCard { rank: Rank::from_value(m) })
    }

    /// The rank counts of the five cards: each rank that appears, with how
    /// often it appears, in ascending rank order.
    pub fn group_ranks(cards: [Card; 5]) -> (r: Vec<(Rank, u64)>)
        ensures
            forall|j: int|
                0 <= j < r@.len() ==> (#[trigger] r@[j]).1 as int == count_rank(
                    cards@,
                    r@[j].0,
                ) && r@[j].1 >= 1,
            forall|j: int, k: int|
                0 <= j < k < r@.len() ==> rank_value(r@[j].0) < rank_value(r@[k].0),
            forall|rk: Rank|
                count_rank(cards@, rk) >= 1 ==> exists|j: int|
                    0 <= j < r@.len() && (#[trigger] r@[j]).0 == rk,
    {
        let variant = Variant(cards);
        let counts = rank_counts(&variant);
        let mut r: Vec<(Rank, u64)> = Vec::new();
        let mut w: u8 = 2;
        while w <= 14
            invariant
                2 <= w <= 15,
                counts@.len() == 13,
                forall|x: int|
                    2 <= x <= 14 ==> counts@[x - 2] as int == count_rank(
                        cards@,
                        #[trigger] rank_of_value(x),
                    ),
                forall|j: int|
                    0 <= j < r@.len() ==> (#[trigger] r@[j]).1 as int == count_rank(
                        cards@,
                        r@[j].0,
                    ) && r@[j].1 >= 1 && 2 <= rank_value(r@[j].0) < w,
                forall|j: int, k: int|
                    0 <= j < k < r@.len() ==> rank_value(r@[j].0) < rank_value(r@[k].0),
                forall|x: int|
                    2 <= x < w && count_rank(cards@, #[trigger] rank_of_value(x)) >= 1
                        ==> exists|j: int| 0 <= j < r@.len() && (#[trigger] r@[j]).0
                        == rank_of_value(x),
            decreases 15 - w,
        {
            let c = counts[(w - 2) as usize];
            proof {
                assert(c as int == count_rank(cards@, rank_of_value(w as int)));
            }
            let ghost prev = r@;
            if c >= 1 {
                let rk = Rank::from_value(w);
                proof {
                    lemma_rank_value_bijective();
                }
                r.push((rk, c as u64));
            }
            proof {
                assert forall|x: int|
                    2 <= x < w + 1 && count_rank(cards@, #[trigger] rank_of_value(x))
                        >= 1 implies exists|j: int| 0 <= j < r@.len() && (#[trigger] r@[j]).0
                    == rank_of_value(x) by {
                    if x < w {
                        let j = choose|j: int|
                            0 <= j < prev.len() && (#[trigger] prev[j]).0 == rank_of_value(x);
                        assert(r@[j].0 == rank_of_value(x));
                    } else {
                        assert(r@[r@.len() - 1].0 == rank_of_value(x));
                    }
                }
            }
            w += 1;
        }
        proof {
            lemma_rank_value_bijective();
            assert forall|rk: Rank| count_rank(cards@, rk) >= 1 implies exists|j: int|
                0 <= j < r@.len() && (#[trigger] r@[j]).0 == rk by {
                let x = rank_value(rk);
                assert(rank_of_value(x) == rk);
                assert(count_rank(cards@, rank_of_value(x)) >= 1);
            }
        }
        r
    }
}

} // verus!
