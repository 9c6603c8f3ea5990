//! Game variants and the showdown pipeline: the community board, the
//! per-variant hands, the best-hand search over the legal five-card
//! choices, and the ranking, grouping and sorting of many players' hands.

use vstd::prelude::*;

use vstd::multiset::Multiset;

use itertools::Itertools;

use crate::card::Card;
use crate::combination::Combination;
use crate::combination::InvalidSize;
use crate::combination::Variant;
use crate::combination::spec_classify;
use crate::order::combination_cmp;
use crate::order::combination_le;
use crate::order::lemma_combination_order_total;
use crate::order::lemma_combination_order_transitive;

verus! {

/// The five community cards of Texas Hold'em and Omaha.
#[derive(Clone, Copy, Debug, PartialEq, Eq)]
pub struct Board(pub [Card; 5]);

/// A player's private cards, sized per game variant.
pub trait Hand: Sized {
    /// The hand's cards as a mathematical sequence.
    spec fn spec_cards(&self) -> Seq<Card>;

    /// The hand's cards as a list, in their stored order.
    fn cards(&self) -> (r: Vec<Card>)
        ensures
            r@ == self.spec_cards(),
    ;
}

/// The two hole cards of a Texas Hold'em player.
#[derive(Clone, Copy, Debug, PartialEq, Eq)]
pub struct HandOf2(pub [Card; 2]);

/// The four hole cards of an Omaha player.
#[derive(Clone, Copy, Debug, PartialEq, Eq)]
pub struct HandOf4(pub [Card; 4]);

/// The five cards of a Five-Card Draw player: the hand is final as dealt.
#[derive(Clone, Copy, Debug, PartialEq, Eq)]
pub struct HandOf5(pub [Card; 5]);

/// One showdown to rank: the game variant with every player's cards, plus
/// the board where the variant has one.
#[derive(Clone, Debug, PartialEq, Eq)]
pub enum Game {
    TexasHoldem(Board, Vec<HandOf2>),
    OmahaHoldem(Board, Vec<HandOf4>),
    FiveCardDraw(Vec<HandOf5>),
}

impl View for Board {
    type V = Seq<Card>;

    open spec fn view(&self) -> Seq<Card> {
        self.0@
    }
}

impl Board {
    pub fn new(cards: [Card; 5]) -> (b: Board)
        ensures
            b@ == cards@,
    {
        Board(cards)
    }

    /// The board's cards as a list, in their stored order.
    pub fn cards(&self) -> (r: Vec<Card>)
        ensures
            r@ == self@,
    {
        let r = vec![self.0[0], self.0[1], self.0[2], self.0[3], self.0[4]];
        proof {
            assert(r@ =~= self@);
        }
        r
    }

    /// Builds a board from a list of cards; fails unless there are exactly
    /// five.
    pub fn try_from(value: Vec<Card>) -> (r: Result<Board, InvalidSize>)
        ensures
            r is Ok <==> value@.len() == 5,
            r matches Ok(b) ==> b@ == value@,
    {
        if value.len() == 5 {
            let cards = [value[0], value[1], value[2], value[3], value[4]];
            proof {
                assert(cards@ =~= value@);
            }
            Ok(Board(cards))
        } else {
            Err(InvalidSize)
        }
    }
}

impl HandOf2 {
    pub fn new(cards: [Card; 2]) -> (h: HandOf2)
        ensures
            h.spec_cards() == cards@,
    {
        HandOf2(cards)
    }

    /// Builds a hand from a list of cards; fails unless there are exactly
    /// two.
    pub fn try_from(value: Vec<Card>) -> (r: Result<HandOf2, InvalidSize>)
        ensures
            r is Ok <==> value@.len() == 2,
            r matches Ok(h) ==> h.spec_cards() == value@,
    {
        if value.len() == 2 {
            let cards = [value[0], value[1]];
            proof {
                assert(cards@ =~= value@);
            }
            Ok(HandOf2(cards))
        } else {
            Err(InvalidSize)
        }
    }
}

impl Hand for HandOf2 {
    open spec fn spec_cards(&self) -> Seq<Card> {
        self.0@
    }

    fn cards(&self) -> (r: Vec<Card>) {
        let r = vec![self.0[0], self.0[1]];
        proof {
            assert(r@ =~= self.0@);
        }
        r
    }
}

impl HandOf4 {
    pub fn new(cards: [Card; 4]) -> (h: HandOf4)
        ensures
            h.spec_cards() == cards@,
    {
        HandOf4(cards)
    }

    /// Builds a hand from a list of cards; fails unless there are exactly
    /// four.
    pub fn try_from(value: Vec<Card>) -> (r: Result<HandOf4, InvalidSize>)
        ensures
            r is Ok <==> value@.len() == 4,
            r matches Ok(h) ==> h.spec_cards() == value@,
    {
        if value.len() == 4 {
            let cards = [value[0], value[1], value[2], value[3]];
            proof {
                assert(cards@ =~= value@);
            }
            Ok(HandOf4(cards))
        } else {
            Err(InvalidSize)
        }
    }
}

impl Hand for HandOf4 {
    open spec fn spec_cards(&self) -> Seq<Card> {
        self.0@
    }

    fn cards(&self) -> (r: Vec<Card>) {
        let r = vec![self.0[0], self.0[1], self.0[2], self.0[3]];
        proof {
            assert(r@ =~= self.0@);
        }
        r
    }
}

impl HandOf5 {
    pub fn new(cards: [Card; 5]) -> (h: HandOf5)
        ensures
            h.spec_cards() == cards@,
    {
        HandOf5(cards)
    }

    /// Builds a hand from a list of cards; fails unless there are exactly
    /// five.
    pub fn try_from(value: Vec<Card>) -> (r: Result<HandOf5, InvalidSize>)
        ensures
            r is Ok <==> value@.len() == 5,
            r matches Ok(h) ==> h.spec_cards() == value@,
    {
        if value.len() == 5 {
            let cards = [value[0], value[1], value[2], value[3], value[4]];
            proof {
                assert(cards@ =~= value@);
            }
            Ok(HandOf5(cards))
        } else {
            Err(InvalidSize)
        }
    }
}

impl Hand for HandOf5 {
    open spec fn spec_cards(&self) -> Seq<Card> {
        self.0@
    }

    fn cards(&self) -> (r: Vec<Card>) {
        let r = vec![self.0[0], self.0[1], self.0[2], self.0[3], self.0[4]];
        proof {
            assert(r@ =~= self.0@);
        }
        r
    }
}

/// `t` can be read off `s` left to right: `t` is a subsequence of `s`.
pub open spec fn is_subseq_of(t: Seq<Card>, s: Seq<Card>) -> bool
    decreases s.len(),
{
    if t.len() == 0 {
        true
    } else if s.len() == 0 {
        false
    } else if t[0] == s[0] {
        is_subseq_of(t.drop_first(), s.drop_first())
    } else {
        is_subseq_of(t, s.drop_first())
    }
}

/// Any prefix of a sequence is a subsequence of it.
pub proof fn lemma_take_is_subseq(s: Seq<Card>, k: int)
    requires
        0 <= k <= s.len(),
    ensures
        is_subseq_of(s.take(k), s),
    decreases s.len(),
{
    if k > 0 {
        assert(s.take(k).drop_first() =~= s.drop_first().take(k - 1));
        lemma_take_is_subseq(s.drop_first(), k - 1);
    }
}

/// Relies on itertools' `combinations`: applied to the cards it yields one
/// list per way of choosing `k` positions, holding those cards in input
/// order — so each result is a `k`-card subsequence of the input, and every
/// `k`-card subsequence of the input appears among the results.
#[verifier::external_body]
fn combinations_of(cards: &Vec<Card>, k: usize) -> (r: Vec<Vec<Card>>)
    ensures
        forall|i: int|
            0 <= i < r@.len() ==> (#[trigger] r@[i])@.len() == k as int && is_subseq_of(
                r@[i]@,
                cards@,
            ),
        forall|t: Seq<Card>|
            t.len() == k as int && #[trigger] is_subseq_of(t, cards@) ==> exists|i: int|
                0 <= i < r@.len() && (#[trigger] r@[i])@ == t,
{
    cards.iter().cloned().combinations(k).collect()
}

/// Packs five listed cards into a `Variant`.
fn variant_from_five(cards: &Vec<Card>) -> (v: Variant)
    requires
        cards@.len() == 5,
    ensures
        v@ == cards@,
{
    let a = [cards[0], cards[1], cards[2], cards[3], cards[4]];
    proof {
        assert(a@ =~= cards@);
    }
    Variant(a)
}

/// `c` is the strongest combination any five cards drawn from `pool` can
/// classify as.
pub open spec fn is_best_choice_of_5(pool: Seq<Card>, c: Combination) -> bool {
    &&& exists|t: Seq<Card>|
        t.len() == 5 && #[trigger] is_subseq_of(t, pool) && c == spec_classify(t)
    &&& forall|t: Seq<Card>|
        t.len() == 5 && #[trigger] is_subseq_of(t, pool) ==> combination_le(spec_classify(t), c)
}

/// `c` is the strongest combination classifiable from exactly two of the
/// hole cards followed by exactly three of the board cards.
pub open spec fn is_best_omaha(board: Seq<Card>, hole: Seq<Card>, c: Combination) -> bool {
    &&& exists|h: Seq<Card>, b: Seq<Card>|
        h.len() == 2 && b.len() == 3 && #[trigger] is_subseq_of(h, hole) && #[trigger] is_subseq_of(
            b,
            board,
        ) && c == spec_classify(h + b)
    &&& forall|h: Seq<Card>, b: Seq<Card>|
        h.len() == 2 && b.len() == 3 && #[trigger] is_subseq_of(h, hole) && #[trigger] is_subseq_of(
            b,
            board,
        ) ==> combination_le(spec_classify(h + b), c)
}

/// Ranked hands as mathematical pairs: each player's card sequence with
/// the combination it ranked as.
pub open spec fn pairs_view(s: Seq<(Vec<Card>, Combination)>) -> Seq<(Seq<Card>, Combination)> {
    s.map_values(|p: (Vec<Card>, Combination)| (p.0@, p.1))
}

/// Grouped hands as mathematical pairs: each combination with the card
/// sequences that ranked as it.
pub open spec fn groups_view(s: Seq<(Combination, Vec<Vec<Card>>)>) -> Seq<
    (Combination, Seq<Seq<Card>>),
> {
    s.map_values(|g: (Combination, Vec<Vec<Card>>)| (g.0, g.1@.map_values(|v: Vec<Card>| v@)))
}

/// Files one ranked hand into its group: appended to the first group keyed
/// by its combination, or opening a new group at the end.
pub open spec fn insert_grouped(
    gs: Seq<(Combination, Seq<Seq<Card>>)>,
    cs: Seq<Card>,
    c: Combination,
) -> Seq<(Combination, Seq<Seq<Card>>)>
    decreases gs.len(),
{
    if gs.len() == 0 {
        seq![(c, seq![cs])]
    } else if gs[0].0 == c {
        seq![(c, gs[0].1.push(cs))] + gs.drop_first()
    } else {
        seq![gs[0]] + insert_grouped(gs.drop_first(), cs, c)
    }
}

/// The partition of ranked hands by exact combination, groups and members
/// both in first-seen order.
pub open spec fn grouped_by_combination(pairs: Seq<(Seq<Card>, Combination)>) -> Seq<
    (Combination, Seq<Seq<Card>>),
>
    decreases pairs.len(),
{
    if pairs.len() == 0 {
        Seq::empty()
    } else {
        insert_grouped(
            grouped_by_combination(pairs.drop_last()),
            pairs.last().0,
            pairs.last().1,
        )
    }
}

/// The groups stand in ascending strength: no later group's combination is
/// weaker.
pub open spec fn groups_sorted(gs: Seq<(Combination, Seq<Seq<Card>>)>) -> bool {
    forall|i: int, j: int|
        0 <= i < j < gs.len() ==> combination_le((#[trigger] gs[i]).0, (#[trigger] gs[j]).0)
}

/// Sorted showdown output as mathematics: one card-sequence list per group.
pub open spec fn hand_groups_view(s: Seq<Vec<Vec<Card>>>) -> Seq<Seq<Seq<Card>>> {
    s.map_values(|v: Vec<Vec<Card>>| v@.map_values(|w: Vec<Card>| w@))
}

/// Filing a hand under a key that first occurs at position `j` appends it
/// to that group.
proof fn lemma_insert_grouped_at(
    gs: Seq<(Combination, Seq<Seq<Card>>)>,
    cs: Seq<Card>,
    c: Combination,
    j: int,
)
    requires
        0 <= j < gs.len(),
        gs[j].0 == c,
        forall|k: int| 0 <= k < j ==> (#[trigger] gs[k]).0 != c,
    ensures
        insert_grouped(gs, cs, c) == gs.update(j, (c, gs[j].1.push(cs))),
    decreases gs.len(),
{
    if j == 0 {
        assert(insert_grouped(gs, cs, c) =~= gs.update(0, (c, gs[0].1.push(cs))));
    } else {
        lemma_insert_grouped_at(gs.drop_first(), cs, c, j - 1);
        assert(seq![gs[0]] + gs.drop_first().update(j - 1, (c, gs[j].1.push(cs))) =~= gs.update(
            j,
            (c, gs[j].1.push(cs)),
        ));
    }
}

/// Filing a hand under a key no group has opens a new group at the end.
proof fn lemma_insert_grouped_fresh(
    gs: Seq<(Combination, Seq<Seq<Card>>)>,
    cs: Seq<Card>,
    c: Combination,
)
    requires
        forall|k: int| 0 <= k < gs.len() ==> (#[trigger] gs[k]).0 != c,
    ensures
        insert_grouped(gs, cs, c) == gs.push((c, seq![cs])),
    decreases gs.len(),
{
    if gs.len() == 0 {
        assert(insert_grouped(gs, cs, c) =~= gs.push((c, seq![cs])));
    } else {
        lemma_insert_grouped_fresh(gs.drop_first(), cs, c);
        assert(seq![gs[0]] + gs.drop_first().push((c, seq![cs])) =~= gs.push((c, seq![cs])));
    }
}

/// No two groups carry the same combination.
pub open spec fn distinct_keys(gs: Seq<(Combination, Seq<Seq<Card>>)>) -> bool {
    forall|i: int, j: int|
        0 <= i < j < gs.len() ==> (#[trigger] gs[i]).0 != (#[trigger] gs[j]).0
}

/// Some group carries the combination `c`.
pub open spec fn has_key(gs: Seq<(Combination, Seq<Seq<Card>>)>, c: Combination) -> bool {
    exists|i: int| 0 <= i < gs.len() && (#[trigger] gs[i]).0 == c
}

/// Every hand filed across the groups, as a multiset of card sequences.
pub open spec fn group_cards(gs: Seq<(Combination, Seq<Seq<Card>>)>) -> Multiset<Seq<Card>>
    decreases gs.len(),
{
    if gs.len() == 0 {
        Multiset::empty()
    } else {
        gs.first().1.to_multiset().add(group_cards(gs.drop_first()))
    }
}

/// Filing a hand adds its key and keeps the keys distinct.
proof fn lemma_insert_grouped_keys(
    gs: Seq<(Combination, Seq<Seq<Card>>)>,
    cs: Seq<Card>,
    c: Combination,
)
    ensures
        forall|x: Combination|
            #[trigger] has_key(insert_grouped(gs, cs, c), x) <==> has_key(gs, x) || x == c,
        distinct_keys(gs) ==> distinct_keys(insert_grouped(gs, cs, c)),
    decreases gs.len(),
{
    let ins = insert_grouped(gs, cs, c);
    if gs.len() == 0 {
        assert forall|x: Combination| #[trigger] has_key(ins, x) implies has_key(gs, x) || x
            == c by {
            let i = choose|i: int| 0 <= i < ins.len() && (#[trigger] ins[i]).0 == x;
        }
        assert(ins[0].0 == c);
        assert(distinct_keys(ins));
    } else if gs[0].0 == c {
        assert(ins =~= seq![(c, gs[0].1.push(cs))] + gs.drop_first());
        assert forall|x: Combination| #[trigger] has_key(ins, x) implies has_key(gs, x) || x
            == c by {
            let i = choose|i: int| 0 <= i < ins.len() && (#[trigger] ins[i]).0 == x;
            if i > 0 {
                assert(gs[i].0 == x);
            }
        }
        assert forall|x: Combination| has_key(gs, x) || x == c implies #[trigger] has_key(
            ins,
            x,
        ) by {
            if x == c {
                assert(ins[0].0 == x);
            } else {
                let i = choose|i: int| 0 <= i < gs.len() && (#[trigger] gs[i]).0 == x;
                assert(ins[i].0 == x);
            }
        }
        if distinct_keys(gs) {
            assert forall|i: int, j: int|
                0 <= i < j < ins.len() implies (#[trigger] ins[i]).0 != (#[trigger] ins[j]).0 by {
                assert(gs[i].0 == ins[i].0 && gs[j].0 == ins[j].0);
            }
        }
    } else {
        lemma_insert_grouped_keys(gs.drop_first(), cs, c);
        let rec = insert_grouped(gs.drop_first(), cs, c);
        assert(ins =~= seq![gs[0]] + rec);
        assert forall|x: Combination| #[trigger] has_key(ins, x) implies has_key(gs, x) || x
            == c by {
            let i = choose|i: int| 0 <= i < ins.len() && (#[trigger] ins[i]).0 == x;
            if i == 0 {
                assert(gs[0].0 == x);
            } else {
                assert(rec[i - 1].0 == x);
                assert(has_key(rec, x));
                if has_key(gs.drop_first(), x) {
                    let j = choose|j: int|
                        0 <= j < gs.drop_first().len() && (#[trigger] gs.drop_first()[j]).0 == x;
                    assert(gs[j + 1].0 == x);
                }
            }
        }
        assert forall|x: Combination| has_key(gs, x) || x == c implies #[trigger] has_key(
            ins,
            x,
        ) by {
            if x == c {
                assert(has_key(rec, x));
                let j = choose|j: int| 0 <= j < rec.len() && (#[trigger] rec[j]).0 == x;
                assert(ins[j + 1].0 == x);
            } else {
                let i = choose|i: int| 0 <= i < gs.len() && (#[trigger] gs[i]).0 == x;
                if i == 0 {
                    assert(ins[0].0 == x);
                } else {
                    assert(gs.drop_first()[i - 1].0 == x);
                    assert(has_key(gs.drop_first(), x));
                    assert(has_key(rec, x));
                    let j = choose|j: int| 0 <= j < rec.len() && (#[trigger] rec[j]).0 == x;
                    assert(ins[j + 1].0 == x);
                }
            }
        }
        if distinct_keys(gs) {
            assert(distinct_keys(gs.drop_first())) by {
                assert forall|i: int, j: int|
                    0 <= i < j < gs.drop_first().len() implies (#[trigger] gs.drop_first()[i]).0
                    != (#[trigger] gs.drop_first()[j]).0 by {
                    assert(gs[i + 1].0 != gs[j + 1].0);
                }
            }
            let k0 = gs[0].0;
            assert(!has_key(gs.drop_first(), k0)) by {
                if has_key(gs.drop_first(), k0) {
                    let j = choose|j: int|
                        0 <= j < gs.drop_first().len() && (#[trigger] gs.drop_first()[j]).0 == k0;
                    assert(gs[j + 1].0 == k0);
                }
            }
            assert forall|i: int, j: int|
                0 <= i < j < ins.len() implies (#[trigger] ins[i]).0 != (#[trigger] ins[j]).0 by {
                if i == 0 {
                    assert(rec[j - 1].0 == ins[j].0);
                    assert(has_key(rec, ins[j].0));
                    assert(ins[0].0 == gs[0].0 && gs[0].0 != c);
                } else {
                    assert(rec[i - 1].0 == ins[i].0 && rec[j - 1].0 == ins[j].0);
                }
            }
        }
    }
}

/// The keys of a grouping are pairwise distinct.
pub proof fn lemma_grouped_distinct(pairs: Seq<(Seq<Card>, Combination)>)
    ensures
        distinct_keys(grouped_by_combination(pairs)),
    decreases pairs.len(),
{
    if pairs.len() > 0 {
        lemma_grouped_distinct(pairs.drop_last());
        lemma_insert_grouped_keys(
            grouped_by_combination(pairs.drop_last()),
            pairs.last().0,
            pairs.last().1,
        );
    }
}

/// Filing a hand adds exactly its card sequence to the groups' cards.
proof fn lemma_insert_grouped_cards(
    gs: Seq<(Combination, Seq<Seq<Card>>)>,
    cs: Seq<Card>,
    c: Combination,
)
    ensures
        group_cards(insert_grouped(gs, cs, c)) == group_cards(gs).insert(cs),
    decreases gs.len(),
{
    broadcast use vstd::multiset::group_multiset_axioms;

    let ins = insert_grouped(gs, cs, c);
    if gs.len() == 0 {
        vstd::seq_lib::to_multiset_build(Seq::<Seq<Card>>::empty(), cs);
        vstd::seq_lib::to_multiset_len(Seq::<Seq<Card>>::empty());
        assert(seq![cs] =~= Seq::<Seq<Card>>::empty().push(cs));
        assert(Seq::<Seq<Card>>::empty().to_multiset() =~= Multiset::<Seq<Card>>::empty());
        assert(ins.drop_first() =~= Seq::<(Combination, Seq<Seq<Card>>)>::empty());
        assert(ins.first() == (c, seq![cs]));
        assert(group_cards(ins.drop_first()) =~= Multiset::<Seq<Card>>::empty());
        assert(ins.first().1.to_multiset() =~= Multiset::<Seq<Card>>::empty().insert(cs));
        assert(group_cards(ins) =~= group_cards(gs).insert(cs));
    } else if gs[0].0 == c {
        vstd::seq_lib::to_multiset_build(gs[0].1, cs);
        assert(ins.first() == (c, gs[0].1.push(cs)));
        assert(ins.drop_first() =~= gs.drop_first());
        assert(group_cards(ins) =~= group_cards(gs).insert(cs));
    } else {
        lemma_insert_grouped_cards(gs.drop_first(), cs, c);
        assert(ins.first() == gs[0]);
        assert(ins.drop_first() =~= insert_grouped(gs.drop_first(), cs, c));
        assert(group_cards(ins) =~= group_cards(gs).insert(cs));
    }
}

/// Grouping neither loses nor duplicates a hand: the groups' cards are
/// exactly the ranked hands' cards.
pub proof fn lemma_grouped_cards(pairs: Seq<(Seq<Card>, Combination)>)
    ensures
        group_cards(grouped_by_combination(pairs)) == pairs.map_values(
            |p: (Seq<Card>, Combination)| p.0,
        ).to_multiset(),
    decreases pairs.len(),
{
    broadcast use vstd::multiset::group_multiset_axioms;

    let hand_lists = pairs.map_values(|p: (Seq<Card>, Combination)| p.0);
    if pairs.len() == 0 {
        assert(hand_lists =~= Seq::<Seq<Card>>::empty());
        vstd::seq_lib::to_multiset_len(hand_lists);
        assert(hand_lists.to_multiset() =~= Multiset::<Seq<Card>>::empty());
    } else {
        lemma_grouped_cards(pairs.drop_last());
        lemma_insert_grouped_cards(
            grouped_by_combination(pairs.drop_last()),
            pairs.last().0,
            pairs.last().1,
        );
        let prev_lists = pairs.drop_last().map_values(|p: (Seq<Card>, Combination)| p.0);
        assert(hand_lists =~= prev_lists.push(pairs.last().0));
        vstd::seq_lib::to_multiset_build(prev_lists, pairs.last().0);
    }
}

/// Removing one group removes exactly its cards.
proof fn lemma_group_cards_remove(gs: Seq<(Combination, Seq<Seq<Card>>)>, j: int)
    requires
        0 <= j < gs.len(),
    ensures
        group_cards(gs) == group_cards(gs.remove(j)).add(gs[j].1.to_multiset()),
    decreases gs.len(),
{
    broadcast use vstd::multiset::group_multiset_axioms;

    if j == 0 {
        assert(gs.remove(0) =~= gs.drop_first());
        assert(group_cards(gs) =~= group_cards(gs.remove(0)).add(gs[0].1.to_multiset()));
    } else {
        lemma_group_cards_remove(gs.drop_first(), j - 1);
        assert(gs.remove(j).first() == gs.first());
        assert(gs.remove(j).drop_first() =~= gs.drop_first().remove(j - 1));
        assert(gs.drop_first()[j - 1] == gs[j]);
        assert(group_cards(gs) =~= group_cards(gs.remove(j)).add(gs[j].1.to_multiset()));
    }
}

/// Reordering the groups does not change which cards they hold.
proof fn lemma_group_cards_permutation(
    s1: Seq<(Combination, Seq<Seq<Card>>)>,
    s2: Seq<(Combination, Seq<Seq<Card>>)>,
)
    requires
        s1.to_multiset() == s2.to_multiset(),
    ensures
        group_cards(s1) == group_cards(s2),
    decreases s1.len(),
{
    broadcast use vstd::multiset::group_multiset_axioms;

    vstd::seq_lib::to_multiset_len(s1);
    vstd::seq_lib::to_multiset_len(s2);
    if s1.len() == 0 {
        assert(s2.len() == 0);
    } else {
        let last = s1.last();
        assert(s1.drop_last().push(last) =~= s1);
        vstd::seq_lib::to_multiset_build(s1.drop_last(), last);
        vstd::seq_lib::to_multiset_contains(s1, last);
        assert(s1.contains(last));
        vstd::seq_lib::to_multiset_contains(s2, last);
        assert(s2.to_multiset().count(last) > 0);
        let j = choose|j: int| 0 <= j < s2.len() && s2[j] == last;
        vstd::seq_lib::to_multiset_remove(s2, j);
        lemma_group_cards_remove(s2, j);
        lemma_group_cards_remove(s1, s1.len() - 1);
        assert(s1.remove(s1.len() - 1) =~= s1.drop_last());
        vstd::seq_lib::to_multiset_remove(s1, s1.len() - 1);
        assert(s1.drop_last().to_multiset() =~= s2.remove(j).to_multiset());
        lemma_group_cards_permutation(s1.drop_last(), s2.remove(j));
    }
}

/// Law: the showdown round trip. Sorting the grouped hands — any ordering
/// of them that is weak-to-strong — puts the groups in strictly ascending
/// combination strength, and the card lists across all groups are exactly
/// the ranked hands' card lists, with nothing lost or duplicated.
pub proof fn lemma_group_sort_round_trip(
    pairs: Seq<(Seq<Card>, Combination)>,
    sorted: Seq<(Combination, Seq<Seq<Card>>)>,
)
    requires
        sorted.to_multiset() == grouped_by_combination(pairs).to_multiset(),
        groups_sorted(sorted),
    ensures
        forall|i: int, j: int|
            0 <= i < j < sorted.len() ==> combination_cmp(
                (#[trigger] sorted[i]).0,
                (#[trigger] sorted[j]).0,
            ) == core::cmp::Ordering::Less,
        group_cards(sorted) == pairs.map_values(|p: (Seq<Card>, Combination)| p.0).to_multiset(),
{
    broadcast use vstd::multiset::group_multiset_axioms;

    let grouped = grouped_by_combination(pairs);
    lemma_grouped_distinct(pairs);
    lemma_grouped_cards(pairs);
    lemma_group_cards_permutation(sorted, grouped);
    assert(grouped.no_duplicates()) by {
        assert forall|i: int, j: int|
            0 <= i < grouped.len() && 0 <= j < grouped.len() && i != j implies grouped[i]
            != grouped[j] by {
            if i < j {
                assert(grouped[i].0 != grouped[j].0);
            } else {
                assert(grouped[j].0 != grouped[i].0);
            }
        }
    }
    grouped.lemma_multiset_has_no_duplicates();
    sorted.lemma_multiset_has_no_duplicates_conv();
    assert forall|i: int, j: int|
        0 <= i < j < sorted.len() implies combination_cmp(
        (#[trigger] sorted[i]).0,
        (#[trigger] sorted[j]).0,
    ) == core::cmp::Ordering::Less by {
        lemma_combination_order_total(sorted[i].0, sorted[j].0);
        if combination_cmp(sorted[i].0, sorted[j].0) == core::cmp::Ordering::Equal {
            assert(sorted[i].0 == sorted[j].0);
            assert(sorted[i] != sorted[j]);
            vstd::seq_lib::to_multiset_contains(sorted, sorted[i]);
            vstd::seq_lib::to_multiset_contains(sorted, sorted[j]);
            vstd::seq_lib::to_multiset_contains(grouped, sorted[i]);
            vstd::seq_lib::to_multiset_contains(grouped, sorted[j]);
            assert(sorted.contains(sorted[i]));
            assert(sorted.contains(sorted[j]));
            assert(grouped.contains(sorted[i]));
            assert(grouped.contains(sorted[j]));
            let gi = choose|g: int| 0 <= g < grouped.len() && grouped[g] == sorted[i];
            let gj = choose|g: int| 0 <= g < grouped.len() && grouped[g] == sorted[j];
            assert(gi != gj);
            if gi < gj {
                assert(grouped[gi].0 != grouped[gj].0);
            } else {
                assert(grouped[gj].0 != grouped[gi].0);
            }
        }
    }
}

impl Game {
    /// The best combination a Texas Hold'em player can make: any five cards
    /// out of the board and the two hole cards.
    pub fn texas_holdem_combination(board: Board, hand: HandOf2) -> (r: Combination)
        ensures
            is_best_choice_of_5(board@ + hand.spec_cards(), r),
    {
        let mut pool: Vec<Card> = board.cards();
        let hc = hand.cards();
        pool.push(hc[0]);
        pool.push(hc[1]);
        proof {
            assert(pool@ =~= board@ + hand.spec_cards());
        }
        let subsets = combinations_of(&pool, 5);
        proof {
            lemma_take_is_subseq(pool@, 5);
            assert(pool@.take(5).len() == 5);
        }
        let v0 = variant_from_five(&subsets[0]);
        let mut best = Combination::from_variant(v0);
        let mut i: usize = 1;
        while i < subsets.len()
            invariant
                1 <= i <= subsets@.len(),
                forall|j: int|
                    0 <= j < subsets@.len() ==> (#[trigger] subsets@[j])@.len() == 5
                        && is_subseq_of(subsets@[j]@, pool@),
                exists|t: Seq<Card>|
                    t.len() == 5 && #[trigger] is_subseq_of(t, pool@) && best == spec_classify(t),
                forall|j: int|
                    0 <= j < i ==> combination_le(
                        spec_classify((#[trigger] subsets@[j])@),
                        best,
                    ),
            decreases subsets@.len() - i,
        {
            let vi = variant_from_five(&subsets[i]);
            let c = Combination::from_variant(vi);
            let ghost prev = best;
            if best.lt(&c) {
                best = c;
            }
            proof {
                lemma_combination_order_total(prev, c);
                assert forall|j: int|
                    0 <= j < i + 1 implies combination_le(
                    spec_classify((#[trigger] subsets@[j])@),
                    best,
                ) by {
                    if j < i {
                        lemma_combination_order_transitive(
                            spec_classify(subsets@[j]@),
                            prev,
                            best,
                        );
                        lemma_combination_order_total(prev, best);
                    } else {
                        lemma_combination_order_total(c, best);
                    }
                }
            }
            i += 1;
        }
        proof {
            assert forall|t: Seq<Card>|
                t.len() == 5 && #[trigger] is_subseq_of(t, pool@) implies combination_le(
                spec_classify(t),
                best,
            ) by {
                let j = choose|j: int| 0 <= j < subsets@.len() && (#[trigger] subsets@[j])@ == t;
                assert(combination_le(spec_classify(subsets@[j]@), best));
            }
        }
        best
    }

    /// The best combination an Omaha player can make: exactly two of the
    /// four hole cards with exactly three of the five board cards.
    pub fn omaha_holdem_combination(board: Board, hand: HandOf4) -> (r: Combination)
        ensures
            is_best_omaha(board@, hand.spec_cards(), r),
    {
        let hole = hand.cards();
        let board_cards = board.cards();
        let hs = combinations_of(&hole, 2);
        let bs = combinations_of(&board_cards, 3);
        proof {
            lemma_take_is_subseq(hole@, 2);
            assert(hole@.take(2).len() == 2);
            lemma_take_is_subseq(board_cards@, 3);
            assert(board_cards@.take(3).len() == 3);
        }
        let v0 = Self::omaha_variant(&hs[0], &bs[0]);
        let mut best = Combination::from_variant(v0);
        proof {
            assert(hs@[0]@.len() == 2 && is_subseq_of(hs@[0]@, hole@));
            assert(bs@[0]@.len() == 3 && is_subseq_of(bs@[0]@, board_cards@));
        }
        let mut i: usize = 0;
        while i < hs.len()
            invariant
                i <= hs@.len(),
                hs@.len() >= 1,
                bs@.len() >= 1,
                forall|a: int|
                    0 <= a < hs@.len() ==> (#[trigger] hs@[a])@.len() == 2 && is_subseq_of(
                        hs@[a]@,
                        hole@,
                    ),
                forall|b: int|
                    0 <= b < bs@.len() ==> (#[trigger] bs@[b])@.len() == 3 && is_subseq_of(
                        bs@[b]@,
                        board_cards@,
                    ),
                hole@ == hand.spec_cards(),
                board_cards@ == board@,
                exists|h: Seq<Card>, b: Seq<Card>|
                    h.len() == 2 && b.len() == 3 && #[trigger] is_subseq_of(h, hole@)
                        && #[trigger] is_subseq_of(b, board_cards@) && best == spec_classify(
                        h + b,
                    ),
                forall|a: int, b: int|
                    0 <= a < i && 0 <= b < bs@.len() ==> combination_le(
                        spec_classify((#[trigger] hs@[a])@ + (#[trigger] bs@[b])@),
                        best,
                    ),
            decreases hs@.len() - i,
        {
            let mut j: usize = 0;
            while j < bs.len()
                invariant
                    0 <= i < hs@.len(),
                    j <= bs@.len(),
                    forall|a: int|
                        0 <= a < hs@.len() ==> (#[trigger] hs@[a])@.len() == 2 && is_subseq_of(
                            hs@[a]@,
                            hole@,
                        ),
                    forall|b: int|
                        0 <= b < bs@.len() ==> (#[trigger] bs@[b])@.len() == 3 && is_subseq_of(
                            bs@[b]@,
                            board_cards@,
                        ),
                    exists|h: Seq<Card>, b: Seq<Card>|
                        h.len() == 2 && b.len() == 3 && #[trigger] is_subseq_of(h, hole@)
                            && #[trigger] is_subseq_of(b, board_cards@) && best == spec_classify(
                            h + b,
                        ),
                    forall|a: int, b: int|
                        0 <= a < i && 0 <= b < bs@.len() ==> combination_le(
                            spec_classify((#[trigger] hs@[a])@ + (#[trigger] bs@[b])@),
                            best,
                        ),
                    forall|b: int|
                        0 <= b < j ==> combination_le(
                            spec_classify(hs@[i as int]@ + (#[trigger] bs@[b])@),
                            best,
                        ),
                decreases bs@.len() - j,
            {
                let vi = Self::omaha_variant(&hs[i], &bs[j]);
                let c = Combination::from_variant(vi);
                let ghost prev = best;
                if best.lt(&c) {
                    best = c;
                }
                proof {
                    lemma_combination_order_total(prev, c);
                    lemma_combination_order_total(c, best);
                    lemma_combination_order_total(prev, best);
                    assert forall|a: int, b: int|
                        0 <= a < i && 0 <= b < bs@.len() implies combination_le(
                        spec_classify((#[trigger] hs@[a])@ + (#[trigger] bs@[b])@),
                        best,
                    ) by {
                        lemma_combination_order_transitive(
                            spec_classify(hs@[a]@ + bs@[b]@),
                            prev,
                            best,
                        );
                    }
                    assert forall|b: int|
                        0 <= b < j + 1 implies combination_le(
                        spec_classify(hs@[i as int]@ + (#[trigger] bs@[b])@),
                        best,
                    ) by {
                        if b < j {
                            lemma_combination_order_transitive(
                                spec_classify(hs@[i as int]@ + bs@[b]@),
                                prev,
                                best,
                            );
                        }
                    }
                }
                j += 1;
            }
            i += 1;
        }
        proof {
            assert forall|h: Seq<Card>, b: Seq<Card>|
                h.len() == 2 && b.len() == 3 && #[trigger] is_subseq_of(h, hole@)
                    && #[trigger] is_subseq_of(b, board_cards@) implies combination_le(
                spec_classify(h + b),
                best,
            ) by {
                let a = choose|a: int| 0 <= a < hs@.len() && (#[trigger] hs@[a])@ == h;
                let bb = choose|bb: int| 0 <= bb < bs@.len() && (#[trigger] bs@[bb])@ == b;
                assert(combination_le(spec_classify(hs@[a]@ + bs@[bb]@), best));
            }
        }
        best
    }

    /// Ranks every player's hand: each player's cards paired with the best
    /// combination their variant's rules allow, in input order.
    pub fn rank_hands(game: Game) -> (r: Vec<(Vec<Card>, Combination)>)
        ensures
            game matches Game::TexasHoldem(board, hands) ==> {
                &&& r@.len() == hands@.len()
                &&& forall|i: int|
                    0 <= i < r@.len() ==> (#[trigger] r@[i]).0@ == hands@[i].spec_cards()
                        && is_best_choice_of_5(board@ + hands@[i].spec_cards(), r@[i].1)
            },
            game matches Game::OmahaHoldem(board, hands) ==> {
                &&& r@.len() == hands@.len()
                &&& forall|i: int|
                    0 <= i < r@.len() ==> (#[trigger] r@[i]).0@ == hands@[i].spec_cards()
                        && is_best_omaha(board@, hands@[i].spec_cards(), r@[i].1)
            },
            game matches Game::FiveCardDraw(hands) ==> {
                &&& r@.len() == hands@.len()
                &&& forall|i: int|
                    0 <= i < r@.len() ==> (#[trigger] r@[i]).0@ == hands@[i].spec_cards()
                        && r@[i].1 == spec_classify(hands@[i].spec_cards())
            },
    {
        match game {
            Game::TexasHoldem(board, hands) => {
                let mut out: Vec<(Vec<Card>, Combination)> = Vec::new();
                let mut i: usize = 0;
                while i < hands.len()
                    invariant
                        i <= hands@.len(),
                        out@.len() == i,
                        forall|k: int|
                            0 <= k < i ==> (#[trigger] out@[k]).0@ == hands@[k].spec_cards()
                                && is_best_choice_of_5(board@ + hands@[k].spec_cards(), out@[k].1),
                    decreases hands@.len() - i,
                {
                    let h = hands[i];
                    out.push((h.cards(), Self::texas_holdem_combination(board, h)));
                    i += 1;
                }
                out
            },
            Game::OmahaHoldem(board, hands) => {
                let mut out: Vec<(Vec<Card>, Combination)> = Vec::new();
                let mut i: usize = 0;
                while i < hands.len()
                    invariant
                        i <= hands@.len(),
                        out@.len() == i,
                        forall|k: int|
                            0 <= k < i ==> (#[trigger] out@[k]).0@ == hands@[k].spec_cards()
                                && is_best_omaha(board@, hands@[k].spec_cards(), out@[k].1),
                    decreases hands@.len() - i,
                {
                    let h = hands[i];
                    out.push((h.cards(), Self::omaha_holdem_combination(board, h)));
                    i += 1;
                }
                out
            },
            Game::FiveCardDraw(hands) => {
                let mut out: Vec<(Vec<Card>, Combination)> = Vec::new();
                let mut i: usize = 0;
                while i < hands.len()
                    invariant
                        i <= hands@.len(),
                        out@.len() == i,
                        forall|k: int|
                            0 <= k < i ==> (#[trigger] out@[k]).0@ == hands@[k].spec_cards()
                                && out@[k].1 == spec_classify(hands@[k].spec_cards()),
                    decreases hands@.len() - i,
                {
                    let h = hands[i];
                    out.push((h.cards(), Combination::from_variant(Variant(h.0))));
                    i += 1;
                }
                out
            },
        }
    }

    /// Partitions ranked hands by their exact combination. Groups appear in
    /// first-seen order, and so do the card lists inside each group.
    pub fn group_hands(hands: Vec<(Vec<Card>, Combination)>) -> (r: Vec<
        (Combination, Vec<Vec<Card>>),
    >)
        ensures
            groups_view(r@) == grouped_by_combination(pairs_view(hands@)),
    {
        let mut r: Vec<(Combination, Vec<Vec<Card>>)> = Vec::new();
        let mut i: usize = 0;
        proof {
            assert(pairs_view(hands@).take(0) =~= Seq::<(Seq<Card>, Combination)>::empty());
            assert(groups_view(r@) =~= Seq::<(Combination, Seq<Seq<Card>>)>::empty());
        }
        while i < hands.len()
            invariant
                i <= hands@.len(),
                groups_view(r@) == grouped_by_combination(pairs_view(hands@).take(i as int)),
            decreases hands@.len() - i,
        {
            let pair = &hands[i];
            let cards = pair.0.clone();
            let comb = pair.1;
            proof {
                assert(cards@ =~= hands@[i as int].0@);
            }
            let ghost gs = groups_view(r@);
            match Self::find_group(&r, comb) {
                Some(j) => {
                    let mut tmp: (Combination, Vec<Vec<Card>>) = (comb, Vec::new());
                    r.set_and_swap(j, &mut tmp);
                    tmp.1.push(cards);
                    r.set_and_swap(j, &mut tmp);
                    proof {
                        lemma_insert_grouped_at(gs, cards@, comb, j as int);
                        assert(groups_view(r@) =~~= insert_grouped(gs, cards@, comb));
                    }
                },
                None => {
                    let mut lst: Vec<Vec<Card>> = Vec::new();
                    lst.push(cards);
                    r.push((comb, lst));
                    proof {
                        lemma_insert_grouped_fresh(gs, cards@, comb);
                        assert(groups_view(r@) =~~= insert_grouped(gs, cards@, comb));
                    }
                },
            }
            proof {
                assert(pairs_view(hands@).take(i + 1).drop_last() =~= pairs_view(hands@).take(
                    i as int,
                ));
                assert(pairs_view(hands@).take(i + 1).last() == (hands@[i as int].0@, hands@[
                    i as int].1));
            }
            i += 1;
        }
        proof {
            assert(pairs_view(hands@).take(hands@.len() as int) =~= pairs_view(hands@));
        }
        r
    }

    /// Orders the groups from weakest to strongest combination and hands
    /// back each group's card lists; a caller wanting the winners reads the
    /// last group.
    pub fn sort_hands(grouped_hands: Vec<(Combination, Vec<Vec<Card>>)>) -> (r: Vec<
        Vec<Vec<Card>>,
    >)
        ensures
            exists|sorted: Seq<(Combination, Seq<Seq<Card>>)>|
                {
                    &&& sorted.to_multiset() == groups_view(grouped_hands@).to_multiset()
                    &&& #[trigger] groups_sorted(sorted)
                    &&& hand_groups_view(r@) == sorted.map_values(
                        |g: (Combination, Seq<Seq<Card>>)| g.1,
                    )
                },
    {
        broadcast use vstd::seq_lib::group_to_multiset_ensures;
        broadcast use vstd::multiset::group_multiset_axioms;

        let ghost orig = groups_view(grouped_hands@);
        let mut work = grouped_hands;
        let mut pairs: Vec<(Combination, Vec<Vec<Card>>)> = Vec::new();
        proof {
            assert(groups_view(pairs@) =~= Seq::<(Combination, Seq<Seq<Card>>)>::empty());
            assert(groups_view(pairs@).to_multiset().add(groups_view(work@).to_multiset()) =~= orig.to_multiset());
        }
        while work.len() > 0
            invariant
                groups_view(pairs@).to_multiset().add(groups_view(work@).to_multiset())
                    == orig.to_multiset(),
                groups_sorted(groups_view(pairs@)),
                forall|a: int, b: int|
                    0 <= a < pairs@.len() && 0 <= b < work@.len() ==> combination_le(
                        (#[trigger] pairs@[a]).0,
                        (#[trigger] work@[b]).0,
                    ),
            decreases work@.len(),
        {
            let m = Self::find_min_group(&work);
            let ghost old_work = groups_view(work@);
            let ghost old_pairs = groups_view(pairs@);
            let g = work.remove(m);
            pairs.push(g);
            proof {
                broadcast use vstd::multiset::group_multiset_axioms;

                let gv = (g.0, g.1@.map_values(|v: Vec<Card>| v@));
                vstd::seq_lib::to_multiset_build(old_pairs, gv);
                vstd::seq_lib::to_multiset_remove(old_work, m as int);
                vstd::seq_lib::to_multiset_contains(old_work, gv);
                assert(gv == old_work[m as int]);
                assert(groups_view(work@) =~= old_work.remove(m as int));
                assert(groups_view(pairs@) =~= old_pairs.push(gv));
                assert(old_work.contains(gv));
                assert(old_pairs.push(gv).to_multiset() =~= old_pairs.to_multiset().insert(gv));
                assert(old_work.remove(m as int).to_multiset() =~= old_work.to_multiset().remove(
                    gv,
                ));
                assert(old_work.to_multiset().count(gv) > 0);
                assert(groups_view(pairs@).to_multiset().add(groups_view(work@).to_multiset())
                    =~= old_pairs.to_multiset().add(old_work.to_multiset()));
                assert forall|a: int, b: int|
                    0 <= a < pairs@.len() && 0 <= b < work@.len() implies combination_le(
                    (#[trigger] pairs@[a]).0,
                    (#[trigger] work@[b]).0,
                ) by {
                    let wb = if b < m { b } else { b + 1 };
                    assert(groups_view(work@)[b] == old_work[wb]);
                    if a < old_pairs.len() {
                        assert(combination_le(old_pairs[a].0, old_work[wb].0));
                    } else {
                        assert(pairs@[a].0 == g.0);
                    }
                }
                assert forall|i: int, j: int|
                    0 <= i < j < groups_view(pairs@).len() implies combination_le(
                    (#[trigger] groups_view(pairs@)[i]).0,
                    (#[trigger] groups_view(pairs@)[j]).0,
                ) by {
                    if j < old_pairs.len() {
                        assert(combination_le(old_pairs[i].0, old_pairs[j].0));
                    } else {
                        assert(combination_le(old_pairs[i].0, old_work[m as int].0));
                    }
                }
            }
        }
        proof {
            assert(groups_view(work@) =~= Seq::<(Combination, Seq<Seq<Card>>)>::empty());
            assert(groups_view(pairs@).to_multiset() =~= orig.to_multiset());
        }
        let ghost sorted_view = groups_view(pairs@);
        let mut r: Vec<Vec<Vec<Card>>> = Vec::new();
        proof {
            assert(hand_groups_view(r@) =~= sorted_view.take(0).map_values(
                |g: (Combination, Seq<Seq<Card>>)| g.1,
            ));
        }
        while pairs.len() > 0
            invariant
                r@.len() + pairs@.len() == sorted_view.len(),
                groups_view(pairs@) == sorted_view.skip(r@.len() as int),
                hand_groups_view(r@) == sorted_view.take(r@.len() as int).map_values(
                    |g: (Combination, Seq<Seq<Card>>)| g.1,
                ),
            decreases pairs@.len(),
        {
            let ghost k = r@.len() as int;
            let ghost old_pairs = pairs@;
            let p = pairs.remove(0);
            let ghost old_r = r@;
            r.push(p.1);
            proof {
                assert(groups_view(old_pairs)[0] == sorted_view[k]);
                assert(p.1@.map_values(|w: Vec<Card>| w@) == sorted_view[k].1);
                assert(groups_view(pairs@) =~= groups_view(old_pairs).drop_first());
                assert(groups_view(pairs@) =~= sorted_view.skip(k + 1));
                assert(hand_groups_view(r@) =~= hand_groups_view(old_r).push(sorted_view[k].1));
                assert(sorted_view.take(k + 1).map_values(
                    |g: (Combination, Seq<Seq<Card>>)| g.1,
                ) =~= sorted_view.take(k).map_values(
                    |g: (Combination, Seq<Seq<Card>>)| g.1,
                ).push(sorted_view[k].1));
            }
        }
        proof {
            assert(sorted_view.take(sorted_view.len() as int) =~= sorted_view);
            assert(groups_sorted(sorted_view));
        }
        r
    }

    /// The index of a weakest-keyed group.
    fn find_min_group(work: &Vec<(Combination, Vec<Vec<Card>>)>) -> (m: usize)
        requires
            work@.len() > 0,
        ensures
            m < work@.len(),
            forall|k: int|
                0 <= k < work@.len() ==> combination_le(
                    work@[m as int].0,
                    (#[trigger] work@[k]).0,
                ),
    {
        let mut m: usize = 0;
        let mut j: usize = 1;
        while j < work.len()
            invariant
                m < j <= work@.len(),
                forall|k: int|
                    0 <= k < j ==> combination_le(work@[m as int].0, (#[trigger] work@[k]).0),
            decreases work@.len() - j,
        {
            let wj = &work[j];
            let wm = &work[m];
            let ghost prev = work@[m as int].0;
            if wj.0.lt(&wm.0) {
                m = j;
            }
            proof {
                lemma_combination_order_total(wj.0, prev);
                assert forall|k: int|
                    0 <= k < j + 1 implies combination_le(
                    work@[m as int].0,
                    (#[trigger] work@[k]).0,
                ) by {
                    if work@[m as int].0 != prev {
                        lemma_combination_order_transitive(work@[m as int].0, prev, work@[k].0);
                        lemma_combination_order_total(work@[m as int].0, prev);
                    }
                }
            }
            j += 1;
        }
        m
    }

    /// The index of the first group keyed by `c`, if one exists.
    fn find_group(r: &Vec<(Combination, Vec<Vec<Card>>)>, c: Combination) -> (idx: Option<usize>)
        ensures
            match idx {
                Some(j) => j < r@.len() && r@[j as int].0 == c && forall|k: int|
                    0 <= k < j ==> (#[trigger] r@[k]).0 != c,
                None => forall|k: int| 0 <= k < r@.len() ==> (#[trigger] r@[k]).0 != c,
            },
    {
        let mut j: usize = 0;
        while j < r.len()
            invariant
                j <= r@.len(),
                forall|k: int| 0 <= k < j ==> (#[trigger] r@[k]).0 != c,
            decreases r@.len() - j,
        {
            let pair = &r[j];
            if pair.0 == c {
                return Some(j);
            }
            j += 1;
        }
        None
    }

    fn omaha_variant(h: &Vec<Card>, b: &Vec<Card>) -> (v: Variant)
        requires
            h@.len() == 2,
            b@.len() == 3,
        ensures
            v@ == h@ + b@,
    {
        let a = [h[0], h[1], b[0], b[1], b[2]];
        proof {
            assert(a@ =~= h@ + b@);
        }
        Variant(a)
    }
}

} // verus!
