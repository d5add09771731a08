use vstd::prelude::*;
use core::cmp::Ordering;
use crate::card::{Card, Rank, rank_val, rank_value};

verus! {

/// The nine poker hand categories, in ascending strength. The category is
/// the primary axis of comparison between evaluated hands.
#[derive(Debug, Clone, Copy, PartialEq, Eq, PartialOrd, Ord, Structural)]
pub enum HandCategory {
    HighCard,
    OnePair,
    TwoPair,
    Trips,
    Straight,
    Flush,
    FullHouse,
    Quads,
    StraightFlush,
}

/// The strength of a category: HighCard counts 0, up to StraightFlush at 8.
pub open spec fn cat_val(c: HandCategory) -> int {
    match c {
        HandCategory::HighCard => 0,
        HandCategory::OnePair => 1,
        HandCategory::TwoPair => 2,
        HandCategory::Trips => 3,
        HandCategory::Straight => 4,
        HandCategory::Flush => 5,
        HandCategory::FullHouse => 6,
        HandCategory::Quads => 7,
        HandCategory::StraightFlush => 8,
    }
}

/// The numeric strength of a category, 0 through 8.
pub fn category_value(c: HandCategory) -> (v: u8)
    ensures
        v as int == cat_val(c),
{
    match c {
        HandCategory::HighCard => 0,
        HandCategory::OnePair => 1,
        HandCategory::TwoPair => 2,
        HandCategory::Trips => 3,
        HandCategory::Straight => 4,
        HandCategory::Flush => 5,
        HandCategory::FullHouse => 6,
        HandCategory::Quads => 7,
        HandCategory::StraightFlush => 8,
    }
}

/// A classified five-card hand: its category, the five-slot tie-break key
/// (meaningful ranks first, padded with Two), and the five chosen cards in
/// descending rank order.
#[derive(Debug, Clone, Eq)]
pub struct EvaluatedHand {
    pub category: HandCategory,
    pub ranks: [Rank; 5],
    pub cards: [Card; 5],
}

impl vstd::std_specs::cmp::PartialEqSpecImpl for EvaluatedHand {
    open spec fn obeys_eq_spec() -> bool {
        true
    }

    open spec fn eq_spec(&self, other: &Self) -> bool {
        self.category == other.category && self.ranks@ == other.ranks@ && self.cards@
            == other.cards@
    }
}

impl PartialEq for EvaluatedHand {
    fn eq(&self, other: &Self) -> (r: bool) {
        if !(self.category == other.category) {
            return false;
        }
        let mut i: usize = 0;
        while i < 5
            invariant
                0 <= i <= 5,
                forall|j: int| 0 <= j < i ==> self.ranks@[j] == other.ranks@[j],
                forall|j: int| 0 <= j < i ==> self.cards@[j] == other.cards@[j],
            decreases 5 - i,
        {
            if !(self.ranks[i] == other.ranks[i]) || !(self.cards[i] == other.cards[i]) {
                return false;
            }
            i += 1;
        }
        proof {
            assert(self.ranks@ =~= other.ranks@);
            assert(self.cards@ =~= other.cards@);
        }
        true
    }
}

/// The face values of a rank sequence.
pub open spec fn vals_of(ks: Seq<Rank>) -> Seq<int> {
    Seq::new(ks.len(), |i: int| rank_val(ks[i]))
}

/// Lexicographic comparison of two equally long value sequences: the first
/// differing position decides.
pub open spec fn lex_cmp(x: Seq<int>, y: Seq<int>) -> Ordering
    decreases x.len(),
{
    if x.len() == 0 || y.len() == 0 {
        Ordering::Equal
    } else if x[0] < y[0] {
        Ordering::Less
    } else if x[0] > y[0] {
        Ordering::Greater
    } else {
        lex_cmp(x.drop_first(), y.drop_first())
    }
}

/// Comparison of two (category, tie-break key) pairs: category first,
/// then the keys, element-wise.
pub open spec fn cmp_key(c1: HandCategory, k1: Seq<Rank>, c2: HandCategory, k2: Seq<Rank>) -> Ordering {
    if cat_val(c1) < cat_val(c2) {
        Ordering::Less
    } else if cat_val(c1) > cat_val(c2) {
        Ordering::Greater
    } else {
        lex_cmp(vals_of(k1), vals_of(k2))
    }
}

/// The total order over evaluated hands: category first, then the
/// tie-break keys, element-wise.
pub open spec fn hand_cmp_spec(a: EvaluatedHand, b: EvaluatedHand) -> Ordering {
    cmp_key(a.category, a.ranks@, b.category, b.ranks@)
}

/// `a` ranks no higher than `b` under the hand order.
pub open spec fn hand_le(a: EvaluatedHand, b: EvaluatedHand) -> bool {
    hand_cmp_spec(a, b) != Ordering::Greater
}

fn cmp_ranks(a: &[Rank; 5], b: &[Rank; 5]) -> (r: Ordering)
    ensures
        r == lex_cmp(vals_of(a@), vals_of(b@)),
{
    let mut i: usize = 0;
    proof {
        assert(vals_of(a@).skip(0) =~= vals_of(a@));
        assert(vals_of(b@).skip(0) =~= vals_of(b@));
    }
    while i < 5
        invariant
            0 <= i <= 5,
            lex_cmp(vals_of(a@), vals_of(b@)) == lex_cmp(
                vals_of(a@).skip(i as int),
                vals_of(b@).skip(i as int),
            ),
            forall|j: int| 0 <= j < i ==> vals_of(a@)[j] == vals_of(b@)[j],
        decreases 5 - i,
    {
        let va = rank_value(a[i]);
        let vb = rank_value(b[i]);
        proof {
            assert(vals_of(a@).skip(i as int)[0] == rank_val(a@[i as int]));
            assert(vals_of(b@).skip(i as int)[0] == rank_val(b@[i as int]));
        }
        if va < vb {
            return Ordering::Less;
        }
        if va > vb {
            return Ordering::Greater;
        }
        proof {
            assert(vals_of(a@).skip(i as int).drop_first() =~= vals_of(a@).skip(i as int + 1));
            assert(vals_of(b@).skip(i as int).drop_first() =~= vals_of(b@).skip(i as int + 1));
        }
        i += 1;
    }
    proof {
        assert(vals_of(a@).skip(5).len() == 0);
    }
    Ordering::Equal
}

impl vstd::std_specs::cmp::PartialOrdSpecImpl for EvaluatedHand {
    open spec fn obeys_partial_cmp_spec() -> bool {
        true
    }

    open spec fn partial_cmp_spec(&self, other: &Self) -> Option<Ordering> {
        Some(hand_cmp_spec(*self, *other))
    }
}

impl PartialOrd for EvaluatedHand {
    fn partial_cmp(&self, other: &Self) -> (r: Option<Ordering>) {
        let ca = category_value(self.category);
        let cb = category_value(other.category);
        if ca < cb {
            Some(Ordering::Less)
        } else if ca > cb {
            Some(Ordering::Greater)
        } else {
            Some(cmp_ranks(&self.ranks, &other.ranks))
        }
    }
}

/// A player's cards: the private hole cards and the shared community
/// cards. Best-hand evaluation works on the union of the two.
#[derive(Debug, Clone, PartialEq, Eq)]
pub struct Hand {
    hole_cards: Vec<Card>,
    community_cards: Vec<Card>,
}

impl Hand {
    pub closed spec fn hole_seq(self) -> Seq<Card> {
        self.hole_cards@
    }

    pub closed spec fn community_seq(self) -> Seq<Card> {
        self.community_cards@
    }

    /// All cards available to the hand: hole cards, then community cards.
    pub closed spec fn all_cards(self) -> Seq<Card> {
        self.hole_cards@ + self.community_cards@
    }

    /// The union a hand evaluates is its hole cards followed by its
    /// community cards.
    pub proof fn lemma_all_cards(self)
        ensures
            self.all_cards() == self.hole_seq() + self.community_seq(),
            self.all_cards().len() == self.hole_seq().len() + self.community_seq().len(),
    {
    }

    /// An empty hand.
    pub fn new() -> (h: Hand)
        ensures
            h.hole_seq() == Seq::<Card>::empty(),
            h.community_seq() == Seq::<Card>::empty(),
    {
        Hand { hole_cards: Vec::new(), community_cards: Vec::new() }
    }

    pub fn add_hole_card(&mut self, card: Card)
        ensures
            final(self).hole_seq() == old(self).hole_seq().push(card),
            final(self).community_seq() == old(self).community_seq(),
    {
        self.hole_cards.push(card);
    }

    pub fn hole_cards(&self) -> (r: &[Card])
        ensures
            r@ == self.hole_seq(),
    {
        self.hole_cards.as_slice()
    }

    pub fn add_community_card(&mut self, card: Card)
        ensures
            final(self).community_seq() == old(self).community_seq().push(card),
            final(self).hole_seq() == old(self).hole_seq(),
    {
        self.community_cards.push(card);
    }

    /// The best five-card hand among all five-card choices from the union
    /// of hole and community cards; the union must hold five to seven
    /// cards.
    pub fn best_hand(&self) -> (best: EvaluatedHand)
        requires
            5 <= self.all_cards().len() <= 7,
        ensures
            exists|a: int, b: int, c: int, d: int, e: int|
                crate::eval::valid_idx5(self.all_cards().len() as int, a, b, c, d, e)
                    && crate::eval::eval_matches(
                    #[trigger] crate::eval::sel5(self.all_cards(), a, b, c, d, e),
                    best,
                ),
            forall|a: int, b: int, c: int, d: int, e: int|
                crate::eval::valid_idx5(self.all_cards().len() as int, a, b, c, d, e)
                    ==> crate::eval::dominates(
                    best,
                    #[trigger] crate::eval::sel5(self.all_cards(), a, b, c, d, e),
                ),
    {
        let mut all: Vec<Card> = Vec::new();
        all.extend_from_slice(self.hole_cards.as_slice());
        all.extend_from_slice(self.community_cards.as_slice());
        proof {
            assert(all@ =~= self.all_cards());
        }
        crate::eval::evaluate_best(all.as_slice())
    }
}

/// Comparing equal-length value sequences yields Equal exactly when they
/// are equal, and swapping the sides swaps Less and Greater.
proof fn lemma_lex_cmp_basic(x: Seq<int>, y: Seq<int>)
    requires
        x.len() == y.len(),
    ensures
        lex_cmp(x, y) == Ordering::Equal <==> x == y,
        lex_cmp(x, y) == Ordering::Less <==> lex_cmp(y, x) == Ordering::Greater,
    decreases x.len(),
{
    if x.len() == 0 {
        assert(x =~= y);
    } else if x[0] == y[0] {
        lemma_lex_cmp_basic(x.drop_first(), y.drop_first());
        if lex_cmp(x, y) == Ordering::Equal {
            assert(x =~= x.drop_first().push(x[0]).drop_last().insert(0, x[0]));
            assert(x =~= y) by {
                assert(x.drop_first() == y.drop_first());
                assert(forall|i: int|
                    1 <= i < x.len() ==> x[i] == #[trigger] x.drop_first()[i - 1]);
            }
        }
        if x == y {
            assert(x.drop_first() =~= y.drop_first());
        }
    }
}

/// The lexicographic order is transitive in its `is not Greater` form.
proof fn lemma_lex_cmp_trans(x: Seq<int>, y: Seq<int>, z: Seq<int>)
    requires
        x.len() == y.len(),
        y.len() == z.len(),
        lex_cmp(x, y) != Ordering::Greater,
        lex_cmp(y, z) != Ordering::Greater,
    ensures
        lex_cmp(x, z) != Ordering::Greater,
    decreases x.len(),
{
    if x.len() != 0 {
        if x[0] == y[0] && y[0] == z[0] {
            lemma_lex_cmp_trans(x.drop_first(), y.drop_first(), z.drop_first());
        }
    }
}

/// Comparisons of equally long keys flip their sides cleanly, and a key
/// compares Equal to itself.
pub proof fn lemma_cmp_key_flip(c1: HandCategory, k1: Seq<Rank>, c2: HandCategory, k2: Seq<Rank>)
    requires
        k1.len() == k2.len(),
    ensures
        cmp_key(c1, k1, c2, k2) == Ordering::Less <==> cmp_key(c2, k2, c1, k1)
            == Ordering::Greater,
        cmp_key(c1, k1, c1, k1) == Ordering::Equal,
{
    lemma_lex_cmp_basic(vals_of(k1), vals_of(k2));
    lemma_lex_cmp_basic(vals_of(k1), vals_of(k1));
}

/// Keys that compare Equal agree on the category strength and on every
/// key slot's value.
pub proof fn lemma_cmp_key_equal_means(
    c1: HandCategory,
    k1: Seq<Rank>,
    c2: HandCategory,
    k2: Seq<Rank>,
)
    requires
        k1.len() == k2.len(),
        cmp_key(c1, k1, c2, k2) == Ordering::Equal,
    ensures
        cat_val(c1) == cat_val(c2),
        vals_of(k1) == vals_of(k2),
{
    lemma_lex_cmp_basic(vals_of(k1), vals_of(k2));
}

/// The key order is transitive in its `is not Greater` form.
pub proof fn lemma_cmp_key_trans(
    c1: HandCategory,
    k1: Seq<Rank>,
    c2: HandCategory,
    k2: Seq<Rank>,
    c3: HandCategory,
    k3: Seq<Rank>,
)
    requires
        k1.len() == k2.len(),
        k2.len() == k3.len(),
        cmp_key(c1, k1, c2, k2) != Ordering::Greater,
        cmp_key(c2, k2, c3, k3) != Ordering::Greater,
    ensures
        cmp_key(c1, k1, c3, k3) != Ordering::Greater,
{
    if cat_val(c1) == cat_val(c2) && cat_val(c2) == cat_val(c3) {
        lemma_lex_cmp_trans(vals_of(k1), vals_of(k2), vals_of(k3));
    }
}

/// Law: the order over evaluated hands is consistent. It is total and
/// reflexive; Equal means the category and the whole tie-break key agree;
/// and swapping the sides swaps Less and Greater.
pub proof fn lemma_hand_order_consistent(a: EvaluatedHand, b: EvaluatedHand)
    ensures
        hand_le(a, b) || hand_le(b, a),
        hand_le(a, a),
        hand_cmp_spec(a, b) == Ordering::Equal <==> (a.category == b.category && vals_of(a.ranks@)
            == vals_of(b.ranks@)),
        hand_cmp_spec(a, b) == Ordering::Less <==> hand_cmp_spec(b, a) == Ordering::Greater,
{
    lemma_lex_cmp_basic(vals_of(a.ranks@), vals_of(b.ranks@));
    lemma_lex_cmp_basic(vals_of(a.ranks@), vals_of(a.ranks@));
}

/// Law: the order over evaluated hands is transitive.
pub proof fn lemma_hand_order_transitive(a: EvaluatedHand, b: EvaluatedHand, c: EvaluatedHand)
    requires
        hand_le(a, b),
        hand_le(b, c),
    ensures
        hand_le(a, c),
{
    if cat_val(a.category) == cat_val(b.category) && cat_val(b.category) == cat_val(c.category) {
        lemma_lex_cmp_trans(vals_of(a.ranks@), vals_of(b.ranks@), vals_of(c.ranks@));
    }
}

/// Law: category dominates. A hand of a higher category beats any hand of
/// a lower category, whatever the ranks involved.
pub proof fn lemma_category_dominates(a: EvaluatedHand, b: EvaluatedHand)
    requires
        cat_val(a.category) > cat_val(b.category),
    ensures
        hand_cmp_spec(a, b) == Ordering::Greater,
        !hand_le(a, b),
        hand_le(b, a),
{
}

/// Law: within one category, hands whose first key slots agree are ordered
/// by the remaining slots — for a pair with equal pair rank, the kickers
/// decide, descending and element-wise.
pub proof fn lemma_equal_head_kickers_decide(a: EvaluatedHand, b: EvaluatedHand)
    requires
        a.category == b.category,
        a.ranks@[0] == b.ranks@[0],
    ensures
        hand_cmp_spec(a, b) == lex_cmp(
            vals_of(a.ranks@).drop_first(),
            vals_of(b.ranks@).drop_first(),
        ),
{
    assert(vals_of(a.ranks@)[0] == vals_of(b.ranks@)[0]);
}

} // verus!
