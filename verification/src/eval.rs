use vstd::prelude::*;
use crate::card::{Card, Rank, rank_val, rank_of_val, rank_value, rank_of_value};
use crate::hand::{EvaluatedHand, HandCategory, cat_val, hand_cmp_spec};

verus! {

// ---------- the mathematical model of a five-card hand ----------

/// The ranks of a card sequence, in the same order.
pub open spec fn ranks_seq(s: Seq<Card>) -> Seq<Rank> {
    Seq::new(s.len(), |i: int| s[i].rank)
}

/// How many of the ranks have face value `v`.
pub open spec fn count_val(rs: Seq<Rank>, v: int) -> int
    decreases rs.len(),
{
    if rs.len() == 0 {
        0
    } else {
        count_val(rs.drop_last(), v) + if rank_val(rs.last()) == v {
            1int
        } else {
            0int
        }
    }
}

/// Some rank of face value `v` occurs.
pub open spec fn has_val(rs: Seq<Rank>, v: int) -> bool {
    count_val(rs, v) > 0
}

/// Five consecutive face values ending at `hi` all occur.
pub open spec fn run5_at(rs: Seq<Rank>, hi: int) -> bool {
    has_val(rs, hi) && has_val(rs, hi - 1) && has_val(rs, hi - 2) && has_val(rs, hi - 3)
        && has_val(rs, hi - 4)
}

/// The wheel: Ace playing low below Five, Four, Three, Two.
pub open spec fn is_wheel(rs: Seq<Rank>) -> bool {
    has_val(rs, 14) && has_val(rs, 5) && has_val(rs, 4) && has_val(rs, 3) && has_val(rs, 2)
}

/// The high value of a straight found scanning from `hi` downward: the
/// largest run end at or below `hi`, else 5 for the wheel, else 0 for no
/// straight at all.
pub open spec fn straight_high_from(rs: Seq<Rank>, hi: int) -> int
    decreases hi,
{
    if hi < 6 {
        if is_wheel(rs) {
            5
        } else {
            0
        }
    } else if run5_at(rs, hi) {
        hi
    } else {
        straight_high_from(rs, hi - 1)
    }
}

/// The high value of the straight in the hand, or 0 if there is none.
pub open spec fn straight_high(rs: Seq<Rank>) -> int {
    straight_high_from(rs, 14)
}

pub open spec fn is_straight(rs: Seq<Rank>) -> bool {
    straight_high(rs) != 0
}

/// The ranks that occur exactly `c` times among the hand's ranks,
/// listed by descending face value from `v` down to 2.
pub open spec fn ranks_with_count(rs: Seq<Rank>, c: int, v: int) -> Seq<Rank>
    decreases v,
{
    if v < 2 {
        Seq::empty()
    } else {
        (if count_val(rs, v) == c {
            seq![rank_of_val(v)]
        } else {
            Seq::empty()
        }) + ranks_with_count(rs, c, v - 1)
    }
}

/// The hand's rank groups flattened in the canonical order: by count
/// descending, then by rank descending — quads first, then trips, pairs,
/// and single ranks. This ordering is what makes kicker selection uniform
/// across the categories.
pub open spec fn grouped(rs: Seq<Rank>) -> Seq<Rank> {
    ranks_with_count(rs, 4, 14) + ranks_with_count(rs, 3, 14) + ranks_with_count(rs, 2, 14)
        + ranks_with_count(rs, 1, 14)
}

pub open spec fn has_quads(rs: Seq<Rank>) -> bool {
    ranks_with_count(rs, 4, 14).len() > 0
}

pub open spec fn has_trips(rs: Seq<Rank>) -> bool {
    ranks_with_count(rs, 3, 14).len() > 0
}

/// How many distinct ranks occur exactly twice.
pub open spec fn num_pairs(rs: Seq<Rank>) -> int {
    ranks_with_count(rs, 2, 14).len() as int
}

/// All cards share one suit.
pub open spec fn is_flush(s: Seq<Card>) -> bool {
    forall|i: int| 0 <= i < s.len() ==> #[trigger] s[i].suit == s[0].suit
}

/// The category of a five-card hand, decided highest first.
pub open spec fn category_of(s: Seq<Card>) -> HandCategory {
    let rs = ranks_seq(s);
    if is_straight(rs) && is_flush(s) {
        HandCategory::StraightFlush
    } else if has_quads(rs) {
        HandCategory::Quads
    } else if has_trips(rs) && num_pairs(rs) >= 1 {
        HandCategory::FullHouse
    } else if is_flush(s) {
        HandCategory::Flush
    } else if is_straight(rs) {
        HandCategory::Straight
    } else if has_trips(rs) {
        HandCategory::Trips
    } else if num_pairs(rs) == 2 {
        HandCategory::TwoPair
    } else if num_pairs(rs) == 1 {
        HandCategory::OnePair
    } else {
        HandCategory::HighCard
    }
}

/// A key list padded with Two, the neutral lowest rank, out to five slots.
pub open spec fn pad5(ks: Seq<Rank>) -> Seq<Rank> {
    if ks.len() >= 5 {
        ks.take(5)
    } else {
        ks + Seq::new((5 - ks.len()) as nat, |i: int| Rank::Two)
    }
}

/// The five-slot tie-break key of a hand: for a straight (and a straight
/// flush) the straight's high rank alone; otherwise the grouped ranks —
/// pairs before kickers, higher before lower — padded with Two.
pub open spec fn key_of(s: Seq<Card>) -> Seq<Rank> {
    let rs = ranks_seq(s);
    if is_straight(rs) {
        seq![rank_of_val(straight_high(rs)), Rank::Two, Rank::Two, Rank::Two, Rank::Two]
    } else {
        pad5(grouped(rs))
    }
}

/// The cards are ordered by descending rank.
pub open spec fn sorted_desc(s: Seq<Card>) -> bool {
    forall|i: int, j: int|
        0 <= i <= j < s.len() ==> rank_val(s[i].rank) >= rank_val(s[j].rank)
}

/// What classifying the five cards `s` must produce: the category and key
/// of `s`, and the same five cards re-ordered by descending rank.
pub open spec fn eval_matches(s: Seq<Card>, e: EvaluatedHand) -> bool {
    &&& e.category == category_of(s)
    &&& e.ranks@ == key_of(s)
    &&& e.cards@.to_multiset() == s.to_multiset()
    &&& sorted_desc(e.cards@)
}

// ---------- executable counting and grouping ----------

/// How many of the five cards carry face value `v`.
fn count_of(ranks: &[Rank; 5], v: u8) -> (n: u8)
    ensures
        n as int == count_val(ranks@, v as int),
        n <= 5,
{
    let mut n: u8 = 0;
    let mut i: usize = 0;
    while i < 5
        invariant
            0 <= i <= 5,
            n as int == count_val(ranks@.take(i as int), v as int),
            n <= i,
        decreases 5 - i,
    {
        proof {
            assert(ranks@.take(i as int + 1).drop_last() =~= ranks@.take(i as int));
            assert(ranks@.take(i as int + 1).last() == ranks@[i as int]);
        }
        if rank_value(ranks[i]) == v {
            n += 1;
        }
        i += 1;
    }
    proof {
        assert(ranks@.take(5) =~= ranks@);
    }
    n
}

/// The ranks occurring exactly `c` times, by descending face value.
fn ranks_counted(ranks: &[Rank; 5], c: u8) -> (out: Vec<Rank>)
    ensures
        out@ == ranks_with_count(ranks@, c as int, 14),
{
    let mut out: Vec<Rank> = Vec::new();
    let mut v: u8 = 14;
    while v >= 2
        invariant
            1 <= v <= 14,
            ranks_with_count(ranks@, c as int, 14) == out@ + ranks_with_count(
                ranks@,
                c as int,
                v as int,
            ),
        decreases v,
    {
        let ghost pre = out@;
        let ghost head = head_at(ranks@, c as int, v as int);
        if count_of(ranks, v) == c {
            out.push(rank_of_value(v));
        }
        proof {
            assert(ranks_with_count(ranks@, c as int, v as int) == head + ranks_with_count(
                ranks@,
                c as int,
                v as int - 1,
            ));
            assert(out@ =~= pre + head);
            assert((pre + head) + ranks_with_count(ranks@, c as int, v as int - 1) =~= pre + (head
                + ranks_with_count(ranks@, c as int, v as int - 1)));
        }
        v -= 1;
    }
    proof {
        assert(ranks_with_count(ranks@, c as int, 1) =~= Seq::<Rank>::empty());
        assert(out@ + Seq::<Rank>::empty() =~= out@);
    }
    out
}

/// The head contributed at value `v` by the grouping recursion.
spec fn head_at(rs: Seq<Rank>, c: int, v: int) -> Seq<Rank> {
    if count_val(rs, v) == c {
        seq![rank_of_val(v)]
    } else {
        Seq::empty()
    }
}

// ---------- straight detection ----------

/// Does some rank of value `v` occur among the five?
fn has_val_exec(ranks: &[Rank; 5], v: u8) -> (r: bool)
    ensures
        r == has_val(ranks@, v as int),
{
    count_of(ranks, v) > 0
}

/// Given the five ranks of a hand, detect a straight and name its high
/// rank. The wheel counts as a straight with high rank Five; when there is
/// no straight the reported rank is Two and the flag is false.
pub fn straight_high_rank(ranks: &[Rank; 5]) -> (r: (bool, Rank))
    ensures
        r.0 == is_straight(ranks@),
        r.0 ==> r.1 == rank_of_val(straight_high(ranks@)),
        !r.0 ==> r.1 == Rank::Two,
{
    let mut hi: u8 = 14;
    while hi >= 6
        invariant
            5 <= hi <= 14,
            straight_high(ranks@) == straight_high_from(ranks@, hi as int),
        decreases hi,
    {
        if has_val_exec(ranks, hi) && has_val_exec(ranks, hi - 1) && has_val_exec(ranks, hi - 2)
            && has_val_exec(ranks, hi - 3) && has_val_exec(ranks, hi - 4) {
            return (true, rank_of_value(hi));
        }
        hi -= 1;
    }
    if has_val_exec(ranks, 14) && has_val_exec(ranks, 5) && has_val_exec(ranks, 4)
        && has_val_exec(ranks, 3) && has_val_exec(ranks, 2) {
        (true, Rank::Five)
    } else {
        (false, Rank::Two)
    }
}

// ---------- sorting the five cards for display ----------

/// Swapping two positions of a sequence leaves its contents unchanged.
proof fn lemma_swap_multiset(s: Seq<Card>, a: int, b: int)
    requires
        0 <= a < s.len(),
        0 <= b < s.len(),
        a != b,
    ensures
        s.update(a, s[b]).update(b, s[a]).to_multiset() == s.to_multiset(),
{
    broadcast use vstd::seq_lib::group_to_multiset_ensures;
    broadcast use vstd::multiset::group_multiset_axioms;

    let s1 = s.update(a, s[b]);
    let s2 = s1.update(b, s[a]);
    assert(s.contains(s[a]));
    assert(s.contains(s[b]));
    assert(s1[b] == s[b]);
    assert(s1.to_multiset() == s.to_multiset().insert(s[b]).remove(s[a]));
    assert(s2.to_multiset() == s1.to_multiset().insert(s[a]).remove(s[b]));
    assert(s2.to_multiset() =~= s.to_multiset());
}

/// The five cards re-ordered by descending rank.
fn sort_cards_desc(cards: &[Card; 5]) -> (out: Vec<Card>)
    ensures
        out@.len() == 5,
        out@.to_multiset() == cards@.to_multiset(),
        sorted_desc(out@),
{
    let mut v: Vec<Card> = vstd::slice::slice_to_vec(cards.as_slice());
    let mut i: usize = 1;
    while i < 5
        invariant
            1 <= i <= 5,
            v@.len() == 5,
            v@.to_multiset() == cards@.to_multiset(),
            forall|a: int, b: int|
                0 <= a <= b < i ==> rank_val(v@[a].rank) >= rank_val(v@[b].rank),
        decreases 5 - i,
    {
        let mut j: usize = i;
        while j > 0 && rank_value(v[j - 1].rank) < rank_value(v[j].rank)
            invariant
                0 <= j <= i < 5,
                v@.len() == 5,
                v@.to_multiset() == cards@.to_multiset(),
                forall|a: int, b: int|
                    0 <= a <= b <= i && a != j && b != j ==> rank_val(v@[a].rank) >= rank_val(
                        v@[b].rank,
                    ),
                forall|a: int|
                    j < a <= i ==> rank_val(v@[j as int].rank) >= rank_val(
                        #[trigger] v@[a].rank,
                    ),
            decreases j,
        {
            let ghost pre = v@;
            let hi = v[j];
            let lo = v[j - 1];
            v[j - 1] = hi;
            v[j] = lo;
            proof {
                assert(v@ =~= pre.update(j - 1, pre[j as int]).update(j as int, pre[j - 1]));
                lemma_swap_multiset(pre, j - 1, j as int);
            }
            j -= 1;
        }
        i += 1;
    }
    v
}

/// The tie-break key built from a grouped rank list of at most five
/// entries, padded with Two.
fn pad_key(g: &Vec<Rank>) -> (key: [Rank; 5])
    ensures
        key@ == pad5(g@),
{
    let k0 = if g.len() > 0 { g[0] } else { Rank::Two };
    let k1 = if g.len() > 1 { g[1] } else { Rank::Two };
    let k2 = if g.len() > 2 { g[2] } else { Rank::Two };
    let k3 = if g.len() > 3 { g[3] } else { Rank::Two };
    let k4 = if g.len() > 4 { g[4] } else { Rank::Two };
    let key = [k0, k1, k2, k3, k4];
    proof {
        assert(key@ =~= pad5(g@));
    }
    key
}

// ---------- the five-card classifier ----------

/// Classify exactly five cards: their category, the canonical five-slot
/// tie-break key, and the same cards sorted by descending rank.
pub fn evaluate_five(cards: [Card; 5]) -> (e: EvaluatedHand)
    ensures
        eval_matches(cards@, e),
{
    let ranks: [Rank; 5] = [cards[0].rank, cards[1].rank, cards[2].rank, cards[3].rank,
        cards[4].rank];
    proof {
        assert(ranks@ =~= ranks_seq(cards@));
    }
    // Flush: all five cards share the first card's suit.
    let mut is_fl = true;
    let mut i: usize = 1;
    while i < 5
        invariant
            1 <= i <= 5,
            is_fl == (forall|k: int| 0 <= k < i ==> #[trigger] cards@[k].suit == cards@[0].suit),
        decreases 5 - i,
    {
        if !(cards[i].suit == cards[0].suit) {
            is_fl = false;
        }
        i += 1;
    }
    let (is_st, st_high) = straight_high_rank(&ranks);

    // Rank groups by descending count, then descending rank.
    let g4 = ranks_counted(&ranks, 4);
    let g3 = ranks_counted(&ranks, 3);
    let g2 = ranks_counted(&ranks, 2);
    let g1 = ranks_counted(&ranks, 1);
    let quads = g4.len() > 0;
    let trips = g3.len() > 0;
    let pairs = g2.len();
    let mut g = g4;
    let mut g3m = g3;
    let mut g2m = g2;
    let mut g1m = g1;
    g.append(&mut g3m);
    g.append(&mut g2m);
    g.append(&mut g1m);
    proof {
        assert(g@ =~= grouped(ranks@));
    }
    let category = if is_st && is_fl {
        HandCategory::StraightFlush
    } else if quads {
        HandCategory::Quads
    } else if trips && pairs >= 1 {
        HandCategory::FullHouse
    } else if is_fl {
        HandCategory::Flush
    } else if is_st {
        HandCategory::Straight
    } else if trips {
        HandCategory::Trips
    } else if pairs == 2 {
        HandCategory::TwoPair
    } else if pairs == 1 {
        HandCategory::OnePair
    } else {
        HandCategory::HighCard
    };
    let key: [Rank; 5] = if is_st {
        [st_high, Rank::Two, Rank::Two, Rank::Two, Rank::Two]
    } else {
        pad_key(&g)
    };
    proof {
        if is_straight(ranks_seq(cards@)) {
            assert(key@ =~= key_of(cards@));
        }
    }
    let sorted = sort_cards_desc(&cards);
    let out_cards: [Card; 5] = [sorted[0], sorted[1], sorted[2], sorted[3], sorted[4]];
    proof {
        assert(out_cards@ =~= sorted@);
    }
    EvaluatedHand { category, ranks: key, cards: out_cards }
}

// ---------- the five-card combination generator ----------

/// The five cards at index positions `a < b < c < d < e`.
pub open spec fn sel5(s: Seq<Card>, a: int, b: int, c: int, d: int, e: int) -> Seq<Card> {
    seq![s[a], s[b], s[c], s[d], s[e]]
}

/// Five strictly increasing index positions into a sequence of length `n`.
pub open spec fn valid_idx5(n: int, a: int, b: int, c: int, d: int, e: int) -> bool {
    0 <= a < b && b < c && c < d && d < e && e < n
}

/// The selections whose first four positions are `a < b < c < d` and whose
/// fifth position runs from `e` upward, in order.
pub open spec fn fifth_from(s: Seq<Card>, a: int, b: int, c: int, d: int, e: int) -> Seq<Seq<Card>>
    decreases s.len() - e,
{
    if e >= s.len() {
        Seq::empty()
    } else {
        seq![sel5(s, a, b, c, d, e)] + fifth_from(s, a, b, c, d, e + 1)
    }
}

/// The selections with first three positions `a < b < c` fixed and fourth
/// position running from `d` upward, in lexicographic position order.
pub open spec fn fourth_from(s: Seq<Card>, a: int, b: int, c: int, d: int) -> Seq<Seq<Card>>
    decreases s.len() - d,
{
    if d >= s.len() {
        Seq::empty()
    } else {
        fifth_from(s, a, b, c, d, d + 1) + fourth_from(s, a, b, c, d + 1)
    }
}

/// The selections with first two positions `a < b` fixed, third position
/// from `c` upward.
pub open spec fn third_from(s: Seq<Card>, a: int, b: int, c: int) -> Seq<Seq<Card>>
    decreases s.len() - c,
{
    if c >= s.len() {
        Seq::empty()
    } else {
        fourth_from(s, a, b, c, c + 1) + third_from(s, a, b, c + 1)
    }
}

/// The selections with first position `a` fixed, second position from `b`
/// upward.
pub open spec fn second_from(s: Seq<Card>, a: int, b: int) -> Seq<Seq<Card>>
    decreases s.len() - b,
{
    if b >= s.len() {
        Seq::empty()
    } else {
        third_from(s, a, b, b + 1) + second_from(s, a, b + 1)
    }
}

/// The selections with first position from `a` upward.
pub open spec fn first_from(s: Seq<Card>, a: int) -> Seq<Seq<Card>>
    decreases s.len() - a,
{
    if a >= s.len() {
        Seq::empty()
    } else {
        second_from(s, a, a + 1) + first_from(s, a + 1)
    }
}

/// The canonical enumeration of all five-card selections: one entry per
/// choice of five increasing index positions, in lexicographic order of
/// those positions, each exactly once.
pub open spec fn combos_spec(s: Seq<Card>) -> Seq<Seq<Card>> {
    first_from(s, 0)
}

/// The generated choices, viewed as card sequences.
pub open spec fn views_of(out: Seq<[Card; 5]>) -> Seq<Seq<Card>> {
    Seq::new(out.len(), |j: int| out[j]@)
}

proof fn lemma_fifth_len(s: Seq<Card>, a: int, b: int, c: int, d: int, e: int)
    requires
        0 <= e <= s.len(),
    ensures
        fifth_from(s, a, b, c, d, e).len() == s.len() - e,
    decreases s.len() - e,
{
    if e < s.len() {
        lemma_fifth_len(s, a, b, c, d, e + 1);
    }
}

proof fn lemma_fourth_len(s: Seq<Card>, a: int, b: int, c: int, d: int)
    requires
        0 <= d <= s.len(),
    ensures
        2 * (fourth_from(s, a, b, c, d).len() as int) == (s.len() - d) * (s.len() - d - 1),
    decreases s.len() - d,
{
    let n = s.len() as int;
    if d < n {
        lemma_fifth_len(s, a, b, c, d, d + 1);
        lemma_fourth_len(s, a, b, c, d + 1);
        assert(fourth_from(s, a, b, c, d) == fifth_from(s, a, b, c, d, d + 1) + fourth_from(
            s,
            a,
            b,
            c,
            d + 1,
        ));
        assert(fourth_from(s, a, b, c, d).len() as int == (n - d - 1) + fourth_from(
            s,
            a,
            b,
            c,
            d + 1,
        ).len() as int);
        assert(2 * (n - d - 1) + (n - d - 1) * (n - d - 2) == (n - d) * (n - d - 1))
            by (nonlinear_arith);
    } else {
        assert(fourth_from(s, a, b, c, d).len() == 0);
    }
}

proof fn lemma_third_len(s: Seq<Card>, a: int, b: int, c: int)
    requires
        0 <= c <= s.len(),
    ensures
        6 * (third_from(s, a, b, c).len() as int) == (s.len() - c) * (s.len() - c - 1) * (s.len()
            - c - 2),
    decreases s.len() - c,
{
    let n = s.len() as int;
    if c < n {
        lemma_fourth_len(s, a, b, c, c + 1);
        lemma_third_len(s, a, b, c + 1);
        assert(third_from(s, a, b, c) == fourth_from(s, a, b, c, c + 1) + third_from(
            s,
            a,
            b,
            c + 1,
        ));
        assert(third_from(s, a, b, c).len() as int == fourth_from(s, a, b, c, c + 1).len() as int
            + third_from(s, a, b, c + 1).len() as int);
        let m = n - c;
        let q = fourth_from(s, a, b, c, c + 1).len() as int;
        let r = third_from(s, a, b, c + 1).len() as int;
        assert(2 * q == (m - 1) * (m - 2));
        assert(6 * r == (m - 1) * (m - 2) * (m - 3));
        assert(6 * (q + r) == 3 * (2 * q) + 6 * r);
        assert(3 * ((m - 1) * (m - 2)) + (m - 1) * (m - 2) * (m - 3) == m * (m - 1) * (m - 2))
            by (nonlinear_arith);
    } else {
        assert(third_from(s, a, b, c).len() == 0);
        let m = n - c;
        assert(m * (m - 1) * (m - 2) == 0) by (nonlinear_arith)
            requires m == 0;
    }
}

proof fn lemma_second_len(s: Seq<Card>, a: int, b: int)
    requires
        0 <= b <= s.len(),
    ensures
        24 * (second_from(s, a, b).len() as int) == (s.len() - b) * (s.len() - b - 1) * (s.len()
            - b - 2) * (s.len() - b - 3),
    decreases s.len() - b,
{
    let n = s.len() as int;
    if b < n {
        lemma_third_len(s, a, b, b + 1);
        lemma_second_len(s, a, b + 1);
        assert(second_from(s, a, b) == third_from(s, a, b, b + 1) + second_from(s, a, b + 1));
        assert(second_from(s, a, b).len() as int == third_from(s, a, b, b + 1).len() as int
            + second_from(s, a, b + 1).len() as int);
        let m = n - b;
        let q = third_from(s, a, b, b + 1).len() as int;
        let r = second_from(s, a, b + 1).len() as int;
        assert(6 * q == (m - 1) * (m - 2) * (m - 3));
        assert(24 * r == (m - 1) * (m - 2) * (m - 3) * (m - 4));
        assert(24 * (q + r) == 4 * (6 * q) + 24 * r);
        assert(4 * ((m - 1) * (m - 2) * (m - 3)) + (m - 1) * (m - 2) * (m - 3) * (m - 4) == m * (m
            - 1) * (m - 2) * (m - 3)) by (nonlinear_arith);
    } else {
        assert(second_from(s, a, b).len() == 0);
        let m = n - b;
        assert(m * (m - 1) * (m - 2) * (m - 3) == 0) by (nonlinear_arith)
            requires m == 0;
    }
}

proof fn lemma_first_len(s: Seq<Card>, a: int)
    requires
        0 <= a <= s.len(),
    ensures
        120 * (first_from(s, a).len() as int) == (s.len() - a) * (s.len() - a - 1) * (s.len() - a
            - 2) * (s.len() - a - 3) * (s.len() - a - 4),
    decreases s.len() - a,
{
    let n = s.len() as int;
    if a < n {
        lemma_second_len(s, a, a + 1);
        lemma_first_len(s, a + 1);
        assert(first_from(s, a) == second_from(s, a, a + 1) + first_from(s, a + 1));
        assert(first_from(s, a).len() as int == second_from(s, a, a + 1).len() as int + first_from(
            s,
            a + 1,
        ).len() as int);
        let m = n - a;
        let q = second_from(s, a, a + 1).len() as int;
        let r = first_from(s, a + 1).len() as int;
        assert(24 * q == (m - 1) * (m - 2) * (m - 3) * (m - 4));
        assert(120 * r == (m - 1) * (m - 2) * (m - 3) * (m - 4) * (m - 5));
        assert(120 * (q + r) == 5 * (24 * q) + 120 * r);
        assert(5 * ((m - 1) * (m - 2) * (m - 3) * (m - 4)) + (m - 1) * (m - 2) * (m - 3) * (m - 4)
            * (m - 5) == m * (m - 1) * (m - 2) * (m - 3) * (m - 4)) by (nonlinear_arith);
    } else {
        assert(first_from(s, a).len() == 0);
        let m = n - a;
        assert(m * (m - 1) * (m - 2) * (m - 3) * (m - 4) == 0) by (nonlinear_arith)
            requires m == 0;
    }
}

/// Law: the canonical enumeration holds exactly one entry for each of the
/// C(n,5) choices of five positions out of n — so one for five cards, six
/// for six, twenty-one for seven.
pub proof fn lemma_combos_spec_len(s: Seq<Card>)
    ensures
        120 * combos_spec(s).len() == (s.len() as int) * (s.len() - 1) * (s.len() - 2) * (s.len()
            - 3) * (s.len() - 4),
        s.len() == 5 ==> combos_spec(s).len() == 1,
        s.len() == 6 ==> combos_spec(s).len() == 6,
        s.len() == 7 ==> combos_spec(s).len() == 21,
{
    lemma_first_len(s, 0);
    let n = s.len() as int;
    if n == 5 {
        assert(n * (n - 1) * (n - 2) * (n - 3) * (n - 4) == 120) by (nonlinear_arith)
            requires n == 5;
    }
    if n == 6 {
        assert(n * (n - 1) * (n - 2) * (n - 3) * (n - 4) == 720) by (nonlinear_arith)
            requires n == 6;
    }
    if n == 7 {
        assert(n * (n - 1) * (n - 2) * (n - 3) * (n - 4) == 2520) by (nonlinear_arith)
            requires n == 7;
    }
}

/// The selection at these positions appears among the generated choices.
pub open spec fn combo_in(
    s: Seq<Card>,
    out: Seq<[Card; 5]>,
    a: int,
    b: int,
    c: int,
    d: int,
    e: int,
) -> bool {
    exists|j: int| 0 <= j < out.len() && out[j]@ == sel5(s, a, b, c, d, e)
}

/// Every generated choice is a selection at some five increasing positions.
pub open spec fn combos_sound(s: Seq<Card>, out: Seq<[Card; 5]>) -> bool {
    forall|j: int|
        0 <= j < out.len() ==> exists|a: int, b: int, c: int, d: int, e: int|
            valid_idx5(s.len() as int, a, b, c, d, e) && #[trigger] out[j]@ == sel5(
                s,
                a,
                b,
                c,
                d,
                e,
            )
}

/// Pushing one more choice keeps every selection already present.
proof fn lemma_combo_in_push(s: Seq<Card>, out: Seq<[Card; 5]>, x: [Card; 5])
    ensures
        forall|a: int, b: int, c: int, d: int, e: int|
            combo_in(s, out, a, b, c, d, e) ==> #[trigger] combo_in(
                s,
                out.push(x),
                a,
                b,
                c,
                d,
                e,
            ),
{
    assert forall|a: int, b: int, c: int, d: int, e: int|
        combo_in(s, out, a, b, c, d, e) implies #[trigger] combo_in(
        s,
        out.push(x),
        a,
        b,
        c,
        d,
        e,
    ) by {
        let j = choose|j: int| 0 <= j < out.len() && out[j]@ == sel5(s, a, b, c, d, e);
        assert(out.push(x)[j]@ == sel5(s, a, b, c, d, e));
    }
}

spec fn cov1(s: Seq<Card>, out: Seq<[Card; 5]>, a: int) -> bool {
    forall|i1: int, i2: int, i3: int, i4: int, i5: int|
        valid_idx5(s.len() as int, i1, i2, i3, i4, i5) && i1 < a ==> #[trigger] combo_in(
            s,
            out,
            i1,
            i2,
            i3,
            i4,
            i5,
        )
}

spec fn cov2(s: Seq<Card>, out: Seq<[Card; 5]>, a: int, b: int) -> bool {
    forall|i2: int, i3: int, i4: int, i5: int|
        valid_idx5(s.len() as int, a, i2, i3, i4, i5) && i2 < b ==> #[trigger] combo_in(
            s,
            out,
            a,
            i2,
            i3,
            i4,
            i5,
        )
}

spec fn cov3(s: Seq<Card>, out: Seq<[Card; 5]>, a: int, b: int, c: int) -> bool {
    forall|i3: int, i4: int, i5: int|
        valid_idx5(s.len() as int, a, b, i3, i4, i5) && i3 < c ==> #[trigger] combo_in(
            s,
            out,
            a,
            b,
            i3,
            i4,
            i5,
        )
}

spec fn cov4(s: Seq<Card>, out: Seq<[Card; 5]>, a: int, b: int, c: int, d: int) -> bool {
    forall|i4: int, i5: int|
        valid_idx5(s.len() as int, a, b, c, i4, i5) && i4 < d ==> #[trigger] combo_in(
            s,
            out,
            a,
            b,
            c,
            i4,
            i5,
        )
}

spec fn cov5(s: Seq<Card>, out: Seq<[Card; 5]>, a: int, b: int, c: int, d: int, e: int) -> bool {
    forall|i5: int|
        valid_idx5(s.len() as int, a, b, c, d, i5) && i5 < e ==> #[trigger] combo_in(
            s,
            out,
            a,
            b,
            c,
            d,
            i5,
        )
}

/// Every distinct choice of five cards out of the given ones, one entry
/// for each choice of five increasing index positions, in canonical
/// lexicographic order of those positions.
pub fn combinations_5(cards: &[Card]) -> (out: Vec<[Card; 5]>)
    ensures
        out@.len() == combos_spec(cards@).len(),
        forall|j: int| 0 <= j < out@.len() ==> #[trigger] out@[j]@ == combos_spec(cards@)[j],
        120 * (out@.len() as int) == (cards@.len() as int) * (cards@.len() - 1) * (cards@.len()
            - 2) * (cards@.len() - 3) * (cards@.len() - 4),
        combos_sound(cards@, out@),
        forall|a: int, b: int, c: int, d: int, e: int|
            valid_idx5(cards@.len() as int, a, b, c, d, e) ==> #[trigger] combo_in(
                cards@,
                out@,
                a,
                b,
                c,
                d,
                e,
            ),
{
    let ghost s = cards@;
    let n = cards.len();
    let mut out: Vec<[Card; 5]> = Vec::new();
    proof {
        assert(views_of(out@) =~= Seq::<Seq<Card>>::empty());
        assert(views_of(out@) + first_from(s, 0) =~= first_from(s, 0));
    }
    let mut a: usize = 0;
    while a < n
        invariant
            0 <= a <= n,
            n == s.len(),
            s == cards@,
            combos_sound(s, out@),
            cov1(s, out@, a as int),
            combos_spec(s) == views_of(out@) + first_from(s, a as int),
        decreases n - a,
    {
        let mut b: usize = a + 1;
        proof {
            assert(first_from(s, a as int) == second_from(s, a as int, a as int + 1) + first_from(
                s,
                a as int + 1,
            ));
            assert(views_of(out@) + (second_from(s, a as int, a as int + 1) + first_from(
                s,
                a as int + 1,
            )) =~= views_of(out@) + second_from(s, a as int, a as int + 1) + first_from(
                s,
                a as int + 1,
            ));
        }
        while b < n
            invariant
                0 <= a < b <= n + 1,
                b > a,
                n == s.len(),
                s == cards@,
                combos_sound(s, out@),
                cov1(s, out@, a as int),
                cov2(s, out@, a as int, b as int),
                combos_spec(s) == views_of(out@) + second_from(s, a as int, b as int) + first_from(
                    s,
                    a as int + 1,
                ),
            decreases n - b,
        {
            let mut c: usize = b + 1;
            proof {
                assert(second_from(s, a as int, b as int) == third_from(s, a as int, b as int,
                b as int + 1) + second_from(s, a as int, b as int + 1));
                assert(views_of(out@) + (third_from(s, a as int, b as int, b as int + 1)
                    + second_from(s, a as int, b as int + 1)) =~= views_of(out@) + third_from(
                    s,
                    a as int,
                    b as int,
                    b as int + 1,
                ) + second_from(s, a as int, b as int + 1));
            }
            while c < n
                invariant
                    0 <= a < b < c <= n + 1,
                    n == s.len(),
                    s == cards@,
                    combos_sound(s, out@),
                    cov1(s, out@, a as int),
                    cov2(s, out@, a as int, b as int),
                    cov3(s, out@, a as int, b as int, c as int),
                    combos_spec(s) == views_of(out@) + third_from(s, a as int, b as int, c as int)
                        + second_from(s, a as int, b as int + 1) + first_from(s, a as int + 1),
                decreases n - c,
            {
                let mut d: usize = c + 1;
                proof {
                    assert(third_from(s, a as int, b as int, c as int) == fourth_from(s, a as int,
                    b as int, c as int, c as int + 1) + third_from(s, a as int, b as int,
                    c as int + 1));
                    assert(views_of(out@) + (fourth_from(s, a as int, b as int, c as int,
                    c as int + 1) + third_from(s, a as int, b as int, c as int + 1)) =~= views_of(
                        out@,
                    ) + fourth_from(s, a as int, b as int, c as int, c as int + 1) + third_from(
                        s,
                        a as int,
                        b as int,
                        c as int + 1,
                    ));
                }
                while d < n
                    invariant
                        0 <= a < b < c < d <= n + 1,
                        n == s.len(),
                        s == cards@,
                        combos_sound(s, out@),
                        cov1(s, out@, a as int),
                        cov2(s, out@, a as int, b as int),
                        cov3(s, out@, a as int, b as int, c as int),
                        cov4(s, out@, a as int, b as int, c as int, d as int),
                        combos_spec(s) == views_of(out@) + fourth_from(s, a as int, b as int,
                        c as int, d as int) + third_from(s, a as int, b as int, c as int + 1)
                            + second_from(s, a as int, b as int + 1) + first_from(s, a as int + 1),
                    decreases n - d,
                {
                    let mut e: usize = d + 1;
                    proof {
                        assert(fourth_from(s, a as int, b as int, c as int, d as int)
                            == fifth_from(s, a as int, b as int, c as int, d as int, d as int + 1)
                            + fourth_from(s, a as int, b as int, c as int, d as int + 1));
                        assert(views_of(out@) + (fifth_from(s, a as int, b as int, c as int,
                        d as int, d as int + 1) + fourth_from(s, a as int, b as int, c as int,
                        d as int + 1)) =~= views_of(out@) + fifth_from(s, a as int, b as int,
                        c as int, d as int, d as int + 1) + fourth_from(s, a as int, b as int,
                        c as int, d as int + 1));
                    }
                    while e < n
                        invariant
                            0 <= a < b < c < d < e <= n + 1,
                            e > d,
                            n == s.len(),
                            s == cards@,
                            combos_sound(s, out@),
                            cov1(s, out@, a as int),
                            cov2(s, out@, a as int, b as int),
                            cov3(s, out@, a as int, b as int, c as int),
                            cov4(s, out@, a as int, b as int, c as int, d as int),
                            cov5(s, out@, a as int, b as int, c as int, d as int, e as int),
                            combos_spec(s) == views_of(out@) + fifth_from(s, a as int, b as int,
                            c as int, d as int, e as int) + fourth_from(s, a as int, b as int,
                            c as int, d as int + 1) + third_from(s, a as int, b as int, c as int
                                + 1) + second_from(s, a as int, b as int + 1) + first_from(
                                s,
                                a as int + 1,
                            ),
                        decreases n - e,
                    {
                        let ghost pre = out@;
                        let combo: [Card; 5] = [cards[a], cards[b], cards[c], cards[d], cards[e]];
                        out.push(combo);
                        proof {
                            lemma_combo_in_push(s, pre, combo);
                            assert(combo@ =~= sel5(s, a as int, b as int, c as int, d as int,
                            e as int));
                            assert(out@[pre.len() as int]@ == sel5(s, a as int, b as int, c as int,
                            d as int, e as int));
                            assert(combo_in(s, out@, a as int, b as int, c as int, d as int,
                            e as int));
                            assert(fifth_from(s, a as int, b as int, c as int, d as int, e as int)
                                == seq![sel5(s, a as int, b as int, c as int, d as int, e as int)]
                                + fifth_from(s, a as int, b as int, c as int, d as int,
                            e as int + 1));
                            assert(views_of(out@) =~= views_of(pre) + seq![
                                sel5(s, a as int, b as int, c as int, d as int, e as int),
                            ]);
                            assert(views_of(pre) + (seq![
                                sel5(s, a as int, b as int, c as int, d as int, e as int),
                            ] + fifth_from(s, a as int, b as int, c as int, d as int, e as int + 1))
                                =~= views_of(out@) + fifth_from(s, a as int, b as int, c as int,
                            d as int, e as int + 1));
                        }
                        e += 1;
                    }
                    proof {
                        assert(fifth_from(s, a as int, b as int, c as int, d as int, e as int)
                            =~= Seq::<Seq<Card>>::empty());
                        assert(views_of(out@) + fifth_from(s, a as int, b as int, c as int,
                        d as int, e as int) =~= views_of(out@));
                    }
                    d += 1;
                }
                proof {
                    assert(fourth_from(s, a as int, b as int, c as int, d as int)
                        =~= Seq::<Seq<Card>>::empty());
                    assert(views_of(out@) + fourth_from(s, a as int, b as int, c as int, d as int)
                        =~= views_of(out@));
                }
                c += 1;
            }
            proof {
                assert(third_from(s, a as int, b as int, c as int) =~= Seq::<Seq<Card>>::empty());
                assert(views_of(out@) + third_from(s, a as int, b as int, c as int) =~= views_of(
                    out@,
                ));
            }
            b += 1;
        }
        proof {
            assert(second_from(s, a as int, b as int) =~= Seq::<Seq<Card>>::empty());
            assert(views_of(out@) + second_from(s, a as int, b as int) =~= views_of(out@));
        }
        a += 1;
    }
    proof {
        assert(first_from(s, a as int) =~= Seq::<Seq<Card>>::empty());
        assert(views_of(out@) + first_from(s, a as int) =~= views_of(out@));
        assert(combos_spec(s) == views_of(out@));
        lemma_combos_spec_len(s);
    }
    out
}

// ---------- the best-hand selector ----------

/// `e` ranks at least as high as a classification of the five cards `s`.
pub open spec fn dominates(e: EvaluatedHand, s: Seq<Card>) -> bool {
    crate::hand::cmp_key(category_of(s), key_of(s), e.category, e.ranks@)
        != core::cmp::Ordering::Greater
}

/// A tie-break key always fills exactly five slots.
pub proof fn lemma_key_len(s: Seq<Card>)
    ensures
        key_of(s).len() == 5,
{
}

/// The best five-card hand obtainable from five to seven cards: the
/// result classifies one of the five-card choices, and no choice
/// classifies higher.
pub fn evaluate_best(cards: &[Card]) -> (best: EvaluatedHand)
    requires
        5 <= cards@.len() <= 7,
    ensures
        exists|a: int, b: int, c: int, d: int, e: int|
            valid_idx5(cards@.len() as int, a, b, c, d, e) && eval_matches(
                #[trigger] sel5(cards@, a, b, c, d, e),
                best,
            ),
        forall|a: int, b: int, c: int, d: int, e: int|
            valid_idx5(cards@.len() as int, a, b, c, d, e) ==> dominates(
                best,
                #[trigger] sel5(cards@, a, b, c, d, e),
            ),
{
    let ghost s = cards@;
    let combos = combinations_5(cards);
    proof {
        assert(valid_idx5(s.len() as int, 0, 1, 2, 3, 4));
        assert(combo_in(s, combos@, 0, 1, 2, 3, 4));
        let j = choose|j: int| 0 <= j < combos@.len() && combos@[j]@ == sel5(s, 0, 1, 2, 3, 4);
        assert(combos@.len() > 0);
    }
    let first = combos[0];
    let mut best = evaluate_five(first);
    let mut i: usize = 1;
    proof {
        lemma_dominates_self(s, combos@[0]@, best);
    }
    while i < combos.len()
        invariant
            1 <= i <= combos@.len(),
            s == cards@,
            combos_sound(s, combos@),
            exists|a: int, b: int, c: int, d: int, e: int|
                valid_idx5(s.len() as int, a, b, c, d, e) && eval_matches(
                    #[trigger] sel5(s, a, b, c, d, e),
                    best,
                ),
            forall|j: int| 0 <= j < i ==> dominates(best, #[trigger] combos@[j]@),
        decreases combos@.len() - i,
    {
        let next = combos[i];
        let ev = evaluate_five(next);
        if best < ev {
            proof {
                lemma_best_update(s, combos@, i as int, best, ev);
            }
            best = ev;
        } else {
            proof {
                lemma_best_keep(s, combos@[i as int]@, best, ev);
            }
        }
        i += 1;
    }
    proof {
        assert forall|a: int, b: int, c: int, d: int, e: int|
            valid_idx5(s.len() as int, a, b, c, d, e) implies dominates(
            best,
            #[trigger] sel5(s, a, b, c, d, e),
        ) by {
            assert(combo_in(s, combos@, a, b, c, d, e));
            let j = choose|j: int|
                0 <= j < combos@.len() && combos@[j]@ == sel5(s, a, b, c, d, e);
            assert(dominates(best, combos@[j]@));
        }
    }
    best
}

/// A classification of a five-card choice ranks at least as high as that
/// choice itself.
proof fn lemma_dominates_self(s: Seq<Card>, chosen: Seq<Card>, e: EvaluatedHand)
    requires
        eval_matches(chosen, e),
    ensures
        dominates(e, chosen),
{
    lemma_key_len(chosen);
    crate::hand::lemma_cmp_key_flip(category_of(chosen), key_of(chosen), e.category, e.ranks@);
}

/// When the freshly classified choice beats the best hand so far, it
/// dominates everything the old best dominated.
proof fn lemma_best_update(
    s: Seq<Card>,
    combos: Seq<[Card; 5]>,
    i: int,
    old_best: EvaluatedHand,
    ev: EvaluatedHand,
)
    requires
        0 <= i < combos.len(),
        eval_matches(combos[i]@, ev),
        hand_cmp_spec(old_best, ev) == core::cmp::Ordering::Less,
        forall|j: int| 0 <= j < i ==> dominates(old_best, #[trigger] combos[j]@),
        combos_sound(s, combos),
        exists|a: int, b: int, c: int, d: int, e: int|
            valid_idx5(s.len() as int, a, b, c, d, e) && eval_matches(
                #[trigger] sel5(s, a, b, c, d, e),
                old_best,
            ),
    ensures
        forall|j: int| 0 <= j <= i ==> dominates(ev, #[trigger] combos[j]@),
{
    lemma_dominates_self(s, combos[i]@, ev);
    assert forall|j: int| 0 <= j <= i implies dominates(ev, #[trigger] combos[j]@) by {
        if j < i {
            let ghost chosen = combos[j]@;
            lemma_key_len(chosen);
            crate::hand::lemma_cmp_key_trans(
                category_of(chosen),
                key_of(chosen),
                old_best.category,
                old_best.ranks@,
                ev.category,
                ev.ranks@,
            );
        }
    }
}

/// When the freshly classified choice does not beat the best hand so far,
/// the best hand dominates it too.
proof fn lemma_best_keep(s: Seq<Card>, chosen: Seq<Card>, best: EvaluatedHand, ev: EvaluatedHand)
    requires
        eval_matches(chosen, ev),
        hand_cmp_spec(best, ev) != core::cmp::Ordering::Less,
    ensures
        dominates(best, chosen),
{
    lemma_key_len(chosen);
    crate::hand::lemma_cmp_key_flip(category_of(chosen), key_of(chosen), best.category,
    best.ranks@);
    crate::hand::lemma_cmp_key_flip(ev.category, ev.ranks@, best.category, best.ranks@);
    crate::hand::lemma_cmp_key_flip(best.category, best.ranks@, ev.category, ev.ranks@);
}

// ---------- laws of the classification ----------

/// Counts are never negative.
proof fn lemma_count_nonneg(rs: Seq<Rank>, v: int)
    ensures
        count_val(rs, v) >= 0,
    decreases rs.len(),
{
    if rs.len() > 0 {
        lemma_count_nonneg(rs.drop_last(), v);
    }
}

/// No rank carries a face value outside 2..=14.
proof fn lemma_count_out_of_range(rs: Seq<Rank>, v: int)
    requires
        v < 2 || v > 14,
    ensures
        count_val(rs, v) == 0,
    decreases rs.len(),
{
    if rs.len() > 0 {
        lemma_count_out_of_range(rs.drop_last(), v);
        crate::card::lemma_rank_val_bijective();
    }
}

/// Six pairwise distinct face values cannot count more occurrences than
/// there are ranks.
proof fn lemma_count_bound6(rs: Seq<Rank>, v1: int, v2: int, v3: int, v4: int, v5: int, v6: int)
    requires
        v1 != v2 && v1 != v3 && v1 != v4 && v1 != v5 && v1 != v6,
        v2 != v3 && v2 != v4 && v2 != v5 && v2 != v6,
        v3 != v4 && v3 != v5 && v3 != v6,
        v4 != v5 && v4 != v6,
        v5 != v6,
    ensures
        count_val(rs, v1) + count_val(rs, v2) + count_val(rs, v3) + count_val(rs, v4) + count_val(
            rs,
            v5,
        ) + count_val(rs, v6) <= rs.len(),
    decreases rs.len(),
{
    if rs.len() > 0 {
        lemma_count_bound6(rs.drop_last(), v1, v2, v3, v4, v5, v6);
    }
}

/// A nonempty group list at count `c` names a face value with that count,
/// and conversely.
proof fn lemma_rwc_exists(rs: Seq<Rank>, c: int, v: int)
    requires
        v <= 14,
    ensures
        ranks_with_count(rs, c, v).len() > 0 <==> exists|w: int|
            2 <= w <= v && #[trigger] count_val(rs, w) == c,
    decreases v,
{
    if v >= 2 {
        lemma_rwc_exists(rs, c, v - 1);
    }
}

/// The total number of rank occurrences over the face values 2..=`v`.
spec fn sum_counts(rs: Seq<Rank>, v: int) -> int
    decreases v,
{
    if v < 2 {
        0
    } else {
        count_val(rs, v) + sum_counts(rs, v - 1)
    }
}

proof fn lemma_sum_empty(rs: Seq<Rank>, v: int)
    requires
        rs.len() == 0,
    ensures
        sum_counts(rs, v) == 0,
    decreases v,
{
    if v >= 2 {
        lemma_sum_empty(rs, v - 1);
    }
}

/// One more rank raises exactly one bucket of the sum by one.
proof fn lemma_sum_push(rs: Seq<Rank>, v: int)
    requires
        rs.len() > 0,
    ensures
        sum_counts(rs, v) == sum_counts(rs.drop_last(), v) + if 2 <= rank_val(rs.last()) <= v {
            1int
        } else {
            0int
        },
    decreases v,
{
    crate::card::lemma_rank_val_bijective();
    if v >= 2 {
        lemma_sum_push(rs, v - 1);
    }
}

/// Every rank falls in exactly one bucket: the buckets sum to the hand's
/// size.
proof fn lemma_sum_total(rs: Seq<Rank>)
    ensures
        sum_counts(rs, 14) == rs.len(),
    decreases rs.len(),
{
    if rs.len() == 0 {
        lemma_sum_empty(rs, 14);
    } else {
        lemma_sum_total(rs.drop_last());
        lemma_sum_push(rs, 14);
        crate::card::lemma_rank_val_bijective();
    }
}

/// Each pair accounts for two of the occurrences.
proof fn lemma_sum_ge_pairs(rs: Seq<Rank>, v: int)
    ensures
        sum_counts(rs, v) >= 2 * ranks_with_count(rs, 2, v).len(),
    decreases v,
{
    if v >= 2 {
        lemma_sum_ge_pairs(rs, v - 1);
        lemma_count_nonneg(rs, v);
    }
}

/// Five cards hold at most two pairs.
proof fn lemma_pairs_le_two(rs: Seq<Rank>)
    requires
        rs.len() == 5,
    ensures
        num_pairs(rs) <= 2,
{
    lemma_sum_total(rs);
    lemma_sum_ge_pairs(rs, 14);
}

/// What the straight scan finds: a nonzero high value names a run of five
/// consecutive values, or the wheel with high value 5.
proof fn lemma_straight_scan(rs: Seq<Rank>, hi: int)
    requires
        hi <= 14,
    ensures
        straight_high_from(rs, hi) != 0 ==> (6 <= straight_high_from(rs, hi) <= hi && run5_at(
            rs,
            straight_high_from(rs, hi),
        )) || (straight_high_from(rs, hi) == 5 && is_wheel(rs)),
    decreases hi,
{
    if hi >= 6 {
        lemma_straight_scan(rs, hi - 1);
    }
}

/// In a five-rank straight every face value occurs at most once: five
/// distinct values must each occur, and five ranks are all there are.
pub proof fn lemma_straight_all_single(rs: Seq<Rank>)
    requires
        rs.len() == 5,
        is_straight(rs),
    ensures
        forall|w: int| #[trigger] count_val(rs, w) <= 1,
{
    lemma_straight_scan(rs, 14);
    let h = straight_high(rs);
    assert forall|w: int| #[trigger] count_val(rs, w) <= 1 by {
        lemma_count_nonneg(rs, w);
        if count_val(rs, w) >= 2 {
            if 6 <= h <= 14 && run5_at(rs, h) {
                if w == h || w == h - 1 || w == h - 2 || w == h - 3 || w == h - 4 {
                    lemma_count_bound6(rs, h, h - 1, h - 2, h - 3, h - 4, 15);
                    lemma_count_nonneg(rs, 15);
                } else {
                    lemma_count_bound6(rs, h, h - 1, h - 2, h - 3, h - 4, w);
                }
            } else {
                if w == 14 || w == 5 || w == 4 || w == 3 || w == 2 {
                    lemma_count_bound6(rs, 14, 5, 4, 3, 2, 15);
                    lemma_count_nonneg(rs, 15);
                } else {
                    lemma_count_bound6(rs, 14, 5, 4, 3, 2, w);
                }
            }
        }
    }
}

/// Law: the categories are mutually exclusive and every five-card hand
/// falls in exactly one — the one these characterizations name. A straight
/// leaves no room for a repeated rank; quads, trips and pairs crowd each
/// other out of five cards; only the flush, decided by suits alone, must
/// be told apart from the rank patterns explicitly.
pub proof fn lemma_category_characterized(s: Seq<Card>)
    requires
        s.len() == 5,
    ensures
        category_of(s) == HandCategory::StraightFlush <==> is_straight(ranks_seq(s)) && is_flush(
            s,
        ),
        category_of(s) == HandCategory::Quads <==> has_quads(ranks_seq(s)),
        category_of(s) == HandCategory::FullHouse <==> has_trips(ranks_seq(s)) && num_pairs(
            ranks_seq(s),
        ) >= 1,
        category_of(s) == HandCategory::Flush <==> is_flush(s) && !is_straight(ranks_seq(s))
            && !has_quads(ranks_seq(s)) && !(has_trips(ranks_seq(s)) && num_pairs(ranks_seq(s))
            >= 1),
        category_of(s) == HandCategory::Straight <==> is_straight(ranks_seq(s)) && !is_flush(s),
        category_of(s) == HandCategory::Trips <==> has_trips(ranks_seq(s)) && num_pairs(
            ranks_seq(s),
        ) == 0 && !is_flush(s),
        category_of(s) == HandCategory::TwoPair <==> num_pairs(ranks_seq(s)) == 2 && !has_trips(
            ranks_seq(s),
        ) && !is_flush(s),
        category_of(s) == HandCategory::OnePair <==> num_pairs(ranks_seq(s)) == 1 && !has_trips(
            ranks_seq(s),
        ) && !has_quads(ranks_seq(s)) && !is_flush(s),
        category_of(s) == HandCategory::HighCard <==> num_pairs(ranks_seq(s)) == 0 && !has_trips(
            ranks_seq(s),
        ) && !has_quads(ranks_seq(s)) && !is_straight(ranks_seq(s)) && !is_flush(s),
{
    let rs = ranks_seq(s);
    lemma_rwc_exists(rs, 4, 14);
    lemma_rwc_exists(rs, 3, 14);
    lemma_rwc_exists(rs, 2, 14);
    lemma_pairs_le_two(rs);
    if is_straight(rs) {
        lemma_straight_all_single(rs);
        assert(!has_quads(rs));
        assert(!has_trips(rs));
        assert(num_pairs(rs) == 0) by {
            if num_pairs(rs) != 0 {
                let w = choose|w: int| 2 <= w <= 14 && #[trigger] count_val(rs, w) == 2;
                assert(count_val(rs, w) <= 1);
            }
        }
    }
    if has_quads(rs) {
        let q = choose|w: int| 2 <= w <= 14 && #[trigger] count_val(rs, w) == 4;
        if has_trips(rs) {
            let t = choose|w: int| 2 <= w <= 14 && #[trigger] count_val(rs, w) == 3;
            lemma_count_bound6(rs, q, t, 15, 16, 17, 18);
            lemma_count_nonneg(rs, 15);
            lemma_count_nonneg(rs, 16);
            lemma_count_nonneg(rs, 17);
            lemma_count_nonneg(rs, 18);
        }
        if num_pairs(rs) >= 1 {
            let p = choose|w: int| 2 <= w <= 14 && #[trigger] count_val(rs, w) == 2;
            lemma_count_bound6(rs, q, p, 15, 16, 17, 18);
            lemma_count_nonneg(rs, 15);
            lemma_count_nonneg(rs, 16);
            lemma_count_nonneg(rs, 17);
            lemma_count_nonneg(rs, 18);
        }
        assert(!is_straight(rs)) by {
            if is_straight(rs) {
                lemma_straight_all_single(rs);
            }
        }
    }
    if has_trips(rs) {
        assert(!is_straight(rs)) by {
            if is_straight(rs) {
                lemma_straight_all_single(rs);
            }
        }
    }
    if num_pairs(rs) >= 1 {
        assert(!is_straight(rs)) by {
            if is_straight(rs) {
                lemma_straight_all_single(rs);
            }
        }
    }
}

/// Law: a best hand never settles for a flush when some five-card choice
/// makes a full house: the full house's higher category prevails.
pub proof fn lemma_full_house_over_flush(cards: Seq<Card>, best: EvaluatedHand)
    requires
        forall|a: int, b: int, c: int, d: int, e: int|
            valid_idx5(cards.len() as int, a, b, c, d, e) ==> dominates(
                best,
                #[trigger] sel5(cards, a, b, c, d, e),
            ),
        exists|a: int, b: int, c: int, d: int, e: int|
            valid_idx5(cards.len() as int, a, b, c, d, e) && category_of(
                #[trigger] sel5(cards, a, b, c, d, e),
            ) == HandCategory::FullHouse,
    ensures
        cat_val(best.category) >= cat_val(HandCategory::FullHouse),
        best.category != HandCategory::Flush,
{
    let (a, b, c, d, e) = choose|a: int, b: int, c: int, d: int, e: int|
        valid_idx5(cards.len() as int, a, b, c, d, e) && category_of(
            #[trigger] sel5(cards, a, b, c, d, e),
        ) == HandCategory::FullHouse;
    assert(dominates(best, sel5(cards, a, b, c, d, e)));
}

/// Law: the value of the best hand is a function of the cards alone. Any
/// two results that each classify some five-card choice and dominate all
/// of them carry one and the same category and tie-break key.
pub proof fn lemma_best_hand_deterministic(cards: Seq<Card>, r1: EvaluatedHand, r2: EvaluatedHand)
    requires
        forall|a: int, b: int, c: int, d: int, e: int|
            valid_idx5(cards.len() as int, a, b, c, d, e) ==> dominates(
                r1,
                #[trigger] sel5(cards, a, b, c, d, e),
            ),
        forall|a: int, b: int, c: int, d: int, e: int|
            valid_idx5(cards.len() as int, a, b, c, d, e) ==> dominates(
                r2,
                #[trigger] sel5(cards, a, b, c, d, e),
            ),
        exists|a: int, b: int, c: int, d: int, e: int|
            valid_idx5(cards.len() as int, a, b, c, d, e) && eval_matches(
                #[trigger] sel5(cards, a, b, c, d, e),
                r1,
            ),
        exists|a: int, b: int, c: int, d: int, e: int|
            valid_idx5(cards.len() as int, a, b, c, d, e) && eval_matches(
                #[trigger] sel5(cards, a, b, c, d, e),
                r2,
            ),
    ensures
        hand_cmp_spec(r1, r2) == core::cmp::Ordering::Equal,
        r1.category == r2.category,
        r1.ranks@ == r2.ranks@,
{
    let (a1, b1, c1, d1, e1) = choose|a: int, b: int, c: int, d: int, e: int|
        valid_idx5(cards.len() as int, a, b, c, d, e) && eval_matches(
            #[trigger] sel5(cards, a, b, c, d, e),
            r1,
        );
    let (a2, b2, c2, d2, e2) = choose|a: int, b: int, c: int, d: int, e: int|
        valid_idx5(cards.len() as int, a, b, c, d, e) && eval_matches(
            #[trigger] sel5(cards, a, b, c, d, e),
            r2,
        );
    let s1 = sel5(cards, a1, b1, c1, d1, e1);
    let s2 = sel5(cards, a2, b2, c2, d2, e2);
    assert(dominates(r2, s1));
    assert(dominates(r1, s2));
    crate::hand::lemma_cmp_key_flip(r1.category, r1.ranks@, r2.category, r2.ranks@);
    crate::hand::lemma_cmp_key_flip(r2.category, r2.ranks@, r1.category, r1.ranks@);
    crate::card::lemma_rank_val_bijective();
    assert(crate::hand::vals_of(r1.ranks@) == crate::hand::vals_of(r2.ranks@)) by {
        crate::hand::lemma_cmp_key_equal_means(
            r1.category,
            r1.ranks@,
            r2.category,
            r2.ranks@,
        );
    }
    assert forall|i: int| 0 <= i < 5 implies r1.ranks@[i] == r2.ranks@[i] by {
        assert(crate::hand::vals_of(r1.ranks@)[i] == crate::hand::vals_of(r2.ranks@)[i]);
        assert(rank_of_val(rank_val(r1.ranks@[i])) == r1.ranks@[i]);
        assert(rank_of_val(rank_val(r2.ranks@[i])) == r2.ranks@[i]);
    }
    assert(r1.ranks@ =~= r2.ranks@);
}

} // verus!
