use holdem::card::{Card, Rank, Suit};
use holdem::eval::{combinations_5, evaluate_best, evaluate_five, straight_high_rank};
use holdem::hand::{Hand, HandCategory};

fn c(rank: Rank, suit: Suit) -> Card {
    Card::new(rank, suit)
}

#[test]
fn straight_broadway_high_ace() {
    let hand = [
        c(Rank::Ten, Suit::Hearts),
        c(Rank::Jack, Suit::Clubs),
        c(Rank::Queen, Suit::Diamonds),
        c(Rank::King, Suit::Spades),
        c(Rank::Ace, Suit::Hearts),
    ];
    let e = evaluate_five(hand);
    assert_eq!(e.category, HandCategory::Straight);
    assert_eq!(e.ranks[0], Rank::Ace);
    let ranks = [Rank::Ace, Rank::King, Rank::Queen, Rank::Jack, Rank::Ten];
    let (is_straight, high) = straight_high_rank(&ranks);
    assert!(is_straight);
    assert_eq!(high, Rank::Ace);
}

#[test]
fn straight_wheel_high_five() {
    let hand = [
        c(Rank::Ace, Suit::Hearts),
        c(Rank::Two, Suit::Clubs),
        c(Rank::Three, Suit::Diamonds),
        c(Rank::Four, Suit::Spades),
        c(Rank::Five, Suit::Hearts),
    ];
    let e = evaluate_five(hand);
    assert_eq!(e.category, HandCategory::Straight);
    assert_eq!(e.ranks[0], Rank::Five);
}

#[test]
fn near_straight_is_no_straight() {
    let hand = [
        c(Rank::Two, Suit::Hearts),
        c(Rank::Three, Suit::Clubs),
        c(Rank::Four, Suit::Diamonds),
        c(Rank::Five, Suit::Spades),
        c(Rank::Seven, Suit::Hearts),
    ];
    let e = evaluate_five(hand);
    assert_eq!(e.category, HandCategory::HighCard);
    let ranks = [Rank::Seven, Rank::Five, Rank::Four, Rank::Three, Rank::Two];
    let (is_straight, high) = straight_high_rank(&ranks);
    assert!(!is_straight);
    assert_eq!(high, Rank::Two);
}

#[test]
fn steel_wheel_is_straight_flush_high_five() {
    let hand = [
        c(Rank::Ace, Suit::Spades),
        c(Rank::Two, Suit::Spades),
        c(Rank::Three, Suit::Spades),
        c(Rank::Four, Suit::Spades),
        c(Rank::Five, Suit::Spades),
    ];
    let e = evaluate_five(hand);
    assert_eq!(e.category, HandCategory::StraightFlush);
    assert_eq!(
        e.ranks,
        [Rank::Five, Rank::Two, Rank::Two, Rank::Two, Rank::Two]
    );
}

#[test]
fn category_keys_are_exact() {
    // Quads: [quad, kicker, pad, pad, pad]
    let quads = evaluate_five([
        c(Rank::Nine, Suit::Hearts),
        c(Rank::Nine, Suit::Clubs),
        c(Rank::Nine, Suit::Diamonds),
        c(Rank::Nine, Suit::Spades),
        c(Rank::Queen, Suit::Hearts),
    ]);
    assert_eq!(quads.category, HandCategory::Quads);
    assert_eq!(
        quads.ranks,
        [Rank::Nine, Rank::Queen, Rank::Two, Rank::Two, Rank::Two]
    );

    // Full house: [trips, pair, pad, pad, pad]
    let full = evaluate_five([
        c(Rank::Three, Suit::Hearts),
        c(Rank::Three, Suit::Clubs),
        c(Rank::Three, Suit::Diamonds),
        c(Rank::King, Suit::Spades),
        c(Rank::King, Suit::Hearts),
    ]);
    assert_eq!(full.category, HandCategory::FullHouse);
    assert_eq!(
        full.ranks,
        [Rank::Three, Rank::King, Rank::Two, Rank::Two, Rank::Two]
    );

    // Flush: all five ranks, descending.
    let flush = evaluate_five([
        c(Rank::Two, Suit::Clubs),
        c(Rank::Nine, Suit::Clubs),
        c(Rank::Five, Suit::Clubs),
        c(Rank::King, Suit::Clubs),
        c(Rank::Seven, Suit::Clubs),
    ]);
    assert_eq!(flush.category, HandCategory::Flush);
    assert_eq!(
        flush.ranks,
        [Rank::King, Rank::Nine, Rank::Seven, Rank::Five, Rank::Two]
    );

    // Trips: [trips, high kicker, low kicker, pad, pad]
    let trips = evaluate_five([
        c(Rank::Jack, Suit::Hearts),
        c(Rank::Jack, Suit::Clubs),
        c(Rank::Jack, Suit::Diamonds),
        c(Rank::Four, Suit::Spades),
        c(Rank::Ace, Suit::Hearts),
    ]);
    assert_eq!(trips.category, HandCategory::Trips);
    assert_eq!(
        trips.ranks,
        [Rank::Jack, Rank::Ace, Rank::Four, Rank::Two, Rank::Two]
    );

    // Two pair: [high pair, low pair, kicker, pad, pad]
    let two_pair = evaluate_five([
        c(Rank::Four, Suit::Hearts),
        c(Rank::Ten, Suit::Clubs),
        c(Rank::Four, Suit::Diamonds),
        c(Rank::Ten, Suit::Spades),
        c(Rank::Six, Suit::Hearts),
    ]);
    assert_eq!(two_pair.category, HandCategory::TwoPair);
    assert_eq!(
        two_pair.ranks,
        [Rank::Ten, Rank::Four, Rank::Six, Rank::Two, Rank::Two]
    );

    // One pair: [pair, kickers descending, pad]
    let one_pair = evaluate_five([
        c(Rank::Eight, Suit::Hearts),
        c(Rank::Three, Suit::Clubs),
        c(Rank::Eight, Suit::Diamonds),
        c(Rank::Queen, Suit::Spades),
        c(Rank::Five, Suit::Hearts),
    ]);
    assert_eq!(one_pair.category, HandCategory::OnePair);
    assert_eq!(
        one_pair.ranks,
        [Rank::Eight, Rank::Queen, Rank::Five, Rank::Three, Rank::Two]
    );

    // High card: all five ranks, descending.
    let high = evaluate_five([
        c(Rank::Two, Suit::Hearts),
        c(Rank::Nine, Suit::Clubs),
        c(Rank::Five, Suit::Diamonds),
        c(Rank::King, Suit::Spades),
        c(Rank::Seven, Suit::Hearts),
    ]);
    assert_eq!(high.category, HandCategory::HighCard);
    assert_eq!(
        high.ranks,
        [Rank::King, Rank::Nine, Rank::Seven, Rank::Five, Rank::Two]
    );
}

#[test]
fn evaluated_cards_come_back_sorted() {
    let e = evaluate_five([
        c(Rank::Two, Suit::Hearts),
        c(Rank::Nine, Suit::Clubs),
        c(Rank::Five, Suit::Diamonds),
        c(Rank::King, Suit::Spades),
        c(Rank::Seven, Suit::Hearts),
    ]);
    assert_eq!(e.cards[0], c(Rank::King, Suit::Spades));
    assert_eq!(e.cards[1], c(Rank::Nine, Suit::Clubs));
    assert_eq!(e.cards[2], c(Rank::Seven, Suit::Hearts));
    assert_eq!(e.cards[3], c(Rank::Five, Suit::Diamonds));
    assert_eq!(e.cards[4], c(Rank::Two, Suit::Hearts));
}

#[test]
fn categories_order_regardless_of_ranks() {
    // A weak sample of each category, versus a strong sample of the one
    // below it: the category must still decide.
    let straight_flush = evaluate_five([
        c(Rank::Two, Suit::Spades),
        c(Rank::Three, Suit::Spades),
        c(Rank::Four, Suit::Spades),
        c(Rank::Five, Suit::Spades),
        c(Rank::Six, Suit::Spades),
    ]);
    let quads = evaluate_five([
        c(Rank::Ace, Suit::Hearts),
        c(Rank::Ace, Suit::Clubs),
        c(Rank::Ace, Suit::Diamonds),
        c(Rank::Ace, Suit::Spades),
        c(Rank::King, Suit::Hearts),
    ]);
    let full_house = evaluate_five([
        c(Rank::Ace, Suit::Hearts),
        c(Rank::Ace, Suit::Clubs),
        c(Rank::Ace, Suit::Diamonds),
        c(Rank::King, Suit::Spades),
        c(Rank::King, Suit::Hearts),
    ]);
    let flush = evaluate_five([
        c(Rank::Ace, Suit::Clubs),
        c(Rank::King, Suit::Clubs),
        c(Rank::Queen, Suit::Clubs),
        c(Rank::Jack, Suit::Clubs),
        c(Rank::Nine, Suit::Clubs),
    ]);
    let straight = evaluate_five([
        c(Rank::Ace, Suit::Hearts),
        c(Rank::King, Suit::Clubs),
        c(Rank::Queen, Suit::Diamonds),
        c(Rank::Jack, Suit::Spades),
        c(Rank::Ten, Suit::Hearts),
    ]);
    let trips = evaluate_five([
        c(Rank::Ace, Suit::Hearts),
        c(Rank::Ace, Suit::Clubs),
        c(Rank::Ace, Suit::Diamonds),
        c(Rank::King, Suit::Spades),
        c(Rank::Queen, Suit::Hearts),
    ]);
    let two_pair = evaluate_five([
        c(Rank::Ace, Suit::Hearts),
        c(Rank::Ace, Suit::Clubs),
        c(Rank::King, Suit::Diamonds),
        c(Rank::King, Suit::Spades),
        c(Rank::Queen, Suit::Hearts),
    ]);
    let one_pair = evaluate_five([
        c(Rank::Ace, Suit::Hearts),
        c(Rank::Ace, Suit::Clubs),
        c(Rank::King, Suit::Diamonds),
        c(Rank::Queen, Suit::Spades),
        c(Rank::Jack, Suit::Hearts),
    ]);
    let high_card = evaluate_five([
        c(Rank::Ace, Suit::Hearts),
        c(Rank::King, Suit::Clubs),
        c(Rank::Queen, Suit::Diamonds),
        c(Rank::Jack, Suit::Spades),
        c(Rank::Nine, Suit::Hearts),
    ]);
    assert!(straight_flush > quads);
    assert!(quads > full_house);
    assert!(full_house > flush);
    assert!(flush > straight);
    assert!(straight > trips);
    assert!(trips > two_pair);
    assert!(two_pair > one_pair);
    assert!(one_pair > high_card);
}

#[test]
fn equal_pairs_ordered_by_kickers() {
    let a = evaluate_five([
        c(Rank::King, Suit::Hearts),
        c(Rank::King, Suit::Clubs),
        c(Rank::Ace, Suit::Diamonds),
        c(Rank::Nine, Suit::Spades),
        c(Rank::Three, Suit::Hearts),
    ]);
    let b = evaluate_five([
        c(Rank::King, Suit::Diamonds),
        c(Rank::King, Suit::Spades),
        c(Rank::Ace, Suit::Hearts),
        c(Rank::Eight, Suit::Clubs),
        c(Rank::Five, Suit::Diamonds),
    ]);
    assert_eq!(a.category, HandCategory::OnePair);
    assert_eq!(b.category, HandCategory::OnePair);
    assert!(a > b);
    assert!(b < a);
}

#[test]
fn combinations_count_is_complete() {
    let mut seven: Vec<Card> = Vec::new();
    let ranks = [
        Rank::Two,
        Rank::Five,
        Rank::Seven,
        Rank::Nine,
        Rank::Jack,
        Rank::King,
        Rank::Ace,
    ];
    for r in ranks.iter() {
        seven.push(c(*r, Suit::Hearts));
    }
    assert_eq!(combinations_5(&seven).len(), 21);
    assert_eq!(combinations_5(&seven[0..6]).len(), 6);
    assert_eq!(combinations_5(&seven[0..5]).len(), 1);
}

#[test]
fn best_of_seven_finds_quads() {
    let mut hand = Hand::new();
    hand.add_hole_card(c(Rank::Ace, Suit::Spades));
    hand.add_hole_card(c(Rank::Ace, Suit::Hearts));
    hand.add_community_card(c(Rank::Ace, Suit::Diamonds));
    hand.add_community_card(c(Rank::Ace, Suit::Clubs));
    hand.add_community_card(c(Rank::King, Suit::Spades));
    hand.add_community_card(c(Rank::Two, Suit::Hearts));
    hand.add_community_card(c(Rank::Three, Suit::Diamonds));
    let best = hand.best_hand();
    assert_eq!(best.category, HandCategory::Quads);
    assert_eq!(
        best.ranks,
        [Rank::Ace, Rank::King, Rank::Two, Rank::Two, Rank::Two]
    );
}

#[test]
fn full_house_chosen_over_flush() {
    // Seven cards holding both a full house and a five-card flush among
    // their choices: the higher category must win. One card repeats on
    // purpose: seven distinct cards can never hold both patterns, and the
    // evaluator accepts any five-to-seven cards.
    let seven = [
        c(Rank::Ace, Suit::Hearts),
        c(Rank::Ace, Suit::Spades),
        c(Rank::Ace, Suit::Diamonds),
        c(Rank::King, Suit::Hearts),
        c(Rank::King, Suit::Hearts),
        c(Rank::Queen, Suit::Hearts),
        c(Rank::Jack, Suit::Hearts),
    ];
    let best = evaluate_best(&seven);
    assert_eq!(best.category, HandCategory::FullHouse);
    assert_eq!(
        best.ranks,
        [Rank::Ace, Rank::King, Rank::Two, Rank::Two, Rank::Two]
    );
}

#[test]
fn shared_board_straight_ties() {
    let board = [
        c(Rank::Ten, Suit::Spades),
        c(Rank::Jack, Suit::Hearts),
        c(Rank::Queen, Suit::Diamonds),
        c(Rank::King, Suit::Clubs),
        c(Rank::Ace, Suit::Spades),
    ];
    let mut h1 = Hand::new();
    h1.add_hole_card(c(Rank::Two, Suit::Hearts));
    h1.add_hole_card(c(Rank::Three, Suit::Diamonds));
    let mut h2 = Hand::new();
    h2.add_hole_card(c(Rank::Four, Suit::Clubs));
    h2.add_hole_card(c(Rank::Five, Suit::Diamonds));
    for card in board.iter() {
        h1.add_community_card(*card);
        h2.add_community_card(*card);
    }
    let b1 = h1.best_hand();
    let b2 = h2.best_hand();
    assert_eq!(b1.category, HandCategory::Straight);
    assert_eq!(b1, b2);
    assert!(!(b1 < b2));
    assert!(!(b1 > b2));
}

#[test]
fn evaluate_best_on_five_equals_evaluate_five() {
    let five = [
        c(Rank::Eight, Suit::Hearts),
        c(Rank::Three, Suit::Clubs),
        c(Rank::Eight, Suit::Diamonds),
        c(Rank::Queen, Suit::Spades),
        c(Rank::Five, Suit::Hearts),
    ];
    let direct = evaluate_five(five);
    let best = evaluate_best(&five);
    assert_eq!(direct, best);
}
