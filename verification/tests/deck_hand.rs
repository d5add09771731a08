use holdem::card::{rank_value, Card, Rank, Suit};
use holdem::deck::Deck;
use holdem::hand::Hand;

const ALL_RANKS: [Rank; 13] = [
    Rank::Two,
    Rank::Three,
    Rank::Four,
    Rank::Five,
    Rank::Six,
    Rank::Seven,
    Rank::Eight,
    Rank::Nine,
    Rank::Ten,
    Rank::Jack,
    Rank::Queen,
    Rank::King,
    Rank::Ace,
];

const ALL_SUITS: [Suit; 4] = [Suit::Hearts, Suit::Diamonds, Suit::Clubs, Suit::Spades];

fn count_card(cards: &[Card], card: Card) -> usize {
    cards.iter().filter(|c| **c == card).count()
}

#[test]
fn fresh_deck_holds_every_card_once() {
    let mut deck = Deck::new();
    let cards = deck.draw_n(52);
    assert_eq!(cards.len(), 52);
    for suit in ALL_SUITS.iter() {
        for rank in ALL_RANKS.iter() {
            assert_eq!(count_card(&cards, Card::new(*rank, *suit)), 1);
        }
    }
}

#[test]
fn fresh_deck_order_is_blocks_of_ascending_ranks() {
    let mut deck = Deck::new();
    let first = deck.draw_n(3);
    assert_eq!(first[0], Card::new(Rank::Two, Suit::Hearts));
    assert_eq!(first[1], Card::new(Rank::Three, Suit::Hearts));
    assert_eq!(first[2], Card::new(Rank::Four, Suit::Hearts));
    let mut deck2 = Deck::new();
    let top = deck2.draw();
    assert_eq!(top, Some(Card::new(Rank::Ace, Suit::Spades)));
}

#[test]
fn shuffle_keeps_the_same_cards() {
    let mut deck = Deck::new();
    deck.do_shuffle();
    let cards = deck.draw_n(52);
    assert_eq!(cards.len(), 52);
    for suit in ALL_SUITS.iter() {
        for rank in ALL_RANKS.iter() {
            assert_eq!(count_card(&cards, Card::new(*rank, *suit)), 1);
        }
    }
    let mut emptied = Deck::new();
    emptied.draw_n(52);
    assert_eq!(emptied.draw(), None);
}

#[test]
fn hand_accumulates_hole_and_community_cards() {
    let mut hand = Hand::new();
    assert_eq!(hand.hole_cards().len(), 0);
    let a = Card::new(Rank::Ace, Suit::Spades);
    let k = Card::new(Rank::King, Suit::Hearts);
    hand.add_hole_card(a);
    hand.add_hole_card(k);
    assert_eq!(hand.hole_cards(), &[a, k]);
    hand.add_community_card(Card::new(Rank::Two, Suit::Clubs));
    assert_eq!(hand.hole_cards().len(), 2);
}

#[test]
fn dealt_hands_evaluate_to_some_category() {
    // Deal as a table would: two hole cards each, five on the board, and
    // make sure evaluation runs on shuffled decks and a winner or tie can
    // always be named.
    for _ in 0..20 {
        let mut deck = Deck::new();
        deck.do_shuffle();
        let mut h1 = Hand::new();
        let mut h2 = Hand::new();
        h1.add_hole_card(deck.draw().unwrap());
        h1.add_hole_card(deck.draw().unwrap());
        h2.add_hole_card(deck.draw().unwrap());
        h2.add_hole_card(deck.draw().unwrap());
        let board = deck.draw_n(5);
        for card in board.iter() {
            h1.add_community_card(*card);
            h2.add_community_card(*card);
        }
        let b1 = h1.best_hand();
        let b2 = h2.best_hand();
        // The five chosen cards really are five cards in descending rank.
        for w in b1.cards.windows(2) {
            assert!(rank_value(w[0].rank) >= rank_value(w[1].rank));
        }
        // Exactly one of the three outcomes holds.
        let outcomes = [b1 > b2, b2 > b1, b1.category == b2.category && b1.ranks == b2.ranks];
        assert!(outcomes[0] || outcomes[1] || outcomes[2]);
        assert!(!(outcomes[0] && outcomes[1]));
    }
}
