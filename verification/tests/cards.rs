use holdem::card::{parse_card, parse_rank, parse_suit, rank_value, value_to_rank, Card, Rank, Suit};

const ALL_RANKS: [Rank; 13] = [
    Rank::Two,
    Rank::Three,
    Rank::Four,
    Rank::Five,
    Rank::Six,
    Rank::Seven,
    Rank::Eight,
    Rank::Nine,
    Rank::Ten,
    Rank::Jack,
    Rank::Queen,
    Rank::King,
    Rank::Ace,
];

#[test]
fn rank_values_are_bijective() {
    for (i, r) in ALL_RANKS.iter().enumerate() {
        let v = rank_value(*r);
        assert_eq!(v as usize, i + 2);
        assert_eq!(value_to_rank(v), Some(*r));
    }
    assert_eq!(value_to_rank(0), None);
    assert_eq!(value_to_rank(1), None);
    assert_eq!(value_to_rank(15), None);
}

#[test]
fn parse_rank_full_names_and_aliases() {
    let cases: [(&str, &str, Rank); 13] = [
        ("two", "2", Rank::Two),
        ("three", "3", Rank::Three),
        ("four", "4", Rank::Four),
        ("five", "5", Rank::Five),
        ("six", "6", Rank::Six),
        ("seven", "7", Rank::Seven),
        ("eight", "8", Rank::Eight),
        ("nine", "9", Rank::Nine),
        ("ten", "10", Rank::Ten),
        ("jack", "j", Rank::Jack),
        ("queen", "q", Rank::Queen),
        ("king", "k", Rank::King),
        ("ace", "a", Rank::Ace),
    ];
    for (word, alias, rank) in cases.iter() {
        assert_eq!(parse_rank(word), Ok(*rank));
        assert_eq!(parse_rank(alias), Ok(*rank));
        assert_eq!(parse_rank(&word.to_uppercase()), Ok(*rank));
    }
    assert_eq!(parse_rank("1"), Ok(Rank::Ace));
    assert_eq!(parse_rank("ACE"), Ok(Rank::Ace));
    assert_eq!(parse_rank("Ten"), Ok(Rank::Ten));
    assert_eq!(parse_rank(""), Err("Invalid rank: ".to_string()));
    assert_eq!(parse_rank("eleven"), Err("Invalid rank: eleven".to_string()));
    assert_eq!(parse_rank("11"), Err("Invalid rank: 11".to_string()));
    assert_eq!(parse_rank("0"), Err("Invalid rank: 0".to_string()));
}

#[test]
fn parse_suit_full_names_and_aliases() {
    let cases: [(&str, &str, Suit); 4] = [
        ("hearts", "h", Suit::Hearts),
        ("diamonds", "d", Suit::Diamonds),
        ("clubs", "c", Suit::Clubs),
        ("spades", "s", Suit::Spades),
    ];
    for (word, alias, suit) in cases.iter() {
        assert_eq!(parse_suit(word), Ok(*suit));
        assert_eq!(parse_suit(alias), Ok(*suit));
        assert_eq!(parse_suit(&word.to_uppercase()), Ok(*suit));
        assert_eq!(parse_suit(&alias.to_uppercase()), Ok(*suit));
    }
    assert_eq!(parse_suit(""), Err("Invalid suit: ".to_string()));
    assert_eq!(parse_suit("heart"), Err("Invalid suit: heart".to_string()));
    assert_eq!(parse_suit("x"), Err("Invalid suit: x".to_string()));
}

#[test]
fn parse_card_combines_rank_and_suit() {
    assert_eq!(
        parse_card("ace", "spades"),
        Ok(Card::new(Rank::Ace, Suit::Spades))
    );
    assert_eq!(
        parse_card("10", "H"),
        Ok(Card::new(Rank::Ten, Suit::Hearts))
    );
    assert_eq!(
        parse_card("ace", "nowhere"),
        Err("Invalid suit: nowhere".to_string())
    );
    assert_eq!(
        parse_card("zero", "hearts"),
        Err("Invalid rank: zero".to_string())
    );
    assert_eq!(
        parse_card("zero", "nowhere"),
        Err("Invalid rank: zero".to_string())
    );
}

#[test]
fn cards_equal_by_both_fields() {
    let a = Card::new(Rank::Queen, Suit::Clubs);
    let b = Card::new(Rank::Queen, Suit::Clubs);
    let c = Card::new(Rank::Queen, Suit::Spades);
    let d = Card::new(Rank::King, Suit::Clubs);
    assert_eq!(a, b);
    assert_ne!(a, c);
    assert_ne!(a, d);
}
