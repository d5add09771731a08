use vstd::prelude::*;
use vstd::string::StringSliceAdditionalSpecFns;

verus! {

/// The four suits of a standard deck. Suits carry no order; they matter
/// only for flush detection, where equality is all that is asked.
#[derive(Debug, Clone, Copy, PartialEq, Eq, Structural)]
pub enum Suit {
    Hearts,
    Diamonds,
    Clubs,
    Spades,
}

/// The thirteen ranks, ordered by face value from Two up to Ace.
#[derive(Debug, Clone, Copy, PartialEq, Eq, PartialOrd, Ord, Structural)]
pub enum Rank {
    Two,
    Three,
    Four,
    Five,
    Six,
    Seven,
    Eight,
    Nine,
    Ten,
    Jack,
    Queen,
    King,
    Ace,
}

/// The face value of a rank: Two counts 2, up through Ace at 14.
pub open spec fn rank_val(r: Rank) -> int {
    match r {
        Rank::Two => 2,
        Rank::Three => 3,
        Rank::Four => 4,
        Rank::Five => 5,
        Rank::Six => 6,
        Rank::Seven => 7,
        Rank::Eight => 8,
        Rank::Nine => 9,
        Rank::Ten => 10,
        Rank::Jack => 11,
        Rank::Queen => 12,
        Rank::King => 13,
        Rank::Ace => 14,
    }
}

/// The rank whose face value is `v`, for `v` between 2 and 14;
/// out-of-range values fall back to Two.
pub open spec fn rank_of_val(v: int) -> Rank {
    if v == 3 {
        Rank::Three
    } else if v == 4 {
        Rank::Four
    } else if v == 5 {
        Rank::Five
    } else if v == 6 {
        Rank::Six
    } else if v == 7 {
        Rank::Seven
    } else if v == 8 {
        Rank::Eight
    } else if v == 9 {
        Rank::Nine
    } else if v == 10 {
        Rank::Ten
    } else if v == 11 {
        Rank::Jack
    } else if v == 12 {
        Rank::Queen
    } else if v == 13 {
        Rank::King
    } else if v == 14 {
        Rank::Ace
    } else {
        Rank::Two
    }
}

/// Face values always lie between 2 and 14, and the two mappings invert
/// each other on that range.
pub proof fn lemma_rank_val_bijective()
    ensures
        forall|r: Rank| 2 <= #[trigger] rank_val(r) <= 14,
        forall|r: Rank| rank_of_val(#[trigger] rank_val(r)) == r,
        forall|v: int| 2 <= v <= 14 ==> rank_val(#[trigger] rank_of_val(v)) == v,
{
}

/// The numeric face value of a rank, 2 through 14.
pub fn rank_value(r: Rank) -> (v: u8)
    ensures
        v as int == rank_val(r),
{
    match r {
        Rank::Two => 2,
        Rank::Three => 3,
        Rank::Four => 4,
        Rank::Five => 5,
        Rank::Six => 6,
        Rank::Seven => 7,
        Rank::Eight => 8,
        Rank::Nine => 9,
        Rank::Ten => 10,
        Rank::Jack => 11,
        Rank::Queen => 12,
        Rank::King => 13,
        Rank::Ace => 14,
    }
}

/// The rank of a face value between 2 and 14; any other value yields Two.
pub fn rank_of_value(v: u8) -> (r: Rank)
    ensures
        r == rank_of_val(v as int),
{
    if v == 3 {
        Rank::Three
    } else if v == 4 {
        Rank::Four
    } else if v == 5 {
        Rank::Five
    } else if v == 6 {
        Rank::Six
    } else if v == 7 {
        Rank::Seven
    } else if v == 8 {
        Rank::Eight
    } else if v == 9 {
        Rank::Nine
    } else if v == 10 {
        Rank::Ten
    } else if v == 11 {
        Rank::Jack
    } else if v == 12 {
        Rank::Queen
    } else if v == 13 {
        Rank::King
    } else if v == 14 {
        Rank::Ace
    } else {
        Rank::Two
    }
}

/// The rank of a face value, if the value lies in 2..=14.
pub fn value_to_rank(v: u8) -> (r: Option<Rank>)
    ensures
        2 <= v <= 14 ==> r == Some(rank_of_val(v as int)),
        !(2 <= v <= 14) ==> r is None,
{
    if 2 <= v && v <= 14 {
        Some(rank_of_value(v))
    } else {
        None
    }
}

/// A playing card: an immutable pair of rank and suit, equal exactly when
/// both fields are equal.
#[derive(Debug, Clone, Copy, PartialEq, Eq, Structural)]
pub struct Card {
    pub rank: Rank,
    pub suit: Suit,
}

impl Card {
    pub fn new(rank: Rank, suit: Suit) -> (c: Card)
        ensures
            c == (Card { rank, suit }),
    {
        Card { rank, suit }
    }
}

// ---------- textual card notation ----------
//
// Ranks and suits are written either as a full word ("queen", "hearts") or
// as a one-character alias ("q", "h"); Ace also answers to "1", and Ten is
// written "10". Matching is ASCII-case-insensitive.

/// ASCII lower-casing of one byte.
pub open spec fn lower_byte(b: u8) -> u8 {
    if 65 <= b <= 90 {
        (b + 32) as u8
    } else {
        b
    }
}

/// ASCII lower-casing of a byte string.
pub open spec fn to_lower(s: Seq<u8>) -> Seq<u8> {
    Seq::new(s.len(), |i: int| lower_byte(s[i]))
}

pub open spec fn is_word1(t: Seq<u8>, a: u8) -> bool {
    t.len() == 1 && t[0] == a
}

pub open spec fn is_word2(t: Seq<u8>, a: u8, b: u8) -> bool {
    t.len() == 2 && t[0] == a && t[1] == b
}

pub open spec fn is_word3(t: Seq<u8>, a: u8, b: u8, c: u8) -> bool {
    t.len() == 3 && t[0] == a && t[1] == b && t[2] == c
}

pub open spec fn is_word4(t: Seq<u8>, a: u8, b: u8, c: u8, d: u8) -> bool {
    t.len() == 4 && t[0] == a && t[1] == b && t[2] == c && t[3] == d
}

pub open spec fn is_word5(t: Seq<u8>, a: u8, b: u8, c: u8, d: u8, e: u8) -> bool {
    t.len() == 5 && t[0] == a && t[1] == b && t[2] == c && t[3] == d && t[4] == e
}

pub open spec fn is_word6(t: Seq<u8>, a: u8, b: u8, c: u8, d: u8, e: u8, f: u8) -> bool {
    t.len() == 6 && t[0] == a && t[1] == b && t[2] == c && t[3] == d && t[4] == e && t[5] == f
}

pub open spec fn is_word8(
    t: Seq<u8>,
    a: u8,
    b: u8,
    c: u8,
    d: u8,
    e: u8,
    f: u8,
    g: u8,
    h: u8,
) -> bool {
    t.len() == 8 && t[0] == a && t[1] == b && t[2] == c && t[3] == d && t[4] == e && t[5] == f
        && t[6] == g && t[7] == h
}

/// What parsing a rank token returns: the token is lower-cased, then
/// matched against the full names, the one-character aliases, the digit
/// forms "1".."9" and "10".
pub open spec fn parse_rank_spec(s: Seq<u8>) -> Option<Rank> {
    let t = to_lower(s);
    if is_word3(t, 97u8, 99u8, 101u8) || is_word1(t, 97u8) || is_word1(t, 49u8) {
        Some(Rank::Ace)
    } else if is_word3(t, 116u8, 119u8, 111u8) || is_word1(t, 50u8) {
        Some(Rank::Two)
    } else if is_word5(t, 116u8, 104u8, 114u8, 101u8, 101u8) || is_word1(t, 51u8) {
        Some(Rank::Three)
    } else if is_word4(t, 102u8, 111u8, 117u8, 114u8) || is_word1(t, 52u8) {
        Some(Rank::Four)
    } else if is_word4(t, 102u8, 105u8, 118u8, 101u8) || is_word1(t, 53u8) {
        Some(Rank::Five)
    } else if is_word3(t, 115u8, 105u8, 120u8) || is_word1(t, 54u8) {
        Some(Rank::Six)
    } else if is_word5(t, 115u8, 101u8, 118u8, 101u8, 110u8) || is_word1(t, 55u8) {
        Some(Rank::Seven)
    } else if is_word5(t, 101u8, 105u8, 103u8, 104u8, 116u8) || is_word1(t, 56u8) {
        Some(Rank::Eight)
    } else if is_word4(t, 110u8, 105u8, 110u8, 101u8) || is_word1(t, 57u8) {
        Some(Rank::Nine)
    } else if is_word3(t, 116u8, 101u8, 110u8) || is_word2(t, 49u8, 48u8) {
        Some(Rank::Ten)
    } else if is_word4(t, 106u8, 97u8, 99u8, 107u8) || is_word1(t, 106u8) {
        Some(Rank::Jack)
    } else if is_word5(t, 113u8, 117u8, 101u8, 101u8, 110u8) || is_word1(t, 113u8) {
        Some(Rank::Queen)
    } else if is_word4(t, 107u8, 105u8, 110u8, 103u8) || is_word1(t, 107u8) {
        Some(Rank::King)
    } else {
        None
    }
}

/// What parsing a suit token returns.
pub open spec fn parse_suit_spec(s: Seq<u8>) -> Option<Suit> {
    let t = to_lower(s);
    if is_word6(t, 104u8, 101u8, 97u8, 114u8, 116u8, 115u8) || is_word1(t, 104u8) {
        Some(Suit::Hearts)
    } else if is_word8(t, 100u8, 105u8, 97u8, 109u8, 111u8, 110u8, 100u8, 115u8) || is_word1(t, 100u8) {
        Some(Suit::Diamonds)
    } else if is_word5(t, 99u8, 108u8, 117u8, 98u8, 115u8) || is_word1(t, 99u8) {
        Some(Suit::Clubs)
    } else if is_word6(t, 115u8, 112u8, 97u8, 100u8, 101u8, 115u8) || is_word1(t, 115u8) {
        Some(Suit::Spades)
    } else {
        None
    }
}

fn byte_lower(b: u8) -> (r: u8)
    ensures
        r == lower_byte(b),
{
    if 65 <= b && b <= 90 {
        b + 32
    } else {
        b
    }
}

fn word1(s: &[u8], a: u8) -> (r: bool)
    ensures
        r == is_word1(to_lower(s@), a),
{
    s.len() == 1 && byte_lower(s[0]) == a
}

fn word2(s: &[u8], a: u8, b: u8) -> (r: bool)
    ensures
        r == is_word2(to_lower(s@), a, b),
{
    s.len() == 2 && byte_lower(s[0]) == a && byte_lower(s[1]) == b
}

fn word3(s: &[u8], a: u8, b: u8, c: u8) -> (r: bool)
    ensures
        r == is_word3(to_lower(s@), a, b, c),
{
    s.len() == 3 && byte_lower(s[0]) == a && byte_lower(s[1]) == b && byte_lower(s[2]) == c
}

fn word4(s: &[u8], a: u8, b: u8, c: u8, d: u8) -> (r: bool)
    ensures
        r == is_word4(to_lower(s@), a, b, c, d),
{
    s.len() == 4 && byte_lower(s[0]) == a && byte_lower(s[1]) == b && byte_lower(s[2]) == c
        && byte_lower(s[3]) == d
}

fn word5(s: &[u8], a: u8, b: u8, c: u8, d: u8, e: u8) -> (r: bool)
    ensures
        r == is_word5(to_lower(s@), a, b, c, d, e),
{
    s.len() == 5 && byte_lower(s[0]) == a && byte_lower(s[1]) == b && byte_lower(s[2]) == c
        && byte_lower(s[3]) == d && byte_lower(s[4]) == e
}

fn word6(s: &[u8], a: u8, b: u8, c: u8, d: u8, e: u8, f: u8) -> (r: bool)
    ensures
        r == is_word6(to_lower(s@), a, b, c, d, e, f),
{
    s.len() == 6 && byte_lower(s[0]) == a && byte_lower(s[1]) == b && byte_lower(s[2]) == c
        && byte_lower(s[3]) == d && byte_lower(s[4]) == e && byte_lower(s[5]) == f
}

fn word8(s: &[u8], a: u8, b: u8, c: u8, d: u8, e: u8, f: u8, g: u8, h: u8) -> (r: bool)
    ensures
        r == is_word8(to_lower(s@), a, b, c, d, e, f, g, h),
{
    s.len() == 8 && byte_lower(s[0]) == a && byte_lower(s[1]) == b && byte_lower(s[2]) == c
        && byte_lower(s[3]) == d && byte_lower(s[4]) == e && byte_lower(s[5]) == f && byte_lower(
        s[6],
    ) == g && byte_lower(s[7]) == h
}

fn rank_token(s: &str) -> (r: Option<Rank>)
    ensures
        r == parse_rank_spec(s.spec_bytes()),
{
    let b: &[u8] = s.as_bytes();
    if word3(b, 97u8, 99u8, 101u8) || word1(b, 97u8) || word1(b, 49u8) {
        Some(Rank::Ace)
    } else if word3(b, 116u8, 119u8, 111u8) || word1(b, 50u8) {
        Some(Rank::Two)
    } else if word5(b, 116u8, 104u8, 114u8, 101u8, 101u8) || word1(b, 51u8) {
        Some(Rank::Three)
    } else if word4(b, 102u8, 111u8, 117u8, 114u8) || word1(b, 52u8) {
        Some(Rank::Four)
    } else if word4(b, 102u8, 105u8, 118u8, 101u8) || word1(b, 53u8) {
        Some(Rank::Five)
    } else if word3(b, 115u8, 105u8, 120u8) || word1(b, 54u8) {
        Some(Rank::Six)
    } else if word5(b, 115u8, 101u8, 118u8, 101u8, 110u8) || word1(b, 55u8) {
        Some(Rank::Seven)
    } else if word5(b, 101u8, 105u8, 103u8, 104u8, 116u8) || word1(b, 56u8) {
        Some(Rank::Eight)
    } else if word4(b, 110u8, 105u8, 110u8, 101u8) || word1(b, 57u8) {
        Some(Rank::Nine)
    } else if word3(b, 116u8, 101u8, 110u8) || word2(b, 49u8, 48u8) {
        Some(Rank::Ten)
    } else if word4(b, 106u8, 97u8, 99u8, 107u8) || word1(b, 106u8) {
        Some(Rank::Jack)
    } else if word5(b, 113u8, 117u8, 101u8, 101u8, 110u8) || word1(b, 113u8) {
        Some(Rank::Queen)
    } else if word4(b, 107u8, 105u8, 110u8, 103u8) || word1(b, 107u8) {
        Some(Rank::King)
    } else {
        None
    }
}

fn suit_token(s: &str) -> (r: Option<Suit>)
    ensures
        r == parse_suit_spec(s.spec_bytes()),
{
    let b: &[u8] = s.as_bytes();
    if word6(b, 104u8, 101u8, 97u8, 114u8, 116u8, 115u8) || word1(b, 104u8) {
        Some(Suit::Hearts)
    } else if word8(b, 100u8, 105u8, 97u8, 109u8, 111u8, 110u8, 100u8, 115u8) || word1(b, 100u8) {
        Some(Suit::Diamonds)
    } else if word5(b, 99u8, 108u8, 117u8, 98u8, 115u8) || word1(b, 99u8) {
        Some(Suit::Clubs)
    } else if word6(b, 115u8, 112u8, 97u8, 100u8, 101u8, 115u8) || word1(b, 115u8) {
        Some(Suit::Spades)
    } else {
        None
    }
}

/// The error text reported for a rank token that names no rank.
pub open spec fn rank_err_msg(s: Seq<char>) -> Seq<char> {
    "Invalid rank: "@ + s
}

/// The error text reported for a suit token that names no suit.
pub open spec fn suit_err_msg(s: Seq<char>) -> Seq<char> {
    "Invalid suit: "@ + s
}

/// Parse a rank token, accepting the full word, the one-character alias,
/// and the digit forms, in any ASCII case; any other token fails with a
/// message naming it.
pub fn parse_rank(s: &str) -> (r: Result<Rank, String>)
    ensures
        r is Ok <==> parse_rank_spec(s.spec_bytes()) is Some,
        r matches Ok(rk) ==> parse_rank_spec(s.spec_bytes()) == Some(rk),
        r matches Err(m) ==> m@ == rank_err_msg(s@),
{
    match rank_token(s) {
        Some(rk) => Ok(rk),
        None => Err("Invalid rank: ".to_owned().concat(s)),
    }
}

/// Parse a suit token, accepting the full word and the one-letter alias,
/// in any ASCII case; any other token fails with a message naming it.
pub fn parse_suit(s: &str) -> (r: Result<Suit, String>)
    ensures
        r is Ok <==> parse_suit_spec(s.spec_bytes()) is Some,
        r matches Ok(st) ==> parse_suit_spec(s.spec_bytes()) == Some(st),
        r matches Err(m) ==> m@ == suit_err_msg(s@),
{
    match suit_token(s) {
        Some(st) => Ok(st),
        None => Err("Invalid suit: ".to_owned().concat(s)),
    }
}

/// Parse a card from its rank and suit tokens; a bad rank token is
/// reported before the suit token is looked at.
pub fn parse_card(rank_s: &str, suit_s: &str) -> (r: Result<Card, String>)
    ensures
        r is Ok <==> (parse_rank_spec(rank_s.spec_bytes()) is Some && parse_suit_spec(
            suit_s.spec_bytes(),
        ) is Some),
        r matches Ok(card) ==> parse_rank_spec(rank_s.spec_bytes()) == Some(card.rank)
            && parse_suit_spec(suit_s.spec_bytes()) == Some(card.suit),
        r matches Err(m) ==> (parse_rank_spec(rank_s.spec_bytes()) is None && m@ == rank_err_msg(
            rank_s@,
        )) || (parse_rank_spec(rank_s.spec_bytes()) is Some && m@ == suit_err_msg(suit_s@)),
{
    let rank = match parse_rank(rank_s) {
        Ok(rk) => rk,
        Err(m) => {
            return Err(m);
        },
    };
    let suit = match parse_suit(suit_s) {
        Ok(st) => st,
        Err(m) => {
            return Err(m);
        },
    };
    Ok(Card { rank, suit })
}

/// The canonical full name of a rank, as lower-case bytes.
pub open spec fn rank_word(r: Rank) -> Seq<u8> {
    match r {
        Rank::Two => seq![116u8, 119u8, 111u8],
        Rank::Three => seq![116u8, 104u8, 114u8, 101u8, 101u8],
        Rank::Four => seq![102u8, 111u8, 117u8, 114u8],
        Rank::Five => seq![102u8, 105u8, 118u8, 101u8],
        Rank::Six => seq![115u8, 105u8, 120u8],
        Rank::Seven => seq![115u8, 101u8, 118u8, 101u8, 110u8],
        Rank::Eight => seq![101u8, 105u8, 103u8, 104u8, 116u8],
        Rank::Nine => seq![110u8, 105u8, 110u8, 101u8],
        Rank::Ten => seq![116u8, 101u8, 110u8],
        Rank::Jack => seq![106u8, 97u8, 99u8, 107u8],
        Rank::Queen => seq![113u8, 117u8, 101u8, 101u8, 110u8],
        Rank::King => seq![107u8, 105u8, 110u8, 103u8],
        Rank::Ace => seq![97u8, 99u8, 101u8],
    }
}

/// The short alias of a rank: its digit form, or its letter for the
/// court cards and the Ace.
pub open spec fn rank_short(r: Rank) -> Seq<u8> {
    match r {
        Rank::Two => seq![50u8],
        Rank::Three => seq![51u8],
        Rank::Four => seq![52u8],
        Rank::Five => seq![53u8],
        Rank::Six => seq![54u8],
        Rank::Seven => seq![55u8],
        Rank::Eight => seq![56u8],
        Rank::Nine => seq![57u8],
        Rank::Ten => seq![49u8, 48u8],
        Rank::Jack => seq![106u8],
        Rank::Queen => seq![113u8],
        Rank::King => seq![107u8],
        Rank::Ace => seq![97u8],
    }
}

/// The canonical full name of a suit, as lower-case bytes.
pub open spec fn suit_word(s: Suit) -> Seq<u8> {
    match s {
        Suit::Hearts => seq![104u8, 101u8, 97u8, 114u8, 116u8, 115u8],
        Suit::Diamonds => seq![100u8, 105u8, 97u8, 109u8, 111u8, 110u8, 100u8, 115u8],
        Suit::Clubs => seq![99u8, 108u8, 117u8, 98u8, 115u8],
        Suit::Spades => seq![115u8, 112u8, 97u8, 100u8, 101u8, 115u8],
    }
}

/// The one-letter alias of a suit.
pub open spec fn suit_short(s: Suit) -> Seq<u8> {
    match s {
        Suit::Hearts => seq![104u8],
        Suit::Diamonds => seq![100u8],
        Suit::Clubs => seq![99u8],
        Suit::Spades => seq![115u8],
    }
}

/// Law: parsing is a left inverse of naming. For every rank, its canonical
/// name and its short alias parse back to that very rank, and "1" names the
/// Ace; for every suit, its name and its letter parse back to that suit.
pub proof fn lemma_parse_round_trip()
    ensures
        forall|r: Rank| #[trigger] parse_rank_spec(rank_word(r)) == Some(r),
        forall|r: Rank| #[trigger] parse_rank_spec(rank_short(r)) == Some(r),
        parse_rank_spec(seq![49u8]) == Some(Rank::Ace),
        forall|s: Suit| #[trigger] parse_suit_spec(suit_word(s)) == Some(s),
        forall|s: Suit| #[trigger] parse_suit_spec(suit_short(s)) == Some(s),
{
    assert forall|r: Rank| #[trigger] parse_rank_spec(rank_word(r)) == Some(r) by {
        lemma_lower_fixes_lower(rank_word(r));
    }
    assert forall|r: Rank| #[trigger] parse_rank_spec(rank_short(r)) == Some(r) by {
        lemma_lower_fixes_lower(rank_short(r));
    }
    lemma_lower_fixes_lower(seq![49u8]);
    assert forall|s: Suit| #[trigger] parse_suit_spec(suit_word(s)) == Some(s) by {
        lemma_lower_fixes_lower(suit_word(s));
    }
    assert forall|s: Suit| #[trigger] parse_suit_spec(suit_short(s)) == Some(s) by {
        lemma_lower_fixes_lower(suit_short(s));
    }
}

/// Lower-casing a byte string that holds no ASCII capitals leaves it as it is.
proof fn lemma_lower_fixes_lower(s: Seq<u8>)
    requires
        forall|i: int| 0 <= i < s.len() ==> !(65 <= #[trigger] s[i] <= 90),
    ensures
        to_lower(s) == s,
{
    assert(to_lower(s) =~= s);
}

/// Law: parsing is ASCII-case-insensitive. A token and its lower-cased
/// form parse to the same rank and to the same suit.
pub proof fn lemma_parse_case_insensitive(s: Seq<u8>)
    ensures
        parse_rank_spec(to_lower(s)) == parse_rank_spec(s),
        parse_suit_spec(to_lower(s)) == parse_suit_spec(s),
{
    assert forall|i: int| 0 <= i < s.len() implies #[trigger] lower_byte(lower_byte(s[i]))
        == lower_byte(s[i]) by {
    }
    assert(to_lower(to_lower(s)) =~= to_lower(s));
}

} // verus!
