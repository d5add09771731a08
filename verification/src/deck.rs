use vstd::prelude::*;
use crate::card::{Card, Rank, Suit, rank_of_val, rank_of_value};

verus! {

/// The suit dealt in block `k` of the fresh deck, one block per suit.
pub open spec fn suit_of_index(k: int) -> Suit {
    if k == 0 {
        Suit::Hearts
    } else if k == 1 {
        Suit::Diamonds
    } else if k == 2 {
        Suit::Clubs
    } else {
        Suit::Spades
    }
}

/// The card at position `i` of a freshly built deck: four blocks of
/// thirteen, suits in a fixed order, ranks ascending within each block.
pub open spec fn deck_card(i: int) -> Card {
    Card { rank: rank_of_val(2 + (i % 13)), suit: suit_of_index(i / 13) }
}

fn suit_from_index(k: u8) -> (s: Suit)
    ensures
        s == suit_of_index(k as int),
{
    if k == 0 {
        Suit::Hearts
    } else if k == 1 {
        Suit::Diamonds
    } else if k == 2 {
        Suit::Clubs
    } else {
        Suit::Spades
    }
}

/// Relies on rand's SliceRandom::shuffle: an in-place Fisher-Yates
/// permutation, chosen by the thread-local generator, that re-orders the
/// slice but neither adds, drops nor alters an element.
#[verifier::external_body]
fn shuffle_vec(cards: &mut Vec<Card>)
    ensures
        final(cards)@.to_multiset() == old(cards)@.to_multiset(),
        final(cards)@.len() == old(cards)@.len(),
{
    rand::seq::SliceRandom::shuffle(cards.as_mut_slice(), &mut rand::rng());
}

/// The 52-card deck: every rank of every suit exactly once when fresh,
/// with shuffle and draw operations.
#[derive(Debug, Clone, PartialEq, Eq)]
pub struct Deck {
    cards: Vec<Card>,
    shuffled: bool,
}

impl Deck {
    /// The cards still in the deck, bottom first; `draw` takes from the
    /// end, `draw_n` from the front.
    pub closed spec fn cards_seq(self) -> Seq<Card> {
        self.cards@
    }

    pub closed spec fn is_shuffled(self) -> bool {
        self.shuffled
    }

    fn populate_deck(&mut self)
        requires
            old(self).cards_seq().len() == 0,
        ensures
            final(self).cards_seq().len() == 52,
            forall|i: int| 0 <= i < 52 ==> final(self).cards_seq()[i] == deck_card(i),
            final(self).is_shuffled() == old(self).is_shuffled(),
    {
        let mut si: u8 = 0;
        while si < 4
            invariant
                0 <= si <= 4,
                self.cards@.len() == 13 * (si as int),
                forall|i: int| 0 <= i < self.cards@.len() ==> self.cards@[i] == deck_card(i),
                self.shuffled == old(self).shuffled,
            decreases 4 - si,
        {
            let mut ri: u8 = 0;
            while ri < 13
                invariant
                    0 <= si < 4,
                    0 <= ri <= 13,
                    self.cards@.len() == 13 * (si as int) + ri as int,
                    forall|i: int| 0 <= i < self.cards@.len() ==> self.cards@[i] == deck_card(i),
                    self.shuffled == old(self).shuffled,
                decreases 13 - ri,
            {
                let card = Card::new(rank_of_value(2 + ri), suit_from_index(si));
                proof {
                    vstd::arithmetic::div_mod::lemma_fundamental_div_mod_converse(
                        13 * (si as int) + ri as int,
                        13,
                        si as int,
                        ri as int,
                    );
                    assert(card == deck_card(13 * (si as int) + ri as int));
                }
                self.cards.push(card);
                ri += 1;
            }
            si += 1;
        }
    }

    /// A fresh, unshuffled deck of all 52 cards in the canonical order.
    pub fn new() -> (d: Deck)
        ensures
            d.cards_seq().len() == 52,
            forall|i: int| 0 <= i < 52 ==> d.cards_seq()[i] == deck_card(i),
            !d.is_shuffled(),
    {
        let mut deck = Deck { cards: Vec::new(), shuffled: false };
        deck.populate_deck();
        deck
    }

    /// Shuffle the deck in place: afterwards it holds the same cards as a
    /// multiset, in an order this contract leaves open.
    pub fn do_shuffle(&mut self)
        ensures
            final(self).is_shuffled(),
            final(self).cards_seq().to_multiset() == old(self).cards_seq().to_multiset(),
            final(self).cards_seq().len() == old(self).cards_seq().len(),
    {
        self.shuffled = true;
        shuffle_vec(&mut self.cards);
    }

    /// Draw the top card — the last of the sequence — if any is left.
    pub fn draw(&mut self) -> (r: Option<Card>)
        ensures
            old(self).cards_seq().len() == 0 ==> r is None && final(self).cards_seq() == old(
                self,
            ).cards_seq(),
            old(self).cards_seq().len() > 0 ==> r == Some(
                old(self).cards_seq().last(),
            ) && final(self).cards_seq() == old(self).cards_seq().drop_last(),
            final(self).is_shuffled() == old(self).is_shuffled(),
    {
        self.cards.pop()
    }

    /// Draw the `n` bottom cards, in order.
    pub fn draw_n(&mut self, n: u8) -> (r: Vec<Card>)
        requires
            n as int <= old(self).cards_seq().len(),
        ensures
            r@ == old(self).cards_seq().take(n as int),
            final(self).cards_seq() == old(self).cards_seq().skip(n as int),
            final(self).is_shuffled() == old(self).is_shuffled(),
    {
        let ghost orig = self.cards@;
        let mut r: Vec<Card> = Vec::new();
        let mut i: usize = 0;
        let n = n as usize;
        while i < n
            invariant
                0 <= i <= n,
                n <= orig.len(),
                r@ == orig.take(i as int),
                self.cards@ == orig.skip(i as int),
                self.shuffled == old(self).shuffled,
            decreases n - i,
        {
            proof {
                assert(orig.skip(i as int)[0] == orig[i as int]);
                assert(orig.skip(i as int).remove(0) =~= orig.skip(i as int + 1));
                assert(orig.take(i as int).push(orig[i as int]) =~= orig.take(i as int + 1));
            }
            let c = self.cards.remove(0);
            r.push(c);
            i += 1;
        }
        r
    }
}

} // verus!
