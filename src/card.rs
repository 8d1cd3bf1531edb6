use rand::seq::SliceRandom;
use vstd::prelude::*;

verus! {

/// The four suits, in the order in which a fresh deck is built.
#[derive(Debug, Clone, Copy, PartialEq, Eq, Structural, Hash)]
pub enum Suit {
    CLUBS,
    SPADES,
    DIAMONDS,
    HEARTS,
}

/// A playing card: a suit and a rank (`value`) from 1 to 13.
#[derive(Debug, Clone, Copy, PartialEq, Eq, Structural, Hash)]
pub struct Card {
    pub suit: Suit,
    pub value: u8,
}

/// Number of ranks in each suit.
pub const RANKS: u8 = 13;

/// Number of cards in a full deck.
pub const DECK_SIZE: usize = 52;

/// Position of a suit in the building order.
pub open spec fn suit_index(s: Suit) -> int {
    match s {
        Suit::CLUBS => 0,
        Suit::SPADES => 1,
        Suit::DIAMONDS => 2,
        Suit::HEARTS => 3,
    }
}

/// The suit at a position of the building order.
pub open spec fn suit_at(k: int) -> Suit {
    if k == 0 {
        Suit::CLUBS
    } else if k == 1 {
        Suit::SPADES
    } else if k == 2 {
        Suit::DIAMONDS
    } else {
        Suit::HEARTS
    }
}

impl Card {
    /// A card of a standard deck: its rank lies in 1..=13.
    pub open spec fn valid(&self) -> bool {
        1 <= self.value <= 13
    }

    /// Position of the card in a freshly built, unshuffled deck.
    pub open spec fn position(&self) -> int {
        suit_index(self.suit) * 13 + self.value - 1
    }

    pub fn new(suit: Suit, value: u8) -> (r: Card)
        ensures
            r.suit == suit,
            r.value == value,
    {
        Card { suit, value }
    }
}

/// The card at position `i` (0..52) of an unshuffled deck.
pub open spec fn standard_card(i: int) -> Card {
    Card { suit: suit_at(i / 13), value: (i % 13 + 1) as u8 }
}

/// An unshuffled deck: clubs 1..13, spades 1..13, diamonds 1..13, hearts 1..13.
pub open spec fn standard_order() -> Seq<Card> {
    Seq::new(52, |i: int| standard_card(i))
}

/// A full deck holds 52 cards, all of them valid and pairwise distinct, and
/// every valid card stands in it, at its own position.
pub proof fn lemma_standard_deck()
    ensures
        standard_order().len() == 52,
        forall|i: int| 0 <= i < 52 ==> #[trigger] standard_order()[i].valid(),
        forall|i: int| 0 <= i < 52 ==> #[trigger] standard_order()[i].position() == i,
        forall|i: int, j: int|
            0 <= i < 52 && 0 <= j < 52 && i != j ==> standard_order()[i] != standard_order()[j],
        forall|c: Card| #[trigger] c.valid() ==> 0 <= c.position() < 52 && standard_order()[c.position()] == c,
{
    assert forall|i: int| 0 <= i < 52 implies #[trigger] standard_order()[i].position() == i by {
        let c = standard_card(i);
        assert(suit_index(suit_at(i / 13)) == i / 13);
    }
    assert forall|c: Card| #[trigger] c.valid() implies 0 <= c.position() < 52
        && standard_order()[c.position()] == c by {
        let p = c.position();
        assert(p / 13 == suit_index(c.suit));
        assert(p % 13 == c.value - 1);
        assert(suit_at(suit_index(c.suit)) == c.suit);
    }
    assert forall|i: int, j: int|
        0 <= i < 52 && 0 <= j < 52 && i != j implies standard_order()[i] != standard_order()[j] by {
        assert(standard_order()[i].position() == i);
        assert(standard_order()[j].position() == j);
    }
}

/// A full deck in any order: 52 cards, each valid card exactly once, and no
/// other card.
pub proof fn lemma_full_deck_counts(s: Seq<Card>)
    requires
        s.to_multiset() == standard_order().to_multiset(),
    ensures
        s.len() == 52,
        forall|c: Card| #[trigger] c.valid() ==> s.to_multiset().count(c) == 1,
        forall|c: Card| !c.valid() ==> #[trigger] s.to_multiset().count(c) == 0,
{
    broadcast use vstd::seq_lib::group_to_multiset_ensures;

    lemma_standard_deck();
    let st = standard_order();
    st.lemma_multiset_has_no_duplicates();
    assert(s.len() == s.to_multiset().len());
    assert(st.len() == st.to_multiset().len());
    assert forall|c: Card| #[trigger] c.valid() implies s.to_multiset().count(c) == 1 by {
        assert(st[c.position()] == c);
        assert(st.contains(c));
    }
    assert forall|c: Card| !c.valid() implies #[trigger] s.to_multiset().count(c) == 0 by {
        if st.contains(c) {
            let i = choose|i: int| 0 <= i < 52 && st[i] == c;
            assert(st[i].valid());
        }
    }
}

/// The 52 cards of a fresh deck in building order.
pub fn standard_cards() -> (r: Vec<Card>)
    ensures
        r@ == standard_order(),
{
    let suits: [Suit; 4] = [Suit::CLUBS, Suit::SPADES, Suit::DIAMONDS, Suit::HEARTS];
    let mut cards: Vec<Card> = Vec::new();
    let mut s: usize = 0;
    while s < 4
        invariant
            s <= 4,
            suits@ == seq![Suit::CLUBS, Suit::SPADES, Suit::DIAMONDS, Suit::HEARTS],
            cards@ == standard_order().take(13 * s as int),
        decreases 4 - s,
    {
        let mut value: u8 = 1;
        while value <= RANKS
            invariant
                s < 4,
                1 <= value <= 14,
                suits@ == seq![Suit::CLUBS, Suit::SPADES, Suit::DIAMONDS, Suit::HEARTS],
                cards@ == standard_order().take(13 * s as int + value - 1),
            decreases 14 - value,
        {
            cards.push(Card::new(suits[s], value));
            proof {
                let i = 13 * s as int + value - 1;
                assert(i / 13 == s as int);
                assert(i % 13 == value - 1);
                assert(cards@ =~= standard_order().take(i + 1));
            }
            value = value + 1;
        }
        s = s + 1;
    }
    assert(cards@ =~= standard_order());
    cards
}

/// Relies on rand's `SliceRandom::shuffle` with the thread-local generator:
/// it only swaps elements, so the result is a permutation of the input.
#[verifier::external_body]
pub(crate) fn shuffle_cards(cards: &mut Vec<Card>)
    ensures
        final(cards)@.len() == old(cards)@.len(),
        final(cards)@.to_multiset() == old(cards)@.to_multiset(),
{
    cards.shuffle(&mut rand::thread_rng());
}

} // verus!
