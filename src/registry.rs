use crate::card::{shuffle_cards, standard_cards, standard_order, Card};
use vstd::prelude::*;

verus! {

/// Stable handle of a card collection held in a [`Decks`] registry.
///
/// A handle names a slot of the registry and carries a random tag drawn when
/// the collection was created, so handles of different registries do not
/// collide.
#[derive(Debug, Clone, Copy, PartialEq, Eq, Structural, Hash)]
pub struct DeckRef {
    slot: usize,
    tag: u128,
}

/// An ordered collection of cards (a draw deck, a hand or a table pile).
#[derive(Debug)]
pub struct Deck {
    id: DeckRef,
    cards: Vec<Card>,
}

/// Registry of card collections. Collections are only ever added; every
/// handle it hands out stays valid for the registry's lifetime.
#[derive(Debug)]
pub struct Decks {
    decks: Vec<Deck>,
}

/// Relies on uuid's `Uuid::new_v4`: a random version-4 identifier, here read
/// as one 128-bit number. Nothing is promised of its value.
#[verifier::external_body]
fn fresh_tag() -> (r: u128) {
    u128::from_be_bytes(*uuid::Uuid::new_v4().as_bytes())
}

impl Deck {
    pub closed spec fn view(&self) -> Seq<Card> {
        self.cards@
    }

    pub closed spec fn id(&self) -> DeckRef {
        self.id
    }

    /// Registers a new empty collection.
    pub fn empty(decks: &mut Decks) -> (r: DeckRef)
        requires
            old(decks).wf(),
        ensures
            final(decks).wf(),
            !old(decks)@.contains_key(r),
            final(decks)@ == old(decks)@.insert(r, Seq::<Card>::empty()),
    {
        Self::new(decks, Vec::new())
    }

    /// Registers a new collection holding `cards`, in that order.
    pub fn new(decks: &mut Decks, cards: Vec<Card>) -> (r: DeckRef)
        requires
            old(decks).wf(),
        ensures
            final(decks).wf(),
            !old(decks)@.contains_key(r),
            final(decks)@ == old(decks)@.insert(r, cards@),
    {
        let id = DeckRef { slot: decks.decks.len(), tag: fresh_tag() };
        let ghost before = *decks;
        decks.decks.push(Deck { id, cards });
        proof {
            assert(!before@.contains_key(id));
            assert(decks@ =~= before@.insert(id, cards@));
        }
        id
    }

    /// Registers a new collection holding the one card `card`.
    pub fn singleton(decks: &mut Decks, card: Card) -> (r: DeckRef)
        requires
            old(decks).wf(),
        ensures
            final(decks).wf(),
            !old(decks)@.contains_key(r),
            final(decks)@ == old(decks)@.insert(r, seq![card]),
    {
        let cards = vec![card];
        assert(cards@ =~= seq![card]);
        Self::new(decks, cards)
    }

    /// Registers a fresh deck of 52 cards in random order.
    pub fn build(decks: &mut Decks) -> (r: DeckRef)
        requires
            old(decks).wf(),
        ensures
            final(decks).wf(),
            !old(decks)@.contains_key(r),
            final(decks)@.dom() == old(decks)@.dom().insert(r),
            final(decks)@.remove(r) == old(decks)@.remove(r),
            final(decks)@[r].len() == 52,
            final(decks)@[r].to_multiset() == standard_order().to_multiset(),
    {
        let mut cards = standard_cards();
        shuffle_cards(&mut cards);
        let r = Self::new(decks, cards);
        proof {
            assert(decks@.dom() =~= old(decks)@.dom().insert(r));
            assert(decks@.remove(r) =~= old(decks)@.remove(r));
        }
        r
    }

    /// Registers a fresh deck of 52 cards in building order: clubs, spades,
    /// diamonds, hearts, each from 1 to 13.
    pub fn build_ordered(decks: &mut Decks) -> (r: DeckRef)
        requires
            old(decks).wf(),
        ensures
            final(decks).wf(),
            !old(decks)@.contains_key(r),
            final(decks)@ == old(decks)@.insert(r, standard_order()),
    {
        let cards = standard_cards();
        Self::new(decks, cards)
    }

    /// Removes the first `count` cards and returns them, or returns `None`
    /// and leaves the collection as it was when it holds fewer.
    pub fn draw(&mut self, count: usize) -> (r: Option<Vec<Card>>)
        ensures
            final(self).id() == old(self).id(),
            count <= old(self)@.len() ==> r.is_some() && r.unwrap()@ == old(self)@.take(count as int)
                && final(self)@ == old(self)@.skip(count as int),
            count > old(self)@.len() ==> r.is_none() && final(self)@ == old(self)@,
    {
        if count <= self.cards.len() {
            let mut res: Vec<Card> = Vec::new();
            let mut k: usize = 0;
            while k < count
                invariant
                    k <= count <= old(self)@.len(),
                    self.id == old(self).id,
                    res@ == old(self)@.take(k as int),
                    self.cards@ == old(self)@.skip(k as int),
                decreases count - k,
            {
                let c = self.cards.remove(0);
                res.push(c);
                k = k + 1;
                assert(res@ =~= old(self)@.take(k as int));
                assert(self.cards@ =~= old(self)@.skip(k as int));
            }
            Some(res)
        } else {
            None
        }
    }

    pub fn is_empty(&self) -> (r: bool)
        ensures
            r == (self@.len() == 0),
    {
        !self.has_cards(1)
    }

    pub fn has_cards(&self, count: usize) -> (r: bool)
        ensures
            r == (self@.len() >= count),
    {
        self.cards.len() >= count
    }

    /// Moves all of `cards` to the back of the collection, keeping their order.
    pub fn append(&mut self, cards: &mut Vec<Card>)
        ensures
            final(self).id() == old(self).id(),
            final(self)@ == old(self)@ + old(cards)@,
            final(cards)@.len() == 0,
    {
        self.cards.append(cards);
    }

    pub fn len(&self) -> (r: usize)
        ensures
            r == self@.len(),
    {
        self.cards.len()
    }

    /// The cards, front first.
    pub fn cards(&self) -> (r: &Vec<Card>)
        ensures
            r@ == self@,
    {
        &self.cards
    }
}

impl Decks {
    /// What the registry holds: each valid handle and its collection.
    pub closed spec fn view(&self) -> Map<DeckRef, Seq<Card>> {
        Map::new(
            |h: DeckRef| h.slot < self.decks.len() && self.decks@[h.slot as int].id == h,
            |h: DeckRef| self.decks@[h.slot as int]@,
        )
    }

    /// Each collection sits in the slot that its handle names.
    pub closed spec fn wf(&self) -> bool {
        forall|i: int| 0 <= i < self.decks.len() ==> (#[trigger] self.decks@[i]).id.slot == i
    }

    /// An empty registry.
    pub fn new() -> (r: Decks)
        ensures
            r.wf(),
            r@ == Map::<DeckRef, Seq<Card>>::empty(),
    {
        let r = Decks { decks: Vec::new() };
        assert(r@ =~= Map::<DeckRef, Seq<Card>>::empty());
        r
    }

    /// Read access to the collection behind `h`.
    pub fn deck(&self, h: DeckRef) -> (r: &Deck)
        requires
            self.wf(),
            self@.contains_key(h),
        ensures
            r@ == self@[h],
    {
        &self.decks[h.slot]
    }
}

impl DeckRef {
    pub fn is_empty(&self, decks: &Decks) -> (r: bool)
        requires
            decks.wf(),
            decks@.contains_key(*self),
        ensures
            r == (decks@[*self].len() == 0),
    {
        decks.deck(*self).is_empty()
    }

    pub fn has_cards(&self, decks: &Decks, count: usize) -> (r: bool)
        requires
            decks.wf(),
            decks@.contains_key(*self),
        ensures
            r == (decks@[*self].len() >= count),
    {
        decks.deck(*self).has_cards(count)
    }

    pub fn len(&self, decks: &Decks) -> (r: usize)
        requires
            decks.wf(),
            decks@.contains_key(*self),
        ensures
            r == decks@[*self].len(),
    {
        decks.deck(*self).len()
    }

    /// The cards of the collection, front first.
    pub fn iter<'a>(&self, decks: &'a Decks) -> (r: &'a Vec<Card>)
        requires
            decks.wf(),
            decks@.contains_key(*self),
        ensures
            r@ == decks@[*self],
    {
        decks.deck(*self).cards()
    }

    /// Whether the collection holds `card`.
    pub fn contains(&self, decks: &Decks, card: &Card) -> (r: bool)
        requires
            decks.wf(),
            decks@.contains_key(*self),
        ensures
            r == decks@[*self].contains(*card),
    {
        let cards = self.iter(decks);
        let mut i: usize = 0;
        while i < cards.len()
            invariant
                i <= cards@.len(),
                cards@ == decks@[*self],
                forall|j: int| 0 <= j < i ==> cards@[j] != *card,
            decreases cards.len() - i,
        {
            if cards[i] == *card {
                return true;
            }
            i = i + 1;
        }
        false
    }

    /// Moves all of `cards` to the back of the collection, keeping their order.
    pub fn append(&self, decks: &mut Decks, cards: &mut Vec<Card>)
        requires
            old(decks).wf(),
            old(decks)@.contains_key(*self),
        ensures
            final(decks).wf(),
            final(decks)@ == old(decks)@.insert(*self, old(decks)@[*self] + old(cards)@),
            final(cards)@.len() == 0,
    {
        let ghost before = *decks;
        decks.decks[self.slot].append(cards);
        proof {
            assert(decks.decks@ == before.decks@.update(self.slot as int, decks.decks@[self.slot as int]));
            assert(decks@ =~= before@.insert(*self, before@[*self] + old(cards)@));
        }
    }

    /// Removes the first `count` cards of the collection and returns them, or
    /// returns `None` and changes nothing when it holds fewer.
    pub fn draw(&self, decks: &mut Decks, count: usize) -> (r: Option<Vec<Card>>)
        requires
            old(decks).wf(),
            old(decks)@.contains_key(*self),
        ensures
            final(decks).wf(),
            count <= old(decks)@[*self].len() ==> r.is_some()
                && r.unwrap()@ == old(decks)@[*self].take(count as int)
                && final(decks)@ == old(decks)@.insert(*self, old(decks)@[*self].skip(count as int)),
            count > old(decks)@[*self].len() ==> r.is_none() && final(decks)@ == old(decks)@,
    {
        let ghost before = *decks;
        let r = decks.decks[self.slot].draw(count);
        proof {
            assert(decks.decks@ == before.decks@.update(self.slot as int, decks.decks@[self.slot as int]));
            if count <= before@[*self].len() {
                assert(decks@ =~= before@.insert(*self, before@[*self].skip(count as int)));
            } else {
                assert(decks@ =~= before@);
            }
        }
        r
    }
}

} // verus!
