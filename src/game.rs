//! Players, the table, and the dealing and round state machine.
use crate::card::{standard_order, Card};
use crate::pool::{
    card_count, lemma_count_is_pooled_len, lemma_pooled_all_empty, lemma_pooled_concat,
    lemma_pooled_move, lemma_pooled_split_off, pooled,
};
use crate::registry::{Deck, DeckRef, Decks};
use vstd::multiset::Multiset;
use vstd::prelude::*;

verus! {

/// A player: an identity and the handle of their hand.
#[derive(Debug)]
pub struct Player {
    pub id: u8,
    pub name: String,
    pub hand: DeckRef,
}

/// The piles on the table, left to right.
#[derive(Debug)]
pub struct Table(Vec<DeckRef>);

/// One selection made by the current player.
#[derive(Debug, Clone, Copy, PartialEq, Eq, Structural)]
pub enum PlayerInteraction {
    Click(Card),
}

/// Outcome of classifying the pending selections that is not a completed action.
#[derive(Debug)]
pub enum IntentError {
    /// Not a failure: one more selection is expected; the text is a hint.
    PartialIntent(&'static str),
    /// The selections form no action; they have been discarded.
    IllegalAction(&'static str),
    /// Nothing to classify.
    Unknown,
}

#[derive(Debug, Clone, Copy, PartialEq, Eq, Structural)]
pub enum KasinoError {
    OtherPlayersCards,
    /// The draw deck holds too few cards for a deal.
    DeckOrPileEmpty,
}

/// A game session: the registry of all collections and what the game holds in it.
#[derive(Debug)]
pub struct Game {
    pub players: Vec<Player>,
    pub deck: DeckRef,
    pub table: Table,
    pub last_round: bool,
    pub player_turn: Option<u8>,
    pub interactions: Vec<PlayerInteraction>,
    pub decks: Decks,
}

impl Player {
    /// A player with a new, empty hand.
    pub fn new(decks: &mut Decks, id: u8, name: &str) -> (r: Player)
        requires
            old(decks).wf(),
        ensures
            final(decks).wf(),
            r.id == id,
            r.name@ == name@,
            !old(decks)@.contains_key(r.hand),
            final(decks)@ == old(decks)@.insert(r.hand, Seq::<Card>::empty()),
    {
        let hand = Deck::empty(decks);
        Player { id, name: name.to_owned(), hand }
    }

    /// Moves all of `cards` to the back of the player's hand.
    pub fn deal(&self, decks: &mut Decks, cards: &mut Vec<Card>)
        requires
            old(decks).wf(),
            old(decks)@.contains_key(self.hand),
        ensures
            final(decks).wf(),
            final(decks)@ == old(decks)@.insert(self.hand, old(decks)@[self.hand] + old(cards)@),
            final(cards)@.len() == 0,
    {
        self.hand.append(decks, cards);
    }
}

impl Table {
    pub closed spec fn view(&self) -> Seq<DeckRef> {
        self.0@
    }

    /// A table with no piles.
    pub fn new() -> (r: Table)
        ensures
            r@ == Seq::<DeckRef>::empty(),
    {
        Table(Vec::new())
    }

    /// Registers a new pile holding `cards` and places it right of the others.
    pub fn new_pile(&mut self, decks: &mut Decks, cards: Vec<Card>)
        requires
            old(decks).wf(),
        ensures
            final(decks).wf(),
            final(self)@ == old(self)@.push(final(self)@.last()),
            !old(decks)@.contains_key(final(self)@.last()),
            final(decks)@ == old(decks)@.insert(final(self)@.last(), cards@),
    {
        let h = Deck::new(decks, cards);
        self.0.push(h);
    }

    /// The pile handles, left to right.
    pub fn piles(&self) -> (r: &Vec<DeckRef>)
        ensures
            r@ == self@,
    {
        &self.0
    }
}

impl Game {
    /// Hand handles, in player order.
    pub open spec fn hands(&self) -> Seq<DeckRef> {
        Seq::new(self.players@.len(), |i: int| self.players@[i].hand)
    }

    /// Every collection of the game: the draw deck, the hands, the piles.
    pub open spec fn handles(&self) -> Seq<DeckRef> {
        seq![self.deck] + self.hands() + self.table@
    }

    /// All cards in play, wherever they are.
    pub open spec fn in_play(&self) -> Multiset<Card> {
        pooled(self.decks@, self.handles())
    }

    /// Number of cards in the draw deck, the hands and the piles together.
    pub open spec fn card_count(&self) -> nat {
        card_count(self.decks@, self.handles())
    }

    pub open spec fn deck_cards(&self) -> Seq<Card> {
        self.decks@[self.deck]
    }

    pub open spec fn hand_cards(&self, i: int) -> Seq<Card> {
        self.decks@[self.players@[i].hand]
    }

    pub open spec fn pile_cards(&self, j: int) -> Seq<Card> {
        self.decks@[self.table@[j]]
    }

    /// Every collection of the game is registered, none twice, and together
    /// they hold one full deck.
    pub open spec fn wf(&self) -> bool {
        &&& self.decks.wf()
        &&& forall|i: int|
            0 <= i < self.handles().len() ==> self.decks@.contains_key(#[trigger] self.handles()[i])
        &&& self.handles().no_duplicates()
        &&& self.in_play() == standard_order().to_multiset()
    }

    /// The fields that neither dealing nor classifying changes.
    pub open spec fn same_seats(&self, o: Game) -> bool {
        &&& self.players@ == o.players@
        &&& self.deck == o.deck
        &&& self.last_round == o.last_round
        &&& self.player_turn == o.player_turn
        &&& self.interactions@ == o.interactions@
    }

    /// Every registered collection that `old` does not hold is still there,
    /// unchanged, in `new`.
    pub open spec fn keeps_others(old: Game, new: Game) -> bool {
        forall|h: DeckRef|
            #[trigger] old.decks@.contains_key(h) && !old.handles().contains(h) ==> new.decks@.contains_key(h)
                && new.decks@[h] == old.decks@[h]
    }

    /// `new` is `old` after `count` cards went to each player in turn.
    pub open spec fn dealt_each(old: Game, new: Game, count: int) -> bool {
        let n = old.players@.len() as int;
        let d = old.deck_cards();
        &&& new.same_seats(old)
        &&& new.table@ == old.table@
        &&& new.deck_cards() == d.skip(count * n)
        &&& forall|i: int|
            0 <= i < n ==> #[trigger] new.hand_cards(i) == old.hand_cards(i) + d.subrange(
                count * i,
                count * i + count,
            )
        &&& forall|j: int| 0 <= j < old.table@.len() ==> #[trigger] new.pile_cards(j) == old.pile_cards(j)
        &&& new.decks@.dom() == old.decks@.dom()
        &&& Game::keeps_others(old, new)
    }

    /// `new` is `old` after `count` one-card piles were dealt to the table.
    pub open spec fn dealt_table(old: Game, new: Game, count: int) -> bool {
        let t = old.table@.len() as int;
        let d = old.deck_cards();
        &&& new.same_seats(old)
        &&& new.table@.len() == t + count
        &&& new.table@.take(t) == old.table@
        &&& new.deck_cards() == d.skip(count)
        &&& forall|i: int| 0 <= i < old.players@.len() ==> #[trigger] new.hand_cards(i) == old.hand_cards(i)
        &&& forall|j: int| 0 <= j < t ==> #[trigger] new.pile_cards(j) == old.pile_cards(j)
        &&& forall|k: int| 0 <= k < count ==> #[trigger] new.pile_cards(t + k) == seq![d[k]]
        &&& forall|k: int| 0 <= k < count ==> !old.decks@.contains_key(#[trigger] new.table@[t + k])
        &&& Game::keeps_others(old, new)
    }

    /// `new` is `old` after the opening deal (two cards to each player, two
    /// piles, two more cards to each player, two more piles, then player 0 is
    /// to play). When a deal fails for want of cards, the deals before it
    /// stand, nothing else moved, and the turn is unchanged.
    pub open spec fn set_up(old: Game, new: Game, r: Result<(), KasinoError>) -> bool {
        let n = old.players@.len() as int;
        let t = old.table@.len() as int;
        let d = old.deck_cards();
        &&& new.players@ == old.players@
        &&& new.deck == old.deck
        &&& new.last_round == old.last_round
        &&& new.interactions@ == old.interactions@
        &&& r.is_ok() == (4 * n + 4 <= d.len())
        &&& r.is_err() ==> r == Err::<(), KasinoError>(KasinoError::DeckOrPileEmpty) && new.player_turn
            == old.player_turn
        &&& r.is_err() && d.len() < 2 * n ==> new == old
        &&& r.is_err() && 2 * n <= d.len() < 2 * n + 2 ==> Game::dealt_each(old, new, 2)
        &&& r.is_err() && 2 * n + 2 <= d.len() < 4 * n + 2 ==> exists|g: Game|
            #[trigger] Game::dealt_each(old, g, 2) && Game::dealt_table(g, new, 2)
        &&& r.is_err() && 4 * n + 2 <= d.len() ==> exists|g1: Game, g2: Game|
            #[trigger] Game::dealt_table(g1, g2, 2) && Game::dealt_each(old, g1, 2) && Game::dealt_each(g2, new, 2)
        &&& r.is_ok() ==> {
            &&& new.player_turn == Some(0u8)
            &&& new.deck_cards() == d.skip(4 * n + 4)
            &&& forall|i: int|
                0 <= i < n ==> #[trigger] new.hand_cards(i) == old.hand_cards(i) + d.subrange(2 * i, 2 * i + 2)
                    + d.subrange(2 * n + 2 + 2 * i, 2 * n + 4 + 2 * i)
            &&& new.table@.len() == t + 4
            &&& new.table@.take(t) == old.table@
            &&& forall|j: int| 0 <= j < t ==> #[trigger] new.pile_cards(j) == old.pile_cards(j)
            &&& new.pile_cards(t) == seq![d[2 * n]]
            &&& new.pile_cards(t + 1) == seq![d[2 * n + 1]]
            &&& new.pile_cards(t + 2) == seq![d[4 * n + 2]]
            &&& new.pile_cards(t + 3) == seq![d[4 * n + 3]]
            &&& Game::keeps_others(old, new)
        }
    }

    /// `new` is `old` after a round ended. Outside the last round each player
    /// gets two cards, twice, and the game enters its last round when that
    /// empties the draw deck; in the last round nothing changes. When a deal
    /// fails for want of cards, the deals before it stand and nothing else
    /// moved.
    pub open spec fn round_ended(old: Game, new: Game, r: Result<(), KasinoError>) -> bool {
        let n = old.players@.len() as int;
        let d = old.deck_cards();
        &&& new.players@ == old.players@
        &&& new.deck == old.deck
        &&& new.player_turn == old.player_turn
        &&& new.interactions@ == old.interactions@
        &&& new.table@ == old.table@
        &&& forall|j: int| 0 <= j < old.table@.len() ==> #[trigger] new.pile_cards(j) == old.pile_cards(j)
        &&& old.last_round ==> r.is_ok() && new == old
        &&& !old.last_round ==> {
            &&& r.is_ok() == (4 * n <= d.len())
            &&& r.is_err() ==> r == Err::<(), KasinoError>(KasinoError::DeckOrPileEmpty) && !new.last_round
            &&& r.is_err() && d.len() < 2 * n ==> new == old
            &&& r.is_err() && 2 * n <= d.len() ==> Game::dealt_each(old, new, 2)
            &&& r.is_ok() ==> {
                &&& new.deck_cards() == d.skip(4 * n)
                &&& forall|i: int|
                    0 <= i < n ==> #[trigger] new.hand_cards(i) == old.hand_cards(i) + d.subrange(2 * i, 2 * i + 2)
                        + d.subrange(2 * n + 2 * i, 2 * n + 2 * i + 2)
                &&& new.last_round == (new.deck_cards().len() == 0)
                &&& Game::keeps_others(old, new)
            }
        }
    }

    /// A player is to play.
    pub open spec fn has_current_player(&self) -> bool {
        self.player_turn.is_some() && (self.player_turn.unwrap() as int) < self.players@.len()
    }

    /// A player is to play and their hand holds `c`.
    pub open spec fn in_current_hand(&self, c: Card) -> bool {
        self.has_current_player() && self.hand_cards(self.player_turn.unwrap() as int).contains(c)
    }

    /// A collection outside the game before a table deal is still outside it,
    /// and unchanged, after.
    proof fn lemma_table_deal_outside(a: Game, b: Game, count: int, h: DeckRef)
        requires
            Game::dealt_table(a, b, count),
            0 <= count,
            a.decks@.contains_key(h),
            !a.handles().contains(h),
        ensures
            !b.handles().contains(h),
            b.decks@.contains_key(h),
            b.decks@[h] == a.decks@[h],
    {
        a.lemma_handle_positions();
        b.lemma_handle_positions();
        let n = a.players@.len() as int;
        let t = a.table@.len() as int;
        if b.handles().contains(h) {
            let x = choose|x: int| 0 <= x < b.handles().len() && b.handles()[x] == h;
            if x == 0 {
                assert(a.handles()[0] == h);
            } else if x < 1 + n {
                assert(a.handles()[1 + (x - 1)] == h);
            } else if x < 1 + n + t {
                assert(b.table@[x - 1 - n] == b.table@.take(t)[x - 1 - n]);
                assert(a.handles()[1 + n + (x - 1 - n)] == h);
            } else {
                assert(b.table@[t + (x - 1 - n - t)] == h);
            }
        }
    }

    proof fn lemma_handle_positions(&self)
        ensures
            self.handles()[0] == self.deck,
            forall|i: int|
                0 <= i < self.players@.len() ==> #[trigger] self.handles()[1 + i] == self.players@[i].hand,
            forall|j: int|
                0 <= j < self.table@.len() ==> #[trigger] self.handles()[1 + self.players@.len() + j]
                    == self.table@[j],
            self.handles().len() == 1 + self.players@.len() + self.table@.len(),
    {
    }

    /// Game-wide law: in every well-formed game the draw deck, the hands and
    /// the piles together hold 52 cards. Every operation of [`Game`] keeps the
    /// game well-formed.
    pub proof fn lemma_cards_conserved(&self)
        requires
            self.wf(),
        ensures
            self.card_count() == 52,
    {
        broadcast use vstd::seq_lib::group_to_multiset_ensures;

        lemma_count_is_pooled_len(self.decks@, self.handles());
        assert(standard_order().len() == 52);
    }
}

impl Game {
    /// A game of `players` around a freshly shuffled deck, in the registry
    /// that holds the players' (empty, distinct) hands.
    pub fn new(decks: Decks, players: Vec<Player>) -> (r: Game)
        requires
            decks.wf(),
            forall|i: int| 0 <= i < players@.len() ==> decks@.contains_key(#[trigger] players@[i].hand),
            forall|i: int| 0 <= i < players@.len() ==> decks@[#[trigger] players@[i].hand].len() == 0,
            forall|i: int, j: int|
                0 <= i < players@.len() && 0 <= j < players@.len() && i != j ==> players@[i].hand
                    != players@[j].hand,
        ensures
            r.wf(),
            r.players@ == players@,
            r.deck_cards().len() == 52,
            forall|i: int| 0 <= i < players@.len() ==> #[trigger] r.hand_cards(i).len() == 0,
            r.table@.len() == 0,
            !r.last_round,
            r.player_turn.is_none(),
            r.interactions@.len() == 0,
            !decks@.contains_key(r.deck),
            r.decks@ == decks@.insert(r.deck, r.deck_cards()),
    {
        let mut decks = decks;
        let ghost before = decks@;
        let deck = Deck::build(&mut decks);
        let r = Game {
            players,
            deck,
            table: Table::new(),
            last_round: false,
            player_turn: None,
            interactions: Vec::new(),
            decks,
        };
        proof {
            assert forall|h: DeckRef| #[trigger] r.decks@.contains_key(h) && h != deck implies r.decks@[h] == before[h] by {
                assert(r.decks@.remove(deck)[h] == before.remove(deck)[h]);
            }
            assert(r.decks@ =~= before.insert(deck, r.deck_cards()));
            r.lemma_handle_positions();
            let m = r.decks@;
            let hands = r.hands();
            assert forall|i: int| 0 <= i < hands.len() implies m[#[trigger] hands[i]] == before[hands[i]] by {
                assert(hands[i] != deck);
                assert(m.remove(deck)[hands[i]] == before.remove(deck)[hands[i]]);
            }
            lemma_pooled_all_empty(m, hands);
            assert(r.handles() =~= seq![deck] + hands);
            lemma_pooled_concat(m, seq![deck], hands);
            assert(seq![deck].drop_last() =~= Seq::<DeckRef>::empty());
            assert(pooled(m, seq![deck]) == pooled(m, Seq::<DeckRef>::empty()).add(m[deck].to_multiset()));
            assert(Multiset::<Card>::empty().add(m[deck].to_multiset()) =~= m[deck].to_multiset());
            assert(pooled(m, seq![deck]).add(Multiset::<Card>::empty()) =~= pooled(m, seq![deck]));
            assert forall|i: int| 0 <= i < players@.len() implies #[trigger] r.hand_cards(i).len() == 0 by {
                assert(hands[i] == players@[i].hand);
            }
            assert(r.in_play() =~= m[deck].to_multiset());
            assert forall|i: int, j: int|
                0 <= i < r.handles().len() && 0 <= j < r.handles().len() && i != j implies r.handles()[i]
                != r.handles()[j] by {
                if i > 0 && j > 0 {
                    assert(r.handles()[i] == players@[i - 1].hand);
                    assert(r.handles()[j] == players@[j - 1].hand);
                }
            }
            assert forall|i: int| 0 <= i < r.handles().len() implies m.contains_key(#[trigger] r.handles()[i]) by {
                if i > 0 {
                    assert(r.handles()[i] == players@[i - 1].hand);
                }
            }
        }
        r
    }

    /// Deals `count` cards from the front of the draw deck to each player in
    /// turn. Fails, changing nothing, when the deck holds fewer than
    /// `count` times the number of players.
    pub fn deal_each_player(&mut self, count: usize) -> (r: Result<(), KasinoError>)
        requires
            old(self).wf(),
        ensures
            final(self).wf(),
            r.is_ok() == (count * old(self).players@.len() <= old(self).deck_cards().len()),
            r.is_ok() ==> Game::dealt_each(*old(self), *final(self), count as int),
            r.is_err() ==> r == Err::<(), KasinoError>(KasinoError::DeckOrPileEmpty) && *final(self) == *old(
                self,
            ),
    {
        proof {
            self.lemma_handle_positions();
        }
        let n = self.players.len();
        let available = self.deck.len(&self.decks);
        let total = match count.checked_mul(n) {
            Some(t) => t,
            None => {
                return Err(KasinoError::DeckOrPileEmpty);
            },
        };
        if total > available {
            return Err(KasinoError::DeckOrPileEmpty);
        }
        let ghost d = old(self).deck_cards();
        let mut i: usize = 0;
        while i < n
            invariant
                n == old(self).players@.len(),
                total == count * n,
                total <= d.len(),
                d == old(self).deck_cards(),
                i <= n,
                self.wf(),
                self.same_seats(*old(self)),
                self.table@ == old(self).table@,
                self.decks@.dom() == old(self).decks@.dom(),
                Game::keeps_others(*old(self), *self),
                self.deck_cards() == d.skip(count * i),
                forall|j: int|
                    0 <= j < i ==> #[trigger] self.hand_cards(j) == old(self).hand_cards(j) + d.subrange(
                        count * j,
                        count * j + count,
                    ),
                forall|j: int| i <= j < n ==> #[trigger] self.hand_cards(j) == old(self).hand_cards(j),
                forall|j: int|
                    0 <= j < self.table@.len() ==> #[trigger] self.pile_cards(j) == old(self).pile_cards(j),
            decreases n - i,
        {
            proof {
                assert(count * (i + 1) <= count * n) by (nonlinear_arith)
                    requires
                        i + 1 <= n,
                ;
                assert(count * (i + 1) == count * i + count) by (nonlinear_arith);
                self.lemma_handle_positions();
            }
            let ghost pre = *self;
            let ghost m = self.decks@;
            let ghost hs = self.handles();
            let hand = self.players[i].hand;
            assert(hs[1 + i] == hand);
            assert(m.contains_key(hand));
            match self.deck.draw(&mut self.decks, count) {
                Some(mut cards) => {
                    self.players[i].deal(&mut self.decks, &mut cards);
                },
                None => {
                    return Err(KasinoError::DeckOrPileEmpty);
                },
            }
            proof {
                assert(hs[1 + i] == hand);
                assert(hs[0] != hs[1 + i as int]);
                assert(m.insert(self.deck, m[self.deck].skip(count as int))[hand] == m[hand]);
                lemma_pooled_move(m, hs, self.deck, hand, count as int);
                assert(self.hand_cards(i as int) == m[hand] + d.subrange(count * i, count * i + count));
                assert(self.handles() == hs);
                assert(d.skip(count * i).skip(count as int) =~= d.skip(count * (i + 1)));
                assert(d.skip(count * i).take(count as int) =~= d.subrange(
                    count * i,
                    count * i + count,
                ));
                assert forall|j: int| 0 <= j < n && j != i implies #[trigger] self.hand_cards(j) == pre.hand_cards(j) by {
                    assert(hs[1 + j] == pre.players@[j].hand);
                    assert(hs[1 + j] != hs[1 + i as int]);
                    assert(hs[1 + j] != hs[0]);
                }
                assert forall|h: DeckRef| #[trigger] old(self).decks@.contains_key(h) && !old(self).handles().contains(
                    h,
                ) implies self.decks@.contains_key(h) && self.decks@[h] == old(self).decks@[h] by {
                    assert(old(self).handles() == hs);
                    assert(hs[0] != h);
                    assert(hs[1 + i] != h);
                    assert(pre.decks@[h] == old(self).decks@[h]);
                }
                assert forall|j: int| 0 <= j < i + 1 implies #[trigger] self.hand_cards(j) == old(self).hand_cards(j)
                    + d.subrange(count * j, count * j + count) by {
                    if j < i {
                        assert(self.hand_cards(j) == pre.hand_cards(j));
                    } else {
                        assert(pre.hand_cards(i as int) == old(self).hand_cards(i as int));
                    }
                }
                assert forall|j: int| 0 <= j < self.table@.len() implies #[trigger] self.pile_cards(j) == pre.pile_cards(j) by {
                    assert(hs[1 + n + j] == pre.table@[j]);
                    assert(hs[1 + n + j] != hs[1 + i as int]);
                    assert(hs[1 + n + j] != hs[0]);
                }
            }
            i = i + 1;
        }
        Ok(())
    }

    /// Deals `count` cards from the front of the draw deck to the table, each
    /// into a new one-card pile placed right of the others. Fails, changing
    /// nothing, when the deck holds fewer than `count` cards.
    pub fn deal_table(&mut self, count: usize) -> (r: Result<(), KasinoError>)
        requires
            old(self).wf(),
        ensures
            final(self).wf(),
            r.is_ok() == (count <= old(self).deck_cards().len()),
            r.is_ok() ==> Game::dealt_table(*old(self), *final(self), count as int),
            r.is_err() ==> r == Err::<(), KasinoError>(KasinoError::DeckOrPileEmpty) && *final(self) == *old(
                self,
            ),
    {
        proof {
            self.lemma_handle_positions();
        }
        if !self.deck.has_cards(&self.decks, count) {
            return Err(KasinoError::DeckOrPileEmpty);
        }
        let ghost d = old(self).deck_cards();
        let ghost t = old(self).table@.len() as int;
        let mut k: usize = 0;
        while k < count
            invariant
                count <= d.len(),
                d == old(self).deck_cards(),
                t == old(self).table@.len(),
                k <= count,
                self.wf(),
                self.same_seats(*old(self)),
                self.table@.len() == t + k,
                self.table@.take(t) == old(self).table@,
                self.deck_cards() == d.skip(k as int),
                forall|i: int| 0 <= i < self.players@.len() ==> #[trigger] self.hand_cards(i) == old(self).hand_cards(i),
                forall|j: int| 0 <= j < t ==> #[trigger] self.pile_cards(j) == old(self).pile_cards(j),
                forall|kk: int| 0 <= kk < k ==> #[trigger] self.pile_cards(t + kk) == seq![d[kk]],
                forall|kk: int| 0 <= kk < k ==> !old(self).decks@.contains_key(#[trigger] self.table@[t + kk]),
                forall|h: DeckRef| #[trigger] old(self).decks@.contains_key(h) ==> self.decks@.contains_key(h),
                Game::keeps_others(*old(self), *self),
            decreases count - k,
        {
            let ghost pre = *self;
            let ghost m = self.decks@;
            let ghost hs = self.handles();
            proof {
                self.lemma_handle_positions();
                assert(hs[0] == self.deck);
            }
            match self.deck.draw(&mut self.decks, 1) {
                Some(cards) => {
                    self.table.new_pile(&mut self.decks, cards);
                },
                None => {
                    return Err(KasinoError::DeckOrPileEmpty);
                },
            }
            proof {
                let new = self.table@.last();
                assert(!hs.contains(new)) by {
                    if hs.contains(new) {
                        let x = choose|x: int| 0 <= x < hs.len() && hs[x] == new;
                        assert(m.contains_key(hs[x]));
                    }
                }
                lemma_pooled_split_off(m, hs, self.deck, new, 1);
                assert(self.handles() =~= hs.push(new));
                assert(self.decks@ == m.insert(self.deck, m[self.deck].skip(1)).insert(new, m[self.deck].take(1)));
                assert(d.skip(k as int).skip(1) =~= d.skip(k + 1));
                assert(d.skip(k as int).take(1) =~= seq![d[k as int]]);
                assert(self.table@.take(t) =~= pre.table@.take(t));
                assert forall|i: int| 0 <= i < self.players@.len() implies #[trigger] self.hand_cards(i) == pre.hand_cards(i) by {
                    assert(hs[1 + i] == pre.players@[i].hand);
                    assert(hs[1 + i] != hs[0]);
                }
                assert forall|j: int| 0 <= j < t + k implies #[trigger] self.pile_cards(j) == pre.pile_cards(j) by {
                    let pn = pre.players@.len() as int;
                    assert(hs[1 + pn + j] == pre.table@[j]);
                    assert(hs[1 + pn + j] != hs[0]);
                    assert(self.table@[j] == pre.table@[j]);
                }
                assert forall|j: int| 0 <= j < t implies #[trigger] self.pile_cards(j) == old(self).pile_cards(j) by {
                    assert(self.pile_cards(j) == pre.pile_cards(j));
                }
                assert(!old(self).decks@.contains_key(new)) by {
                    if old(self).decks@.contains_key(new) {
                        assert(pre.decks@.contains_key(new));
                    }
                }
                assert forall|kk: int| 0 <= kk < k + 1 implies !old(self).decks@.contains_key(
                    #[trigger] self.table@[t + kk],
                ) by {
                    if kk < k {
                        assert(self.table@[t + kk] == pre.table@[t + kk]);
                    }
                }
                assert forall|h: DeckRef| #[trigger] old(self).decks@.contains_key(h) && !old(self).handles().contains(
                    h,
                ) implies self.decks@.contains_key(h) && self.decks@[h] == old(self).decks@[h] by {
                    assert(old(self).handles()[0] == self.deck);
                    assert(h != self.deck);
                    assert(pre.decks@.contains_key(h));
                    assert(h != new);
                    assert(pre.decks@[h] == old(self).decks@[h]);
                }
                assert forall|kk: int| 0 <= kk < k + 1 implies #[trigger] self.pile_cards(t + kk) == seq![d[kk]] by {
                    if kk < k {
                        assert(self.pile_cards(t + kk) == pre.pile_cards(t + kk));
                    }
                }
                assert forall|i: int| 0 <= i < self.handles().len() implies self.decks@.contains_key(#[trigger] self.handles()[i]) by {
                    if i < hs.len() {
                        assert(self.handles()[i] == hs[i]);
                    }
                }
            }
            k = k + 1;
        }
        Ok(())
    }

    /// Starts the game: runs the opening deal.
    pub fn start(&mut self) -> (r: Result<(), KasinoError>)
        requires
            old(self).wf(),
        ensures
            final(self).wf(),
            Game::set_up(*old(self), *final(self), r),
    {
        self.setup()
    }

    /// The opening deal: two cards to each player, two piles, two more cards
    /// to each player, two more piles; then player 0 is to play. Stops at the
    /// first deal that fails.
    pub fn setup(&mut self) -> (r: Result<(), KasinoError>)
        requires
            old(self).wf(),
        ensures
            final(self).wf(),
            Game::set_up(*old(self), *final(self), r),
    {
        let ghost g0 = *self;
        if let Err(e) = self.deal_each_player(2) {
            return Err(e);
        }
        let ghost g1 = *self;
        if let Err(e) = self.deal_table(2) {
            return Err(e);
        }
        let ghost g2 = *self;
        if let Err(e) = self.deal_each_player(2) {
            proof {
                assert(Game::dealt_each(g0, g1, 2) && Game::dealt_table(g1, *self, 2));
            }
            return Err(e);
        }
        let ghost g3 = *self;
        if let Err(e) = self.deal_table(2) {
            proof {
                assert(Game::dealt_table(g1, g2, 2) && Game::dealt_each(g0, g1, 2) && Game::dealt_each(g2, *self, 2));
            }
            return Err(e);
        }
        let ghost g4 = *self;
        self.player_turn = Some(0);
        proof {
            let n = g0.players@.len() as int;
            let t = g0.table@.len() as int;
            let d = g0.deck_cards();
            assert(g1.deck_cards() == d.skip(2 * n));
            assert(d.skip(2 * n).skip(2) =~= d.skip(2 * n + 2));
            assert(d.skip(2 * n + 2).skip(2 * n) =~= d.skip(4 * n + 2));
            assert(d.skip(4 * n + 2).skip(2) =~= d.skip(4 * n + 4));
            assert forall|i: int| 0 <= i < n implies #[trigger] self.hand_cards(i) == g0.hand_cards(i)
                + d.subrange(2 * i, 2 * i + 2) + d.subrange(2 * n + 2 + 2 * i, 2 * n + 4 + 2 * i) by {
                assert(g4.hand_cards(i) == g3.hand_cards(i));
                assert(g3.hand_cards(i) == g2.hand_cards(i) + g2.deck_cards().subrange(2 * i, 2 * i + 2));
                assert(g2.hand_cards(i) == g1.hand_cards(i));
                assert(g1.hand_cards(i) == g0.hand_cards(i) + d.subrange(2 * i, 2 * i + 2));
                assert(g2.deck_cards().subrange(2 * i, 2 * i + 2) =~= d.subrange(
                    2 * n + 2 + 2 * i,
                    2 * n + 4 + 2 * i,
                ));
            }
            assert(self.table@.take(t) =~= g2.table@.take(t));
            assert forall|j: int| 0 <= j < t implies #[trigger] self.pile_cards(j) == g0.pile_cards(j) by {
                assert(g4.pile_cards(j) == g3.pile_cards(j));
                assert(g3.pile_cards(j) == g2.pile_cards(j));
                assert(g2.pile_cards(j) == g1.pile_cards(j));
                assert(g1.pile_cards(j) == g0.pile_cards(j));
            }
            assert forall|h: DeckRef| #[trigger] g0.decks@.contains_key(h) && !g0.handles().contains(h) implies self.decks@.contains_key(h)
                && self.decks@[h] == g0.decks@[h] by {
                assert(g1.handles() =~= g0.handles());
                Game::lemma_table_deal_outside(g1, g2, 2, h);
                assert(g3.handles() =~= g2.handles());
                Game::lemma_table_deal_outside(g3, g4, 2, h);
            }
            assert(g2.pile_cards(t + 0) == seq![g1.deck_cards()[0]]);
            assert(g2.pile_cards(t + 1) == seq![g1.deck_cards()[1]]);
            assert(g4.pile_cards(t + 2 + 0) == seq![g3.deck_cards()[0]]);
            assert(g4.pile_cards(t + 2 + 1) == seq![g3.deck_cards()[1]]);
            assert(g4.pile_cards(t) == g3.pile_cards(t));
            assert(g3.pile_cards(t) == g2.pile_cards(t));
            assert(g4.pile_cards(t + 1) == g3.pile_cards(t + 1));
            assert(g3.pile_cards(t + 1) == g2.pile_cards(t + 1));
        }
        Ok(())
    }

    /// Ends a round: outside the last round, deals two cards to each player
    /// twice and enters the last round once the draw deck is empty. In the
    /// last round the game is over and nothing changes; scoring is not part
    /// of this library.
    pub fn end_of_round(&mut self) -> (r: Result<(), KasinoError>)
        requires
            old(self).wf(),
        ensures
            final(self).wf(),
            Game::round_ended(*old(self), *final(self), r),
    {
        if !self.last_round {
            let ghost g0 = *self;
            if let Err(e) = self.deal_each_player(2) {
                return Err(e);
            }
            let ghost g1 = *self;
            if let Err(e) = self.deal_each_player(2) {
                proof {
                    assert forall|j: int| 0 <= j < g0.table@.len() implies #[trigger] self.pile_cards(j)
                        == g0.pile_cards(j) by {
                        assert(g1.pile_cards(j) == g0.pile_cards(j));
                    }
                }
                return Err(e);
            }
            let ghost g2 = *self;
            proof {
                self.lemma_handle_positions();
            }
            if self.deck.is_empty(&self.decks) {
                self.last_round = true;
            }
            proof {
                let n = g0.players@.len() as int;
                let d = g0.deck_cards();
                assert(d.skip(2 * n).skip(2 * n) =~= d.skip(4 * n));
                assert forall|j: int| 0 <= j < g0.table@.len() implies #[trigger] self.pile_cards(j)
                    == g0.pile_cards(j) by {
                    assert(g2.pile_cards(j) == g1.pile_cards(j));
                    assert(g1.pile_cards(j) == g0.pile_cards(j));
                }
                assert forall|i: int| 0 <= i < n implies #[trigger] self.hand_cards(i) == g0.hand_cards(i)
                    + d.subrange(2 * i, 2 * i + 2) + d.subrange(2 * n + 2 * i, 2 * n + 2 * i + 2) by {
                    assert(g1.hand_cards(i) == g0.hand_cards(i) + d.subrange(2 * i, 2 * i + 2));
                    assert(g2.hand_cards(i) == g1.hand_cards(i) + g1.deck_cards().subrange(2 * i, 2 * i + 2));
                    assert(g1.deck_cards().subrange(2 * i, 2 * i + 2) =~= d.subrange(
                        2 * n + 2 * i,
                        2 * n + 2 * i + 2,
                    ));
                }
            }
        }
        Ok(())
    }

    /// The player whose turn it is, if any.
    pub fn current_player(&self) -> (r: Option<&Player>)
        ensures
            r.is_some() == self.has_current_player(),
            r.is_some() ==> *r.unwrap() == self.players@[self.player_turn.unwrap() as int],
    {
        match self.player_turn {
            Some(t) => {
                if (t as usize) < self.players.len() {
                    Some(&self.players[t as usize])
                } else {
                    None
                }
            },
            None => None,
        }
    }

    /// Classifies the pending selections. None: nothing to classify. One or
    /// two: the latest one decides; a card of the current player's own hand
    /// awaits a drop target, any other card completes the action (so does
    /// every card while no player is to play). Three or more: no action; the
    /// selections are discarded.
    pub fn try_to_intent(&mut self) -> (r: Result<(), IntentError>)
        requires
            old(self).wf(),
        ensures
            final(self).wf(),
            final(self).players@ == old(self).players@,
            final(self).deck == old(self).deck,
            final(self).table == old(self).table,
            final(self).decks == old(self).decks,
            final(self).last_round == old(self).last_round,
            final(self).player_turn == old(self).player_turn,
            old(self).interactions@.len() == 0 ==> (r matches Err(IntentError::Unknown))
                && final(self).interactions@ == old(self).interactions@,
            old(self).interactions@.len() >= 3 ==> (r matches Err(IntentError::IllegalAction(_)))
                && final(self).interactions@.len() == 0,
            1 <= old(self).interactions@.len() <= 2 ==> {
                &&& final(self).interactions@ == old(self).interactions@
                &&& (r matches Err(IntentError::PartialIntent(_))) == old(self).in_current_hand(
                    clicked_card(old(self).interactions@.last()),
                )
                &&& r.is_ok() == !old(self).in_current_hand(clicked_card(old(self).interactions@.last()))
            },
    {
        let len = self.interactions.len();
        if len == 0 {
            return Err(IntentError::Unknown);
        }
        if len > 2 {
            self.interactions.clear();
            return Err(IntentError::IllegalAction("yet unknown action"));
        }
        let latest = if len == 1 {
            self.interactions[0]
        } else {
            self.interactions[1]
        };
        let card = match latest {
            PlayerInteraction::Click(c) => c,
        };
        proof {
            self.lemma_handle_positions();
            if self.has_current_player() {
                assert(self.handles()[1 + self.player_turn.unwrap() as int] == self.players@[self.player_turn.unwrap() as int].hand);
            }
        }
        match self.current_player() {
            Some(p) => {
                if p.hand.contains(&self.decks, &card) {
                    Err(IntentError::PartialIntent("awaiting drop target"))
                } else {
                    Ok(())
                }
            },
            None => Ok(()),
        }
    }
}

/// The card that a selection names.
pub open spec fn clicked_card(i: PlayerInteraction) -> Card {
    match i {
        PlayerInteraction::Click(c) => c,
    }
}

/// Ending a round with two players and fewer than eight cards in the draw
/// deck either fails its deal or leaves the game in its last round.
pub proof fn lemma_short_deck_round(old: Game, new: Game, r: Result<(), KasinoError>)
    requires
        old.wf(),
        old.players@.len() == 2,
        old.deck_cards().len() < 8,
        Game::round_ended(old, new, r),
    ensures
        r.is_err() || new.last_round,
{
}

/// The opening deal of two players from a full deck gives each player four
/// cards, puts four one-card piles on the table, leaves forty cards in the
/// draw deck, and gives the turn to player 0.
pub proof fn lemma_opening_deal_of_two(old: Game, new: Game, r: Result<(), KasinoError>)
    requires
        old.wf(),
        old.players@.len() == 2,
        old.deck_cards().len() == 52,
        old.table@.len() == 0,
        forall|i: int| 0 <= i < 2 ==> #[trigger] old.hand_cards(i).len() == 0,
        Game::set_up(old, new, r),
    ensures
        r.is_ok(),
        new.hand_cards(0).len() == 4,
        new.hand_cards(1).len() == 4,
        new.table@.len() == 4,
        forall|j: int| 0 <= j < 4 ==> #[trigger] new.pile_cards(j).len() == 1,
        new.deck_cards().len() == 40,
        new.player_turn == Some(0u8),
{
    assert(old.hand_cards(0).len() == 0);
    assert(old.hand_cards(1).len() == 0);
    assert(new.hand_cards(0) == old.hand_cards(0) + old.deck_cards().subrange(0, 2) + old.deck_cards().subrange(6, 8));
    assert(new.hand_cards(1) == old.hand_cards(1) + old.deck_cards().subrange(2, 4) + old.deck_cards().subrange(8, 10));
    assert(new.pile_cards(0) == seq![old.deck_cards()[4]]);
}

} // verus!
