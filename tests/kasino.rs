use kasino::card::Card;
use kasino::game::{Game, IntentError, KasinoError, Player, PlayerInteraction};
use kasino::registry::{DeckRef, Decks};

fn game_of(n: u8) -> Game {
    let mut decks = Decks::new();
    let mut players = Vec::new();
    for id in 0..n {
        players.push(Player::new(&mut decks, id, &format!("player{}", id + 1)));
    }
    Game::new(decks, players)
}

fn size(g: &Game, h: DeckRef) -> usize {
    h.len(&g.decks)
}

fn total(g: &Game) -> usize {
    let mut t = size(g, g.deck);
    for p in &g.players {
        t += size(g, p.hand);
    }
    for pile in g.table.piles() {
        t += size(g, *pile);
    }
    t
}

#[test]
fn new_game_is_idle() {
    let g = game_of(2);
    assert_eq!(size(&g, g.deck), 52);
    assert_eq!(g.players.len(), 2);
    assert_eq!(g.players[1].name, "player2");
    assert!(g.table.piles().is_empty());
    assert_eq!(g.player_turn, None);
    assert!(g.current_player().is_none());
    assert!(!g.last_round);
}

#[test]
fn setup_with_two_players() {
    let mut g = game_of(2);
    assert!(g.start().is_ok());
    for p in &g.players {
        assert_eq!(size(&g, p.hand), 4);
    }
    assert_eq!(g.table.piles().len(), 4);
    for pile in g.table.piles() {
        assert_eq!(size(&g, *pile), 1);
    }
    assert_eq!(size(&g, g.deck), 52 - 4 * 2 - 4);
    assert_eq!(g.player_turn, Some(0));
    assert_eq!(g.current_player().unwrap().id, 0);
    assert_eq!(total(&g), 52);
}

#[test]
fn setup_fails_when_deck_is_short() {
    let mut g = game_of(13);
    assert_eq!(g.setup(), Err(KasinoError::DeckOrPileEmpty));
    assert_eq!(g.player_turn, None);
    assert_eq!(total(&g), 52);
}

#[test]
fn deal_each_player_deals_in_player_order() {
    let mut g = game_of(3);
    let front: Vec<Card> = g.deck.iter(&g.decks)[..6].to_vec();
    assert!(g.deal_each_player(2).is_ok());
    assert_eq!(g.players[0].hand.iter(&g.decks), &front[0..2].to_vec());
    assert_eq!(g.players[1].hand.iter(&g.decks), &front[2..4].to_vec());
    assert_eq!(g.players[2].hand.iter(&g.decks), &front[4..6].to_vec());
    assert_eq!(size(&g, g.deck), 46);
}

#[test]
fn deal_each_player_refuses_too_many() {
    let mut g = game_of(2);
    assert_eq!(g.deal_each_player(27), Err(KasinoError::DeckOrPileEmpty));
    assert_eq!(size(&g, g.deck), 52);
    assert_eq!(size(&g, g.players[0].hand), 0);
    assert!(g.deal_each_player(26).is_ok());
    assert!(g.deck.is_empty(&g.decks));
    assert_eq!(g.deal_each_player(usize::MAX), Err(KasinoError::DeckOrPileEmpty));
}

#[test]
fn deal_table_makes_one_card_piles() {
    let mut g = game_of(2);
    let front: Vec<Card> = g.deck.iter(&g.decks)[..3].to_vec();
    assert!(g.deal_table(3).is_ok());
    let piles = g.table.piles().clone();
    assert_eq!(piles.len(), 3);
    for (k, pile) in piles.iter().enumerate() {
        assert_eq!(pile.iter(&g.decks), &vec![front[k]]);
    }
    assert_eq!(g.deal_table(50), Err(KasinoError::DeckOrPileEmpty));
    assert_eq!(g.table.piles().len(), 3);
}

#[test]
fn rounds_until_the_deck_is_empty() {
    let mut g = game_of(2);
    assert!(g.setup().is_ok());
    for round in 1..=5 {
        assert!(g.end_of_round().is_ok());
        assert_eq!(size(&g, g.deck), 40 - 8 * round);
        assert_eq!(g.last_round, round == 5);
        assert_eq!(total(&g), 52);
    }
    assert!(g.end_of_round().is_ok());
    assert!(g.last_round);
    assert_eq!(size(&g, g.players[0].hand), 24);
}

#[test]
fn round_with_short_deck_fails() {
    let mut g = game_of(2);
    assert!(g.setup().is_ok());
    assert!(g.deal_table(3).is_ok());
    for _ in 0..4 {
        assert!(g.end_of_round().is_ok());
    }
    assert_eq!(size(&g, g.deck), 5);
    assert_eq!(g.end_of_round(), Err(KasinoError::DeckOrPileEmpty));
    assert!(!g.last_round);
    assert_eq!(total(&g), 52);
}

#[test]
fn intent_of_nothing_is_unknown() {
    let mut g = game_of(2);
    assert!(matches!(g.try_to_intent(), Err(IntentError::Unknown)));
}

#[test]
fn intent_of_three_clicks_is_illegal() {
    let mut g = game_of(2);
    assert!(g.setup().is_ok());
    let c = g.players[0].hand.iter(&g.decks)[0];
    for _ in 0..3 {
        g.interactions.push(PlayerInteraction::Click(c));
    }
    assert!(matches!(g.try_to_intent(), Err(IntentError::IllegalAction(_))));
    assert!(g.interactions.is_empty());
}

#[test]
fn click_on_own_hand_awaits_more() {
    let mut g = game_of(2);
    assert!(g.setup().is_ok());
    let c = g.players[0].hand.iter(&g.decks)[1];
    g.interactions.push(PlayerInteraction::Click(c));
    assert!(matches!(g.try_to_intent(), Err(IntentError::PartialIntent(_))));
    assert_eq!(g.interactions.len(), 1);
}

#[test]
fn click_on_table_card_completes() {
    let mut g = game_of(2);
    assert!(g.setup().is_ok());
    let pile = g.table.piles()[0];
    let c = pile.iter(&g.decks)[0];
    g.interactions.push(PlayerInteraction::Click(c));
    assert!(g.try_to_intent().is_ok());
    let other = g.players[1].hand.iter(&g.decks)[0];
    g.interactions.clear();
    g.interactions.push(PlayerInteraction::Click(other));
    assert!(g.try_to_intent().is_ok());
}

#[test]
fn second_click_decides() {
    let mut g = game_of(2);
    assert!(g.setup().is_ok());
    let own = g.players[0].hand.iter(&g.decks)[0];
    let table = g.table.piles()[1].iter(&g.decks)[0];
    g.interactions.push(PlayerInteraction::Click(own));
    g.interactions.push(PlayerInteraction::Click(table));
    assert!(g.try_to_intent().is_ok());
    g.interactions.clear();
    g.interactions.push(PlayerInteraction::Click(table));
    g.interactions.push(PlayerInteraction::Click(own));
    assert!(matches!(g.try_to_intent(), Err(IntentError::PartialIntent(_))));
    assert_eq!(g.interactions.len(), 2);
}

#[test]
fn click_before_anyone_plays_completes() {
    let mut g = game_of(2);
    let c = g.deck.iter(&g.decks)[0];
    g.interactions.push(PlayerInteraction::Click(c));
    assert!(g.try_to_intent().is_ok());
    assert_eq!(g.interactions.len(), 1);
}

#[test]
fn failed_round_moves_no_cards() {
    let mut g = game_of(2);
    assert!(g.setup().is_ok());
    assert!(g.deal_table(37).is_ok());
    let hand_before = g.players[0].hand.iter(&g.decks).clone();
    assert_eq!(size(&g, g.deck), 3);
    assert_eq!(g.end_of_round(), Err(KasinoError::DeckOrPileEmpty));
    assert_eq!(size(&g, g.deck), 3);
    assert_eq!(g.players[0].hand.iter(&g.decks), &hand_before);
}

#[test]
fn failed_second_deal_keeps_the_first() {
    let mut g = game_of(2);
    assert!(g.setup().is_ok());
    assert!(g.deal_table(35).is_ok());
    assert_eq!(size(&g, g.deck), 5);
    assert_eq!(g.end_of_round(), Err(KasinoError::DeckOrPileEmpty));
    assert_eq!(size(&g, g.deck), 1);
    assert_eq!(size(&g, g.players[0].hand), 6);
    assert_eq!(size(&g, g.players[1].hand), 6);
    assert!(!g.last_round);
}

#[test]
fn game_keeps_other_collections() {
    let mut decks = Decks::new();
    let p1 = Player::new(&mut decks, 0, "player1");
    let spare = kasino::registry::Deck::singleton(&mut decks, Card::new(kasino::card::Suit::HEARTS, 5));
    let p2 = Player::new(&mut decks, 1, "player2");
    let mut g = Game::new(decks, vec![p1, p2]);
    assert_ne!(g.deck, spare);
    assert!(g.setup().is_ok());
    assert_eq!(spare.iter(&g.decks), &vec![Card::new(kasino::card::Suit::HEARTS, 5)]);
}
