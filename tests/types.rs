use kasino::card::{standard_cards, Card, Suit};
use kasino::game::{Game, Player};
use kasino::registry::{Deck, Decks};

#[test]
fn test_deck_build() {
    let mut decks = Decks::new();
    let d = Deck::build(&mut decks);
    let draw = d.draw(&mut decks, 4).unwrap();
    assert_eq!(draw.len(), 4);
    assert_eq!(d.len(&decks), 48);
}

#[test]
fn test_game_creation() {
    let mut decks = Decks::new();
    let p1 = Player::new(&mut decks, 1, "player1");
    let p2 = Player::new(&mut decks, 2, "player2");
    let mut game = Game::new(decks, vec![p1, p2]);

    println!();
    println!("Before setup:");
    println!();
    println!("{:?}", &game);
    assert!(game.setup().is_ok());
    println!("After setup:");
    println!();
    println!("{:?}", &game);
}

#[test]
fn fresh_deck_holds_each_card_once() {
    let mut decks = Decks::new();
    let d = Deck::build(&mut decks);
    let cards = d.iter(&decks).clone();
    assert_eq!(cards.len(), 52);
    for suit in [Suit::CLUBS, Suit::SPADES, Suit::DIAMONDS, Suit::HEARTS] {
        for value in 1..=13u8 {
            let n = cards.iter().filter(|c| **c == Card::new(suit, value)).count();
            assert_eq!(n, 1);
        }
    }
}

#[test]
fn unshuffled_deck_keeps_building_order() {
    let mut decks = Decks::new();
    let d = Deck::build_ordered(&mut decks);
    let cards = d.iter(&decks);
    assert_eq!(cards.len(), 52);
    let suits = [Suit::CLUBS, Suit::SPADES, Suit::DIAMONDS, Suit::HEARTS];
    for (i, c) in cards.iter().enumerate() {
        assert_eq!(c.suit, suits[i / 13]);
        assert_eq!(c.value as usize, i % 13 + 1);
    }
    assert_eq!(cards[0], Card::new(Suit::CLUBS, 1));
    assert_eq!(cards[13], Card::new(Suit::SPADES, 1));
    assert_eq!(cards[51], Card::new(Suit::HEARTS, 13));
}

#[test]
fn shuffled_deck_differs_from_building_order() {
    let mut decks = Decks::new();
    let d = Deck::build(&mut decks);
    assert_ne!(d.iter(&decks), &standard_cards());
}

#[test]
fn handles_of_different_registries_differ() {
    let mut a = Decks::new();
    let mut b = Decks::new();
    let ha = Deck::empty(&mut a);
    let hb = Deck::empty(&mut b);
    assert_ne!(ha, hb);
}
