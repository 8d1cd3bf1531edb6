use kasino::card::{Card, Suit};
use kasino::registry::{Deck, Decks};

fn three() -> Vec<Card> {
    vec![Card::new(Suit::HEARTS, 2), Card::new(Suit::CLUBS, 7), Card::new(Suit::SPADES, 13)]
}

#[test]
fn draw_takes_from_the_front() {
    let mut decks = Decks::new();
    let h = Deck::new(&mut decks, three());
    let drawn = h.draw(&mut decks, 2).unwrap();
    assert_eq!(drawn, vec![Card::new(Suit::HEARTS, 2), Card::new(Suit::CLUBS, 7)]);
    assert_eq!(h.iter(&decks), &vec![Card::new(Suit::SPADES, 13)]);
    assert_eq!(h.len(&decks), 1);
}

#[test]
fn draw_everything_empties() {
    let mut decks = Decks::new();
    let h = Deck::new(&mut decks, three());
    assert_eq!(h.draw(&mut decks, 3).unwrap().len(), 3);
    assert!(h.is_empty(&decks));
    assert_eq!(h.draw(&mut decks, 0), Some(vec![]));
}

#[test]
fn draw_too_many_changes_nothing() {
    let mut decks = Decks::new();
    let h = Deck::new(&mut decks, three());
    assert_eq!(h.draw(&mut decks, 4), None);
    assert_eq!(h.iter(&decks), &three());
}

#[test]
fn append_keeps_order() {
    let mut decks = Decks::new();
    let h = Deck::singleton(&mut decks, Card::new(Suit::DIAMONDS, 1));
    let mut more = three();
    h.append(&mut decks, &mut more);
    assert!(more.is_empty());
    let cards = h.iter(&decks);
    assert_eq!(cards.len(), 4);
    assert_eq!(cards[0], Card::new(Suit::DIAMONDS, 1));
    assert_eq!(cards[3], Card::new(Suit::SPADES, 13));
}

#[test]
fn size_queries() {
    let mut decks = Decks::new();
    let e = Deck::empty(&mut decks);
    let h = Deck::new(&mut decks, three());
    assert!(e.is_empty(&decks));
    assert!(e.has_cards(&decks, 0));
    assert!(!e.has_cards(&decks, 1));
    assert!(h.has_cards(&decks, 3));
    assert!(!h.has_cards(&decks, 4));
    assert!(h.contains(&decks, &Card::new(Suit::CLUBS, 7)));
    assert!(!h.contains(&decks, &Card::new(Suit::CLUBS, 8)));
    assert!(!decks.deck(h).is_empty());
    assert_eq!(decks.deck(h).len(), 3);
}

#[test]
fn deck_methods_on_a_collection() {
    let mut decks = Decks::new();
    let h = Deck::new(&mut decks, three());
    let d = decks.deck(h);
    assert!(d.has_cards(2));
    assert_eq!(d.cards(), &three());
}
