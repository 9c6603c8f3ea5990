use std::cmp::Ordering;

use itertools::Itertools;

use poker_hands::Card;
use poker_hands::Rank;
use poker_hands::Suit;

#[test]
fn test_new() {
    assert_eq!(
        Card::new(Rank::Two, Suit::Diamonds),
        Card(Rank::Two, Suit::Diamonds)
    );
}

#[test]
fn test_get_rank() {
    assert_eq!(Card::new(Rank::Two, Suit::Diamonds).rank(), Rank::Two);
}

#[test]
fn test_get_suit() {
    assert_eq!(Card::new(Rank::Two, Suit::Diamonds).suit(), Suit::Diamonds);
}

#[test]
fn test_ordering() {
    assert_eq!(
        Card(Rank::Two, Suit::Diamonds).partial_cmp(&Card(Rank::Two, Suit::Diamonds)),
        Some(Ordering::Equal)
    );
    assert_eq!(
        Card(Rank::Two, Suit::Diamonds).partial_cmp(&Card(Rank::Two, Suit::Hearts)),
        Some(Ordering::Equal)
    );
    assert_eq!(
        Card(Rank::Two, Suit::Diamonds).partial_cmp(&Card(Rank::Three, Suit::Hearts)),
        Some(Ordering::Less)
    );
    assert_eq!(
        Card(Rank::Three, Suit::Diamonds).partial_cmp(&Card(Rank::Two, Suit::Hearts)),
        Some(Ordering::Greater)
    );

    assert_eq!(
        vec![
            Card(Rank::Four, Suit::Diamonds),
            Card(Rank::Two, Suit::Hearts),
            Card(Rank::Four, Suit::Clubs)
        ]
        .into_iter()
        .sorted_by(|a, b| a.partial_cmp(b).unwrap())
        .collect::<Vec<_>>(),
        vec![
            Card(Rank::Two, Suit::Hearts),
            Card(Rank::Four, Suit::Diamonds),
            Card(Rank::Four, Suit::Clubs)
        ]
    );
}

#[test]
fn test_equality() {
    assert_eq!(Suit::Diamonds, Suit::Diamonds);
    assert_eq!(Suit::Clubs, Suit::Clubs);
    assert_eq!(Suit::Hearts, Suit::Hearts);
    assert_eq!(Suit::Spades, Suit::Spades);
}

#[test]
fn test_list() {
    assert_eq!(
        Suit::list(),
        vec![Suit::Diamonds, Suit::Clubs, Suit::Hearts, Suit::Spades]
    )
}
