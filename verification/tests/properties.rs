use itertools::Itertools;

use poker_hands::Board;
use poker_hands::Card;
use poker_hands::Combination;
use poker_hands::Game;
use poker_hands::HandOf2;
use poker_hands::HandOf4;
use poker_hands::HandOf5;
use poker_hands::Rank;
use poker_hands::Suit;
use poker_hands::Variant;

fn classify(cards: [Card; 5]) -> Combination {
    Combination::from_variant(Variant(cards))
}

#[test]
fn test_classify_returns_one_combination_per_kind() {
    assert_eq!(
        classify([
            Card(Rank::Two, Suit::Diamonds),
            Card(Rank::Five, Suit::Clubs),
            Card(Rank::Nine, Suit::Hearts),
            Card(Rank::Jack, Suit::Spades),
            Card(Rank::Ace, Suit::Diamonds),
        ]),
        Combination::HighCard { rank: Rank::Ace }
    );
    assert_eq!(
        classify([
            Card(Rank::Two, Suit::Diamonds),
            Card(Rank::Two, Suit::Clubs),
            Card(Rank::Nine, Suit::Hearts),
            Card(Rank::Jack, Suit::Spades),
            Card(Rank::Ace, Suit::Diamonds),
        ]),
        Combination::Pair {
            rank: Rank::Two,
            kicker: Rank::Ace
        }
    );
    assert_eq!(
        classify([
            Card(Rank::Two, Suit::Diamonds),
            Card(Rank::Two, Suit::Clubs),
            Card(Rank::Nine, Suit::Hearts),
            Card(Rank::Nine, Suit::Spades),
            Card(Rank::Ace, Suit::Diamonds),
        ]),
        Combination::TwoPairs {
            low: Rank::Two,
            high: Rank::Nine,
            kicker: Rank::Ace
        }
    );
    assert_eq!(
        classify([
            Card(Rank::Two, Suit::Diamonds),
            Card(Rank::Two, Suit::Clubs),
            Card(Rank::Two, Suit::Hearts),
            Card(Rank::Nine, Suit::Spades),
            Card(Rank::Ace, Suit::Diamonds),
        ]),
        Combination::ThreeOfAKind {
            rank: Rank::Two,
            kicker: Rank::Ace
        }
    );
    assert_eq!(
        classify([
            Card(Rank::Five, Suit::Diamonds),
            Card(Rank::Six, Suit::Clubs),
            Card(Rank::Seven, Suit::Hearts),
            Card(Rank::Eight, Suit::Spades),
            Card(Rank::Nine, Suit::Diamonds),
        ]),
        Combination::Straight { rank: Rank::Five }
    );
    assert_eq!(
        classify([
            Card(Rank::Two, Suit::Spades),
            Card(Rank::Five, Suit::Spades),
            Card(Rank::Nine, Suit::Spades),
            Card(Rank::Jack, Suit::Spades),
            Card(Rank::Ace, Suit::Spades),
        ]),
        Combination::Flush { rank: Rank::Ace }
    );
    assert_eq!(
        classify([
            Card(Rank::Two, Suit::Diamonds),
            Card(Rank::Two, Suit::Clubs),
            Card(Rank::Nine, Suit::Hearts),
            Card(Rank::Nine, Suit::Spades),
            Card(Rank::Nine, Suit::Diamonds),
        ]),
        Combination::FullHouse {
            three: Rank::Nine,
            two: Rank::Two
        }
    );
    assert_eq!(
        classify([
            Card(Rank::Nine, Suit::Clubs),
            Card(Rank::Two, Suit::Clubs),
            Card(Rank::Nine, Suit::Hearts),
            Card(Rank::Nine, Suit::Spades),
            Card(Rank::Nine, Suit::Diamonds),
        ]),
        Combination::FourOfAKind {
            rank: Rank::Nine,
            kicker: Rank::Two
        }
    );
    assert_eq!(
        classify([
            Card(Rank::Five, Suit::Clubs),
            Card(Rank::Six, Suit::Clubs),
            Card(Rank::Seven, Suit::Clubs),
            Card(Rank::Eight, Suit::Clubs),
            Card(Rank::Nine, Suit::Clubs),
        ]),
        Combination::StraightFlush { rank: Rank::Five }
    );
}

#[test]
fn test_order_is_total_and_transitive_on_samples() {
    let samples = vec![
        Combination::HighCard { rank: Rank::Ace },
        Combination::Pair {
            rank: Rank::Two,
            kicker: Rank::Ace,
        },
        Combination::TwoPairs {
            low: Rank::Two,
            high: Rank::Nine,
            kicker: Rank::Ace,
        },
        Combination::ThreeOfAKind {
            rank: Rank::Two,
            kicker: Rank::Ace,
        },
        Combination::Straight { rank: Rank::Ace },
        Combination::Straight { rank: Rank::Two },
        Combination::Straight { rank: Rank::Ten },
        Combination::Flush { rank: Rank::Seven },
        Combination::FullHouse {
            three: Rank::Two,
            two: Rank::Ace,
        },
        Combination::FourOfAKind {
            rank: Rank::Two,
            kicker: Rank::Ace,
        },
        Combination::StraightFlush { rank: Rank::Ace },
        Combination::StraightFlush { rank: Rank::Ten },
    ];

    for a in &samples {
        for b in &samples {
            let less = a < b;
            let equal = a == b;
            let greater = a > b;
            assert_eq!(
                [less, equal, greater].iter().filter(|x| **x).count(),
                1,
                "exactly one relation must hold"
            );
            for c in &samples {
                if a < b && b < c {
                    assert!(a < c, "transitivity");
                }
            }
        }
    }
}

#[test]
fn test_kind_precedence() {
    let weakest_to_strongest = vec![
        Combination::HighCard { rank: Rank::Ace },
        Combination::Pair {
            rank: Rank::Ace,
            kicker: Rank::King,
        },
        Combination::TwoPairs {
            low: Rank::King,
            high: Rank::Ace,
            kicker: Rank::Queen,
        },
        Combination::ThreeOfAKind {
            rank: Rank::Ace,
            kicker: Rank::King,
        },
        Combination::Straight { rank: Rank::Ten },
        Combination::Flush { rank: Rank::Ace },
        Combination::FullHouse {
            three: Rank::Ace,
            two: Rank::King,
        },
        Combination::FourOfAKind {
            rank: Rank::Ace,
            kicker: Rank::King,
        },
        Combination::StraightFlush { rank: Rank::Ten },
    ];
    let strongest_of_weaker = vec![
        Combination::HighCard { rank: Rank::Ace },
        Combination::Pair {
            rank: Rank::Ace,
            kicker: Rank::King,
        },
        Combination::TwoPairs {
            low: Rank::King,
            high: Rank::Ace,
            kicker: Rank::Queen,
        },
        Combination::ThreeOfAKind {
            rank: Rank::Ace,
            kicker: Rank::King,
        },
        Combination::Straight { rank: Rank::Ten },
        Combination::Flush { rank: Rank::Ace },
        Combination::FullHouse {
            three: Rank::Ace,
            two: Rank::King,
        },
        Combination::FourOfAKind {
            rank: Rank::Ace,
            kicker: Rank::King,
        },
    ];

    for (i, stronger) in weakest_to_strongest.iter().enumerate().skip(1) {
        for weaker in strongest_of_weaker.iter().take(i) {
            assert!(
                weaker < stronger,
                "every combination of a stronger kind beats the best of a weaker kind"
            );
        }
    }
}

#[test]
fn test_wheel_sentinel_ordering() {
    let wheel = Combination::Straight { rank: Rank::Ace };

    assert!(wheel < Combination::Straight { rank: Rank::Two });
    assert!(wheel < Combination::Straight { rank: Rank::Ten });
    assert_eq!(wheel, Combination::Straight { rank: Rank::Ace });
    assert_eq!(
        classify([
            Card(Rank::Two, Suit::Diamonds),
            Card(Rank::Three, Suit::Clubs),
            Card(Rank::Four, Suit::Hearts),
            Card(Rank::Five, Suit::Spades),
            Card(Rank::Ace, Suit::Diamonds),
        ]),
        wheel
    );
}

#[test]
fn test_suit_blind_card_ordering() {
    assert_eq!(
        Card(Rank::Two, Suit::Diamonds).partial_cmp(&Card(Rank::Two, Suit::Hearts)),
        Some(std::cmp::Ordering::Equal)
    );
}

#[test]
fn test_texas_holdem_scenario() {
    let board = Board([
        Card(Rank::Queen, Suit::Spades),
        Card(Rank::King, Suit::Diamonds),
        Card(Rank::King, Suit::Spades),
        Card(Rank::Seven, Suit::Clubs),
        Card(Rank::Jack, Suit::Diamonds),
    ]);
    let hand = HandOf2([Card(Rank::King, Suit::Hearts), Card(Rank::Two, Suit::Clubs)]);

    assert_eq!(
        Game::texas_holdem_combination(board, hand),
        Combination::ThreeOfAKind {
            rank: Rank::King,
            kicker: Rank::Queen
        }
    );
}

#[test]
fn test_omaha_scenario() {
    let board = Board([
        Card(Rank::Queen, Suit::Spades),
        Card(Rank::King, Suit::Diamonds),
        Card(Rank::King, Suit::Spades),
        Card(Rank::Seven, Suit::Clubs),
        Card(Rank::Jack, Suit::Diamonds),
    ]);
    let hand = HandOf4([
        Card(Rank::King, Suit::Clubs),
        Card(Rank::Seven, Suit::Diamonds),
        Card(Rank::Seven, Suit::Hearts),
        Card(Rank::Seven, Suit::Spades),
    ]);

    assert_eq!(
        Game::omaha_holdem_combination(board, hand),
        Combination::FullHouse {
            three: Rank::King,
            two: Rank::Seven
        }
    );
}

#[test]
fn test_five_card_draw_scenario() {
    let game = Game::FiveCardDraw(vec![HandOf5([
        Card(Rank::King, Suit::Clubs),
        Card(Rank::Seven, Suit::Diamonds),
        Card(Rank::Seven, Suit::Hearts),
        Card(Rank::Seven, Suit::Spades),
        Card(Rank::Seven, Suit::Clubs),
    ])]);

    let ranked = Game::rank_hands(game);

    assert_eq!(ranked.len(), 1);
    assert_eq!(
        ranked[0].1,
        Combination::FourOfAKind {
            rank: Rank::Seven,
            kicker: Rank::King
        }
    );
}

#[test]
fn test_group_sort_round_trip() {
    let game = Game::TexasHoldem(
        Board([
            Card(Rank::Queen, Suit::Spades),
            Card(Rank::King, Suit::Diamonds),
            Card(Rank::King, Suit::Spades),
            Card(Rank::Seven, Suit::Clubs),
            Card(Rank::Jack, Suit::Diamonds),
        ]),
        vec![
            HandOf2([Card(Rank::King, Suit::Hearts), Card(Rank::Two, Suit::Clubs)]),
            HandOf2([
                Card(Rank::King, Suit::Clubs),
                Card(Rank::Seven, Suit::Diamonds),
            ]),
            HandOf2([
                Card(Rank::Ace, Suit::Diamonds),
                Card(Rank::Ten, Suit::Hearts),
            ]),
            HandOf2([
                Card(Rank::Six, Suit::Diamonds),
                Card(Rank::Six, Suit::Hearts),
            ]),
        ],
    );

    let ranked = Game::rank_hands(game);
    let original_hands: Vec<Vec<Card>> = ranked.iter().map(|(cards, _)| cards.clone()).collect();
    let ranked_by = |cards: &Vec<Card>| {
        ranked
            .iter()
            .find(|(c, _)| c == cards)
            .map(|(_, comb)| *comb)
            .unwrap()
    };

    let sorted = Game::sort_hands(Game::group_hands(ranked.clone()));

    // Groups come in strictly ascending strength.
    for (ga, gb) in sorted.iter().tuple_windows() {
        let comb_a = ranked_by(&ga[0]);
        let comb_b = ranked_by(&gb[0]);
        assert!(comb_a < comb_b, "groups must ascend strictly");
    }
    // Members of one group tie exactly.
    for group in &sorted {
        for member in group {
            assert_eq!(ranked_by(member), ranked_by(&group[0]));
        }
    }
    // The union of all cards over all groups is the original set of hands.
    let mut flattened: Vec<Vec<Card>> = sorted.into_iter().flatten().collect();
    let mut expected = original_hands;
    flattened.sort_by_key(|cards| format!("{:?}", cards));
    expected.sort_by_key(|cards| format!("{:?}", cards));
    assert_eq!(flattened, expected);
}

#[test]
fn test_group_hands_keeps_equal_keys_together() {
    let tie = Combination::Pair {
        rank: Rank::Ace,
        kicker: Rank::King,
    };
    let hands = vec![
        (vec![Card(Rank::Ace, Suit::Clubs)], tie),
        (vec![Card(Rank::Ace, Suit::Hearts)], tie),
        (vec![Card(Rank::Ace, Suit::Spades)], tie),
    ];

    let grouped = Game::group_hands(hands);

    assert_eq!(grouped.len(), 1);
    assert_eq!(grouped[0].0, tie);
    assert_eq!(
        grouped[0].1,
        vec![
            vec![Card(Rank::Ace, Suit::Clubs)],
            vec![Card(Rank::Ace, Suit::Hearts)],
            vec![Card(Rank::Ace, Suit::Spades)],
        ]
    );
}

#[test]
fn test_texas_search_considers_all_subsets() {
    // Only one of the 21 five-card subsets of board + hole makes the quads;
    // a search that looked at fewer subsets would miss it.
    let board = Board([
        Card(Rank::Nine, Suit::Clubs),
        Card(Rank::Two, Suit::Diamonds),
        Card(Rank::Nine, Suit::Hearts),
        Card(Rank::Seven, Suit::Spades),
        Card(Rank::Nine, Suit::Spades),
    ]);
    let hand = HandOf2([
        Card(Rank::Nine, Suit::Diamonds),
        Card(Rank::Three, Suit::Clubs),
    ]);

    assert_eq!(
        Game::texas_holdem_combination(board, hand),
        Combination::FourOfAKind {
            rank: Rank::Nine,
            kicker: Rank::Seven
        }
    );
}

#[test]
fn test_omaha_uses_exactly_two_hole_cards() {
    // Four nines in the hole: only two of them may play, so the best hand
    // is a pair of nines with the board's ace, never trips or quads.
    let board = Board([
        Card(Rank::Ace, Suit::Diamonds),
        Card(Rank::King, Suit::Clubs),
        Card(Rank::Seven, Suit::Hearts),
        Card(Rank::Five, Suit::Spades),
        Card(Rank::Two, Suit::Diamonds),
    ]);
    let hand = HandOf4([
        Card(Rank::Nine, Suit::Clubs),
        Card(Rank::Nine, Suit::Diamonds),
        Card(Rank::Nine, Suit::Hearts),
        Card(Rank::Nine, Suit::Spades),
    ]);

    assert_eq!(
        Game::omaha_holdem_combination(board, hand),
        Combination::Pair {
            rank: Rank::Nine,
            kicker: Rank::Ace
        }
    );
}
