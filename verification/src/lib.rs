//! A verified poker showdown core: a card value model, a classifier from
//! five-card hands to ranked combinations, a total order over combinations
//! (with the ace-low "wheel" straight rule), and the per-variant best-hand
//! search and grouping used to rank players at showdown.

mod card;
mod combination;
mod game;
mod order;

pub use card::Card;
pub use card::Rank;
pub use card::Suit;
pub use card::card_cmp;
pub use card::lemma_card_order_suit_blind;
pub use card::lemma_rank_value_bijective;
pub use card::rank_of_value;
pub use card::rank_value;

pub use combination::Combination;
pub use combination::InvalidSize;
pub use combination::Variant;
pub use combination::count_rank;
pub use combination::is_flush;
pub use combination::is_straight;
pub use combination::is_wheel;
pub use combination::lemma_straight_rank_sentinel;
pub use combination::max_rank;
pub use combination::spec_classify;
pub use combination::straight_rank;

pub use order::combination_cmp;
pub use order::combination_le;
pub use order::kind_strength;
pub use order::lemma_combination_order_total;
pub use order::lemma_combination_order_transitive;
pub use order::lemma_kind_precedence;
pub use order::lemma_wheel_weakest;
pub use order::straight_strength;
pub use order::tiebreaks;

pub use game::Board;
pub use game::Game;
pub use game::Hand;
pub use game::HandOf2;
pub use game::HandOf4;
pub use game::HandOf5;
pub use game::group_cards;
pub use game::grouped_by_combination;
pub use game::groups_sorted;
pub use game::groups_view;
pub use game::hand_groups_view;
pub use game::is_best_choice_of_5;
pub use game::is_best_omaha;
pub use game::is_subseq_of;
pub use game::lemma_group_sort_round_trip;
pub use game::lemma_grouped_cards;
pub use game::lemma_grouped_distinct;
pub use game::pairs_view;
