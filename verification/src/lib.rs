//! Evaluation and ranking of troop-allocation strategies for a weighted
//! ten-battlefield simultaneous-move game.
//!
//! A strategy commits troops to ten battlefields; battlefield `i` (0-based)
//! is worth `i + 1` points. Two strategies are compared battlefield by
//! battlefield, the population is scored all-against-all, and a winner is
//! found either through a seeded single-elimination bracket or through a
//! relegation tournament that drops the weakest entrant each round.
//!
//! All scores are kept in half-point units so that a tied battlefield can
//! split its weight without fractions: a full battle is worth 110 half-points
//! (55 points).

pub mod bracket;
pub mod relegation;
pub mod round_robin;
pub mod seeding;
pub mod scoring;
pub mod strategy;

pub use scoring::battle;
pub use scoring::BattleScore;
pub use strategy::array_to_split_points;
pub use strategy::gen_uniform_random_split_points;
pub use strategy::generate_uniform_random_distribution;
pub use strategy::split_points_to_array;
pub use seeding::log_2;
pub use seeding::next_power_of_2_after;
pub use seeding::seed_players;
pub use seeding::sort_according_to_inds;
pub use bracket::run_tournament;
pub use bracket::seventh_battle_for_riddler_nation;
pub use round_robin::run_battles_set;
pub use round_robin::run_battles_slice;
pub use relegation::dedup_strategies;
pub use relegation::tournament;
