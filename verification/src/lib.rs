//! Compact Quoridor game states, the rules of the game on them, and a policy
//! database of precomputed minimax values.

pub mod action_values;
pub mod bits;
pub mod database_laws;
pub mod display;
pub mod fetch;
pub mod game_laws;
pub mod game_value;
pub mod layout;
pub mod lookup;
pub mod minimax;
pub mod packing_laws;
pub mod picture_laws;
pub mod policy_db;
pub mod policy_file;
pub mod progress;
pub mod q_bit_repr;
pub mod q_game_mechanics;
pub mod round_trip;
pub mod rows;
pub mod rules;
pub mod shared_search;
pub mod table;
pub mod text;
pub mod value_laws;
pub mod word_repr;
