//! Evaluation of closed riichi-mahjong hands: winning decompositions,
//! scoring categories, their combined value, and the distance of an
//! incomplete hand from completion.
//!
//! Only the tiles in hand are considered: no calls, winds of the round,
//! dora or discards.

pub mod counting;
pub mod distance;
pub mod full_set;
pub mod groups;
pub mod hand;
pub mod lex;
pub mod nearness;
pub mod notation;
pub mod outcome;
pub mod plan;
pub mod reading;
pub mod ready_set;
pub mod tile;
pub mod tile_block;
pub mod tile_pattern;
pub mod yaku;

pub use full_set::FullTileSet;
pub use hand::HandError;
pub use ready_set::ReadyTileSet;
pub use tile::Tile;
pub use tile_block::TileBlock;
pub use tile_pattern::TilePattern;
pub use yaku::{Han, Yaku};
