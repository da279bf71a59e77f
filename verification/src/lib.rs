//! Tracking of one player's hand and called melds from mjai events, and the
//! shanten number (how many tiles the hand is away from ready) of that hand.
//!
//! - `pai`: the tiles and their codes;
//! - `mjai`: the events and the tiles that calls take from the hand;
//! - `tehai`: the closed tiles of a hand;
//! - `state`: the hand and melds of one player, and how events change them;
//! - `shanten_model`: arrangements of tile counters and their scores;
//! - `shanten`: the search for the least score.
pub mod pai;
pub mod mjai;
pub mod tehai;
pub mod shanten_model;
pub mod shanten;
pub mod state;
