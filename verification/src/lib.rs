//! Library for inspecting and editing the save files of a card-based
//! roguelike game: a metadata cache of the game's cards and relics with a
//! binary on-disk format, and a reversible save-file codec (repeating-key
//! XOR under a base64 layer) with a mutation engine over the decoded save.

pub mod cache;
pub mod cache_enums;
pub mod codec;
pub mod engine;
pub mod extract;
pub mod text;
