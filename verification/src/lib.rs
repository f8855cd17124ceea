//! Terminal video rendering: the per-frame logic of a terminal video
//! player, with each renderer's differential drawing proved against its
//! specification.
pub mod render;
pub mod decode;
pub mod audio;
pub mod player;
