//! Decoder for a compact binary cave format of a classic tile-based
//! arcade game: a seeded 8-bit pseudo-random fill pass followed by a
//! tagged stream of drawing commands, producing a 40 x 22 tile grid.

pub mod cave;
pub mod keys;
pub mod screen;
