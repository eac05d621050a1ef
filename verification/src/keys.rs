//! Directional input events, as the game loop consumes them. Polling the
//! keyboard itself is left to the surrounding program.

use vstd::prelude::*;

verus! {

#[derive(Debug)]
pub enum Direction {
    Idle,
    Up,
    Down,
    Left,
    Right,
}

} // verus!
