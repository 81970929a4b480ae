use vstd::prelude::*;

use crate::grid::Direction;

verus! {

/// The direction that a key name stands for, if any.
pub open spec fn key_direction(key: Seq<char>) -> Option<Direction> {
    if key == "ArrowUp"@ {
        Some(Direction::Up)
    } else if key == "ArrowDown"@ {
        Some(Direction::Down)
    } else if key == "ArrowLeft"@ {
        Some(Direction::Left)
    } else if key == "ArrowRight"@ {
        Some(Direction::Right)
    } else {
        None
    }
}

/// Maps a key name, as a keyboard event gives it, to a direction; other keys give `None`.
pub fn direction_for_key(key: &str) -> (r: Option<Direction>)
    ensures
        r == key_direction(key@),
{
    let k = key.to_owned();
    if k == "ArrowUp".to_owned() {
        Some(Direction::Up)
    } else if k == "ArrowDown".to_owned() {
        Some(Direction::Down)
    } else if k == "ArrowLeft".to_owned() {
        Some(Direction::Left)
    } else if k == "ArrowRight".to_owned() {
        Some(Direction::Right)
    } else {
        None
    }
}

} // verus!
