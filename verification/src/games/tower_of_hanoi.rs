use vstd::prelude::*;

use crate::Play;

pub mod internal;

verus! {

pub struct TowerOfHanoi;

impl Play for TowerOfHanoi {
    fn name(&self) -> (r: &'static str) {
        "Tower of Hanoi"
    }

    fn instructions(&self) -> (r: Option<&'static str>) {
        Some(
            "The objective of the game is to move all disks from the leftmost tower to the rightmost tower.\nYou cannot place a larger disk on top of a smaller disk.",
        )
    }
}

} // verus!
