use vstd::prelude::*;

use crate::Play;

pub mod internal;

verus! {

pub struct MineSweeper;

impl Play for MineSweeper {
    fn name(&self) -> (r: &'static str) {
        "Mine Sweeper"
    }

    fn instructions(&self) -> (r: Option<&'static str>) {
        Some(
            "Enter x and y coordinates to reveal a cell. Enter 'f' before the coordinates to flag a cell.",
        )
    }
}

} // verus!
