use vstd::prelude::*;

use crate::Play;

pub mod internal;

verus! {

pub struct Checkers;

impl Play for Checkers {
    fn name(&self) -> (r: &'static str) {
        "Checkers"
    }

    fn instructions(&self) -> (r: Option<&'static str>) {
        Some(
            "Enter the name of the checker you want to move.\nEnter direction to move.\n'q' for up left, 'e' for up right, 'a' for down left, 'd' for down right.",
        )
    }
}

} // verus!
