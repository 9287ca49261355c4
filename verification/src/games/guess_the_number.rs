use vstd::prelude::*;

use crate::Play;

verus! {

pub struct GuessTheNumber;

impl Play for GuessTheNumber {
    fn name(&self) -> (r: &'static str) {
        "Guess the Number"
    }
}

} // verus!
