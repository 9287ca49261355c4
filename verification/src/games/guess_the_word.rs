use vstd::prelude::*;

use crate::Play;

verus! {

pub struct GuessTheWord;

impl Play for GuessTheWord {
    fn name(&self) -> (r: &'static str) {
        "Guess the Word"
    }
}

} // verus!
