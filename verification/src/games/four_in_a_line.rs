use vstd::prelude::*;

use crate::Play;

verus! {

pub struct FourInALine;

impl Play for FourInALine {
    fn name(&self) -> (r: &'static str) {
        "Four in A Row"
    }
}

} // verus!
