use vstd::prelude::*;

use crate::Play;

verus! {

pub struct WordType;

impl Play for WordType {
    fn name(&self) -> (r: &'static str) {
        "Word Type"
    }
}

} // verus!
