use vstd::prelude::*;

verus! {

/// A disk-move prompt named a pole that does not exist; the presentation
/// layer renders the message around the offending index.
#[derive(Clone, Copy, Debug)]
pub struct ParseDiskMoveError {
    pub pole_index: usize,
}

impl ParseDiskMoveError {
    pub fn new(pole_index: usize) -> (r: Self)
        ensures
            r.pole_index == pole_index,
    {
        ParseDiskMoveError { pole_index }
    }
}

} // verus!
