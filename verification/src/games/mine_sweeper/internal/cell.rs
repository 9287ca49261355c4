use vstd::prelude::*;

verus! {

/// One square of the minefield.
///
/// `adjacent_count` is meaningful only for a cell that is not a mine; it is
/// computed once when the field is built and never changes afterwards.
#[derive(Clone, Copy, Debug)]
pub struct Cell {
    pub is_mine: bool,
    pub is_revealed: bool,
    pub is_flagged: bool,
    pub adjacent_count: usize,
}

impl Cell {
    pub fn new(is_mine: bool) -> (r: Self)
        ensures
            r.is_mine == is_mine,
            !r.is_revealed,
            !r.is_flagged,
            r.adjacent_count == 0,
    {
        Self { is_mine, is_revealed: false, adjacent_count: 0, is_flagged: false }
    }

    pub fn is_mine(&self) -> (r: bool)
        ensures
            r == self.is_mine,
    {
        self.is_mine
    }

    pub fn mark_revealed(&mut self)
        ensures
            final(self).is_revealed,
            final(self).is_mine == old(self).is_mine,
            final(self).is_flagged == old(self).is_flagged,
            final(self).adjacent_count == old(self).adjacent_count,
    {
        self.is_revealed = true;
    }

    pub fn is_revealed(&self) -> (r: bool)
        ensures
            r == self.is_revealed,
    {
        self.is_revealed
    }

    pub fn adjacent_count(&self) -> (r: usize)
        ensures
            r == self.adjacent_count,
    {
        self.adjacent_count
    }

    pub fn set_adjacent_count(&mut self, adjacent_count: usize)
        ensures
            final(self).adjacent_count == adjacent_count,
            final(self).is_mine == old(self).is_mine,
            final(self).is_revealed == old(self).is_revealed,
            final(self).is_flagged == old(self).is_flagged,
    {
        self.adjacent_count = adjacent_count;
    }

    pub fn is_flagged_mut(&mut self) -> (r: &mut bool)
        ensures
            *r == old(self).is_flagged,
            final(self).is_flagged == *final(r),
            final(self).is_mine == old(self).is_mine,
            final(self).is_revealed == old(self).is_revealed,
            final(self).adjacent_count == old(self).adjacent_count,
    {
        &mut self.is_flagged
    }

    pub fn is_flagged(&self) -> (r: bool)
        ensures
            r == self.is_flagged,
    {
        self.is_flagged
    }
}

} // verus!
