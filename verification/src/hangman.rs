use vstd::prelude::*;

verus! {

/// The hangman game; its interactive loop belongs to the presentation
/// layer.
pub struct Hangman;

} // verus!
