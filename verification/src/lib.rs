use vstd::prelude::*;

mod game_center;
pub mod games;
pub mod hangman;
pub mod util;

pub use game_center::GameCenter;
pub use game_center::GameKind;
pub use game_center::GameManager;

verus! {

/// The main trait to classify a struct as a playable game.
///
/// A game type describes itself through this trait; the interactive loop
/// that actually drives a game belongs to the presentation layer.
pub trait Play {
    /// returns the name of the game
    fn name(&self) -> (r: &'static str);

    /// optionally returns the instructions of the game
    fn instructions(&self) -> (r: Option<&'static str>) {
        None
    }
}

} // verus!
