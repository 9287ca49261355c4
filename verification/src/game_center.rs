use vstd::prelude::*;

verus! {

/// The closed set of games offered by the main menu, dispatched by a
/// selection index chosen by the presentation layer.
#[derive(Clone, Copy, Debug, PartialEq, Eq, Structural)]
pub enum GameKind {
    GuessTheWord,
    GuessTheNumber,
    WordType,
    FourInALine,
    TowerOfHanoi,
}

pub struct GameCenter;

impl GameCenter {
    /// returns a list of all games that are available in the game center
    pub fn games() -> (r: Vec<GameKind>)
        ensures
            r@ =~= seq![
                GameKind::GuessTheWord,
                GameKind::GuessTheNumber,
                GameKind::WordType,
                GameKind::FourInALine,
                GameKind::TowerOfHanoi,
            ],
    {
        let mut r: Vec<GameKind> = Vec::new();
        r.push(GameKind::GuessTheWord);
        r.push(GameKind::GuessTheNumber);
        r.push(GameKind::WordType);
        r.push(GameKind::FourInALine);
        r.push(GameKind::TowerOfHanoi);
        r
    }
}

/// The reduced menu that offers only the two guessing games.
pub struct GameManager;

impl GameManager {
    /// returns the list of games that the reduced menu offers
    pub fn games() -> (r: Vec<GameKind>)
        ensures
            r@ =~= seq![GameKind::GuessTheWord, GameKind::GuessTheNumber],
    {
        let mut r: Vec<GameKind> = Vec::new();
        r.push(GameKind::GuessTheWord);
        r.push(GameKind::GuessTheNumber);
        r
    }
}

} // verus!
