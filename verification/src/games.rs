// The individual games, one module each.

pub mod checkers;
pub mod four_in_a_line;
pub mod guess_the_number;
pub mod guess_the_word;
pub mod mine_sweeper;
pub mod tower_of_hanoi;
pub mod word_type;

pub use checkers::Checkers;
pub use four_in_a_line::FourInALine;
pub use guess_the_number::GuessTheNumber;
pub use guess_the_word::GuessTheWord;
pub use mine_sweeper::MineSweeper;
pub use tower_of_hanoi::TowerOfHanoi;
pub use word_type::WordType;
