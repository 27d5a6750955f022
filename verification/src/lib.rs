pub mod board;
pub mod game;
pub mod random_bot;
pub mod rules;
pub mod tree;

pub use board::Board;
pub use board::Player;
pub use board::Point;
pub use game::BadukMove;
pub use game::MoveError;
pub use game::StatelessGame;
pub use random_bot::GameBot;
pub use random_bot::RandomBot;
pub use rules::BadukClassical;
pub use rules::SupportedGames;
pub use tree::GameNode;
pub use tree::GamePointer;
pub use tree::GameTree;
