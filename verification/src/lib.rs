pub mod bits;
pub mod cache;
pub mod game;
pub mod part;
pub mod plan;
pub mod play;
pub mod policy;
pub mod resp;
pub mod score;
pub mod sim;
pub mod solve;
pub mod solver;
pub mod strat;
pub mod utils;
pub mod words;
