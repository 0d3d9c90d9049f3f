pub mod strategy_builder;
pub mod utils;
