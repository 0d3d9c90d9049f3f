pub use crate::strat::sum_of_squares;
