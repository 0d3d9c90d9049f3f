pub use crate::strat::{
    compute_letter_frequencies, get_max_freq_score, get_min_remaining_score, pick_max_freq, pick_min_remaining,
    sum_of_squares,
};
