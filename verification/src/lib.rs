//! Rank-biased overlap: a top-weighted similarity measure between two rankings.
//!
//! The library validates rankings and comparison parameters and works out, rank
//! by rank, how far two rankings agree. The executable part is integer logic;
//! the score that a comparison stands for is defined over the reals, and the
//! laws that tie the two together are proved.

pub mod config;
pub mod error;
pub mod laws;
pub mod overlap;
pub mod ranked_list;
pub mod score;
