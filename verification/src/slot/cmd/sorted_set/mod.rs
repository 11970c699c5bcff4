//! Commands on sorted sets.

pub mod add;
pub mod range_by_score;
pub mod remove_by_lex_range;
