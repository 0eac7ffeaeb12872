//! Conway's Game of Life on a fixed-size toroidal grid.

mod cell;
mod life;
mod positions;
mod rng;

pub use cell::{cell_of, next_state, Cell};
pub use life::{col_of, glider_phase, holds_glider, in_block, lemma_glider_moves, lemma_block_still_life, is_white_space, lemma_next_deterministic, lemma_rule_deaths, marked, marked_within, marks_live, row_of, Life};
pub use positions::{lemma_row_major_index, lemma_row_major_order, lemma_row_major_positions, row_major, IndicesEnumerate};
