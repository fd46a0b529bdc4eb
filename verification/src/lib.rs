//! Core model of a grid-based mine-clearing puzzle: board generation with
//! random mine placement, adjacency counts, cascading reveal of safe regions,
//! and the per-cell marker state machine.

mod board;
mod counts;
mod engine;
mod generate;
mod laws;

pub use board::{BoardView, Cell, Game, Point, adjacent, count_mines, count_mines_row, spec_offset};
pub use counts::{lemma_num_mines_full, lemma_num_mines_upd, lemma_num_mines_zero};
pub use engine::{
    border_of, cascade_opens, chord_fn, chord_step, chord_upto, expose_fn, flood, in_region,
    is_free_path, lemma_border_insert, lemma_flood_terrain, lemma_lose_facts,
    lemma_pointwise_flood, lemma_region_extend, lemma_region_in_closed_set,
    lemma_region_reflexive, lemma_same_terrain_regions, on_border,
};
pub use generate::lemma_counts_same_terrain;
pub use laws::{
    lemma_expose_marked_noop, lemma_expose_mine_loses, lemma_expose_zero_reveals_region,
    lemma_loss_irreversible, lemma_marker_cycle, lemma_marker_exclusive,
};
