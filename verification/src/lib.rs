//! Dynamic time warping between two sequences.
//!
//! The warping distance is computed by dynamic programming over a
//! cumulative-cost matrix, optionally restricted to a Sakoe-Chiba band,
//! and the optimal warping path is recovered by backtracking.

mod dtw;
mod element;
mod laws;
mod matrix;
mod model;
mod restriction;
mod traits;

pub use element::Element;
pub use matrix::Matrix;
pub use restriction::Restriction;
pub use restriction::{admissible, band_center, index_lt, round_ratio, row_hi, row_lo};
pub use model::{
    back_path, cell_cost, cost_grid, elem_gt, elem_le, elem_min, elem_plus, grid_wf, lift,
    local_grid, step_back,
};
pub use model::{cost_table, is_step, path_cost, valid_path};
pub use model::{lemma_back_path_last, lemma_back_path_shape, lemma_cost_bound};
pub use laws::{
    lemma_back_path_cost, lemma_back_path_optimal, lemma_band_converges, lemma_band_radius_monotone, lemma_cost_minimal,
    lemma_cost_nonneg, lemma_reachable_is_finite, lemma_restriction_le,
    lemma_same_admissible_same_cost, lemma_self_alignment, lemma_self_alignment_path,
    lemma_singleton, lemma_unrestricted_le_band,
};
pub use dtw::{closure_grid, compute_path, is_warping_of, optimize_matrix, DynamicTimeWarping, Error};
pub use traits::{abs_diff, dist_grid, Distance};
