//! Rule-enforcing core of a Go (igo / weiqi) board engine.
//!
//! The board is a one-dimensional array padded with an out-of-bounds halo so
//! that neighbourhood arithmetic never leaves the array. On top of that
//! substrate sit a generational visited-set, a string flood fill, the move
//! transaction (legality, capture, ko, undo), eye detection, area scoring and
//! the algebraic coordinate codec.

use vstd::prelude::*;

mod board;
mod codec;
mod eye;
mod flood;
mod gostring;
mod laws;
mod marker;
mod point;
mod rules;
mod scratch;
mod text;

pub use board::{
    board_ok, init_board, interior, ko_ok, lemma_coordinate_inverses, lemma_halo_integrity, lin,
    nbr, xof, yof, Position19,
};
pub use codec::{
    col_letter, digit_val, is_digit, lemma_coordinate_round_trip, spec_col_of, spec_is_pass,
    spec_parse_move, spec_row_val, spec_str_coord, upcode,
};
pub use eye::{cell_points, eye_scan, score_upto, spec_is_eye, spec_points};
pub use laws::{
    all_alive, comps_removed, full_black_board, lemma_pass_clears_ko,
    lemma_play_keeps_mover_alive, lemma_play_preserves_liveness, lemma_played_string_alive,
    lemma_score_empty_board, lemma_score_full_black, lemma_turn_alternation,
    lemma_undo_reverses_play,
};
pub use flood::{
    adj_to, classified, comp_has_lib, connected, flood_point_spec, flood_pts, flood_run,
    flood_visit_spec, gs_wf, has_lib_at, lemma_gs_disjoint, lemma_gs_exact, lemma_singleton,
    reach,
};
pub use gostring::GoString;
pub use marker::Marker;
pub use point::{BoardError, Color, Move, PointState};
pub use rules::{
    after_captures, captives_seq, captured_seg, empty_nbr_count, first_empty_nbr, log_wf,
    no_own_nbr, play_rel, spec_new_ko, step_capture, undo_rel, MoveLog,
};
pub use scratch::{av_elems, UsizeVec};
pub use text::{
    line_end, row_cells, row_count_from, row_start, rows_from, spec_render, text_board,
    text_shape_ok,
};

verus! {

} // verus!
