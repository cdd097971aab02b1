//! A word-search engine over square character grids.
//!
//! A grid is a square matrix of bytes stored as a flat row-major buffer.
//! Words are searched left-to-right within a row or top-to-bottom within a
//! column, with no wraparound across row or column boundaries.

mod grid;
mod search;

pub use grid::calculate_grid_size;
pub use grid::is_square;
pub use grid::lemma_transpose_involution;
pub use grid::rows_to_cols;
pub use grid::string_to_grid;
pub use grid::transpose;
pub use grid::Grid;
pub use grid::GridError;
pub use search::bad_char_entry;
pub use search::delta1;
pub use search::find;
pub use search::first_hit_in_line;
pub use search::found_words;
pub use search::is_overlapping_line;
pub use search::is_present;
pub use search::match_at;
pub use search::overlaps;
pub use search::present_in_grid;
pub use search::rightmost_before;
pub use search::skip_distance;
