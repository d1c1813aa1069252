//! Decision support for a fixed 3x3 number-placement puzzle.
//!
//! A board holds up to nine distinct digits, one per cell.  Eight scoring
//! lines (three rows, three columns, two diagonals) are each scored by a
//! fixed payout table on the sum of their digits.  Given a partially
//! revealed board, the library enumerates every completion, averages the
//! payout of each line orientation over those completions, and recommends
//! which empty cells to reveal next.

pub mod board;
pub mod board_position;
pub mod end_board;
pub mod end_row;
pub mod fill_failure;
pub mod parsed_board;
pub mod payouts;
pub mod recommendation;
pub mod valued_board_position;

pub use board::Board;
pub use board_position::BoardPosition;
pub use end_board::{BoardIterator, DiagOrientation, EndBoard};
pub use end_row::{DiagRow, EndRow};
pub use fill_failure::FillFailure;
pub use parsed_board::{ParsedBoard, ParsedBoardPayouts};
pub use recommendation::{Recommendation, RecommendationFailure};
pub use valued_board_position::ValuedBoardPosition;
