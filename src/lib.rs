//! Wave function collapse: learn local tile patterns from a small example grid
//! and synthesise a larger grid that is everywhere locally consistent with them.
//!
//! The training grid is cut into 2 by 2 patterns (`catalog`), the patterns are
//! related by which may overlap which in each direction (`rules`), and the
//! generator (`generator`) keeps a possibility set per output cell, decides
//! the cell of lowest entropy by a weighted random choice (`choice`,
//! `entropy`), and narrows the other cells by arc consistency until every cell
//! is decided or a cell is left with no pattern.

pub mod bits;
pub mod catalog;
pub mod choice;
pub mod direction;
pub mod entropy;
pub mod error;
pub mod generator;
pub mod multi_vec;
pub mod random;
pub mod rules;

pub use catalog::{Pattern, slice_into_patterns, EMPTY_TILE};
pub use direction::Direction;
pub use error::GenerationError;
pub use generator::{WaveFunctionCollapseGenerator, get_valid_directions};
pub use multi_vec::{MultiVec, RestVec};
pub use rules::{RulesChecker, train_rules, get_relevant_tiles_for_checking_overlapping_patterns};
