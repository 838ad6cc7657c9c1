//! Exact partition of a Rummikub hand into melds (groups and runs), with
//! jokers as wildcards, by a memoized depth-first search.

pub mod tile;
pub mod inventory;
pub mod finder;
pub mod solver;
pub mod draw;
