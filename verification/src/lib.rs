//! All shortest paths between two labelled cells of a rectangular grid.
//!
//! A grid is a list of rows of integer labels. A path is a string over the
//! four move symbols `>` (one column right), `v` (one row down), `<` (one
//! column left) and `^` (one row up). The search explores moves in that
//! order, level by level, and returns every path of minimum length.

mod frontier;
pub mod grid;
pub mod listing;
pub mod search;
pub mod walk;

pub use grid::locate;
pub use search::bfs_shortest_paths;
pub use search::find_all_shortest_paths;
