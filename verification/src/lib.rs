//! Repository metrics: commit history tallies, hotspot rankings, folder
//! ownership statistics and a heuristic code-complexity score.

pub mod complexity;
pub mod table;
pub mod paths;
pub mod history;
pub mod folders;
pub mod cli;
