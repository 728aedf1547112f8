//! Ranks the directories of a tree by the bytes their subtrees hold.
//!
//! The library holds the decisions of a directory-size scan: which entries
//! of the walk get a unit of work, how the sizes that the units deliver are
//! collected, how the collected results are ranked, and how the ranked
//! table is rendered. Walking the tree and measuring the directories is
//! left to a driver, which feeds what happens into a [`scan::Scan`] and
//! carries out what the scan answers.

pub mod arrange;
pub mod depth;
pub mod rank;
pub mod report;
pub mod scan;
pub mod size;
pub mod text;

pub use depth::depth_limit;
pub use rank::{rank, SizeResult};
pub use report::{render_line, report};
pub use scan::{Action, Event, Fatal, Phase, Scan};
pub use size::format_size;
