//! Verified core of a sector-dataset updater: link selection from an HTML
//! listing, the fixed request identity, safe archive-entry planning, a
//! directory-merge model, and the two text-rewrite passes over profile and
//! session files.

pub mod archive;
pub mod errors;
pub mod fstree;
pub mod headers;
pub mod links;
pub mod patch;
pub mod paths;
pub mod pipeline;
pub mod text;
