//! A byte-keyed, byte-valued map that keeps its history along named branches
//! and named versions.
//!
//! `versioned::MapxRawVs` is the map. Its operations are stated over
//! `model::VsState`, the state of a map as plain maps and sets, and
//! `laws` holds what follows of them: what is written is read, what a
//! branch reads at its newest version survives rebasing and pruning, and
//! the like.

pub mod backend;
pub mod common;
pub mod idmap;
pub mod keymap;
pub mod laws;
pub mod model;
pub mod order;
pub mod stored;
pub mod trie;
pub mod validity;
pub mod versioned;

pub use crate::backend::scan::MapxRawVsIter;
pub use crate::common::{
    BranchName, BranchNameOwned, KeyBound, ParentBranchName, VersionName, VersionNameOwned,
    VsError,
};
pub use crate::stored::MapxRawVsWithoutDerivedFields;
pub use crate::versioned::MapxRawVs;
