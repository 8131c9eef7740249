//! Evidence, workspace-file, worktree, hook and provider logic of the Faktor
//! agent runtime, stated as contracts and proved.
pub mod atomic;
pub mod compress;
pub mod digest;
pub mod durable;
pub mod error;
pub mod gateway;
pub mod git;
pub mod google;
pub mod hooks;
pub mod ids;
pub mod json;
pub mod merge;
pub mod normalize;
pub mod order;
pub mod provenance;
pub mod provider;
pub mod render;
pub mod resolve;
pub mod retrieve;
pub mod store;
pub mod text;
pub mod tree;
pub mod treewalk;
pub mod types;
pub mod unixwalk;
pub mod winpath;
pub mod winwalk;
pub mod workspace;
