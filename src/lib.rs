//! Dependency installer core for a game-engine project: the package tree,
//! where each package is installed, how a dependency set is resolved, and
//! how load references inside extracted sources are rewritten.

pub mod package;
pub mod text;
pub mod paths;
pub mod rewrite;
pub mod resolve;
pub mod config_file;
