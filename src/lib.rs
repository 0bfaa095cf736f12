//! Dependency queries over the installed-package metadata of a conda
//! environment: leaf packages, dependents of a package, and dependency trees.
pub mod catalog;
pub mod env;
pub mod environment;
pub mod error;
pub mod metadata;
pub mod package;
pub mod text;
pub mod utils;
