//! A directory-tree-driven route compiler, with the small runtime helpers that
//! serve the routes it produces.
pub mod assets;
pub mod dispatch;
pub mod error;
pub mod file_system;
pub mod fs_tree;
pub mod page;
pub mod route_compiler;
pub mod storage;
pub mod text;
pub mod uri;
