//! A Bazel language server's logic: labels, line positions, Bazel release
//! numbers and the Bazel 8.7 rc language, each with a verified contract.

pub mod text;
pub mod paths;
pub mod label;
pub mod line_index;
pub mod bazel;
pub mod bazelrc;
pub mod index;
pub mod watch;
pub mod handlers;
pub mod actor;
pub mod repos;
pub mod static_index;
pub mod collect;
pub mod syntax_tree;
pub mod table;
pub mod source_kind;
pub mod document;
pub mod uri;
