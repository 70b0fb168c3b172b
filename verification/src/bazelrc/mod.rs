//! Bazel 8.7 rc syntax and semantics.

pub mod semver;
pub mod syntax;
pub mod commands;
pub mod catalog;
pub mod native_options;
pub mod index;
pub mod view;
pub mod diagnostics;
pub mod expansion;
pub mod hover;
pub mod provider;
pub mod navigation;
pub mod structural;
pub mod completion;
