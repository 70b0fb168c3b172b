//! Which kind of Starlark file a path is, and with which grammar it is read.
//!
//! Bazel tells its files apart by name: a few exact names, a few suffixes,
//! the `.bzl` and `.scl` extensions, and one file addressed by its place
//! under the workspace root, the prelude.

use vstd::prelude::*;
use crate::bazel::{join_path, spec_join};
use crate::label::opt_view;
use crate::paths::{components_of, file_name_of, path_file_name, same_path};
use crate::text::{ends_with, str_ends_with, str_eq};

verus! {

/// The grammar a Starlark file is parsed with.
#[derive(Debug, Clone, Copy, PartialEq, Eq, Structural)]
pub enum StarlarkDialect {
    /// Plain Starlark: `load()` takes a filesystem path.
    Standard,
    /// Bazel's dialect: `load()` takes a label, type syntax is available.
    Bazel,
    /// The Starlark configuration language.
    Scl,
}

/// Which Bazel file a path denotes.
#[derive(Debug, Clone, Copy, PartialEq, Eq, Structural)]
pub enum SourceKind {
    Build,
    Bzl,
    Module,
    Workspace,
    Repo,
    Vendor,
    Cquery,
    Prelude,
    Scl,
}

/// Where the prelude lives under a workspace root.
pub const PRELUDE_PATH: &'static str = "tools/build_rules/prelude_bazel";

/// The kind a file name alone gives: an exact name or a known suffix.
pub open spec fn kind_by_name(name: Seq<char>) -> Option<SourceKind> {
    if name == "BUILD"@ || name == "BUILD.bazel"@ {
        Some(SourceKind::Build)
    } else if name == "MODULE.bazel"@ {
        Some(SourceKind::Module)
    } else if name == "REPO.bazel"@ {
        Some(SourceKind::Repo)
    } else if name == "VENDOR.bazel"@ {
        Some(SourceKind::Vendor)
    } else if name == "WORKSPACE"@ || name == "WORKSPACE.bazel"@ || name == "WORKSPACE.bzlmod"@ {
        Some(SourceKind::Workspace)
    } else if ends_with(name, ".MODULE.bazel"@) {
        Some(SourceKind::Module)
    } else if ends_with(name, ".BUILD.bazel"@) || ends_with(name, ".BUILD"@) {
        Some(SourceKind::Build)
    } else if ends_with(name, ".cquery"@) || ends_with(name, ".query.bzl"@) {
        Some(SourceKind::Cquery)
    } else {
        None
    }
}

/// Whether a file name carries the extension written `dotted` (with its
/// dot): it ends so and is more than that, since a name's leading dot marks
/// a hidden file rather than an extension.
pub open spec fn has_extension(name: Seq<char>, dotted: Seq<char>) -> bool {
    ends_with(name, dotted) && name != dotted
}

/// The grammar and kind Bazel reads `path` as, `None` for a file that is
/// not Starlark; `root` is the workspace root, where one is known.
pub open spec fn spec_classify(path: Seq<char>, root: Option<Seq<char>>) -> Option<(StarlarkDialect, SourceKind)> {
    match file_name_of(path) {
        None => None,
        Some(name) => match kind_by_name(name) {
            Some(kind) => Some((StarlarkDialect::Bazel, kind)),
            None => if has_extension(name, ".bzl"@) {
                Some((StarlarkDialect::Bazel, SourceKind::Bzl))
            } else if has_extension(name, ".scl"@) {
                Some((StarlarkDialect::Scl, SourceKind::Scl))
            } else if root matches Some(r) && components_of(path) == components_of(spec_join(r, PRELUDE_PATH@)) {
                Some((StarlarkDialect::Bazel, SourceKind::Prelude))
            } else {
                None
            },
        },
    }
}

/// How a buffer is read: as its name classifies it, and a file that names
/// no Starlark kind as plain Starlark in a `.bzl` file.
pub open spec fn spec_reading(path: Seq<char>, root: Option<Seq<char>>) -> (StarlarkDialect, SourceKind) {
    match spec_classify(path, root) {
        Some(found) => found,
        None => (StarlarkDialect::Standard, SourceKind::Bzl),
    }
}

/// The kind a file name alone gives.
fn classify_name(name: &str) -> (kind: Option<SourceKind>)
    ensures
        kind == kind_by_name(name@),
{
    if str_eq(name, "BUILD") || str_eq(name, "BUILD.bazel") {
        Some(SourceKind::Build)
    } else if str_eq(name, "MODULE.bazel") {
        Some(SourceKind::Module)
    } else if str_eq(name, "REPO.bazel") {
        Some(SourceKind::Repo)
    } else if str_eq(name, "VENDOR.bazel") {
        Some(SourceKind::Vendor)
    } else if str_eq(name, "WORKSPACE") || str_eq(name, "WORKSPACE.bazel") || str_eq(name, "WORKSPACE.bzlmod") {
        Some(SourceKind::Workspace)
    } else if str_ends_with(name, ".MODULE.bazel") {
        Some(SourceKind::Module)
    } else if str_ends_with(name, ".BUILD.bazel") || str_ends_with(name, ".BUILD") {
        Some(SourceKind::Build)
    } else if str_ends_with(name, ".cquery") || str_ends_with(name, ".query.bzl") {
        Some(SourceKind::Cquery)
    } else {
        None
    }
}

/// The grammar and kind Bazel reads `path` as; `None` for a file that is
/// not Starlark at all.
pub fn classify(path: &str, root: Option<&str>) -> (found: Option<(StarlarkDialect, SourceKind)>)
    ensures
        found == spec_classify(path@, opt_view(root)),
{
    let name = match path_file_name(path) {
        Some(name) => name,
        None => {
            return None;
        },
    };
    let name = name.as_str();
    if let Some(kind) = classify_name(name) {
        return Some((StarlarkDialect::Bazel, kind));
    }
    if str_ends_with(name, ".bzl") && !str_eq(name, ".bzl") {
        return Some((StarlarkDialect::Bazel, SourceKind::Bzl));
    }
    if str_ends_with(name, ".scl") && !str_eq(name, ".scl") {
        return Some((StarlarkDialect::Scl, SourceKind::Scl));
    }
    match root {
        Some(r) => {
            let prelude = join_path(r, PRELUDE_PATH);
            if same_path(path, prelude.as_str()) {
                Some((StarlarkDialect::Bazel, SourceKind::Prelude))
            } else {
                None
            }
        },
        None => None,
    }
}

/// How a buffer at `path` is read: as `classify` finds it, and as plain
/// Starlark in a `.bzl` file where it finds nothing.
pub fn reading(path: &str, root: Option<&str>) -> (read: (StarlarkDialect, SourceKind))
    ensures
        read == spec_reading(path@, opt_view(root)),
{
    match classify(path, root) {
        Some(found) => found,
        None => (StarlarkDialect::Standard, SourceKind::Bzl),
    }
}

} // verus!
