//! What the standard library's `Path` makes of a path written as text.
//!
//! Each wrapper here makes one `std::path` call. A component-wise reading of
//! a path (which separators repeat, where `.` drops out) is the library's own
//! business, so its results are named rather than restated; comparisons are
//! built on those names.

use vstd::prelude::*;
use crate::text::{opt_chars, str_eq};

verus! {

/// Whether a path names a directory on disk.
#[verifier::external_body]
pub(crate) fn path_is_dir(path: &str) -> bool {
    std::path::Path::new(path).is_dir()
}

/// Whether a path names a regular file on disk.
#[verifier::external_body]
pub(crate) fn path_is_file(path: &str) -> bool {
    std::path::Path::new(path).is_file()
}

/// What `Path::parent` makes of a path: the path without its final
/// component.
/// Its meaning is what `std::path` does on the target the crate is built
/// for; separators and prefixes differ between platforms.
pub uninterp spec fn parent_of(path: Seq<char>) -> Option<Seq<char>>;

/// `Path::parent`: the path without its final component, which is shorter
/// than the path; nothing for a root or the empty path.
#[verifier::external_body]
pub(crate) fn path_parent(path: &str) -> (parent: Option<String>)
    ensures
        opt_chars(parent) == parent_of(path@),
        parent matches Some(p) ==> p@.len() < path@.len(),
{
    match std::path::Path::new(path).parent() {
        Some(p) => Some(p.to_string_lossy().into_owned()),
        None => None,
    }
}

/// What `Path::file_name` makes of a path: its final component, unless the
/// path ends in `..` or has none.
/// Its meaning is what `std::path` does on the target the crate is built
/// for; separators and prefixes differ between platforms.
pub uninterp spec fn file_name_of(path: Seq<char>) -> Option<Seq<char>>;

/// `Path::file_name`: the final component of a path, if it is a name.
#[verifier::external_body]
pub(crate) fn path_file_name(path: &str) -> (name: Option<String>)
    ensures
        opt_chars(name) == file_name_of(path@),
{
    match std::path::Path::new(path).file_name() {
        Some(name) => Some(name.to_string_lossy().into_owned()),
        None => None,
    }
}

/// What `Path::strip_prefix` makes of `path` and `base`: the rest of the
/// path after `base`'s components, or nothing where `base` is not a
/// component-wise prefix of it.
/// Its meaning is what `std::path` does on the target the crate is built
/// for; separators and prefixes differ between platforms.
pub uninterp spec fn relative_to(path: Seq<char>, base: Seq<char>) -> Option<Seq<char>>;

/// `Path::strip_prefix`: `path` relative to `base`, when `base` is one of its
/// ancestors (or the path itself).
#[verifier::external_body]
pub(crate) fn path_strip_prefix(path: &str, base: &str) -> (rel: Option<String>)
    ensures
        opt_chars(rel) == relative_to(path@, base@),
{
    match std::path::Path::new(path).strip_prefix(base) {
        Ok(rel) => Some(rel.to_string_lossy().into_owned()),
        Err(_) => None,
    }
}

/// What `Path::components` makes of a path, each component as text.
/// Its meaning is what `std::path` does on the target the crate is built
/// for; separators and prefixes differ between platforms.
pub uninterp spec fn components_of(path: Seq<char>) -> Seq<Seq<char>>;

/// The text of each string in a sequence.
pub open spec fn texts(v: Seq<String>) -> Seq<Seq<char>> {
    v.map_values(|s: String| s@)
}

/// `Path::components`: the components of a path, in order.
#[verifier::external_body]
pub(crate) fn path_components(path: &str) -> (parts: Vec<String>)
    ensures
        texts(parts@) == components_of(path@),
{
    std::path::Path::new(path).components().map(|c| c.as_os_str().to_string_lossy().into_owned()).collect()
}

/// Whether two paths name the same place component for component, as `==`
/// on `Path` compares them.
pub(crate) fn same_path(a: &str, b: &str) -> (same: bool)
    ensures
        same == (components_of(a@) == components_of(b@)),
{
    let pa = path_components(a);
    let pb = path_components(b);
    let ghost ta = texts(pa@);
    let ghost tb = texts(pb@);
    if pa.len() != pb.len() {
        assert(ta.len() != tb.len());
        return false;
    }
    let mut i: usize = 0;
    while i < pa.len()
        invariant
            pa.len() == pb.len(),
            ta == texts(pa@),
            tb == texts(pb@),
            ta == components_of(a@),
            tb == components_of(b@),
            i <= pa.len(),
            forall|j: int| 0 <= j < i ==> ta[j] == tb[j],
        decreases pa.len() - i,
    {
        if !str_eq(pa[i].as_str(), pb[i].as_str()) {
            assert(ta[i as int] != tb[i as int]);
            return false;
        }
        i = i + 1;
    }
    assert(ta =~= tb);
    true
}

} // verus!
