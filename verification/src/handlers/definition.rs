//! Where the string under the cursor in a Starlark file is declared.
//!
//! A string is read as a `load()` path, a symbol in a `load()`, or a label,
//! decided by where it sits. A label resolves to the declaring rule call in
//! the index, or failing that to the source file it names; a `load()`
//! resolves to the `.bzl` file, and so does a symbol inside one. Whether a
//! source file exists is read from the disk, so [`definition_at`] takes that
//! answer as an argument and [`definition`] asks the disk for it.

use vstd::prelude::*;
use crate::bazel::{join_path, spec_join};
use crate::document::Document;
use crate::handlers::cursor::{
    enclosing_package, possible_package, spec_string_at, string_at, AtView, RoleView, StringAt, StringRole,
    StringSite,
};
use crate::index::Index;
use crate::label::{opt_view, parse_label, spec_key, spec_label_path, spec_parse_label};
use crate::line_index::{text_offset, text_position};
use crate::paths::path_is_file;
use crate::uri::{checked_file_uri, file_uri_ok, spec_file_uri};
use vstd::utf8::encode_utf8;

verus! {

/// A definition: the range of the string at the cursor, and the position in
/// the file at `target_uri` it leads to.
#[derive(Debug, PartialEq, Eq)]
pub struct Jump {
    pub origin_start: (u32, u32),
    pub origin_end: (u32, u32),
    pub target_uri: String,
    pub line: u32,
    pub character: u32,
}

/// The label text a string is resolved as: its own text, or for a symbol in
/// a `load()`, the module it is loaded from.
pub open spec fn resolved_text(found: AtView) -> Option<Seq<char>> {
    match found.role {
        RoleView::LoadModule => Some(found.value),
        RoleView::LoadSymbol(m) => Some(m),
        RoleView::TargetName => None,
        RoleView::Label => Some(found.value),
    }
}

/// The source file whose existence decides the answer: where the label the
/// string resolves as would sit under `root`.
pub open spec fn spec_candidate_file(root: Seq<char>, found: AtView, package: Option<Seq<char>>) -> Option<
    Seq<char>,
> {
    match resolved_text(found) {
        None => None,
        Some(text) => match spec_parse_label(text, package) {
            None => None,
            Some((p, n)) => Some(spec_join(root, spec_label_path(p, n))),
        },
    }
}

/// Where the string leads, as a file and a position: a label to the rule
/// call that declares it, or else to the source file it names when
/// `exists`; a `load()` string to the file it reads when `exists`; a
/// declaration nowhere.
pub open spec fn spec_destination(
    index: &Index,
    root: Seq<char>,
    found: AtView,
    package: Option<Seq<char>>,
    exists: bool,
) -> Option<(Seq<char>, u32, u32)> {
    match resolved_text(found) {
        None => None,
        Some(text) => match spec_parse_label(text, package) {
            None => None,
            Some((p, n)) => {
                let declared = match found.role {
                    RoleView::Label => index.resolved(spec_key(p, n)),
                    _ => None,
                };
                match declared {
                    Some(t) => Some((t.file@, t.line, t.character)),
                    None => if exists {
                        Some((spec_join(root, spec_label_path(p, n)), 0u32, 0u32))
                    } else {
                        None
                    },
                }
            },
        },
    }
}

/// Whether `jump` is the jump from `found` in a buffer of bytes `bs`,
/// given the package and whether the candidate source file exists.
pub open spec fn definition_answer(
    bs: Seq<u8>,
    index: &Index,
    root: Seq<char>,
    found: AtView,
    package: Option<Seq<char>>,
    exists: bool,
    jump: Option<Jump>,
) -> bool {
    match spec_destination(index, root, found, package, exists) {
        Some((file, line, character)) => if file_uri_ok(file) {
            jump matches Some(j) && j.target_uri@ == spec_file_uri(file) && j.line == line && j.character
                == character && j.origin_start == text_position(bs, found.start) && j.origin_end
                == text_position(bs, found.end)
        } else {
            jump is None
        },
        None => jump is None,
    }
}

/// The source file whose existence decides where `found` leads.
pub fn candidate_file(root: &str, found: &StringAt, package: Option<&str>) -> (file: Option<String>)
    ensures
        (match spec_candidate_file(root@, found@, opt_view(package)) {
            Some(f) => file matches Some(s) && s@ == f,
            None => file is None,
        }),
{
    let text = match &found.role {
        StringRole::LoadModule => found.value.as_str(),
        StringRole::LoadSymbol(m) => m.as_str(),
        StringRole::TargetName => {
            return None;
        },
        StringRole::Label => found.value.as_str(),
    };
    match parse_label(text, package) {
        Some(label) => Some(join_path(root, label.path().as_str())),
        None => None,
    }
}

/// Goto-definition for a found string, given whether its candidate source
/// file exists: the jump from the string's range to where it leads, where
/// that file's URI parses.
pub fn definition_at(
    document: &Document,
    found: &StringAt,
    package: Option<&str>,
    root: &str,
    index: &Index,
    exists: bool,
) -> (jump: Option<Jump>)
    requires
        encode_utf8(document.text_view()).len() <= isize::MAX,
    ensures
        definition_answer(encode_utf8(document.text_view()), index, root@, found@, opt_view(package), exists, jump),
{
    let text = match &found.role {
        StringRole::LoadModule => found.value.as_str(),
        StringRole::LoadSymbol(m) => m.as_str(),
        StringRole::TargetName => {
            return None;
        },
        StringRole::Label => found.value.as_str(),
    };
    let label = match parse_label(text, package) {
        Some(label) => label,
        None => {
            return None;
        },
    };
    let declared = match &found.role {
        StringRole::Label => index.target(label.key().as_str()),
        _ => None,
    };
    let (file, line, character) = match declared {
        Some(t) => (t.file.clone(), t.line, t.character),
        None => {
            if exists {
                (join_path(root, label.path().as_str()), 0u32, 0u32)
            } else {
                return None;
            }
        },
    };
    let uri = match checked_file_uri(file.as_str()) {
        Some(uri) => uri,
        None => {
            return None;
        },
    };
    Some(
        Jump {
            origin_start: document.position(found.start as usize),
            origin_end: document.position(found.end as usize),
            target_uri: uri,
            line,
            character,
        },
    )
}

/// Goto-definition at a zero-based line and UTF-16 column of a Starlark
/// buffer, given its string literals and whether it is a BUILD file.
///
/// Nothing when the cursor is on no string; otherwise the jump
/// [`definition_at`] makes for the string there, with the package and the
/// existence of the candidate source file read from the disk: the package
/// is none or one of the buffer's candidate packages.
pub fn definition(
    document: &Document,
    sites: &[StringSite],
    build_file: bool,
    root: &str,
    index: &Index,
    line: u32,
    character: u32,
) -> (jump: Option<Jump>)
    requires
        encode_utf8(document.text_view()).len() <= isize::MAX,
    ensures
        ({
            let offset = text_offset(encode_utf8(document.text_view()), line, character);
            &&& (offset > u32::MAX || spec_string_at(sites@, offset, build_file) is None) ==> jump is None
            &&& (offset <= u32::MAX && spec_string_at(sites@, offset, build_file) is Some) ==> exists|
                package: Option<Seq<char>>,
                exists: bool,
            |
                possible_package(root@, document.path_view(), package) && #[trigger] definition_answer(
                    encode_utf8(document.text_view()),
                    index,
                    root@,
                    spec_string_at(sites@, offset, build_file).unwrap(),
                    package,
                    exists,
                    jump,
                )
        }),
{
    let offset = document.offset(line, character);
    if offset > u32::MAX as usize {
        return None;
    }
    let found = match string_at(sites, offset as u32, build_file) {
        Some(found) => found,
        None => {
            return None;
        },
    };
    let package = enclosing_package(root, document.path());
    let package = match &package {
        Some(p) => Some(p.as_str()),
        None => None,
    };
    let exists = match candidate_file(root, &found, package) {
        Some(file) => path_is_file(file.as_str()),
        None => false,
    };
    let jump = definition_at(document, &found, package, root, index, exists);
    assert(possible_package(root@, document.path_view(), opt_view(package)));
    jump
}

} // verus!
