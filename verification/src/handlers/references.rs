//! Every place the target under the cursor in a Starlark file is named, in
//! the whole workspace or in the one file.
//!
//! The cursor may be on a label or on the `name` of the rule declaring it;
//! both resolve to the same target. As complete as the index is: external
//! repositories are not searched, and names a legacy macro computes are not
//! seen.

use vstd::prelude::*;
use crate::document::Document;
use crate::handlers::cursor::{
    enclosing_package, name_sites, possible_package, spec_declaration_site, spec_name_sites, spec_string_at,
    spec_target_label, string_at, target_label, NameSite, SiteView, StringAt, StringSite,
    same_site, sites_view,
};
use crate::index::Index;
use crate::label::{opt_view, spec_key};
use crate::line_index::text_offset;
use crate::paths::{components_of, same_path};
use crate::uri::{checked_file_uri, file_uri_ok, spec_file_uri};
use vstd::utf8::encode_utf8;

verus! {

/// A name's place in a file named by URI.
#[derive(Debug, PartialEq, Eq)]
pub struct Located {
    pub uri: String,
    pub line: u32,
    pub start: u32,
    pub end: u32,
}

/// A located name as its URI text and range.
pub open spec fn located_view(l: Located) -> (Seq<char>, u32, u32, u32) {
    (l.uri@, l.line, l.start, l.end)
}

/// Each site as a place in the file at its URI, skipping those whose URI
/// does not parse.
pub open spec fn located(sites: Seq<SiteView>) -> Seq<(Seq<char>, u32, u32, u32)>
    decreases sites.len(),
{
    if sites.len() == 0 {
        Seq::empty()
    } else {
        let rest = located(sites.drop_last());
        let s = sites.last();
        if file_uri_ok(s.file) {
            rest.push((spec_file_uri(s.file), s.line, s.start, s.end))
        } else {
            rest
        }
    }
}

/// Every place the target a found string names is written, when the string
/// names one: the sites [`name_sites`] lists, by URI.
pub open spec fn spec_references(
    index: &Index,
    found: crate::handlers::cursor::AtView,
    package: Option<Seq<char>>,
    include_declaration: bool,
) -> Seq<(Seq<char>, u32, u32, u32)> {
    match spec_target_label(found, package) {
        None => Seq::empty(),
        Some((p, n)) => located(spec_name_sites(index, spec_key(p, n), include_declaration)),
    }
}

/// Sites as places in the files at their URIs.
fn locate(sites: &[NameSite]) -> (found: Vec<Located>)
    ensures
        found@.map_values(|l: Located| located_view(l)) == located(sites_view(sites@)),
{
    let ghost all = sites_view(sites@);
    let mut found: Vec<Located> = Vec::new();
    let mut i: usize = 0;
    assert(all.take(0) =~= Seq::<SiteView>::empty());
    assert(found@.map_values(|l: Located| located_view(l)) =~= Seq::<(Seq<char>, u32, u32, u32)>::empty());
    while i < sites.len()
        invariant
            i <= sites@.len(),
            all == sites_view(sites@),
            found@.map_values(|l: Located| located_view(l)) == located(all.take(i as int)),
        decreases sites.len() - i,
    {
        assert(all.take(i + 1).drop_last() =~= all.take(i as int));
        assert(all.take(i + 1).last() == sites@[i as int]@);
        let site = &sites[i];
        match checked_file_uri(site.file.as_str()) {
            Some(uri) => {
                let ghost before = found@.map_values(|l: Located| located_view(l));
                let l = Located { uri, line: site.line, start: site.start, end: site.end };
                let ghost v = located_view(l);
                found.push(l);
                assert(found@.map_values(|l: Located| located_view(l)) =~= before.push(v));
            },
            None => {},
        }
        i = i + 1;
    }
    assert(all.take(i as int) =~= all);
    found
}

/// Every place the target a found string names is written, in `package`.
pub fn references_at(
    found: &StringAt,
    package: Option<&str>,
    index: &Index,
    include_declaration: bool,
) -> (found_sites: Vec<Located>)
    ensures
        found_sites@.map_values(|l: Located| located_view(l)) == spec_references(
            index,
            found@,
            opt_view(package),
            include_declaration,
        ),
{
    match target_label(found, package) {
        None => {
            let v: Vec<Located> = Vec::new();
            assert(v@.map_values(|l: Located| located_view(l)) =~= Seq::<(Seq<char>, u32, u32, u32)>::empty());
            v
        },
        Some(label) => {
            let sites = name_sites(index, label.key().as_str(), include_declaration);
            locate(&sites)
        },
    }
}

/// Every place the target under a zero-based line and UTF-16 column of a
/// Starlark buffer is named, given the buffer's string literals and whether
/// it is a BUILD file: what [`references_at`] lists for the string there,
/// with the package read from the disk. Nothing when the cursor is on no
/// string.
pub fn references(
    document: &Document,
    sites: &[StringSite],
    build_file: bool,
    root: &str,
    index: &Index,
    line: u32,
    character: u32,
    include_declaration: bool,
) -> (found: Vec<Located>)
    requires
        encode_utf8(document.text_view()).len() <= isize::MAX,
    ensures
        ({
            let offset = text_offset(encode_utf8(document.text_view()), line, character);
            &&& (offset > u32::MAX || spec_string_at(sites@, offset, build_file) is None) ==> found@.len() == 0
            &&& (offset <= u32::MAX && spec_string_at(sites@, offset, build_file) is Some) ==> exists|
                package: Option<Seq<char>>,
            |
                possible_package(root@, document.path_view(), package) && found@.map_values(
                    |l: Located| located_view(l),
                ) == #[trigger] spec_references(
                    index,
                    spec_string_at(sites@, offset, build_file).unwrap(),
                    package,
                    include_declaration,
                )
        }),
{
    let offset = document.offset(line, character);
    if offset > u32::MAX as usize {
        return Vec::new();
    }
    let found = match string_at(sites, offset as u32, build_file) {
        Some(found) => found,
        None => {
            return Vec::new();
        },
    };
    let package = enclosing_package(root, document.path());
    let package = match &package {
        Some(p) => Some(p.as_str()),
        None => None,
    };
    let result = references_at(&found, package, index, include_declaration);
    assert(possible_package(root@, document.path_view(), opt_view(package)));
    result
}

/// An occurrence of a target in one file: the declaration is written, the
/// labels naming it are read.
#[derive(Debug, PartialEq, Eq)]
pub struct Highlight {
    pub line: u32,
    pub start: u32,
    pub end: u32,
    pub write: bool,
}

/// A highlight as its range and whether it is the declaration.
pub open spec fn highlight_view(h: Highlight) -> (u32, u32, u32, bool) {
    (h.line, h.start, h.end, h.write)
}

/// The sites in `file`, each marked as the declaration or not.
pub open spec fn highlights_in(sites: Seq<SiteView>, file: Seq<char>, declaration: Option<SiteView>) -> Seq<
    (u32, u32, u32, bool),
>
    decreases sites.len(),
{
    if sites.len() == 0 {
        Seq::empty()
    } else {
        let rest = highlights_in(sites.drop_last(), file, declaration);
        let s = sites.last();
        if components_of(s.file) == components_of(file) {
            rest.push(
                (s.line, s.start, s.end, declaration matches Some(d) && same_site(d, s)),
            )
        } else {
            rest
        }
    }
}

/// The occurrences in `file` of the target a found string names.
pub open spec fn spec_highlights(
    index: &Index,
    found: crate::handlers::cursor::AtView,
    package: Option<Seq<char>>,
    file: Seq<char>,
) -> Seq<(u32, u32, u32, bool)> {
    match spec_target_label(found, package) {
        None => Seq::empty(),
        Some((p, n)) => highlights_in(
            spec_name_sites(index, spec_key(p, n), true),
            file,
            spec_declaration_site(index, spec_key(p, n)),
        ),
    }
}

/// The occurrences in `file` of the target a found string names, in
/// `package`.
pub fn highlights_at(
    found: &StringAt,
    package: Option<&str>,
    file: &str,
    index: &Index,
) -> (found_highlights: Vec<Highlight>)
    ensures
        found_highlights@.map_values(|h: Highlight| highlight_view(h)) == spec_highlights(
            index,
            found@,
            opt_view(package),
            file@,
        ),
{
    let label = match target_label(found, package) {
        None => {
            let v: Vec<Highlight> = Vec::new();
            assert(v@.map_values(|h: Highlight| highlight_view(h)) =~= Seq::<(u32, u32, u32, bool)>::empty());
            return v;
        },
        Some(label) => label,
    };
    let key = label.key();
    let declaration = crate::handlers::cursor::declaration_site(index, key.as_str());
    let ghost dv = spec_declaration_site(index, key@);
    let sites = name_sites(index, key.as_str(), true);
    let ghost all = sites_view(sites@);
    let mut out: Vec<Highlight> = Vec::new();
    let mut i: usize = 0;
    assert(all.take(0) =~= Seq::<SiteView>::empty());
    assert(out@.map_values(|h: Highlight| highlight_view(h)) =~= Seq::<(u32, u32, u32, bool)>::empty());
    while i < sites.len()
        invariant
            i <= sites@.len(),
            all == sites_view(sites@),
            (match dv {
                Some(v) => declaration matches Some(d) && d@ == v,
                None => declaration is None,
            }),
            out@.map_values(|h: Highlight| highlight_view(h)) == highlights_in(all.take(i as int), file@, dv),
        decreases sites.len() - i,
    {
        assert(all.take(i + 1).drop_last() =~= all.take(i as int));
        assert(all.take(i + 1).last() == sites@[i as int]@);
        let site = &sites[i];
        if same_path(site.file.as_str(), file) {
            let write = match &declaration {
                Some(d) => same_path(d.file.as_str(), site.file.as_str()) && d.line == site.line
                    && d.start == site.start && d.end == site.end,
                None => false,
            };
            let ghost before = out@.map_values(|h: Highlight| highlight_view(h));
            let h = Highlight { line: site.line, start: site.start, end: site.end, write };
            let ghost v = highlight_view(h);
            out.push(h);
            assert(out@.map_values(|h: Highlight| highlight_view(h)) =~= before.push(v));
        }
        i = i + 1;
    }
    assert(all.take(i as int) =~= all);
    out
}

/// The occurrences, in the buffer itself, of the target under a zero-based
/// line and UTF-16 column of a Starlark buffer, given its string literals
/// and whether it is a BUILD file: what [`highlights_at`] marks for the
/// string there, with the package read from the disk. Nothing when the
/// cursor is on no string.
pub fn document_highlight(
    document: &Document,
    sites: &[StringSite],
    build_file: bool,
    root: &str,
    index: &Index,
    line: u32,
    character: u32,
) -> (found: Vec<Highlight>)
    requires
        encode_utf8(document.text_view()).len() <= isize::MAX,
    ensures
        ({
            let offset = text_offset(encode_utf8(document.text_view()), line, character);
            &&& (offset > u32::MAX || spec_string_at(sites@, offset, build_file) is None) ==> found@.len() == 0
            &&& (offset <= u32::MAX && spec_string_at(sites@, offset, build_file) is Some) ==> exists|
                package: Option<Seq<char>>,
            |
                possible_package(root@, document.path_view(), package) && found@.map_values(
                    |h: Highlight| highlight_view(h),
                ) == #[trigger] spec_highlights(
                    index,
                    spec_string_at(sites@, offset, build_file).unwrap(),
                    package,
                    document.path_view(),
                )
        }),
{
    let offset = document.offset(line, character);
    if offset > u32::MAX as usize {
        return Vec::new();
    }
    let found = match string_at(sites, offset as u32, build_file) {
        Some(found) => found,
        None => {
            return Vec::new();
        },
    };
    let package = enclosing_package(root, document.path());
    let package = match &package {
        Some(p) => Some(p.as_str()),
        None => None,
    };
    let result = highlights_at(&found, package, document.path(), index);
    assert(possible_package(root@, document.path_view(), opt_view(package)));
    result
}

} // verus!
