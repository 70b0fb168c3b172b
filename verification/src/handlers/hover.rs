//! A card saying what the string under the cursor in a Starlark file names.
//!
//! Three strings get a card. A label is resolved to the target it names, or
//! to the source file where no rule declares one. A target's own `name` gets
//! the same card plus how many references the index holds. A `load()` path
//! is resolved to the `.bzl` file it reads. Everything else declines. The
//! label is always shown resolved: `//lib:srcs` where the author wrote
//! `":srcs"`. A label of another repository gets a card saying where that
//! repository stands, when it does not simply resolve to this one.

use vstd::prelude::*;
use crate::bazel::join_path;
use crate::bazelrc::expansion::{decimal, decimal_string};
use crate::document::Document;
use crate::handlers::cursor::{
    enclosing_package, possible_package, spec_string_at, string_at, AtView, RoleView, StringAt, StringRole,
    StringSite,
};
use crate::handlers::definition::{candidate_file, spec_candidate_file};
use crate::index::Index;
use crate::label::{after_repo_marker, opt_view, parse_label, spec_key, spec_label_path, spec_parse_label, Label};
use crate::bazel::spec_join;
use crate::repos::Resolved;
use crate::text::{chars_of, first_index_of, has_prefix, has_prefix_at, find_char, starts_with, string_of_range};
use crate::line_index::{text_offset, text_position};
use crate::paths::{path_is_file, path_strip_prefix, relative_to};
use crate::text::{append, forward_slashes, string_of, to_forward_slashes};
use vstd::utf8::encode_utf8;

verus! {

/// A hover card: markdown, and the range of the string it is about.
#[derive(Debug, PartialEq, Eq)]
pub struct Card {
    pub markdown: String,
    pub start: (u32, u32),
    pub end: (u32, u32),
}

/// A card: the resolved label, fenced, and one line saying what it is. The
/// fence carries no language: its contents are a label, not code.
pub open spec fn spec_card(label: Seq<char>, detail: Seq<char>) -> Seq<char> {
    "```\n"@ + label + "\n```\n"@ + detail
}

/// A path as a label spells it: relative to the workspace where it is under
/// it, with forward slashes.
pub open spec fn spec_relative(root: Seq<char>, path: Seq<char>) -> Seq<char> {
    forward_slashes(
        match relative_to(path, root) {
            Some(rel) => rel,
            None => path,
        },
    )
}

/// How many references the index holds, said as a floor.
pub open spec fn spec_tally(count: nat) -> Seq<char> {
    (if count == 0 {
        "No references"@
    } else if count == 1 {
        "1 reference"@
    } else {
        decimal(count) + " references"@
    }) + " in the static index, which does not see macro-generated labels"@
}

/// The card for a label the index has seen declared.
pub open spec fn spec_declared_card(index: &Index, root: Seq<char>, key: Seq<char>) -> Option<Seq<char>> {
    match index.resolved(key) {
        Some(t) => Some(
            spec_card(key, "`"@ + t.rule@ + "` declared in `"@ + spec_relative(root, t.file@) + "`"@),
        ),
        None => None,
    }
}

/// The repository, package and name of a label that names another
/// repository: `@repo//pkg:name` or `@@repo//pkg:name`.
pub open spec fn external_parts(value: Seq<char>) -> Option<(Seq<char>, Seq<char>, Seq<char>)> {
    match after_repo_marker(value) {
        None => None,
        Some(r) => match first_index_of(r, '/') {
            None => None,
            Some(i) => if i > 0 && starts_with(r.skip(i), seq!['/', '/']) {
                match spec_parse_label(r.skip(i), None) {
                    Some((p, n)) => Some((r.take(i), p, n)),
                    None => None,
                }
            } else {
                None
            },
        },
    }
}

/// The card for a label of repository `repo`, given what that repository
/// resolves to: where it sits, that it is not fetched, that this workspace
/// does not declare it, or that no mapping has been read. Nothing where it
/// is the main repository.
pub open spec fn spec_external_card(repo: Seq<char>, package: Seq<char>, name: Seq<char>, placed: Resolved) -> Option<
    Seq<char>,
> {
    let key = "@"@ + repo + spec_key(package, name);
    let path = spec_label_path(package, name);
    match placed {
        Resolved::Main => None,
        Resolved::At(at) => Some(spec_card(key, "`"@ + path + "` in `"@ + spec_join(at@, path) + "`"@)),
        Resolved::Unfetched(c) => Some(
            spec_card(
                key,
                "`@"@ + repo + "` is `"@ + c@ + "` here and has not been fetched; `bazel fetch @"@ + repo
                    + "` brings it down"@,
            ),
        ),
        Resolved::Unknown => Some(spec_card(key, "`@"@ + repo + "` is not a repository this workspace declares"@)),
        Resolved::Unavailable => Some(
            spec_card(
                key,
                "the repository mapping has not been read, so an apparent name cannot be turned into a place on disk"@,
            ),
        ),
    }
}

/// The external card for a string, where its text is a label of another
/// repository that does not resolve to this one.
pub open spec fn spec_external_of(found: AtView, placed: Resolved) -> Option<Seq<char>> {
    match found.role {
        RoleView::LoadModule | RoleView::Label => match external_parts(found.value) {
            Some((repo, p, n)) => spec_external_card(repo, p, n, placed),
            None => None,
        },
        _ => None,
    }
}

/// The repository, package and name of a label of another repository.
pub fn external_label(value: &str) -> (parts: Option<(String, String, String)>)
    ensures
        (match external_parts(value@) {
            Some((r, p, n)) => parts matches Some(x) && x.0@ == r && x.1@ == p && x.2@ == n,
            None => parts is None,
        }),
{
    let cs = chars_of(value);
    let two = ['@', '@'];
    let one = ['@'];
    let slashes = ['/', '/'];
    assert(two@ =~= seq!['@', '@']);
    assert(one@ =~= seq!['@']);
    assert(slashes@ =~= seq!['/', '/']);
    let skip: usize = if has_prefix(&cs, &two) {
        2
    } else if has_prefix(&cs, &one) {
        1
    } else {
        return None;
    };
    let r = string_of_range(&cs, skip, cs.len());
    let rc = chars_of(r.as_str());
    assert(rc@ =~= value@.skip(skip as int));
    let i = match find_char(&rc, '/') {
        Some(i) => i,
        None => {
            return None;
        },
    };
    if i == 0 || !has_prefix_at(&rc, i, &slashes) {
        return None;
    }
    let rest = string_of_range(&rc, i, rc.len());
    assert(rest@ =~= rc@.skip(i as int));
    match parse_label(rest.as_str(), None) {
        Some(label) => Some((string_of_range(&rc, 0, i), label.package, label.name)),
        None => None,
    }
}

fn external_card(repo: &str, label: &Label, placed: &Resolved) -> (text: Option<String>)
    ensures
        (match spec_external_card(repo@, label.package@, label.name@, *placed) {
            Some(c) => text matches Some(t) && t@ == c,
            None => text is None,
        }),
{
    let mut key = String::new();
    append(&mut key, "@");
    append(&mut key, repo);
    append(&mut key, label.key().as_str());
    let mut detail = String::new();
    match placed {
        Resolved::Main => {
            return None;
        },
        Resolved::At(at) => {
            let path = label.path();
            append(&mut detail, "`");
            append(&mut detail, path.as_str());
            append(&mut detail, "` in `");
            append(&mut detail, join_path(at.as_str(), path.as_str()).as_str());
            append(&mut detail, "`");
        },
        Resolved::Unfetched(c) => {
            append(&mut detail, "`@");
            append(&mut detail, repo);
            append(&mut detail, "` is `");
            append(&mut detail, c.as_str());
            append(&mut detail, "` here and has not been fetched; `bazel fetch @");
            append(&mut detail, repo);
            append(&mut detail, "` brings it down");
        },
        Resolved::Unknown => {
            append(&mut detail, "`@");
            append(&mut detail, repo);
            append(&mut detail, "` is not a repository this workspace declares");
        },
        Resolved::Unavailable => {
            append(
                &mut detail,
                "the repository mapping has not been read, so an apparent name cannot be turned into a place on disk",
            );
        },
    }
    proof {
        let path = spec_label_path(label.package@, label.name@);
        if placed is At {
            assert(detail@ =~= "`"@ + path + "` in `"@ + spec_join(placed->At_0@, path) + "`"@);
        } else if placed is Unfetched {
            assert(detail@ =~= "`@"@ + repo@ + "` is `"@ + placed->Unfetched_0@ + "` here and has not been fetched; `bazel fetch @"@ + repo@
                + "` brings it down"@);
        } else if placed is Unknown {
            assert(detail@ =~= "`@"@ + repo@ + "` is not a repository this workspace declares"@);
        }
        assert(key@ =~= "@"@ + repo@ + spec_key(label.package@, label.name@));
    }
    Some(card(key.as_str(), detail.as_str()))
}

/// The external card for a found string, given what its repository
/// resolves to.
fn external_of(found: &StringAt, placed: &Resolved) -> (text: Option<String>)
    ensures
        (match spec_external_of(found@, *placed) {
            Some(c) => text matches Some(t) && t@ == c,
            None => text is None,
        }),
{
    match &found.role {
        StringRole::LoadModule | StringRole::Label => match external_label(found.value.as_str()) {
            Some((repo, package, name)) => {
                let label = Label::new(package.as_str(), name.as_str());
                external_card(repo.as_str(), &label, placed)
            },
            None => None,
        },
        _ => None,
    }
}

/// The repository a found string's label names, where it names another
/// one.
pub fn external_repo(found: &StringAt) -> (repo: Option<String>)
    ensures
        (match found@.role {
            RoleView::LoadModule | RoleView::Label => match external_parts(found@.value) {
                Some((r, _, _)) => repo matches Some(x) && x@ == r,
                None => repo is None,
            },
            _ => repo is None,
        }),
{
    match &found.role {
        StringRole::LoadModule | StringRole::Label => match external_label(found.value.as_str()) {
            Some((repo, _, _)) => Some(repo),
            None => None,
        },
        _ => None,
    }
}

/// The markdown of the card for a found string, given whether its candidate
/// source file exists.
pub open spec fn spec_hover_text(
    index: &Index,
    root: Seq<char>,
    found: AtView,
    package: Option<Seq<char>>,
    exists: bool,
    placed: Resolved,
) -> Option<Seq<char>> {
    if spec_external_of(found, placed) is Some {
        spec_external_of(found, placed)
    } else {
    match found.role {
        RoleView::LoadModule => match spec_parse_label(found.value, package) {
            None => None,
            Some((p, n)) => if exists {
                Some(
                    spec_card(
                        spec_key(p, n),
                        "Starlark file `"@ + spec_relative(
                            root,
                            spec_candidate_file(root, found, package).unwrap(),
                        ) + "`"@,
                    ),
                )
            } else {
                None
            },
        },
        RoleView::LoadSymbol(_) => None,
        RoleView::TargetName => match package {
            None => None,
            Some(p) => match spec_declared_card(index, root, spec_key(p, found.value)) {
                None => None,
                Some(declared) => Some(
                    declared + "\n\n"@ + spec_tally(index.mentioned(spec_key(p, found.value)).len()),
                ),
            },
        },
        RoleView::Label => match spec_parse_label(found.value, package) {
            None => None,
            Some((p, n)) => match spec_declared_card(index, root, spec_key(p, n)) {
                Some(declared) => Some(declared),
                None => if exists {
                    Some(
                        spec_card(
                            spec_key(p, n),
                            "source file `"@ + spec_relative(
                                root,
                                spec_candidate_file(root, found, package).unwrap(),
                            ) + "`"@,
                        ),
                    )
                } else {
                    None
                },
            },
        },
    }
    }
}

/// Whether `card` is the card for `found` in a buffer of bytes `bs`,
/// given the package, whether the candidate source file exists, and what
/// the label's repository resolves to.
pub open spec fn hover_answer(
    bs: Seq<u8>,
    index: &Index,
    root: Seq<char>,
    found: AtView,
    package: Option<Seq<char>>,
    exists: bool,
    placed: Resolved,
    card: Option<Card>,
) -> bool {
    match spec_hover_text(index, root, found, package, exists, placed) {
        Some(text) => card matches Some(c) && c.markdown@ == text && c.start == text_position(bs, found.start)
            && c.end == text_position(bs, found.end),
        None => card is None,
    }
}

/// A card for `label` saying `detail`.
fn card(label: &str, detail: &str) -> (text: String)
    ensures
        text@ == spec_card(label@, detail@),
{
    let mut text = String::new();
    append(&mut text, "```\n");
    append(&mut text, label);
    append(&mut text, "\n```\n");
    append(&mut text, detail);
    assert(text@ =~= spec_card(label@, detail@));
    text
}

/// `path` relative to `root`, as a label spells it.
fn relative(root: &str, path: &str) -> (text: String)
    ensures
        text@ == spec_relative(root@, path@),
{
    match path_strip_prefix(path, root) {
        Some(rel) => to_forward_slashes(rel.as_str()),
        None => to_forward_slashes(path),
    }
}

/// A detail line naming a file: `lead`, the file relative to `root` in
/// backticks.
fn file_detail(lead: &str, root: &str, path: &str) -> (text: String)
    ensures
        text@ == lead@ + spec_relative(root@, path@) + "`"@,
{
    let mut text = String::new();
    append(&mut text, lead);
    append(&mut text, relative(root, path).as_str());
    append(&mut text, "`");
    assert(text@ =~= lead@ + spec_relative(root@, path@) + "`"@);
    text
}

/// How many references the index holds for `label`, said as a floor.
pub fn tally(index: &Index, label: &Label) -> (text: String)
    ensures
        text@ == spec_tally(index.mentioned(spec_key(label.package@, label.name@)).len()),
{
    let count = index.references(label.key().as_str()).len();
    let mut text = String::new();
    if count == 0 {
        append(&mut text, "No references");
    } else if count == 1 {
        append(&mut text, "1 reference");
    } else {
        let digits = decimal_string(count);
        append(&mut text, string_of(&digits).as_str());
        append(&mut text, " references");
    }
    append(&mut text, " in the static index, which does not see macro-generated labels");
    proof {
        let n = index.mentioned(spec_key(label.package@, label.name@)).len();
        assert(text@ =~= spec_tally(n));
    }
    text
}

/// The card for `label`, where the index has seen it declared.
fn declared_card(index: &Index, root: &str, label: &Label) -> (text: Option<String>)
    ensures
        (match spec_declared_card(index, root@, spec_key(label.package@, label.name@)) {
            Some(c) => text matches Some(t) && t@ == c,
            None => text is None,
        }),
{
    let key = label.key();
    match index.target(key.as_str()) {
        Some(t) => {
            let mut detail = String::new();
            append(&mut detail, "`");
            append(&mut detail, t.rule.as_str());
            append(&mut detail, "` declared in `");
            append(&mut detail, relative(root, t.file.as_str()).as_str());
            append(&mut detail, "`");
            assert(detail@ =~= "`"@ + t.rule@ + "` declared in `"@ + spec_relative(root@, t.file@) + "`"@);
            Some(card(key.as_str(), detail.as_str()))
        },
        None => None,
    }
}

/// The card for a found string, given whether its candidate source file
/// exists, with the string's range as positions.
pub fn hover_at(
    document: &Document,
    found: &StringAt,
    package: Option<&str>,
    root: &str,
    index: &Index,
    exists: bool,
    placed: &Resolved,
) -> (card: Option<Card>)
    requires
        encode_utf8(document.text_view()).len() <= isize::MAX,
    ensures
        hover_answer(encode_utf8(document.text_view()), index, root@, found@, opt_view(package), exists, *placed, card),
{
    let external = external_of(found, placed);
    let markdown = if external.is_some() {
        external
    } else {
        match &found.role {
        StringRole::LoadModule => match parse_label(found.value.as_str(), package) {
            None => None,
            Some(label) => {
                if exists {
                    let file = join_path(root, label.path().as_str());
                    let detail = file_detail("Starlark file `", root, file.as_str());
                    Some(card(label.key().as_str(), detail.as_str()))
                } else {
                    None
                }
            },
        },
        StringRole::LoadSymbol(_) => None,
        StringRole::TargetName => match package {
            None => None,
            Some(p) => {
                let label = Label::new(p, found.value.as_str());
                match declared_card(index, root, &label) {
                    None => None,
                    Some(declared) => {
                        let mut text = declared;
                        append(&mut text, "\n\n");
                        append(&mut text, tally(index, &label).as_str());
                        Some(text)
                    },
                }
            },
        },
        StringRole::Label => match parse_label(found.value.as_str(), package) {
            None => None,
            Some(label) => match declared_card(index, root, &label) {
                Some(declared) => Some(declared),
                None => {
                    if exists {
                        let file = join_path(root, label.path().as_str());
                        let detail = file_detail("source file `", root, file.as_str());
                        Some(card(label.key().as_str(), detail.as_str()))
                    } else {
                        None
                    }
                },
            },
        },
        }
    };
    match markdown {
        Some(markdown) => Some(
            Card {
                markdown,
                start: document.position(found.start as usize),
                end: document.position(found.end as usize),
            },
        ),
        None => None,
    }
}

/// The hover card at a zero-based line and UTF-16 column of a Starlark
/// buffer, given its string literals and whether it is a BUILD file.
///
/// Nothing when the cursor is on no string; otherwise the card
/// [`hover_at`] makes for the string there, with the package and the
/// existence of the candidate source file read from the disk.
pub fn hover(
    document: &Document,
    sites: &[StringSite],
    build_file: bool,
    root: &str,
    index: &Index,
    line: u32,
    character: u32,
) -> (card: Option<Card>)
    requires
        encode_utf8(document.text_view()).len() <= isize::MAX,
    ensures
        ({
            let offset = text_offset(encode_utf8(document.text_view()), line, character);
            &&& (offset > u32::MAX || spec_string_at(sites@, offset, build_file) is None) ==> card is None
            &&& (offset <= u32::MAX && spec_string_at(sites@, offset, build_file) is Some) ==> exists|
                package: Option<Seq<char>>,
                exists: bool,
                placed: Resolved,
            |
                possible_package(root@, document.path_view(), package) && #[trigger] hover_answer(
                    encode_utf8(document.text_view()),
                    index,
                    root@,
                    spec_string_at(sites@, offset, build_file).unwrap(),
                    package,
                    exists,
                    placed,
                    card,
                )
        }),
{
    let offset = document.offset(line, character);
    if offset > u32::MAX as usize {
        return None;
    }
    let found = match string_at(sites, offset as u32, build_file) {
        Some(found) => found,
        None => {
            return None;
        },
    };
    let package = enclosing_package(root, document.path());
    let package = match &package {
        Some(p) => Some(p.as_str()),
        None => None,
    };
    let exists = match candidate_file(root, &found, package) {
        Some(file) => path_is_file(file.as_str()),
        None => false,
    };
    let placed = match external_repo(&found) {
        Some(repo) => index.repos().locate(repo.as_str()),
        None => Resolved::Main,
    };
    let card = hover_at(document, &found, package, root, index, exists, &placed);
    assert(possible_package(root@, document.path_view(), opt_view(package)));
    card
}

} // verus!
