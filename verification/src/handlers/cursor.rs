//! What the cursor is on in a Starlark file, and which package that file
//! belongs to.
//!
//! The string under the cursor is found among the file's string literals,
//! which the syntax tree hands over as [`StringSite`]s; where a string sits
//! decides what it names.
//!
//! A file's package is the nearest directory, from the file's own up to the
//! workspace root, that holds a BUILD file. The walk is split from the disk:
//! [`package_candidates`] lists the directories in the order they are tried,
//! [`package_at`] picks the package given which of them hold a BUILD file, and
//! [`enclosing_package`] asks the disk.

use vstd::prelude::*;
use crate::bazel::join_path;
use crate::paths::{
    components_of, parent_of, path_is_file, path_parent, path_strip_prefix, relative_to,
    same_path, texts,
};
use crate::label::{parse_label, spec_make_variable_labels, spec_parse_label, make_variable_labels, opt_view, Label};
use crate::index::{Index, Reference, Target};
use crate::paths::path_components;
use crate::text::{byte_width, forward_slashes, opt_chars, str_eq, text_less, to_forward_slashes, chars_of, chars_less};

verus! {

/// The directories tried for a package from `dir` upward: `dir` itself, then
/// each parent, ending at the one that is `root` component for component, or
/// at a directory with no parent.
pub open spec fn candidate_dirs(root: Seq<char>, dir: Seq<char>) -> Seq<Seq<char>>
    decreases dir.len(),
{
    if components_of(dir) == components_of(root) {
        seq![dir]
    } else {
        match parent_of(dir) {
            Some(up) => if up.len() < dir.len() {
                seq![dir] + candidate_dirs(root, up)
            } else {
                seq![dir]
            },
            None => seq![dir],
        }
    }
}

/// The directories that could be `file`'s package, nearest first; nothing
/// when `file` is not under `root` or has no directory.
pub open spec fn spec_package_candidates(root: Seq<char>, file: Seq<char>) -> Option<
    Seq<Seq<char>>,
> {
    if relative_to(file, root) is None {
        None
    } else {
        match parent_of(file) {
            None => None,
            Some(dir) => Some(candidate_dirs(root, dir)),
        }
    }
}

/// The package defined by the first candidate that holds a BUILD file, as
/// that directory relative to `root` with forward slashes; nothing when no
/// candidate holds one.
pub open spec fn spec_package_at(
    root: Seq<char>,
    candidates: Seq<Seq<char>>,
    has_build: Seq<bool>,
) -> Option<Seq<char>>
    decreases candidates.len(),
{
    if candidates.len() == 0 || has_build.len() == 0 {
        None
    } else if has_build[0] {
        match relative_to(candidates[0], root) {
            None => None,
            Some(rel) => Some(forward_slashes(rel)),
        }
    } else {
        spec_package_at(root, candidates.drop_first(), has_build.drop_first())
    }
}

/// Whether the disk may give `file` the package `package`: none, or the
/// package of one of its candidate directories.
pub open spec fn possible_package(root: Seq<char>, file: Seq<char>, package: Option<Seq<char>>) -> bool {
    match package {
        Some(p) => found_among(root, file, p),
        None => true,
    }
}

/// Whether `package` is the package `dir` defines under `root`.
pub open spec fn names_package(root: Seq<char>, dir: Seq<char>, package: Seq<char>) -> bool {
    relative_to(dir, root) matches Some(rel) && package == forward_slashes(rel)
}

/// The package is the one the nearest candidate holding a BUILD file
/// defines: every nearer candidate holds none. There is no package when no
/// candidate holds one, or when the nearest that does is not under `root`.
pub proof fn the_nearest_build_file_names_the_package(
    root: Seq<char>,
    candidates: Seq<Seq<char>>,
    has_build: Seq<bool>,
)
    ensures
        (match spec_package_at(root, candidates, has_build) {
            Some(package) => exists|i: int|
                0 <= i < candidates.len() && i < has_build.len() && #[trigger] has_build[i] && names_package(
                    root,
                    candidates[i],
                    package,
                ) && forall|j: int| 0 <= j < i ==> !has_build[j],
            None => forall|i: int|
                0 <= i < candidates.len() && i < has_build.len() && #[trigger] has_build[i] && (forall|j: int|
                    0 <= j < i ==> !has_build[j]) ==> relative_to(candidates[i], root) is None,
        }),
    decreases candidates.len(),
{
    if candidates.len() > 0 && has_build.len() > 0 {
        if has_build[0] {
            assert forall|i: int|
                0 <= i < candidates.len() && i < has_build.len() && #[trigger] has_build[i] && (forall|j: int|
                    0 <= j < i ==> !has_build[j]) implies i == 0 by {
                if i > 0 {
                    assert(!has_build[0]);
                }
            }
            if let Some(package) = spec_package_at(root, candidates, has_build) {
                assert(names_package(root, candidates[0], package));
                assert(has_build[0]);
            }
        } else {
            let c = candidates.drop_first();
            let h = has_build.drop_first();
            the_nearest_build_file_names_the_package(root, c, h);
            match spec_package_at(root, candidates, has_build) {
                Some(package) => {
                    let i = choose|i: int|
                        0 <= i < c.len() && i < h.len() && #[trigger] h[i] && names_package(root, c[i], package)
                            && forall|j: int| 0 <= j < i ==> !h[j];
                    assert(has_build[i + 1] == h[i]);
                    assert(candidates[i + 1] == c[i]);
                    assert forall|j: int| 0 <= j < i + 1 implies !has_build[j] by {
                        if j > 0 {
                            assert(has_build[j] == h[j - 1]);
                        }
                    }
                },
                None => {
                    assert forall|i: int|
                        0 <= i < candidates.len() && i < has_build.len() && #[trigger] has_build[i] && (forall|j: int|
                            0 <= j < i ==> !has_build[j]) implies relative_to(candidates[i], root) is None by {
                        assert(i > 0);
                        assert(has_build[i] == h[i - 1]);
                        assert(candidates[i] == c[i - 1]);
                        assert forall|j: int| 0 <= j < i - 1 implies !h[j] by {
                            assert(h[j] == has_build[j + 1]);
                        }
                    }
                },
            }
        }
    }
}

/// Whether `package` is the package of one of `file`'s candidate
/// directories.
pub open spec fn found_among(root: Seq<char>, file: Seq<char>, package: Seq<char>) -> bool {
    &&& spec_package_candidates(root, file) is Some
    &&& exists|i: int|
        0 <= i < spec_package_candidates(root, file).unwrap().len() && #[trigger] names_package(
            root,
            spec_package_candidates(root, file).unwrap()[i],
            package,
        )
}

/// The directories that could be `file`'s package, nearest first: its own
/// directory, then each ancestor up to `root`. `None` when `file` is not
/// under `root`.
pub fn package_candidates(root: &str, file: &str) -> (dirs: Option<Vec<String>>)
    ensures
        (match spec_package_candidates(root@, file@) {
            Some(c) => dirs matches Some(v) && texts(v@) == c,
            None => dirs is None,
        }),
{
    if path_strip_prefix(file, root).is_none() {
        return None;
    }
    let start = match path_parent(file) {
        Some(dir) => dir,
        None => {
            return None;
        },
    };
    let mut dirs: Vec<String> = Vec::new();
    let mut dir = start.clone();
    loop
        invariant
            relative_to(file@, root@) is Some,
            parent_of(file@) == Some(start@),
            candidate_dirs(root@, start@) == texts(dirs@) + candidate_dirs(root@, dir@),
        decreases dir@.len(),
    {
        assert(texts(dirs@.push(dir)) =~= texts(dirs@).push(dir@));
        dirs.push(dir.clone());
        if same_path(dir.as_str(), root) {
            assert(texts(dirs@) =~= candidate_dirs(root@, start@));
            return Some(dirs);
        }
        match path_parent(dir.as_str()) {
            Some(up) => {
                assert(candidate_dirs(root@, dir@) == seq![dir@] + candidate_dirs(root@, up@));
                assert(texts(dirs@) + candidate_dirs(root@, up@) =~= candidate_dirs(root@, start@));
                dir = up;
            },
            None => {
                assert(texts(dirs@) =~= candidate_dirs(root@, start@));
                return Some(dirs);
            },
        }
    }
}

/// The package given which candidates hold a BUILD file: the first one that
/// does, relative to `root` with forward slashes. `has_build[i]` says whether
/// `candidates[i]` holds one; candidates past the end of either list are not
/// tried.
pub fn package_at(root: &str, candidates: &[String], has_build: &[bool]) -> (package: Option<String>)
    ensures
        opt_chars(package) == spec_package_at(root@, texts(candidates@), has_build@),
{
    let ghost all = texts(candidates@);
    assert(all.skip(0) =~= all);
    assert(has_build@.skip(0) =~= has_build@);
    let mut i: usize = 0;
    while i < candidates.len() && i < has_build.len()
        invariant
            i <= candidates.len(),
            i <= has_build.len(),
            all == texts(candidates@),
            spec_package_at(root@, all, has_build@) == spec_package_at(
                root@,
                all.skip(i as int),
                has_build@.skip(i as int),
            ),
        decreases candidates.len() - i,
    {
        assert(all.skip(i as int)[0] == candidates@[i as int]@);
        if has_build[i] {
            return match path_strip_prefix(candidates[i].as_str(), root) {
                Some(rel) => Some(to_forward_slashes(rel.as_str())),
                None => None,
            };
        }
        assert(all.skip(i as int).drop_first() =~= all.skip(i + 1));
        assert(has_build@.skip(i as int).drop_first() =~= has_build@.skip(i + 1));
        i = i + 1;
    }
    assert(all.skip(i as int).len() == 0 || has_build@.skip(i as int).len() == 0);
    None
}

/// Whether a directory holds a BUILD file under either of its names.
fn has_build_file(dir: &str) -> bool {
    path_is_file(join_path(dir, "BUILD.bazel").as_str()) || path_is_file(join_path(dir, "BUILD").as_str())
}

/// Which of `dirs` hold a BUILD file, nearest first. The disk is asked
/// until one does; the directories past it are marked as holding none,
/// since the first that holds one is the package whatever lies beyond.
fn build_flags(dirs: &Vec<String>) -> (flags: Vec<bool>)
    ensures
        flags.len() == dirs.len(),
{
    let mut flags: Vec<bool> = Vec::new();
    let mut found = false;
    let mut i: usize = 0;
    while i < dirs.len()
        invariant
            i <= dirs.len(),
            flags.len() == i,
        decreases dirs.len() - i,
    {
        if found {
            flags.push(false);
        } else {
            let here = has_build_file(dirs[i].as_str());
            found = here;
            flags.push(here);
        }
        i = i + 1;
    }
    flags
}

/// A package the flags pick is the package of one of the candidates.
proof fn lemma_package_at_names(root: Seq<char>, c: Seq<Seq<char>>, flags: Seq<bool>)
    ensures
        spec_package_at(root, c, flags) matches Some(p) ==> exists|i: int|
            0 <= i < c.len() && #[trigger] names_package(root, c[i], p),
    decreases c.len(),
{
    if c.len() > 0 && flags.len() > 0 && !flags[0] {
        lemma_package_at_names(root, c.drop_first(), flags.drop_first());
        if let Some(p) = spec_package_at(root, c, flags) {
            let i = choose|i: int| 0 <= i < c.drop_first().len() && #[trigger] names_package(root, c.drop_first()[i], p);
            assert(c[i + 1] == c.drop_first()[i]);
            assert(names_package(root, c[i + 1], p));
        }
    } else if c.len() > 0 && flags.len() > 0 {
        if let Some(p) = spec_package_at(root, c, flags) {
            assert(names_package(root, c[0], p));
        }
    }
}

/// The package a file belongs to, as a workspace-relative directory: the
/// nearest of its candidate directories that holds a BUILD file on disk.
///
/// `None` when `file` is not under `root`, or when no directory up to the
/// root holds a BUILD file: relative labels then have no package to resolve
/// against. Which directories hold one is read from the disk; the answer is
/// what [`package_at`] makes of what was read.
pub fn enclosing_package(root: &str, file: &str) -> (package: Option<String>)
    ensures
        (match spec_package_candidates(root@, file@) {
            None => package is None,
            Some(c) => exists|flags: Seq<bool>|
                flags.len() == c.len() && opt_chars(package) == #[trigger] spec_package_at(root@, c, flags),
        }),
        package matches Some(p) ==> found_among(root@, file@, p@),
{
    let dirs = match package_candidates(root, file) {
        Some(dirs) => dirs,
        None => {
            return None;
        },
    };
    let flags = build_flags(&dirs);
    let package = package_at(root, dirs.as_slice(), flags.as_slice());
    proof {
        let c = texts(dirs@);
        assert(c.len() == flags@.len());
        lemma_package_at_names(root@, c, flags@);
        if package is Some {
            let p = package->0@;
            let i = choose|i: int| 0 <= i < c.len() && #[trigger] names_package(root@, c[i], p);
            assert(names_package(root@, spec_package_candidates(root@, file@).unwrap()[i], p));
        }
    }
    package
}

/// Where a string literal sits, as the syntax tree places it.
#[derive(Debug, Clone, PartialEq, Eq)]
pub enum Place {
    /// The first item of a `load()`: the `.bzl` file being loaded from.
    LoadModule,
    /// A later item of a `load()`, with the module the load reads.
    LoadSymbol(String),
    /// The `name` argument of a call at the top level of the file.
    TopLevelName,
    /// Anywhere else.
    Elsewhere,
}

/// A string literal of a Starlark file.
#[derive(Debug, Clone, PartialEq, Eq)]
pub struct StringSite {
    /// Byte range of the whole token, quotes and prefix included.
    pub token_start: u32,
    pub token_end: u32,
    /// Byte range of the content, quotes and prefix excluded.
    pub start: u32,
    pub end: u32,
    /// The content as written.
    pub value: String,
    pub place: Place,
}

/// What a string refers to, decided by where it sits.
#[derive(Debug, Clone, PartialEq, Eq)]
pub enum StringRole {
    /// The first item of a `load()`: the `.bzl` file being loaded from.
    LoadModule,
    /// A symbol in a `load()`, carrying the module it comes from.
    LoadSymbol(String),
    /// The `name` of a top-level rule call in a BUILD file: the target being
    /// declared rather than a label pointing at one.
    TargetName,
    /// Anything else, which in a build file means a label.
    Label,
}

/// The role of a string, with its module as text.
pub enum RoleView {
    LoadModule,
    LoadSymbol(Seq<char>),
    TargetName,
    Label,
}

impl StringRole {
    pub open spec fn view(&self) -> RoleView {
        match self {
            StringRole::LoadModule => RoleView::LoadModule,
            StringRole::LoadSymbol(m) => RoleView::LoadSymbol(m@),
            StringRole::TargetName => RoleView::TargetName,
            StringRole::Label => RoleView::Label,
        }
    }
}

/// The string under the cursor: its content, the content's byte range, and
/// what it is for.
#[derive(Debug, Clone, PartialEq, Eq)]
pub struct StringAt {
    pub value: String,
    pub start: u32,
    pub end: u32,
    pub role: StringRole,
}

/// A found string as its text, range and role.
pub struct AtView {
    pub value: Seq<char>,
    pub start: int,
    pub end: int,
    pub role: RoleView,
}

impl StringAt {
    pub open spec fn view(&self) -> AtView {
        AtView { value: self.value@, start: self.start as int, end: self.end as int, role: self.role.view() }
    }
}

/// The role of a string at `place`: a top-level `name` declares a target
/// only in a BUILD file, and is nothing anywhere else.
pub open spec fn role_at(place: Place, build_file: bool) -> Option<RoleView> {
    match place {
        Place::LoadModule => Some(RoleView::LoadModule),
        Place::LoadSymbol(m) => Some(RoleView::LoadSymbol(m@)),
        Place::TopLevelName => if build_file {
            Some(RoleView::TargetName)
        } else {
            None
        },
        Place::Elsewhere => Some(RoleView::Label),
    }
}

/// The first site from `i` on whose token holds `offset`.
pub open spec fn first_holding(sites: Seq<StringSite>, offset: int, i: int) -> Option<int>
    decreases sites.len() - i,
{
    if i < 0 || i >= sites.len() {
        None
    } else if sites[i].token_start <= offset < sites[i].token_end {
        Some(i)
    } else {
        first_holding(sites, offset, i + 1)
    }
}

/// The first of `labels`, each with its byte offset in a string whose
/// content begins at `content`, whose range in the file holds `offset`; a
/// label whose range would pass the largest offset is passed over.
pub open spec fn expansion_in(labels: Seq<(Seq<char>, int)>, content: int, offset: int) -> Option<
    (Seq<char>, int, int),
>
    decreases labels.len(),
{
    if labels.len() == 0 {
        None
    } else {
        let label = labels[0].0;
        let start = content + labels[0].1;
        let end = start + byte_width(label);
        if end <= u32::MAX && start <= offset <= end {
            Some((label, start, end))
        } else {
            expansion_in(labels.drop_first(), content, offset)
        }
    }
}

/// The string under `offset`: the first string token holding it, read by
/// where it sits. Nothing when no token holds it, when it is a top-level
/// `name` outside a BUILD file, or when it falls on the quotes. Inside a
/// `$(location …)` expansion, the label there.
pub open spec fn spec_string_at(sites: Seq<StringSite>, offset: int, build_file: bool) -> Option<
    AtView,
> {
    match first_holding(sites, offset, 0) {
        None => None,
        Some(i) => {
            let site = sites[i];
            match role_at(site.place, build_file) {
                None => None,
                Some(role) => if !(site.start <= offset <= site.end) {
                    None
                } else {
                    match expansion_in(spec_make_variable_labels(site.value@), site.start as int, offset) {
                        Some((label, start, end)) => Some(
                            AtView { value: label, start, end, role: RoleView::Label },
                        ),
                        None => Some(AtView { value: site.value@, start: site.start as int, end: site.end as int, role }),
                    }
                },
            }
        },
    }
}

/// The label of a `$(location …)` expansion in `value` whose range holds
/// `offset`, in file coordinates: `content` is where the string's content
/// begins.
fn expansion_at(value: &str, content: u32, offset: u32) -> (found: Option<StringAt>)
    ensures
        (match expansion_in(spec_make_variable_labels(value@), content as int, offset as int) {
            Some((label, start, end)) => found matches Some(f) && f@ == (AtView {
                value: label,
                start,
                end,
                role: RoleView::Label,
            }),
            None => found is None,
        }),
{
    let bytes = value.as_bytes();
    let width = bytes.len();
    assert(byte_width(value@) == width);
    let labels = make_variable_labels(value);
    let ghost all = spec_make_variable_labels(value@);
    let mut k: usize = 0;
    assert(all.skip(0) =~= all);
    while k < labels.len()
        invariant
            k <= labels@.len(),
            labels@.len() == all.len(),
            all == spec_make_variable_labels(value@),
            forall|i: int|
                0 <= i < labels@.len() ==> labels@[i].0@ == (#[trigger] all[i]).0 && labels@[i].1
                    == all[i].1,
            expansion_in(all, content as int, offset as int) == expansion_in(
                all.skip(k as int),
                content as int,
                offset as int,
            ),
        decreases labels.len() - k,
    {
        let ghost rest = all.skip(k as int);
        assert(rest[0] == all[k as int]);
        assert(rest.drop_first() =~= all.skip(k + 1));
        let at = labels[k].1;
        let lb = labels[k].0.as_str().as_bytes();
        let len = lb.len();
        assert(byte_width(labels@[k as int].0@) == len);
        if at <= 0xffff_ffffusize && len <= 0xffff_ffffusize {
            let at32 = at as u32;
            let len32 = len as u32;
            if content <= 0xffff_ffffu32 - at32 && content + at32 <= 0xffff_ffffu32 - len32 {
                let start = content + at32;
                let end = start + len32;
                if start <= offset && offset <= end {
                    let label = labels[k].0.clone();
                    return Some(StringAt { value: label, start, end, role: StringRole::Label });
                }
            }
        }
        k = k + 1;
    }
    None
}

/// The string under `offset` among a file's string literals. `build_file`
/// says whether the file is a BUILD file, the one kind that declares
/// targets.
pub fn string_at(sites: &[StringSite], offset: u32, build_file: bool) -> (found: Option<StringAt>)
    ensures
        (match spec_string_at(sites@, offset as int, build_file) {
            Some(v) => found matches Some(f) && f@ == v,
            None => found is None,
        }),
{
    let mut i: usize = 0;
    while i < sites.len() && !(sites[i].token_start <= offset && offset < sites[i].token_end)
        invariant
            i <= sites@.len(),
            first_holding(sites@, offset as int, 0) == first_holding(sites@, offset as int, i as int),
        decreases sites.len() - i,
    {
        i = i + 1;
    }
    if i >= sites.len() {
        return None;
    }
    let site = &sites[i];
    let role = match &site.place {
        Place::LoadModule => StringRole::LoadModule,
        Place::LoadSymbol(m) => StringRole::LoadSymbol(m.clone()),
        Place::TopLevelName => {
            if build_file {
                StringRole::TargetName
            } else {
                return None;
            }
        },
        Place::Elsewhere => StringRole::Label,
    };
    if !(site.start <= offset && offset <= site.end) {
        return None;
    }
    match expansion_at(site.value.as_str(), site.start, offset) {
        Some(inner) => Some(inner),
        None => Some(StringAt { value: site.value.clone(), start: site.start, end: site.end, role }),
    }
}

/// The package and name the string names as a target: a declaration names
/// its own package, a label is resolved against the package that wrote it,
/// and a `load()` string names no target.
pub open spec fn spec_target_label(found: AtView, package: Option<Seq<char>>) -> Option<
    (Seq<char>, Seq<char>),
> {
    match found.role {
        RoleView::TargetName => match package {
            Some(p) => Some((p, found.value)),
            None => None,
        },
        RoleView::Label => spec_parse_label(found.value, package),
        _ => None,
    }
}

/// The target a string names, whether it declares the target or points at
/// it.
pub fn target_label(found: &StringAt, package: Option<&str>) -> (label: Option<Label>)
    ensures
        (match spec_target_label(found@, opt_view(package)) {
            Some((p, n)) => label matches Some(l) && l.package@ == p && l.name@ == n,
            None => label is None,
        }),
{
    match &found.role {
        StringRole::TargetName => match package {
            Some(p) => Some(Label::new(p, found.value.as_str())),
            None => None,
        },
        StringRole::Label => parse_label(found.value.as_str(), package),
        StringRole::LoadModule => None,
        StringRole::LoadSymbol(_) => None,
    }
}


/// A name written in a file: the file, the line, and the UTF-16 columns
/// where the name starts and ends. A name never spans a line.
#[derive(Debug, Clone, PartialEq, Eq)]
pub struct NameSite {
    pub file: String,
    pub line: u32,
    pub start: u32,
    pub end: u32,
}

/// A name site with its file as text.
pub struct SiteView {
    pub file: Seq<char>,
    pub line: u32,
    pub start: u32,
    pub end: u32,
}

impl NameSite {
    pub open spec fn view(&self) -> SiteView {
        SiteView { file: self.file@, line: self.line, start: self.start, end: self.end }
    }

    /// A copy of the site.
    pub fn copy(&self) -> (c: NameSite)
        ensures
            c@ == self@,
    {
        NameSite { file: self.file.clone(), line: self.line, start: self.start, end: self.end }
    }
}

/// The views of a list of name sites.
pub open spec fn sites_view(sites: Seq<NameSite>) -> Seq<SiteView> {
    sites.map_values(|s: NameSite| s@)
}

/// Where a name of `length` columns starting at `character` ends, held at
/// the largest column.
pub open spec fn name_end(character: u32, length: u32) -> u32 {
    if character + length > u32::MAX {
        u32::MAX
    } else {
        (character + length) as u32
    }
}

/// The name a reference writes.
pub open spec fn reference_site(r: Reference) -> SiteView {
    SiteView { file: r.file@, line: r.line, start: r.character, end: name_end(r.character, r.length) }
}

/// The name a declaration writes.
pub open spec fn declared_site(t: Target) -> SiteView {
    SiteView { file: t.file@, line: t.line, start: t.character, end: name_end(t.character, t.length) }
}

/// How path components rank before their text is compared: the root, then
/// `.`, then `..`, then names.
pub open spec fn component_rank(c: Seq<char>) -> int {
    if c == seq!['/'] {
        1
    } else if c == seq!['.'] {
        2
    } else if c == seq!['.', '.'] {
        3
    } else {
        4
    }
}

/// Whether component `a` sorts before component `b`.
pub open spec fn component_less(a: Seq<char>, b: Seq<char>) -> bool {
    component_rank(a) < component_rank(b) || (component_rank(a) == component_rank(b) && text_less(a, b))
}

/// Whether one list of components sorts before another, component by
/// component, a proper prefix first.
pub open spec fn components_less(a: Seq<Seq<char>>, b: Seq<Seq<char>>) -> bool
    decreases a.len(),
{
    if a.len() == 0 {
        b.len() > 0
    } else if b.len() == 0 {
        false
    } else if a[0] != b[0] {
        component_less(a[0], b[0])
    } else {
        components_less(a.drop_first(), b.drop_first())
    }
}

/// Whether path `a` sorts before path `b`, as paths compare: component by
/// component.
pub open spec fn path_less(a: Seq<char>, b: Seq<char>) -> bool {
    components_less(components_of(a), components_of(b))
}

/// Sites sort by file, then line, then starting column.
pub open spec fn site_less(a: SiteView, b: SiteView) -> bool {
    path_less(a.file, b.file) || (components_of(a.file) == components_of(b.file) && (a.line < b.line
        || (a.line == b.line && a.start < b.start)))
}

/// `x` placed into sorted sites after every site that does not sort after
/// it.
pub open spec fn insert_site(s: Seq<SiteView>, x: SiteView) -> Seq<SiteView>
    decreases s.len(),
{
    if s.len() == 0 {
        seq![x]
    } else if site_less(x, s.last()) {
        insert_site(s.drop_last(), x).push(s.last())
    } else {
        s.push(x)
    }
}

/// Sites in sorted order, sites that sort alike kept in the order given.
pub open spec fn sort_sites(s: Seq<SiteView>) -> Seq<SiteView>
    decreases s.len(),
{
    if s.len() == 0 {
        s
    } else {
        insert_site(sort_sites(s.drop_last()), s.last())
    }
}

/// Whether two sites are the same name in the same file.
pub open spec fn same_site(a: SiteView, b: SiteView) -> bool {
    components_of(a.file) == components_of(b.file) && a.line == b.line && a.start == b.start && a.end
        == b.end
}

/// Sites with each run of the same site cut to its first.
pub open spec fn dedup_sites(s: Seq<SiteView>) -> Seq<SiteView>
    decreases s.len(),
{
    if s.len() == 0 {
        s
    } else {
        let rest = dedup_sites(s.drop_last());
        if rest.len() > 0 && same_site(rest.last(), s.last()) {
            rest
        } else {
            rest.push(s.last())
        }
    }
}

/// Where the target `key` resolves to writes its own name.
pub open spec fn spec_declaration_site(index: &Index, key: Seq<char>) -> Option<SiteView> {
    match index.resolved(key) {
        Some(t) => Some(declared_site(t)),
        None => None,
    }
}

/// Every place the target `key` is named, before sorting: each mention,
/// then the declaration when asked for and there is one.
pub open spec fn mention_sites(index: &Index, key: Seq<char>, include_declaration: bool) -> Seq<
    SiteView,
> {
    index.mentioned(key).map_values(|r: Reference| reference_site(r)) + (if include_declaration
        && spec_declaration_site(index, key) is Some {
        seq![spec_declaration_site(index, key).unwrap()]
    } else {
        Seq::empty()
    })
}

/// Every place the target `key` is named, sorted and each once.
pub open spec fn spec_name_sites(index: &Index, key: Seq<char>, include_declaration: bool) -> Seq<
    SiteView,
> {
    dedup_sites(sort_sites(mention_sites(index, key, include_declaration)))
}

fn name_end_of(character: u32, length: u32) -> (end: u32)
    ensures
        end == name_end(character, length),
{
    if character > u32::MAX - length {
        u32::MAX
    } else {
        character + length
    }
}

/// Where the target's own name is written, in the shape of the sites that
/// refer to it.
pub fn declaration_site(index: &Index, key: &str) -> (site: Option<NameSite>)
    ensures
        (match spec_declaration_site(index, key@) {
            Some(v) => site matches Some(s) && s@ == v,
            None => site is None,
        }),
{
    match index.target(key) {
        Some(t) => Some(
            NameSite {
                file: t.file.clone(),
                line: t.line,
                start: t.character,
                end: name_end_of(t.character, t.length),
            },
        ),
        None => None,
    }
}

fn component_rank_of(c: &str) -> (rank: u8)
    ensures
        rank as int == component_rank(c@),
{
    proof {
        reveal_strlit("/");
        reveal_strlit(".");
        reveal_strlit("..");
        assert("/"@ =~= seq!['/']);
        assert("."@ =~= seq!['.']);
        assert(".."@ =~= seq!['.', '.']);
    }
    if str_eq(c, "/") {
        1
    } else if str_eq(c, ".") {
        2
    } else if str_eq(c, "..") {
        3
    } else {
        4
    }
}

/// Whether path `a` sorts before path `b`.
fn path_before(a: &str, b: &str) -> (r: bool)
    ensures
        r == path_less(a@, b@),
{
    let pa = path_components(a);
    let pb = path_components(b);
    let ghost ta = texts(pa@);
    let ghost tb = texts(pb@);
    let mut i: usize = 0;
    assert(ta.skip(0) =~= ta);
    assert(tb.skip(0) =~= tb);
    while i < pa.len() && i < pb.len()
        invariant
            ta == texts(pa@),
            tb == texts(pb@),
            ta == components_of(a@),
            tb == components_of(b@),
            i <= pa@.len(),
            i <= pb@.len(),
            components_less(ta, tb) == components_less(ta.skip(i as int), tb.skip(i as int)),
        decreases pa.len() - i,
    {
        assert(ta.skip(i as int)[0] == pa@[i as int]@);
        assert(tb.skip(i as int)[0] == pb@[i as int]@);
        if !str_eq(pa[i].as_str(), pb[i].as_str()) {
            let ra = component_rank_of(pa[i].as_str());
            let rb = component_rank_of(pb[i].as_str());
            if ra != rb {
                return ra < rb;
            }
            let ca = chars_of(pa[i].as_str());
            let cb = chars_of(pb[i].as_str());
            return chars_less(&ca, &cb);
        }
        assert(ta.skip(i as int).drop_first() =~= ta.skip(i + 1));
        assert(tb.skip(i as int).drop_first() =~= tb.skip(i + 1));
        i = i + 1;
    }
    pa.len() < pb.len()
}

/// Whether site `a` sorts before site `b`.
fn site_before(a: &NameSite, b: &NameSite) -> (r: bool)
    ensures
        r == site_less(a@, b@),
{
    if path_before(a.file.as_str(), b.file.as_str()) {
        return true;
    }
    if !same_path(a.file.as_str(), b.file.as_str()) {
        return false;
    }
    a.line < b.line || (a.line == b.line && a.start < b.start)
}

/// Place `x` into sorted sites after every site that does not sort after
/// it.
fn insert_name_site(sites: &mut Vec<NameSite>, x: NameSite)
    ensures
        sites_view(final(sites)@) == insert_site(sites_view(old(sites)@), x@),
{
    let ghost s = sites_view(sites@);
    let ghost xv = x@;
    let mut j: usize = sites.len();
    assert(s.take(j as int) =~= s);
    assert(s.skip(j as int) =~= Seq::<SiteView>::empty());
    while j > 0 && site_before(&x, &sites[j - 1])
        invariant
            j <= sites@.len(),
            s == sites_view(sites@),
            xv == x@,
            insert_site(s, xv) == insert_site(s.take(j as int), xv) + s.skip(j as int),
        decreases j,
    {
        proof {
            let t = s.take(j as int);
            assert(t.last() == s[j - 1]);
            assert(t.drop_last() =~= s.take(j - 1));
            assert(s.skip(j - 1) =~= seq![s[j - 1]] + s.skip(j as int));
            assert(insert_site(t, xv) == insert_site(s.take(j - 1), xv).push(s[j - 1]));
            assert(insert_site(s.take(j - 1), xv).push(s[j - 1]) + s.skip(j as int) =~= insert_site(
                s.take(j - 1),
                xv,
            ) + s.skip(j - 1));
        }
        j = j - 1;
    }
    proof {
        let t = s.take(j as int);
        if j > 0 {
            assert(t.last() == s[j - 1]);
            assert(insert_site(t, xv) == t.push(xv));
        } else {
            assert(t.len() == 0);
        }
    }
    sites.insert(j, x);
    assert(sites_view(sites@) =~= s.take(j as int).push(xv) + s.skip(j as int));
}

/// Sites with each run of the same site cut to its first.
fn dedup_name_sites(sites: Vec<NameSite>) -> (kept: Vec<NameSite>)
    ensures
        sites_view(kept@) == dedup_sites(sites_view(sites@)),
{
    let ghost s = sites_view(sites@);
    let mut kept: Vec<NameSite> = Vec::new();
    let mut k: usize = 0;
    assert(s.take(0) =~= Seq::<SiteView>::empty());
    assert(sites_view(kept@) =~= Seq::<SiteView>::empty());
    while k < sites.len()
        invariant
            k <= s.len(),
            s == sites_view(sites@),
            sites_view(kept@) == dedup_sites(s.take(k as int)),
        decreases sites.len() - k,
    {
        assert(s.take(k + 1).drop_last() =~= s.take(k as int));
        assert(s.take(k + 1).last() == s[k as int]);
        let x = &sites[k];
        let n = kept.len();
        let duplicate = if n > 0 {
            let last = &kept[n - 1];
            same_path(last.file.as_str(), x.file.as_str()) && last.line == x.line && last.start
                == x.start && last.end == x.end
        } else {
            false
        };
        proof {
            if n > 0 {
                assert(sites_view(kept@).last() == kept@[n - 1]@);
            }
        }
        if !duplicate {
            let ghost before = sites_view(kept@);
            let ghost v = x@;
            kept.push(x.copy());
            assert(sites_view(kept@) =~= before.push(v));
        }
        k = k + 1;
    }
    assert(s.take(k as int) =~= s);
    kept
}

/// Every place the target `key` is named, as the name alone: each mention
/// and, when asked, the declaration; sorted by file, line and column, each
/// once.
pub fn name_sites(index: &Index, key: &str, include_declaration: bool) -> (sites: Vec<NameSite>)
    ensures
        sites_view(sites@) == spec_name_sites(index, key@, include_declaration),
{
    let refs = index.references(key);
    let ghost all = mention_sites(index, key@, include_declaration);
    let ghost mentions = index.mentioned(key@);
    let mut unsorted: Vec<NameSite> = Vec::new();
    let mut i: usize = 0;
    while i < refs.len()
        invariant
            i <= refs@.len(),
            refs@.len() == mentions.len(),
            mentions == index.mentioned(key@),
            forall|j: int| 0 <= j < refs@.len() ==> *refs@[j] == mentions[j],
            sites_view(unsorted@) == mentions.take(i as int).map_values(|r: Reference| reference_site(r)),
        decreases refs.len() - i,
    {
        let r = refs[i];
        let site = NameSite {
            file: r.file.clone(),
            line: r.line,
            start: r.character,
            end: name_end_of(r.character, r.length),
        };
        let ghost before = sites_view(unsorted@);
        unsorted.push(site);
        assert(sites_view(unsorted@) =~= before.push(reference_site(mentions[i as int])));
        assert(mentions.take(i + 1).map_values(|r: Reference| reference_site(r)) =~= mentions.take(
            i as int,
        ).map_values(|r: Reference| reference_site(r)).push(reference_site(mentions[i as int])));
        i = i + 1;
    }
    assert(mentions.take(i as int) =~= mentions);
    if include_declaration {
        match declaration_site(index, key) {
            Some(site) => {
                let ghost before = sites_view(unsorted@);
                unsorted.push(site);
                assert(sites_view(unsorted@) =~= before.push(spec_declaration_site(index, key@).unwrap()));
            },
            None => {},
        }
    }
    assert(sites_view(unsorted@) =~= all);
    let mut sorted: Vec<NameSite> = Vec::new();
    let mut k: usize = 0;
    assert(all.take(0) =~= Seq::<SiteView>::empty());
    while k < unsorted.len()
        invariant
            k <= unsorted@.len(),
            sites_view(unsorted@) == all,
            sites_view(sorted@) == sort_sites(all.take(k as int)),
        decreases unsorted.len() - k,
    {
        assert(all.take(k + 1).drop_last() =~= all.take(k as int));
        assert(all.take(k + 1).last() == unsorted@[k as int]@);
        insert_name_site(&mut sorted, unsorted[k].copy());
        k = k + 1;
    }
    assert(all.take(k as int) =~= all);
    dedup_name_sites(sorted)
}

} // verus!
