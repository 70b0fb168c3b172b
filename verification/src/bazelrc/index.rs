//! The workspace's rc configuration graph: `.bazelrc` and what it imports,
//! expanded in place, with every named configuration it declares or uses.
//!
//! Reading files is the program's business. The builder here follows the
//! imports over what was read, as a [`Disk`] of plain values.

use vstd::prelude::*;
use super::commands::{accepts_config, spec_accepts_config};
use super::semver::spec_condition_matches;
use super::syntax::{
    config_declaration, config_references, span_view, spec_config_declaration,
    spec_config_references, Directive, Line, Parse, Span, Statement,
};
use crate::bazel::{join_path, spec_join};
use crate::paths::texts;
use crate::text::{
    append, chars_of, find_char, first_index_of, has_prefix, starts_with, str_eq, string_of,
    string_of_range, str_starts_with,
};

verus! {

/// One rc file read from disk.
#[derive(Debug)]
pub struct ConfigurationFile {
    pub path: String,
    pub text: String,
    pub parsed: Parse,
}

/// An ordinary option entry after imports have been expanded in place: the
/// file it stands in and the index of its line there.
#[derive(Debug, Clone, PartialEq, Eq)]
pub struct Entry {
    pub file: String,
    pub line: usize,
}

/// A named configuration declaration or reference.
#[derive(Debug, Clone, PartialEq, Eq)]
pub struct ConfigSite {
    pub name: String,
    pub command: String,
    pub file: String,
    pub range: Span,
    pub line: Span,
    /// For a reference, the configuration whose body it stands in.
    pub owner: Option<String>,
}

/// One import after workspace-relative resolution.
#[derive(Debug, Clone, PartialEq, Eq)]
pub struct ImportSite {
    pub file: String,
    pub range: Span,
    pub target: String,
    pub loaded: Option<String>,
    pub active: bool,
}

/// Severity of a graph-level import finding.
#[derive(Debug, Clone, Copy, PartialEq, Eq)]
pub enum ProblemSeverity {
    Error,
    Warning,
}

/// A problem found while following the import graph.
#[derive(Debug, Clone, PartialEq, Eq)]
pub struct Problem {
    pub file: String,
    pub range: Span,
    pub severity: ProblemSeverity,
    pub message: String,
}

/// A site as its name, command, file, name range, line range and owner.
pub type SiteView = (Seq<char>, Seq<char>, Seq<char>, (int, int), (int, int), Option<Seq<char>>);

pub open spec fn opt_text(s: Option<String>) -> Option<Seq<char>> {
    match s {
        Some(s) => Some(s@),
        None => None,
    }
}

pub open spec fn site_view(s: ConfigSite) -> SiteView {
    (s.name@, s.command@, s.file@, span_view(s.range), span_view(s.line), opt_text(s.owner))
}

pub open spec fn sites_view(s: Seq<ConfigSite>) -> Seq<SiteView> {
    s.map_values(|site: ConfigSite| site_view(site))
}

/// The command part of an entry key: what precedes its first `:`.
pub open spec fn key_command(key: Seq<char>) -> Seq<char> {
    match first_index_of(key, ':') {
        Some(i) => key.take(i),
        None => key,
    }
}

/// The declaration an entry line makes in `file`, if its section may
/// declare one.
pub open spec fn line_declaration(file: Seq<char>, line: Line) -> Option<SiteView> {
    match spec_config_declaration(line) {
        Some((command, name, range)) => if spec_accepts_config(command) {
            Some((name, command, file, range, span_view(line.range), None))
        } else {
            None
        },
        None => None,
    }
}

/// The references an entry line makes in `file`, owned by the declaration
/// it makes, if its section may use named configurations.
pub open spec fn line_references(file: Seq<char>, line: Line) -> Seq<SiteView> {
    if line.tokens@.len() == 0 {
        Seq::empty()
    } else {
        let command = key_command(line.tokens@[0].text@);
        let found = spec_config_references(line);
        let owner = match line_declaration(file, line) {
            Some(d) => Some(d.0),
            None => None,
        };
        if spec_accepts_config(command) {
            Seq::new(found.len(), |k: int| (found[k].0, command, file, found[k].1, span_view(line.range), owner))
        } else {
            Seq::empty()
        }
    }
}

/// The key's command part.
pub(crate) fn command_of(key: &str) -> (command: String)
    ensures
        command@ == key_command(key@),
{
    let cs = chars_of(key);
    match find_char(&cs, ':') {
        Some(i) => {
            let c = string_of_range(&cs, 0, i);
            assert(cs@.subrange(0, i as int) =~= cs@.take(i as int));
            c
        },
        None => string_of(&cs),
    }
}

/// Record the declaration and references one entry line of `file` makes.
pub fn collect_line(
    file: &str,
    line: &Line,
    declarations: &mut Vec<ConfigSite>,
    references: &mut Vec<ConfigSite>,
)
    ensures
        sites_view(final(declarations)@) == sites_view(old(declarations)@) + match line_declaration(
            file@,
            *line,
        ) {
            Some(d) => seq![d],
            None => Seq::<SiteView>::empty(),
        },
        sites_view(final(references)@) == sites_view(old(references)@) + line_references(
            file@,
            *line,
        ),
{
    let ghost decls0 = sites_view(declarations@);
    let ghost refs0 = sites_view(references@);
    let declared = match config_declaration(line) {
        Some(d) => if accepts_config(d.command.as_str()) {
            Some(d)
        } else {
            None
        },
        None => None,
    };
    let owner: Option<String> = match &declared {
        Some(d) => Some(d.name.clone()),
        None => None,
    };
    match declared {
        Some(d) => {
            declarations.push(
                ConfigSite {
                    name: d.name,
                    command: d.command,
                    file: file.to_owned(),
                    range: d.range,
                    line: line.range,
                    owner: None,
                },
            );
            assert(sites_view(declarations@) =~= decls0 + seq![line_declaration(file@, *line).unwrap()]);
        },
        None => {
            assert(sites_view(declarations@) =~= decls0 + Seq::<SiteView>::empty());
        },
    }
    if line.tokens.len() == 0 {
        assert(sites_view(references@) =~= refs0 + Seq::<SiteView>::empty());
        return;
    }
    let command = command_of(line.tokens[0].text.as_str());
    if !accepts_config(command.as_str()) {
        assert(sites_view(references@) =~= refs0 + Seq::<SiteView>::empty());
        return;
    }
    let found = config_references(line);
    let ghost expected = line_references(file@, *line);
    let mut k: usize = 0;
    while k < found.len()
        invariant
            k <= found@.len(),
            found@.len() == spec_config_references(*line).len(),
            forall|j: int|
                0 <= j < found@.len() ==> (#[trigger] found@[j]).name@ == spec_config_references(
                    *line,
                )[j].0 && span_view(found@[j].range) == spec_config_references(*line)[j].1,
            expected.len() == found@.len(),
            line.tokens@.len() > 0,
            command@ == key_command(line.tokens@[0].text@),
            spec_accepts_config(command@),
            expected == line_references(file@, *line),
            opt_text(owner) == match line_declaration(file@, *line) {
                Some(d) => Some(d.0),
                None => None::<Seq<char>>,
            },
            sites_view(references@) == refs0 + expected.take(k as int),
        decreases found@.len() - k,
    {
        let site = ConfigSite {
            name: found[k].name.clone(),
            command: command.clone(),
            file: file.to_owned(),
            range: found[k].range,
            line: line.range,
            owner: owner.clone(),
        };
        assert(site_view(site) == expected[k as int]);
        let ghost before = references@;
        references.push(site);
        assert(sites_view(references@) =~= sites_view(before).push(expected[k as int]));
        k = k + 1;
        assert(expected.take(k as int) =~= expected.take(k - 1).push(expected[k - 1]));
        assert(sites_view(references@) =~= refs0 + expected.take(k as int));
    }
    assert(expected.take(found@.len() as int) =~= expected);
}

} // verus!

verus! {

/// An import site as its file, path range, target, loaded file and whether
/// it applies to this Bazel.
pub type ImportView = (Seq<char>, (int, int), Seq<char>, Option<Seq<char>>, bool);

/// A problem as its file, range, severity and message.
pub type ProblemView = (Seq<char>, (int, int), ProblemSeverity, Seq<char>);

pub open spec fn import_view(s: ImportSite) -> ImportView {
    (s.file@, span_view(s.range), s.target@, opt_text(s.loaded), s.active)
}

pub open spec fn problem_view(p: Problem) -> ProblemView {
    (p.file@, span_view(p.range), p.severity, p.message@)
}

/// Where an import names its file: the file, and the range of the path.
pub type OriginView = Option<(Seq<char>, (int, int))>;

/// What following imports has found so far: the canonical paths read, the
/// entries expanded in place, the declarations, references, imports and
/// problems, and the files being expanded, outermost first.
pub type BuildState = (
    Seq<Seq<char>>,
    Seq<(Seq<char>, int)>,
    Seq<SiteView>,
    Seq<SiteView>,
    Seq<ImportView>,
    Seq<ProblemView>,
    Seq<Seq<char>>,
);

/// What was read for one build: for each path an import names, the
/// canonical path it resolves to (or why it does not), and for each
/// canonical path, the file read there (or why it could not be read).
pub struct Disk {
    pub canonical: Vec<(String, Result<String, String>)>,
    pub files: Vec<(String, Result<ConfigurationFile, String>)>,
}

/// The message for a path that was never looked up.
pub open spec fn unread() -> Seq<char> {
    "it was not read"@
}

/// What canonicalizing `path` gave: the first answer recorded for it.
pub open spec fn canonical_in(entries: Seq<(String, Result<String, String>)>, path: Seq<char>) -> Result<
    Seq<char>,
    Seq<char>,
>
    decreases entries.len(),
{
    if entries.len() == 0 {
        Err(unread())
    } else if entries[0].0@ == path {
        match entries[0].1 {
            Ok(c) => Ok(c@),
            Err(e) => Err(e@),
        }
    } else {
        canonical_in(entries.drop_first(), path)
    }
}

/// Where the first file recorded at `path` stands, or -1.
pub open spec fn file_index(files: Seq<(String, Result<ConfigurationFile, String>)>, path: Seq<char>) -> int
    decreases files.len(),
{
    if files.len() == 0 {
        -1
    } else if files[0].0@ == path {
        0
    } else {
        let rest = file_index(files.drop_first(), path);
        if rest < 0 {
            -1
        } else {
            rest + 1
        }
    }
}

pub open spec fn could_not_import(path: Seq<char>, why: Seq<char>) -> Seq<char> {
    "could not import "@ + path + ": "@ + why
}

pub open spec fn import_cycle(path: Seq<char>) -> Seq<char> {
    "configuration import cycle through "@ + path
}

pub open spec fn imported_twice(path: Seq<char>) -> Seq<char> {
    "configuration imports "@ + path + " more than once"@
}

/// `st` with a problem at `origin`, when `raise` and there is an origin.
pub open spec fn problem_at(
    st: BuildState,
    origin: OriginView,
    raise: bool,
    severity: ProblemSeverity,
    message: Seq<char>,
) -> BuildState {
    match origin {
        Some((file, range)) => if raise {
            (st.0, st.1, st.2, st.3, st.4, st.5.push((file, range, severity, message)), st.6)
        } else {
            st
        },
        None => st,
    }
}

/// `st` after the entry on line `i` of `file`.
pub open spec fn entry_state(st: BuildState, file: Seq<char>, line: Line, i: int) -> BuildState {
    (
        st.0,
        st.1.push((file, i)),
        st.2 + match line_declaration(file, line) {
            Some(d) => seq![d],
            None => Seq::<SiteView>::empty(),
        },
        st.3 + line_references(file, line),
        st.4,
        st.5,
        st.6,
    )
}

/// Where an import's path points: `%workspace%/` and relative paths under
/// the workspace root, absolute paths as they are.
pub open spec fn spec_resolve_import(root: Seq<char>, raw: Seq<char>) -> Seq<char> {
    if starts_with(raw, "%workspace%/"@) {
        spec_join(root, raw.skip(12))
    } else if starts_with(raw, "/"@) {
        raw
    } else {
        spec_join(root, raw)
    }
}

/// Following the import of `path`, with `n` levels of nesting left: the
/// state after, and the canonical path of the file expanded, if any.
///
/// A path that does not resolve or cannot be read is a problem unless the
/// import is optional; a file already being expanded is a cycle; a file
/// read before is read again, with a warning, and expanded in place.
pub open spec fn visit(
    root: Seq<char>,
    disk: (Seq<(String, Result<String, String>)>, Seq<(String, Result<ConfigurationFile, String>)>),
    st: BuildState,
    path: Seq<char>,
    origin: OriginView,
    optional: bool,
    n: nat,
) -> (BuildState, Option<Seq<char>>)
    decreases n, 1int, 0int,
{
    if n == 0 {
        (st, None)
    } else {
        match canonical_in(disk.0, path) {
            Err(why) => (problem_at(st, origin, !optional, ProblemSeverity::Error, could_not_import(path, why)), None),
            Ok(c) => if st.6.contains(c) {
                (problem_at(st, origin, true, ProblemSeverity::Error, import_cycle(c)), Some(c))
            } else {
                let k = file_index(disk.1, c);
                if k < 0 {
                    (
                        problem_at(st, origin, !optional, ProblemSeverity::Error, could_not_import(c, unread())),
                        None,
                    )
                } else {
                    match disk.1[k].1 {
                        Err(why) => (
                            problem_at(st, origin, !optional, ProblemSeverity::Error, could_not_import(c, why@)),
                            None,
                        ),
                        Ok(file) => {
                            let repeated = st.0.contains(c);
                            let st1 = problem_at(st, origin, repeated, ProblemSeverity::Warning, imported_twice(c));
                            let st2 = (
                                if repeated {
                                    st1.0
                                } else {
                                    st1.0.push(c)
                                },
                                st1.1,
                                st1.2,
                                st1.3,
                                st1.4,
                                st1.5,
                                st1.6.push(c),
                            );
                            let st3 = visit_lines(root, disk, st2, c, file.parsed.lines@, 0, n);
                            ((st3.0, st3.1, st3.2, st3.3, st3.4, st3.5, st1.6), Some(c))
                        },
                    }
                }
            },
        }
    }
}

/// Following the lines of `file` from line `i` on.
pub open spec fn visit_lines(
    root: Seq<char>,
    disk: (Seq<(String, Result<String, String>)>, Seq<(String, Result<ConfigurationFile, String>)>),
    st: BuildState,
    file: Seq<char>,
    lines: Seq<Line>,
    i: int,
    n: nat,
) -> BuildState
    decreases n, 0int, lines.len() - i,
{
    if i < 0 || i >= lines.len() {
        st
    } else {
        let line = lines[i];
        match line.statement {
            Some(Statement::Entry) => visit_lines(root, disk, entry_state(st, file, line, i), file, lines, i + 1, n),
            Some(Statement::Directive(d)) => {
                let at: int = if d is ConditionalImport {
                    2
                } else {
                    1
                };
                if line.tokens@.len() <= at || n == 0 {
                    visit_lines(root, disk, st, file, lines, i + 1, n)
                } else {
                    let token = line.tokens@[at];
                    let active = match d {
                        Directive::ConditionalImport(condition) => spec_condition_matches(condition.view_of(), "8.7.0"@),
                        _ => true,
                    };
                    let target = spec_resolve_import(root, token.text@);
                    let visited = if active {
                        visit(
                            root,
                            disk,
                            st,
                            target,
                            Some((file, span_view(token.range))),
                            !(d is Import),
                            (n - 1) as nat,
                        )
                    } else {
                        (st, None)
                    };
                    let st2 = visited.0;
                    let st3 = (
                        st2.0,
                        st2.1,
                        st2.2,
                        st2.3,
                        st2.4.push((file, span_view(token.range), target, visited.1, active)),
                        st2.5,
                        st2.6,
                    );
                    visit_lines(root, disk, st3, file, lines, i + 1, n)
                }
            },
            _ => visit_lines(root, disk, st, file, lines, i + 1, n),
        }
    }
}

/// Where an import's path points.
pub fn resolve_import(root: &str, raw: &str) -> (target: String)
    ensures
        target@ == spec_resolve_import(root@, raw@),
{
    let cs = chars_of(raw);
    if has_prefix(&cs, &chars_of("%workspace%/")) {
        proof {
            reveal_strlit("%workspace%/");
        }
        let rest = string_of_range(&cs, 12, cs.len());
        assert(cs@.subrange(12, cs@.len() as int) =~= raw@.skip(12));
        return join_path(root, rest.as_str());
    }
    if str_starts_with(raw, "/") {
        return raw.to_owned();
    }
    join_path(root, raw)
}

} // verus!

verus! {

/// Where an import names its file.
#[derive(Debug, Clone)]
struct Origin {
    file: String,
    range: Span,
}

spec fn origin_view(o: Option<Origin>) -> OriginView {
    match o {
        Some(o) => Some((o.file@, span_view(o.range))),
        None => None,
    }
}

/// The disk as the sequences the specification reads.
pub open spec fn disk_view(disk: &Disk) -> (
    Seq<(String, Result<String, String>)>,
    Seq<(String, Result<ConfigurationFile, String>)>,
) {
    (disk.canonical@, disk.files@)
}

/// The files being expanded are distinct files of the disk.
pub open spec fn active_fits(active: Seq<Seq<char>>, files: Seq<(String, Result<ConfigurationFile, String>)>) -> bool {
    active.no_duplicates() && forall|i: int|
        0 <= i < active.len() ==> exists|k: int| 0 <= k < files.len() && (#[trigger] files[k]).0@ == #[trigger] active[i]
}

/// Distinct files of the disk are no more than the disk holds.
proof fn lemma_active_fits(active: Seq<Seq<char>>, files: Seq<(String, Result<ConfigurationFile, String>)>)
    requires
        active_fits(active, files),
    ensures
        active.len() <= files.len(),
{
    broadcast use vstd::seq_lib::seq_to_set_is_finite;
    let paths = files.map_values(|f: (String, Result<ConfigurationFile, String>)| f.0@);
    active.unique_seq_to_set();
    paths.lemma_cardinality_of_set();
    assert forall|x: Seq<char>| active.to_set().contains(x) implies paths.to_set().contains(x) by {
        let i = choose|i: int| 0 <= i < active.len() && active[i] == x;
        let k = choose|k: int| 0 <= k < files.len() && (#[trigger] files[k]).0@ == active[i];
        assert(paths[k] == x);
    }
    vstd::set_lib::lemma_len_subset(active.to_set(), paths.to_set());
}

/// The state of an empty build.
pub open spec fn empty_state() -> BuildState {
    (Seq::empty(), Seq::empty(), Seq::empty(), Seq::empty(), Seq::empty(), Seq::empty(), Seq::empty())
}

/// The configuration graph while it is being followed.
struct Builder {
    loaded: Vec<String>,
    entries: Vec<Entry>,
    declarations: Vec<ConfigSite>,
    references: Vec<ConfigSite>,
    imports: Vec<ImportSite>,
    problems: Vec<Problem>,
    active: Vec<String>,
}

/// Whether `v` holds `s`.
pub(crate) fn holds_text(v: &Vec<String>, s: &str) -> (b: bool)
    ensures
        b == texts(v@).contains(s@),
{
    holds(v, s)
}

/// Whether `v` holds `s`.
fn holds(v: &Vec<String>, s: &str) -> (b: bool)
    ensures
        b == texts(v@).contains(s@),
{
    let mut i: usize = 0;
    while i < v.len()
        invariant
            i <= v@.len(),
            forall|j: int| 0 <= j < i ==> texts(v@)[j] != s@,
        decreases v@.len() - i,
    {
        if str_eq(v[i].as_str(), s) {
            assert(texts(v@)[i as int] == s@);
            return true;
        }
        i = i + 1;
    }
    false
}

/// What canonicalizing `path` gave.
fn lookup_canonical(entries: &Vec<(String, Result<String, String>)>, path: &str) -> (r: Result<String, String>)
    ensures
        (match (r, canonical_in(entries@, path@)) {
            (Ok(c), Ok(d)) => c@ == d,
            (Err(e), Err(d)) => e@ == d,
            _ => false,
        }),
{
    let mut i: usize = 0;
    assert(entries@.skip(0) =~= entries@);
    while i < entries.len()
        invariant
            i <= entries@.len(),
            canonical_in(entries@, path@) == canonical_in(entries@.skip(i as int), path@),
        decreases entries@.len() - i,
    {
        assert(entries@.skip(i as int)[0] == entries@[i as int]);
        if str_eq(entries[i].0.as_str(), path) {
            return match &entries[i].1 {
                Ok(c) => Ok(c.clone()),
                Err(e) => Err(e.clone()),
            };
        }
        assert(entries@.skip(i as int).drop_first() =~= entries@.skip(i + 1));
        i = i + 1;
    }
    Err("it was not read".to_owned())
}

/// Where the file recorded at `path` stands.
fn lookup_file(files: &Vec<(String, Result<ConfigurationFile, String>)>, path: &str) -> (r: Option<usize>)
    ensures
        (match r {
            Some(k) => k < files@.len() && file_index(files@, path@) == k,
            None => file_index(files@, path@) < 0,
        }),
{
    let mut i: usize = 0;
    while i < files.len()
        invariant
            i <= files@.len(),
            forall|j: int| 0 <= j < i ==> (#[trigger] files@[j]).0@ != path@,
        decreases files@.len() - i,
    {
        if str_eq(files[i].0.as_str(), path) {
            proof {
                lemma_file_index_first(files@, path@, i as int);
            }
            return Some(i);
        }
        i = i + 1;
    }
    proof {
        lemma_file_index_absent(files@, path@);
    }
    None
}

proof fn lemma_file_index_first(files: Seq<(String, Result<ConfigurationFile, String>)>, path: Seq<char>, i: int)
    requires
        0 <= i < files.len(),
        files[i].0@ == path,
        forall|j: int| 0 <= j < i ==> (#[trigger] files[j]).0@ != path,
    ensures
        file_index(files, path) == i,
    decreases i,
{
    if i > 0 {
        assert forall|j: int| 0 <= j < i - 1 implies (#[trigger] files.drop_first()[j]).0@ != path by {
            assert(files.drop_first()[j] == files[j + 1]);
        }
        assert(files.drop_first()[i - 1] == files[i]);
        lemma_file_index_first(files.drop_first(), path, i - 1);
    }
}

proof fn lemma_file_index_absent(files: Seq<(String, Result<ConfigurationFile, String>)>, path: Seq<char>)
    requires
        forall|j: int| 0 <= j < files.len() ==> (#[trigger] files[j]).0@ != path,
    ensures
        file_index(files, path) < 0,
    decreases files.len(),
{
    if files.len() > 0 {
        assert forall|j: int| 0 <= j < files.drop_first().len() implies (#[trigger] files.drop_first()[j]).0@ != path by {
            assert(files.drop_first()[j] == files[j + 1]);
        }
        lemma_file_index_absent(files.drop_first(), path);
    }
}

proof fn lemma_file_index_found(files: Seq<(String, Result<ConfigurationFile, String>)>, path: Seq<char>)
    requires
        file_index(files, path) >= 0,
    ensures
        file_index(files, path) < files.len(),
        files[file_index(files, path)].0@ == path,
    decreases files.len(),
{
    if files.len() > 0 && files[0].0@ != path {
        lemma_file_index_found(files.drop_first(), path);
        assert(files.drop_first()[file_index(files.drop_first(), path)] == files[file_index(files, path)]);
    }
}

/// `"could not import <path>: <why>"`.
fn could_not(path: &str, why: &str) -> (m: String)
    ensures
        m@ == could_not_import(path@, why@),
{
    let mut m = "could not import ".to_owned();
    append(&mut m, path);
    append(&mut m, ": ");
    append(&mut m, why);
    m
}

impl Builder {
    spec fn state(&self) -> BuildState {
        (
            texts(self.loaded@),
            self.entries@.map_values(|e: Entry| (e.file@, e.line as int)),
            sites_view(self.declarations@),
            sites_view(self.references@),
            self.imports@.map_values(|s: ImportSite| import_view(s)),
            self.problems@.map_values(|p: Problem| problem_view(p)),
            texts(self.active@),
        )
    }

    fn new() -> (b: Self)
        ensures
            b.state() == empty_state(),
    {
        let b = Builder {
            loaded: Vec::new(),
            entries: Vec::new(),
            declarations: Vec::new(),
            references: Vec::new(),
            imports: Vec::new(),
            problems: Vec::new(),
            active: Vec::new(),
        };
        assert(b.state().0 =~= Seq::<Seq<char>>::empty());
        assert(b.state().1 =~= Seq::<(Seq<char>, int)>::empty());
        assert(b.state().2 =~= Seq::<SiteView>::empty());
        assert(b.state().3 =~= Seq::<SiteView>::empty());
        assert(b.state().4 =~= Seq::<ImportView>::empty());
        assert(b.state().5 =~= Seq::<ProblemView>::empty());
        assert(b.state().6 =~= Seq::<Seq<char>>::empty());
        b
    }

    fn problem(&mut self, origin: &Option<Origin>, raise: bool, severity: ProblemSeverity, message: String)
        ensures
            final(self).state() == problem_at(old(self).state(), origin_view(*origin), raise, severity, message@),
    {
        match origin {
            Some(o) => {
                if raise {
                    let ghost before = self.problems@;
                    let p = Problem { file: o.file.clone(), range: o.range, severity, message };
                    self.problems.push(p);
                    assert(self.problems@.map_values(|p: Problem| problem_view(p)) =~= before.map_values(
                        |p: Problem| problem_view(p),
                    ).push(problem_view(p)));
                }
            },
            None => {},
        }
    }

    /// Follow the import of `path`.
    fn visit(
        &mut self,
        root: &str,
        disk: &Disk,
        path: &str,
        origin: Option<Origin>,
        optional: bool,
        Ghost(n): Ghost<nat>,
    ) -> (found: Option<String>)
        requires
            active_fits(old(self).state().6, disk.files@),
            n + old(self).state().6.len() > disk.files@.len(),
        ensures
            (final(self).state(), opt_text(found)) == visit(
                root@,
                disk_view(disk),
                old(self).state(),
                path@,
                origin_view(origin),
                optional,
                n,
            ),
        decreases n,
    {
        proof {
            lemma_active_fits(self.state().6, disk.files@);
        }
        let c = match lookup_canonical(&disk.canonical, path) {
            Ok(c) => c,
            Err(why) => {
                self.problem(&origin, !optional, ProblemSeverity::Error, could_not(path, why.as_str()));
                return None;
            },
        };
        if holds(&self.active, c.as_str()) {
            let mut m = "configuration import cycle through ".to_owned();
            append(&mut m, c.as_str());
            self.problem(&origin, true, ProblemSeverity::Error, m);
            return Some(c);
        }
        let k = match lookup_file(&disk.files, c.as_str()) {
            Some(k) => k,
            None => {
                self.problem(&origin, !optional, ProblemSeverity::Error, could_not(c.as_str(), "it was not read"));
                return None;
            },
        };
        let file = match &disk.files[k].1 {
            Ok(file) => file,
            Err(why) => {
                self.problem(&origin, !optional, ProblemSeverity::Error, could_not(c.as_str(), why.as_str()));
                return None;
            },
        };
        let ghost st = self.state();
        let repeated = holds(&self.loaded, c.as_str());
        let mut twice = "configuration imports ".to_owned();
        append(&mut twice, c.as_str());
        append(&mut twice, " more than once");
        self.problem(&origin, repeated, ProblemSeverity::Warning, twice);
        let ghost st1 = self.state();
        if !repeated {
            let ghost before = self.loaded@;
            self.loaded.push(c.clone());
            assert(texts(self.loaded@) =~= texts(before).push(c@));
        }
        let ghost before_active = self.active@;
        self.active.push(c.clone());
        assert(texts(self.active@) =~= texts(before_active).push(c@));
        let ghost st2 = self.state();
        proof {
            lemma_file_index_found(disk.files@, c@);
            assert(disk.files@[k as int].0@ == c@);
            assert(active_fits(st2.6, disk.files@)) by {
                assert forall|i: int| 0 <= i < st2.6.len() implies exists|j: int|
                    0 <= j < disk.files@.len() && (#[trigger] disk.files@[j]).0@ == #[trigger] st2.6[i] by {
                    if i < st.6.len() {
                        assert(st2.6[i] == st.6[i]);
                    } else {
                        assert(disk.files@[k as int].0@ == st2.6[i]);
                    }
                }
                assert(st2.6 == st.6.push(c@));
                assert forall|a: int, b: int| 0 <= a < st2.6.len() && 0 <= b < st2.6.len() && a != b implies st2.6[a] != st2.6[b] by {
                    if a < st.6.len() && b < st.6.len() {
                    } else if a < st.6.len() {
                        assert(st.6.contains(st2.6[a]));
                    } else if b < st.6.len() {
                        assert(st.6.contains(st2.6[b]));
                    }
                }
            }
            lemma_active_fits(st2.6, disk.files@);
        }
        let lines = &file.parsed.lines;
        let mut i: usize = 0;
        while i < lines.len()
            invariant
                i <= lines@.len(),
                *lines == file.parsed.lines,
                disk.files@[k as int].1 == Ok::<ConfigurationFile, String>(*file),
                active_fits(self.state().6, disk.files@),
                self.state().6 == st2.6,
                n >= 1,
                (n - 1) + st2.6.len() > disk.files@.len(),
                visit_lines(root@, disk_view(disk), st2, c@, lines@, 0, n) == visit_lines(
                    root@,
                    disk_view(disk),
                    self.state(),
                    c@,
                    lines@,
                    i as int,
                    n,
                ),
            decreases lines@.len() - i,
        {
            let line = &lines[i];
            let ghost now = self.state();
            match &line.statement {
                Some(Statement::Entry) => {
                    collect_line(c.as_str(), line, &mut self.declarations, &mut self.references);
                    let ghost before = self.entries@;
                    self.entries.push(Entry { file: c.clone(), line: i });
                    assert(self.entries@.map_values(|e: Entry| (e.file@, e.line as int)) =~= before.map_values(
                        |e: Entry| (e.file@, e.line as int),
                    ).push((c@, i as int)));
                    assert(self.state() == entry_state(now, c@, *line, i as int));
                },
                Some(Statement::Directive(d)) => {
                    let conditional = match d {
                        Directive::ConditionalImport(_) => true,
                        _ => false,
                    };
                    let at: usize = if conditional {
                        2
                    } else {
                        1
                    };
                    if line.tokens.len() > at {
                        let token = &line.tokens[at];
                        let applies = match d {
                            Directive::ConditionalImport(condition) => condition.matches("8.7.0"),
                            _ => true,
                        };
                        let target = resolve_import(root, token.text.as_str());
                        let optional_import = match d {
                            Directive::Import => false,
                            _ => true,
                        };
                        let loaded = if applies {
                            self.visit(
                                root,
                                disk,
                                target.as_str(),
                                Some(Origin { file: c.clone(), range: token.range }),
                                optional_import,
                                Ghost((n - 1) as nat),
                            )
                        } else {
                            None
                        };
                        let ghost st_after = self.state();
                        let ghost before = self.imports@;
                        let site = ImportSite { file: c.clone(), range: token.range, target, loaded, active: applies };
                        self.imports.push(site);
                        assert(self.imports@.map_values(|s: ImportSite| import_view(s)) =~= before.map_values(
                            |s: ImportSite| import_view(s),
                        ).push(import_view(site)));
                    }
                },
                _ => {},
            }
            i = i + 1;
        }
        let ghost st3 = self.state();
        let ghost a = self.active@;
        let _ = self.active.pop();
        assert(self.active@ =~= a.drop_last());
        assert(texts(a.drop_last()) =~= texts(a).drop_last());
        assert(st2.6.drop_last() =~= st1.6);
        assert(texts(self.active@) =~= st1.6);
        Some(c)
    }
}

} // verus!

verus! {

/// The last-saved workspace rc graph.
#[derive(Debug)]
pub struct ConfigurationSnapshot {
    pub root: Option<String>,
    /// Every file read, once each.
    pub files: Vec<ConfigurationFile>,
    pub entries: Vec<Entry>,
    pub declarations: Vec<ConfigSite>,
    pub references: Vec<ConfigSite>,
    pub imports: Vec<ImportSite>,
    pub problems: Vec<Problem>,
    /// Workspace files an import may name, for completing import paths.
    pub candidates: Vec<String>,
}

/// The files of the disk that were read into the graph, in disk order.
pub open spec fn read_files(
    files: Seq<(String, Result<ConfigurationFile, String>)>,
    loaded: Seq<Seq<char>>,
) -> Seq<ConfigurationFile>
    decreases files.len(),
{
    if files.len() == 0 {
        Seq::empty()
    } else {
        let rest = read_files(files.drop_last(), loaded);
        match files.last().1 {
            Ok(file) => if loaded.contains(files.last().0@) {
                rest.push(file)
            } else {
                rest
            },
            Err(_) => rest,
        }
    }
}

/// The graph a build finds: following `.bazelrc` under the root, with as
/// many levels of nesting as the disk holds files (enough: no file is
/// expanded inside itself).
pub open spec fn spec_build(root: Seq<char>, disk: &Disk) -> BuildState {
    visit(
        root,
        disk_view(disk),
        empty_state(),
        spec_join(root, ".bazelrc"@),
        None,
        false,
        (disk.files@.len() + 1) as nat,
    ).0
}

impl ConfigurationSnapshot {
    /// A snapshot of nothing: no workspace, no files.
    pub fn empty() -> (snapshot: Self)
        ensures
            snapshot.root is None,
            snapshot.files@.len() == 0,
            snapshot.entries@.len() == 0,
            snapshot.declarations@.len() == 0,
            snapshot.references@.len() == 0,
            snapshot.imports@.len() == 0,
            snapshot.problems@.len() == 0,
            snapshot.candidates@.len() == 0,
    {
        ConfigurationSnapshot {
            root: None,
            files: Vec::new(),
            entries: Vec::new(),
            declarations: Vec::new(),
            references: Vec::new(),
            imports: Vec::new(),
            problems: Vec::new(),
            candidates: Vec::new(),
        }
    }

    /// Follow the workspace's `.bazelrc` and everything it imports, over
    /// what was read from disk, with imports expanded in place.
    pub fn build_from(root: &str, disk: Disk, candidates: Vec<String>) -> (snapshot: Self)
        ensures
            opt_text(snapshot.root) == Some(root@),
            snapshot.entries@.map_values(|e: Entry| (e.file@, e.line as int)) == spec_build(root@, &disk).1,
            sites_view(snapshot.declarations@) == spec_build(root@, &disk).2,
            sites_view(snapshot.references@) == spec_build(root@, &disk).3,
            snapshot.imports@.map_values(|s: ImportSite| import_view(s)) == spec_build(root@, &disk).4,
            snapshot.problems@.map_values(|p: Problem| problem_view(p)) == spec_build(root@, &disk).5,
            snapshot.files@ == read_files(disk.files@, spec_build(root@, &disk).0),
            texts(snapshot.candidates@) == sorted_candidates(texts(candidates@)),
    {
        let mut builder = Builder::new();
        let start = join_path(root, ".bazelrc");
        proof {
            assert(active_fits(builder.state().6, disk.files@));
        }
        let _ = builder.visit(root, &disk, start.as_str(), None, false, Ghost((disk.files@.len() + 1) as nat));
        let ghost st = builder.state();
        let ghost loaded = st.0;
        let mut rest = disk.files;
        let ghost all = rest@;
        let total = rest.len();
        let mut files: Vec<ConfigurationFile> = Vec::new();
        let mut i: usize = 0;
        assert(all.take(0) =~= Seq::<(String, Result<ConfigurationFile, String>)>::empty());
        while rest.len() > 0
            invariant
                i <= all.len(),
                all.len() == total,
                rest@ == all.skip(i as int),
                texts(builder.loaded@) == loaded,
                files@ == read_files(all.take(i as int), loaded),
            decreases rest@.len(),
        {
            let (path, contents) = rest.remove(0);
            assert(all.take(i + 1).drop_last() =~= all.take(i as int));
            assert(all.take(i + 1).last() == all[i as int]);
            match contents {
                Ok(file) => {
                    if holds(&builder.loaded, path.as_str()) {
                        files.push(file);
                    }
                },
                Err(_) => {},
            }
            i = i + 1;
            assert(rest@ =~= all.skip(i as int));
        }
        assert(all.take(all.len() as int) =~= all);
        ConfigurationSnapshot {
            root: Some(root.to_owned()),
            files,
            entries: builder.entries,
            declarations: builder.declarations,
            references: builder.references,
            imports: builder.imports,
            problems: builder.problems,
            candidates: sort_candidates(candidates),
        }
    }

    /// Whether `path` is part of the graph: a file read, or the target or
    /// loaded file of an import.
    pub fn includes(&self, path: &str) -> (b: bool)
        ensures
            b == ((exists|k: int| 0 <= k < self.files@.len() && (#[trigger] self.files@[k]).path@ == path@)
                || exists|k: int|
                0 <= k < self.imports@.len() && ((#[trigger] self.imports@[k]).target@ == path@
                    || opt_text(self.imports@[k].loaded) == Some(path@))),
    {
        let mut k: usize = 0;
        while k < self.files.len()
            invariant
                k <= self.files@.len(),
                forall|j: int| 0 <= j < k ==> (#[trigger] self.files@[j]).path@ != path@,
            decreases self.files@.len() - k,
        {
            if str_eq(self.files[k].path.as_str(), path) {
                return true;
            }
            k = k + 1;
        }
        let mut k: usize = 0;
        while k < self.imports.len()
            invariant
                k <= self.imports@.len(),
                forall|j: int| 0 <= j < self.files@.len() ==> (#[trigger] self.files@[j]).path@ != path@,
                forall|j: int|
                    0 <= j < k ==> !((#[trigger] self.imports@[j]).target@ == path@ || opt_text(
                        self.imports@[j].loaded,
                    ) == Some(path@)),
            decreases self.imports@.len() - k,
        {
            let site = &self.imports[k];
            if str_eq(site.target.as_str(), path) {
                return true;
            }
            match &site.loaded {
                Some(loaded) => {
                    if str_eq(loaded.as_str(), path) {
                        return true;
                    }
                },
                None => {},
            }
            k = k + 1;
        }
        false
    }

    /// The declarations of the configuration `name`, in graph order.
    pub fn declarations(&self, name: &str) -> (found: Vec<&ConfigSite>)
        ensures
            found@.map_values(|s: &ConfigSite| site_view(*s)) == sites_view(self.declarations@).filter(
                |s: SiteView| s.0 == name@,
            ),
    {
        let ghost all = sites_view(self.declarations@);
        let mut found: Vec<&ConfigSite> = Vec::new();
        let mut k: usize = 0;
        assert(found@.map_values(|s: &ConfigSite| site_view(*s)) =~= all.take(0).filter(
            |s: SiteView| s.0 == name@,
        )) by {
            reveal(Seq::filter);
        }
        while k < self.declarations.len()
            invariant
                k <= self.declarations@.len(),
                all == sites_view(self.declarations@),
                found@.map_values(|s: &ConfigSite| site_view(*s)) == all.take(k as int).filter(
                    |s: SiteView| s.0 == name@,
                ),
            decreases self.declarations@.len() - k,
        {
            let ghost before = found@;
            proof {
                reveal(Seq::filter);
                assert(all.take(k + 1).drop_last() =~= all.take(k as int));
                assert(all.take(k + 1).last() == site_view(self.declarations@[k as int]));
            }
            if str_eq(self.declarations[k].name.as_str(), name) {
                found.push(&self.declarations[k]);
                assert(found@.map_values(|s: &ConfigSite| site_view(*s)) =~= before.map_values(
                    |s: &ConfigSite| site_view(*s),
                ).push(site_view(self.declarations@[k as int])));
            }
            k = k + 1;
        }
        assert(all.take(self.declarations@.len() as int) =~= all);
        found
    }
}

/// How many import candidates a snapshot keeps.
pub const MAX_IMPORT_CANDIDATES: usize = 131072;

/// Import candidates as a snapshot keeps them: in byte order, each once, at
/// most [`MAX_IMPORT_CANDIDATES`] of them.
pub open spec fn sorted_candidates(candidates: Seq<Seq<char>>) -> Seq<Seq<char>> {
    let sorted = crate::text::sorted_distinct(candidates);
    if sorted.len() > MAX_IMPORT_CANDIDATES {
        sorted.take(MAX_IMPORT_CANDIDATES as int)
    } else {
        sorted
    }
}

/// Sort import candidates by their bytes, drop repeats, and keep the first
/// [`MAX_IMPORT_CANDIDATES`].
pub fn sort_candidates(candidates: Vec<String>) -> (kept: Vec<String>)
    ensures
        texts(kept@) == sorted_candidates(texts(candidates@)),
{
    let mut sorted = crate::text::sort_distinct(candidates);
    if sorted.len() > MAX_IMPORT_CANDIDATES {
        sorted.truncate(MAX_IMPORT_CANDIDATES);
        assert(texts(sorted@) =~= crate::text::sorted_distinct(texts(candidates@)).take(
            MAX_IMPORT_CANDIDATES as int,
        ));
    }
    sorted
}

} // verus!

verus! {

/// An import that does not apply to this Bazel loads nothing.
pub open spec fn inactive_imports_load_nothing(imports: Seq<ImportView>) -> bool {
    forall|j: int| 0 <= j < imports.len() && !(#[trigger] imports[j]).4 ==> imports[j].3 is None
}

/// Following an import reads no file twice, leaves the files being
/// expanded as they were, and loads nothing for an inactive import.
proof fn lemma_visit_keeps(
    root: Seq<char>,
    disk: (Seq<(String, Result<String, String>)>, Seq<(String, Result<ConfigurationFile, String>)>),
    st: BuildState,
    path: Seq<char>,
    origin: OriginView,
    optional: bool,
    n: nat,
)
    requires
        st.0.no_duplicates(),
        inactive_imports_load_nothing(st.4),
    ensures
        visit(root, disk, st, path, origin, optional, n).0.0.no_duplicates(),
        visit(root, disk, st, path, origin, optional, n).0.6 == st.6,
        inactive_imports_load_nothing(visit(root, disk, st, path, origin, optional, n).0.4),
    decreases n, 1int, 0int,
{
    if n > 0 {
        if let Ok(c) = canonical_in(disk.0, path) {
            if !st.6.contains(c) {
                let k = file_index(disk.1, c);
                if k >= 0 {
                    if let Ok(file) = disk.1[k].1 {
                        let repeated = st.0.contains(c);
                        let st1 = problem_at(st, origin, repeated, ProblemSeverity::Warning, imported_twice(c));
                        let read = if repeated {
                            st1.0
                        } else {
                            st1.0.push(c)
                        };
                        assert(read.no_duplicates()) by {
                            if !repeated {
                                assert forall|a: int, b: int| 0 <= a < b < read.len() implies read[a] != read[b] by {
                                    if b == read.len() - 1 {
                                        assert(read[a] == st.0[a]);
                                    }
                                }
                            }
                        }
                        let st2 = (read, st1.1, st1.2, st1.3, st1.4, st1.5, st1.6.push(c));
                        lemma_visit_lines_keeps(root, disk, st2, c, file.parsed.lines@, 0, n);
                    }
                }
            }
        }
    }
}

/// Following the lines of a file from line `i` on keeps what
/// [`lemma_visit_keeps`] keeps.
proof fn lemma_visit_lines_keeps(
    root: Seq<char>,
    disk: (Seq<(String, Result<String, String>)>, Seq<(String, Result<ConfigurationFile, String>)>),
    st: BuildState,
    file: Seq<char>,
    lines: Seq<Line>,
    i: int,
    n: nat,
)
    requires
        st.0.no_duplicates(),
        inactive_imports_load_nothing(st.4),
    ensures
        visit_lines(root, disk, st, file, lines, i, n).0.no_duplicates(),
        visit_lines(root, disk, st, file, lines, i, n).6 == st.6,
        inactive_imports_load_nothing(visit_lines(root, disk, st, file, lines, i, n).4),
    decreases n, 0int, lines.len() - i,
{
    if 0 <= i < lines.len() {
        let line = lines[i];
        match line.statement {
            Some(Statement::Entry) => {
                lemma_visit_lines_keeps(root, disk, entry_state(st, file, line, i), file, lines, i + 1, n);
            },
            Some(Statement::Directive(d)) => {
                let at: int = if d is ConditionalImport {
                    2
                } else {
                    1
                };
                if line.tokens@.len() <= at || n == 0 {
                    lemma_visit_lines_keeps(root, disk, st, file, lines, i + 1, n);
                } else {
                    let token = line.tokens@[at];
                    let active = match d {
                        Directive::ConditionalImport(condition) => spec_condition_matches(condition.view_of(), "8.7.0"@),
                        _ => true,
                    };
                    let target = spec_resolve_import(root, token.text@);
                    let visited = if active {
                        lemma_visit_keeps(root, disk, st, target, Some((file, span_view(token.range))), !(d is Import), (n - 1) as nat);
                        visit(root, disk, st, target, Some((file, span_view(token.range))), !(d is Import), (n - 1) as nat)
                    } else {
                        (st, None)
                    };
                    let st2 = visited.0;
                    let added = (file, span_view(token.range), target, visited.1, active);
                    let imports = st2.4.push(added);
                    assert(inactive_imports_load_nothing(imports)) by {
                        assert forall|j: int| 0 <= j < imports.len() && !(#[trigger] imports[j]).4 implies imports[j].3 is None by {
                            if j < st2.4.len() {
                                assert(imports[j] == st2.4[j]);
                            }
                        }
                    }
                    let st3 = (st2.0, st2.1, st2.2, st2.3, imports, st2.5, st2.6);
                    lemma_visit_lines_keeps(root, disk, st3, file, lines, i + 1, n);
                }
            },
            _ => {
                lemma_visit_lines_keeps(root, disk, st, file, lines, i + 1, n);
            },
        }
    }
}

/// Following imports reads each file once, however often it is imported;
/// when it is done no file is left being expanded; and an import that does
/// not apply to this Bazel loads nothing.
pub proof fn each_file_is_read_once(root: Seq<char>, disk: &Disk)
    ensures
        spec_build(root, disk).0.no_duplicates(),
        spec_build(root, disk).6.len() == 0,
        inactive_imports_load_nothing(spec_build(root, disk).4),
{
    lemma_visit_keeps(
        root,
        disk_view(disk),
        empty_state(),
        spec_join(root, ".bazelrc"@),
        None,
        false,
        (disk.files@.len() + 1) as nat,
    );
}

/// A conditional import applies exactly when its condition holds for the
/// Bazel this server follows, 8.7.0: the import it records for its line is
/// active just then, and names the file its path resolves to.
pub proof fn a_conditional_import_applies_under_bazel_8_7_0(
    root: Seq<char>,
    disk: (Seq<(String, Result<String, String>)>, Seq<(String, Result<ConfigurationFile, String>)>),
    st: BuildState,
    file: Seq<char>,
    line: Line,
    n: nat,
    condition: super::semver::VersionCondition,
)
    requires
        line.statement == Some(Statement::Directive(Directive::ConditionalImport(condition))),
        line.tokens@.len() > 2,
        n > 0,
    ensures
        ({
            let after = visit_lines(root, disk, st, file, seq![line], 0, n);
            &&& after.4.len() > 0
            &&& after.4.last().4 == spec_condition_matches(condition.view_of(), seq!['8', '.', '7', '.', '0'])
            &&& after.4.last().2 == spec_resolve_import(root, line.tokens@[2].text@)
            &&& after.4.last().0 == file
        }),
{
    reveal_strlit("8.7.0");
    assert("8.7.0"@ =~= seq!['8', '.', '7', '.', '0']);
    let lines = seq![line];
    assert(lines[0] == line);
    let token = line.tokens@[2];
    let target = spec_resolve_import(root, token.text@);
    let active = spec_condition_matches(condition.view_of(), "8.7.0"@);
    let visited = if active {
        visit(root, disk, st, target, Some((file, span_view(token.range))), true, (n - 1) as nat)
    } else {
        (st, None)
    };
    let st2 = visited.0;
    let st3 = (
        st2.0,
        st2.1,
        st2.2,
        st2.3,
        st2.4.push((file, span_view(token.range), target, visited.1, active)),
        st2.5,
        st2.6,
    );
    assert(visit_lines(root, disk, st, file, lines, 0, n) == visit_lines(root, disk, st3, file, lines, 1, n));
}

} // verus!
