//! Apparent repository names, and where their contents sit on disk.
//!
//! An apparent name means nothing on its own: the mapping from it to a
//! canonical name is per workspace, and `bazel mod dump_repo_mapping ""` is
//! the only correct source of it.

use vstd::prelude::*;
use crate::bazel::{from_utf8_lossy, join_path, lossy_utf8, spec_join};
use crate::index::lines_from;
use crate::paths::path_is_dir;
use crate::text::{append, chars_of, contains_chars, contains_seq, string_of, trim, trim_chars};

verus! {

/// What an apparent repository name turned out to be.
#[derive(Debug, Clone, PartialEq, Eq)]
pub enum Resolved {
    /// The main repository, named by its module name or by `@`.
    Main,
    /// Fetched, and its root is here.
    At(String),
    /// A real repository of this workspace that has not been fetched, so
    /// nothing under it exists to navigate to yet.
    Unfetched(String),
    /// The mapping has been read and does not contain this name.
    Unknown,
    /// No mapping has been read, so nothing can be said about any name.
    Unavailable,
}

/// The canonical name the mapping gives `apparent`: the last entry for it,
/// as a JSON object read into a map keeps the last of repeated keys.
pub open spec fn canonical_of(mapping: Seq<(Seq<char>, Seq<char>)>, apparent: Seq<char>) -> Option<Seq<char>>
    decreases mapping.len(),
{
    if mapping.len() == 0 {
        None
    } else if mapping.last().0 == apparent {
        Some(mapping.last().1)
    } else {
        canonical_of(mapping.drop_last(), apparent)
    }
}

/// The repository mapping of one workspace, and the tree its externals
/// live in.
#[derive(Debug)]
pub struct Repos {
    /// Apparent name to canonical name, as Bazel listed them. The main
    /// repository appears as `""`, under `""` and the module's own name.
    mapping: Vec<(String, String)>,
    /// The user's own output base.
    output_base: String,
}

/// Where a fetched repository's root sits.
pub open spec fn external_root(output_base: Seq<char>, canonical: Seq<char>) -> Seq<char> {
    spec_join(spec_join(output_base, "external"@), canonical)
}

/// A resolution as plain values: the path of a fetched repository's root,
/// the canonical name of an unfetched one.
pub enum Resolution {
    Main,
    At(Seq<char>),
    Unfetched(Seq<char>),
    Unknown,
    Unavailable,
}

/// What `apparent` names, given whether the directory where its repository
/// would sit exists: nothing can be said without a mapping; the main
/// repository maps to the empty canonical name; a fetched repository sits
/// under the output base's `external/` by its canonical name (or by the
/// name itself, which may already be canonical); an unfetched one is known
/// by its canonical name when the mapping lists it.
pub open spec fn spec_locate(
    mapping: Seq<(Seq<char>, Seq<char>)>,
    output_base: Seq<char>,
    apparent: Seq<char>,
    fetched: bool,
) -> Resolution {
    if mapping.len() == 0 {
        Resolution::Unavailable
    } else {
        match canonical_of(mapping, apparent) {
            Some(c) => if c.len() == 0 {
                Resolution::Main
            } else if fetched {
                Resolution::At(external_root(output_base, c))
            } else {
                Resolution::Unfetched(c)
            },
            None => if fetched {
                Resolution::At(external_root(output_base, apparent))
            } else {
                Resolution::Unknown
            },
        }
    }
}

/// The disk only settles whether a repository is fetched: without a
/// mapping nothing is known either way; the main repository is the main
/// repository either way; any other name is at the root under the output
/// base that its canonical name (or the name itself, when the mapping does
/// not list it) gives when that directory exists, and otherwise unfetched
/// under that canonical name, or unknown when unlisted.
pub proof fn the_disk_settles_only_whether_it_is_fetched(
    mapping: Seq<(Seq<char>, Seq<char>)>,
    output_base: Seq<char>,
    apparent: Seq<char>,
)
    ensures
        mapping.len() == 0 ==> spec_locate(mapping, output_base, apparent, true) == Resolution::Unavailable
            && spec_locate(mapping, output_base, apparent, false) == Resolution::Unavailable,
        mapping.len() > 0 && canonical_of(mapping, apparent) == Some(Seq::<char>::empty()) ==> spec_locate(
            mapping,
            output_base,
            apparent,
            true,
        ) == Resolution::Main && spec_locate(mapping, output_base, apparent, false) == Resolution::Main,
        mapping.len() > 0 && canonical_of(mapping, apparent) != Some(Seq::<char>::empty()) ==> ({
            let name = match canonical_of(mapping, apparent) {
                Some(c) => c,
                None => apparent,
            };
            &&& spec_locate(mapping, output_base, apparent, true) == Resolution::At(external_root(output_base, name))
            &&& spec_locate(mapping, output_base, apparent, false) == if canonical_of(mapping, apparent) is Some {
                Resolution::Unfetched(name)
            } else {
                Resolution::Unknown
            }
        }),
{
    if let Some(c) = canonical_of(mapping, apparent) {
        if c.len() == 0 {
            assert(c =~= Seq::<char>::empty());
        }
    }
}

/// A resolution as the text it carries.
pub open spec fn resolved_view(r: Resolved) -> Resolution {
    match r {
        Resolved::Main => Resolution::Main,
        Resolved::At(p) => Resolution::At(p@),
        Resolved::Unfetched(c) => Resolution::Unfetched(c@),
        Resolved::Unknown => Resolution::Unknown,
        Resolved::Unavailable => Resolution::Unavailable,
    }
}

impl Repos {
    /// The mapping, as pairs of texts.
    pub closed spec fn mapping_view(&self) -> Seq<(Seq<char>, Seq<char>)> {
        self.mapping@.map_values(|m: (String, String)| (m.0@, m.1@))
    }

    pub closed spec fn base_view(&self) -> Seq<char> {
        self.output_base@
    }

    /// A mapping as Bazel listed it, and the output base.
    pub fn new(mapping: Vec<(String, String)>, output_base: String) -> (repos: Self)
        ensures
            repos.mapping_view() == mapping@.map_values(|m: (String, String)| (m.0@, m.1@)),
            repos.base_view() == output_base@,
    {
        Repos { mapping, output_base }
    }

    /// No mapping read.
    pub fn empty() -> (repos: Self)
        ensures
            repos.mapping_view().len() == 0,
            repos.base_view().len() == 0,
    {
        Repos { mapping: Vec::new(), output_base: String::new() }
    }

    /// The canonical name the mapping gives `apparent`.
    fn canonical(&self, apparent: &str) -> (c: Option<&str>)
        ensures
            (match canonical_of(self.mapping_view(), apparent@) {
                Some(t) => c matches Some(s) && s@ == t,
                None => c is None,
            }),
    {
        let ghost m = self.mapping_view();
        let mut i = self.mapping.len();
        assert(m.take(m.len() as int) =~= m);
        while i > 0
            invariant
                i <= m.len(),
                m == self.mapping_view(),
                canonical_of(m, apparent@) == canonical_of(m.take(i as int), apparent@),
            decreases i,
        {
            let ghost t = m.take(i as int);
            assert(t.last() == m[i - 1]);
            if crate::text::str_eq(self.mapping[i - 1].0.as_str(), apparent) {
                return Some(self.mapping[i - 1].1.as_str());
            }
            assert(t.drop_last() =~= m.take(i - 1));
            i = i - 1;
        }
        None
    }

    /// Where the repository `apparent` names would sit, were it fetched:
    /// under the output base's `external/`, by its canonical name (or by
    /// the name itself, which may already be canonical).
    fn root_of(&self, apparent: &str) -> (at: String)
        ensures
            at@ == external_root(
                self.base_view(),
                match canonical_of(self.mapping_view(), apparent@) {
                    Some(c) => c,
                    None => apparent@,
                },
            ),
    {
        let external = join_path(self.output_base.as_str(), "external");
        match self.canonical(apparent) {
            Some(c) => join_path(external.as_str(), c),
            None => join_path(external.as_str(), apparent),
        }
    }

    /// What `apparent` names, given whether the directory where its
    /// repository would sit exists.
    pub fn locate_with(&self, apparent: &str, fetched: bool) -> (r: Resolved)
        ensures
            resolved_view(r) == spec_locate(self.mapping_view(), self.base_view(), apparent@, fetched),
    {
        if self.mapping.len() == 0 {
            return Resolved::Unavailable;
        }
        match self.canonical(apparent) {
            Some(c) => {
                if chars_of(c).len() == 0 {
                    return Resolved::Main;
                }
                if fetched {
                    let at = self.root_of(apparent);
                    return Resolved::At(at);
                }
                Resolved::Unfetched(c.to_owned())
            },
            None => {
                if fetched {
                    let at = self.root_of(apparent);
                    return Resolved::At(at);
                }
                Resolved::Unknown
            },
        }
    }

    /// What `apparent` names, as written between `@` and `//`, asking the
    /// disk whether its repository has been fetched.
    pub fn locate(&self, apparent: &str) -> (r: Resolved)
        ensures
            resolved_view(r) == spec_locate(self.mapping_view(), self.base_view(), apparent@, false)
                || resolved_view(r) == spec_locate(self.mapping_view(), self.base_view(), apparent@, true),
    {
        let fetched = if self.mapping.len() == 0 {
            false
        } else {
            path_is_dir(self.root_of(apparent).as_str())
        };
        self.locate_with(apparent, fetched)
    }

    /// The tree externals live in.
    pub fn output_base(&self) -> (base: &str)
        ensures
            base@ == self.base_view(),
    {
        self.output_base.as_str()
    }

    /// How many names the mapping lists.
    pub fn len(&self) -> (n: usize)
        ensures
            n == self.mapping_view().len(),
    {
        self.mapping.len()
    }
}

impl Default for Repos {
    /// No mapping read, as before Bazel has been asked.
    fn default() -> (repos: Self)
        ensures
            repos.mapping_view().len() == 0,
            repos.base_view().len() == 0,
    {
        Self::empty()
    }
}

/// The last line of a text, or nothing.
pub open spec fn last_line(text: Seq<char>) -> Seq<char> {
    let lines = lines_from(text, Seq::empty());
    if lines.len() == 0 {
        Seq::empty()
    } else {
        lines.last()
    }
}

/// The last line of `text`, or the empty string.
fn final_line(text: &str) -> (line: String)
    ensures
        line@ == last_line(text@),
{
    let lines = crate::index::split_lines(text);
    if lines.len() == 0 {
        String::new()
    } else {
        let n = lines.len();
        lines[n - 1].clone()
    }
}

/// Why `bazel mod dump_repo_mapping ""` failed, from what it printed: a
/// wrapper that dropped the empty argument, or the last line Bazel wrote.
pub open spec fn spec_dump_failure(binary: Seq<char>, stderr: Seq<char>) -> Seq<char> {
    if contains_seq(stderr, "No repository name(s) specified"@) {
        "`"@ + binary
            + "` reached Bazel without the empty argument that names the main repository, which is what a wrapper script written `bazelisk $@` instead of `bazelisk \"$@\"` does to it"@
    } else {
        "`bazel mod dump_repo_mapping` failed: "@ + last_line(stderr)
    }
}

/// Why `bazel mod dump_repo_mapping ""` failed.
pub fn dump_failure(binary: &str, stderr: &str) -> (message: String)
    ensures
        message@ == spec_dump_failure(binary@, stderr@),
{
    if contains_chars(&chars_of(stderr), &chars_of("No repository name(s) specified")) {
        let mut message = "`".to_owned();
        append(&mut message, binary);
        append(
            &mut message,
            "` reached Bazel without the empty argument that names the main repository, which is what a wrapper script written `bazelisk $@` instead of `bazelisk \"$@\"` does to it",
        );
        return message;
    }
    let mut message = "`bazel mod dump_repo_mapping` failed: ".to_owned();
    append(&mut message, final_line(stderr).as_str());
    message
}

/// Why `bazel info output_base` failed: the last line Bazel wrote.
pub fn info_failure(stderr: &str) -> (message: String)
    ensures
        message@ == "`bazel info output_base` failed: "@ + last_line(stderr@),
{
    let mut message = "`bazel info output_base` failed: ".to_owned();
    append(&mut message, final_line(stderr).as_str());
    message
}

/// The output base `bazel info output_base` printed: its output decoded,
/// with surrounding whitespace removed.
pub fn output_base_of(stdout: &[u8]) -> (base: String)
    ensures
        base@ == trim(lossy_utf8(stdout@)),
{
    let text = from_utf8_lossy(stdout);
    string_of(&trim_chars(&chars_of(text.as_str())))
}

} // verus!
