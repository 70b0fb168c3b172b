//! Bazel releases, workspace discovery, and what a `bazel --version` answer
//! means for the server.

use vstd::prelude::*;
use vstd::utf8::{valid_utf8, decode_utf8};
use vstd::string::StringSliceAdditionalSpecFns;
use crate::label::opt_view;
use crate::paths::{parent_of, path_is_dir, path_is_file, path_parent, texts};
use crate::text::{
    chars_of, ends_with, find_char, first_index_of, is_whitespace, starts_with, string_of, trim,
    trim_chars,
};

verus! {

/// A Bazel release.
#[derive(Debug, Clone, Copy, PartialEq, Eq, PartialOrd, Ord)]
pub struct Version {
    pub major: u32,
    pub minor: u32,
    pub patch: u32,
}

/// `(major, minor, patch)` is at least `other`, compared component by
/// component.
pub open spec fn version_at_least(v: Version, major: u32, minor: u32, patch: u32) -> bool {
    v.major > major || (v.major == major && (v.minor > minor || (v.minor == minor && v.patch
        >= patch)))
}

/// An ASCII digit.
pub open spec fn is_digit(c: char) -> bool {
    '0' <= c && c <= '9'
}

/// The decimal value of a run of digits.
pub open spec fn digits_value(ds: Seq<char>) -> nat
    decreases ds.len(),
{
    if ds.len() == 0 {
        0
    } else {
        digits_value(ds.drop_last()) * 10 + ((ds.last() as u32) - ('0' as u32)) as nat
    }
}

/// `n` is how many digits open `s`.
pub open spec fn is_digit_run(s: Seq<char>, n: int) -> bool {
    0 <= n <= s.len() && (forall|j: int| 0 <= j < n ==> is_digit(s[j])) && (n == s.len()
        || !is_digit(s[n]))
}

/// The number the digits opening `s` spell, if there are any and it fits a
/// `u32`: `0rc2` and `1-homebrew` read as the number they start with.
pub open spec fn spec_leading_number(s: Seq<char>) -> Option<u32> {
    let n = choose|n: int| is_digit_run(s, n);
    if n == 0 || digits_value(s.take(n)) > u32::MAX {
        None
    } else {
        Some(digits_value(s.take(n)) as u32)
    }
}

/// `i` opens the first whitespace-separated field of `s` that starts with a
/// digit.
pub open spec fn is_first_digit_field(s: Seq<char>, i: int) -> bool {
    &&& 0 <= i < s.len()
    &&& is_digit(s[i])
    &&& (i == 0 || is_whitespace(s[i - 1]))
    &&& forall|j: int|
        0 <= j < i && is_digit(#[trigger] s[j]) ==> !(j == 0 || is_whitespace(s[j - 1]))
}

/// `e` ends the field that opens at `i`.
pub open spec fn is_field_end(s: Seq<char>, i: int, e: int) -> bool {
    i <= e <= s.len() && (forall|j: int| i <= j < e ==> !is_whitespace(s[j])) && (e == s.len()
        || is_whitespace(s[e]))
}

/// The first whitespace-separated field of `s` that starts with a digit.
pub open spec fn first_digit_field(s: Seq<char>) -> Option<Seq<char>> {
    if exists|i: int| is_first_digit_field(s, i) {
        let i = choose|i: int| is_first_digit_field(s, i);
        let e = choose|e: int| is_field_end(s, i, e);
        Some(s.subrange(i, e))
    } else {
        None
    }
}

/// `s` split at its first `.`: what precedes it, and what follows if there
/// is one.
pub open spec fn split_dot(s: Seq<char>) -> (Seq<char>, Option<Seq<char>>) {
    match first_index_of(s, '.') {
        Some(i) => (s.take(i), Some(s.skip(i + 1))),
        None => (s, None),
    }
}

/// The release a reported line names: the first field that opens with a
/// digit, read as dotted `major.minor.patch` where a missing component is
/// zero and each component is the number it opens with.
pub open spec fn spec_parse_version(reported: Seq<char>) -> Option<Version> {
    match first_digit_field(reported) {
        None => None,
        Some(field) => {
            let (first, rest) = split_dot(field);
            let (second, third) = match rest {
                Some(r) => {
                    let (second, rest2) = split_dot(r);
                    let third = match rest2 {
                        Some(r2) => split_dot(r2).0,
                        None => seq!['0'],
                    };
                    (second, third)
                },
                None => (seq!['0'], seq!['0']),
            };
            match (
                spec_leading_number(first),
                spec_leading_number(second),
                spec_leading_number(third),
            ) {
                (Some(major), Some(minor), Some(patch)) => Some(
                    Version { major, minor, patch },
                ),
                _ => None,
            }
        },
    }
}

/// The oracles the installed Bazel offers.
#[derive(Debug, Clone, Copy, PartialEq, Eq)]
pub struct Capabilities {
    /// `--proto:rule_classes`, Bazel 8.
    pub rule_classes: bool,
    /// `bazel mod dump_repo_mapping`, Bazel 7.1.
    pub repo_mapping: bool,
    /// `--output_file` on queries, Bazel 8.2.
    pub query_output_file: bool,
}

/// The oldest Bazel this server drives.
pub open spec fn floor() -> Version {
    Version { major: 8, minor: 0, patch: 0 }
}

/// The oldest Bazel this server drives: 8.0.0, where `--proto:rule_classes`
/// landed and bzlmod became the default.
pub fn floor_version() -> (v: Version)
    ensures
        v == floor(),
{
    Version::new(8, 0, 0)
}

impl Version {
    pub fn new(major: u32, minor: u32, patch: u32) -> (v: Self)
        ensures
            v.major == major && v.minor == minor && v.patch == patch,
    {
        Self { major, minor, patch }
    }

    /// Whether this release is at least `other`, component by component.
    pub fn at_least(&self, other: &Version) -> (b: bool)
        ensures
            b == version_at_least(*self, other.major, other.minor, other.patch),
    {
        self.major > other.major || (self.major == other.major && (self.minor > other.minor || (
        self.minor == other.minor && self.patch >= other.patch)))
    }

    /// The release named in what `bazel --version` printed: `bazel 8.7.0`,
    /// and `bazel 8.7.0rc2` for a candidate, which is the release it is a
    /// candidate for. A build from source prints `bazel no_version` and names
    /// no release.
    pub fn parse(reported: &str) -> (v: Option<Self>)
        ensures
            v == spec_parse_version(reported@),
    {
        let cs = chars_of(reported);
        let (i, e) = match digit_field(&cs) {
            Some(span) => span,
            None => {
                return None;
            },
        };
        let field = crate::text::sub_vec(&cs, i, e);
        assert(first_digit_field(reported@) == Some(field@));
        let zero = ['0'];
        assert(zero@ =~= seq!['0']);
        let (first, rest) = split_at_dot(&field);
        let (second, third): (Vec<char>, Vec<char>) = match rest {
            Some(r) => {
                let (second, rest2) = split_at_dot(&r);
                let third = match rest2 {
                    Some(r2) => split_at_dot(&r2).0,
                    None => crate::text::sub_vec(&zero, 0, 1),
                };
                (second, third)
            },
            None => (crate::text::sub_vec(&zero, 0, 1), crate::text::sub_vec(&zero, 0, 1)),
        };
        proof {
            let (sf, sr) = split_dot(field@);
            assert(sf == first@);
            match sr {
                Some(r) => {
                    let (s2, sr2) = split_dot(r);
                    assert(s2 == second@);
                    match sr2 {
                        Some(r2) => assert(split_dot(r2).0 == third@),
                        None => assert(third@ == seq!['0']),
                    }
                },
                None => {
                    assert(second@ == seq!['0']);
                    assert(third@ == seq!['0']);
                },
            }
        }
        let major = leading_number(&first);
        let minor = leading_number(&second);
        let patch = leading_number(&third);
        match (major, minor, patch) {
            (Some(major), Some(minor), Some(patch)) => Some(Self::new(major, minor, patch)),
            _ => None,
        }
    }

    /// What this release can be asked for.
    pub fn capabilities(self) -> (c: Capabilities)
        ensures
            c.rule_classes == version_at_least(self, 8, 0, 0),
            c.repo_mapping == version_at_least(self, 7, 1, 0),
            c.query_output_file == version_at_least(self, 8, 2, 0),
    {
        Capabilities {
            rule_classes: self.at_least(&Version::new(8, 0, 0)),
            repo_mapping: self.at_least(&Version::new(7, 1, 0)),
            query_output_file: self.at_least(&Version::new(8, 2, 0)),
        }
    }
}

/// The first field of `cs` opening with a digit, as a span.
fn digit_field(cs: &[char]) -> (span: Option<(usize, usize)>)
    ensures
        (match first_digit_field(cs@) {
            Some(f) => span matches Some((i, e)) && i <= e <= cs.len() && cs@.subrange(
                i as int,
                e as int,
            ) == f,
            None => span is None,
        }),
{
    let mut i: usize = 0;
    while i < cs.len()
        invariant
            i <= cs.len(),
            forall|j: int|
                0 <= j < i && is_digit(#[trigger] cs@[j]) ==> !(j == 0 || is_whitespace(
                    cs@[j - 1],
                )),
        decreases cs.len() - i,
    {
        let opens = i == 0 || crate::text::char_is_whitespace(cs[i - 1]);
        if '0' <= cs[i] && cs[i] <= '9' && opens {
            assert(is_first_digit_field(cs@, i as int));
            let mut e: usize = i;
            while e < cs.len() && !crate::text::char_is_whitespace(cs[e])
                invariant
                    i <= e <= cs.len(),
                    forall|j: int| i <= j < e ==> !is_whitespace(#[trigger] cs@[j]),
                decreases cs.len() - e,
            {
                e = e + 1;
            }
            assert(is_field_end(cs@, i as int, e as int));
            proof {
                let k = choose|k: int| is_first_digit_field(cs@, k);
                assert(is_first_digit_field(cs@, k));
                if k < i {
                    assert(is_digit(cs@[k]));
                } else if k > i {
                    assert(is_digit(cs@[i as int]));
                }
                assert(k == i);
                let f = choose|f: int| is_field_end(cs@, i as int, f);
                assert(is_field_end(cs@, i as int, f));
                if f < e {
                    assert(!is_whitespace(cs@[f]));
                } else if f > e {
                    assert(!is_whitespace(cs@[e as int]));
                }
                assert(f == e);
            }
            return Some((i, e));
        }
        i = i + 1;
    }
    assert(!exists|k: int| is_first_digit_field(cs@, k)) by {
        if exists|k: int| is_first_digit_field(cs@, k) {
            let k = choose|k: int| is_first_digit_field(cs@, k);
            assert(is_digit(cs@[k]));
        }
    }
    None
}

/// `cs` split at its first `.`.
fn split_at_dot(cs: &[char]) -> (parts: (Vec<char>, Option<Vec<char>>))
    ensures
        parts.0@ == split_dot(cs@).0,
        (match split_dot(cs@).1 {
            Some(r) => parts.1 matches Some(v) && v@ == r,
            None => parts.1 is None,
        }),
{
    match find_char(cs, '.') {
        Some(i) => {
            let before = crate::text::sub_vec(cs, 0, i);
            let n = cs.len();
            let after = crate::text::sub_vec(cs, i + 1, n);
            assert(before@ =~= cs@.take(i as int));
            assert(after@ =~= cs@.skip(i + 1));
            (before, Some(after))
        },
        None => {
            let all = crate::text::sub_vec(cs, 0, cs.len());
            assert(all@ =~= cs@);
            (all, None)
        },
    }
}

/// The digits a dotted field opens with, read as a number that fits `u32`.
fn leading_number(field: &[char]) -> (n: Option<u32>)
    ensures
        n == spec_leading_number(field@),
{
    let mut end: usize = 0;
    while end < field.len() && '0' <= field[end] && field[end] <= '9'
        invariant
            end <= field.len(),
            forall|j: int| 0 <= j < end ==> is_digit(#[trigger] field@[j]),
        decreases field.len() - end,
    {
        end = end + 1;
    }
    assert(is_digit_run(field@, end as int));
    proof {
        let k = choose|k: int| is_digit_run(field@, k);
        assert(is_digit_run(field@, k));
        if k < end {
            assert(is_digit(field@[k]));
        } else if k > end {
            assert(is_digit(field@[end as int]));
        }
        assert(k == end);
    }
    if end == 0 {
        return None;
    }
    let mut value: u64 = 0;
    let mut i: usize = 0;
    assert(field@.take(0) =~= Seq::<char>::empty());
    while i < end
        invariant
            i <= end <= field.len(),
            end == choose|k: int| is_digit_run(field@, k),
            forall|j: int| 0 <= j < end ==> is_digit(#[trigger] field@[j]),
            value == digits_value(field@.take(i as int)),
            value <= u32::MAX,
        decreases end - i,
    {
        let digit = (field[i] as u32 - '0' as u32) as u64;
        assert(field@.take(i + 1).drop_last() =~= field@.take(i as int));
        assert(field@.take(i + 1).last() == field@[i as int]);
        let next = value * 10 + digit;
        assert(next == digits_value(field@.take(i + 1)));
        if next > u32::MAX as u64 {
            proof {
                lemma_digits_value_grows(field@.take(end as int), i + 1);
                assert(field@.take(end as int).take(i + 1) =~= field@.take(i + 1));
                assert(digits_value(field@.take(end as int)) > u32::MAX);
            }
            return None;
        }
        value = next;
        i = i + 1;
    }
    Some(value as u32)
}

/// Digit runs only grow as they lengthen.
pub proof fn lemma_digits_value_grows(ds: Seq<char>, k: int)
    requires
        0 <= k <= ds.len(),
    ensures
        digits_value(ds.take(k)) <= digits_value(ds),
    decreases ds.len() - k,
{
    if k < ds.len() {
        lemma_digits_value_grows(ds, k + 1);
        assert(ds.take(k + 1).drop_last() =~= ds.take(k));
    } else {
        assert(ds.take(k) =~= ds);
    }
}

} // verus!

verus! {

/// A Bazel that answered, and what it can be asked.
#[derive(Debug, Clone)]
pub struct Probe {
    /// The line `bazel --version` printed, for a human to read.
    pub reported: String,
    pub version: Version,
    pub capabilities: Capabilities,
}

/// Files that mark a Bazel workspace root, in priority order.
pub open spec fn root_markers() -> Seq<Seq<char>> {
    seq![
        "MODULE.bazel"@,
        "WORKSPACE.bazel"@,
        "WORKSPACE.bzlmod"@,
        "WORKSPACE"@,
        "REPO.bazel"@,
    ]
}

/// Files that mark a Bazel workspace root, in priority order: `MODULE.bazel`
/// first, so a vendored legacy `WORKSPACE` never outranks the real root.
pub fn root_markers_list() -> (markers: Vec<&'static str>)
    ensures
        markers@.len() == root_markers().len(),
        forall|i: int| 0 <= i < markers@.len() ==> (#[trigger] markers@[i])@ == root_markers()[i],
{
    let markers = vec!["MODULE.bazel", "WORKSPACE.bazel", "WORKSPACE.bzlmod", "WORKSPACE", "REPO.bazel"];
    markers
}

/// User-facing configuration for the Bazel subsystem.
#[derive(Debug, Clone, PartialEq, Eq)]
pub struct BazelConfig {
    pub enable: bool,
    /// Binary to invoke. `bazelisk` works too.
    pub path: String,
    /// Give the server its own `--output_base`; off by default because a
    /// second Bazel server costs over a gigabyte.
    pub private_output_base: bool,
    pub args: Vec<String>,
}

impl Default for BazelConfig {
    fn default() -> (config: Self)
        ensures
            config.enable,
            config.path@ == "bazel"@,
            !config.private_output_base,
            config.args@.len() == 0,
    {
        Self { enable: true, path: "bazel".to_owned(), private_output_base: false, args: Vec::new() }
    }
}

/// A located Bazel workspace.
#[derive(Debug, Clone, PartialEq, Eq)]
pub struct Workspace {
    pub root: String,
    /// Which marker identified the root.
    pub marker: &'static str,
}

/// `name` under the directory `dir`, with one separator between them.
pub open spec fn spec_join(dir: Seq<char>, name: Seq<char>) -> Seq<char> {
    if dir.len() == 0 || starts_with(name, seq!['/']) {
        name
    } else if ends_with(dir, seq!['/']) {
        dir + name
    } else {
        dir + seq!['/'] + name
    }
}

/// `name` under the directory `dir`, as `Path::join` places a relative name.
pub fn join_path(dir: &str, name: &str) -> (joined: String)
    ensures
        joined@ == spec_join(dir@, name@),
{
    let d = chars_of(dir);
    let n = chars_of(name);
    let slash = ['/'];
    assert(slash@ =~= seq!['/']);
    if d.len() == 0 || crate::text::has_prefix(&n, &slash) {
        return name.to_owned();
    }
    let mut all = d;
    if !crate::text::has_suffix(&all, &slash) {
        all.push('/');
    }
    let ghost base = all@;
    let mut j: usize = 0;
    while j < n.len()
        invariant
            j <= n.len(),
            all@ == base + n@.take(j as int),
        decreases n.len() - j,
    {
        all.push(n[j]);
        j = j + 1;
        assert(n@.take(j as int) =~= n@.take(j - 1).push(n@[j - 1]));
        assert(all@ =~= base + n@.take(j as int));
    }
    assert(n@.take(n.len() as int) =~= n@);
    string_of(&all)
}

/// `dir` and each of its ancestors, nearest first, as `Path::parent` walks
/// up from it.
pub open spec fn dirs_up(dir: Seq<char>) -> Seq<Seq<char>>
    decreases dir.len(),
{
    match parent_of(dir) {
        Some(up) => if up.len() < dir.len() {
            seq![dir] + dirs_up(up)
        } else {
            seq![dir]
        },
        None => seq![dir],
    }
}

/// The directories a search from `start` looks in: `start` and its
/// ancestors where `start` is a directory, else those of its parent.
pub open spec fn search_dirs(start: Seq<char>, start_is_dir: bool) -> Seq<Seq<char>> {
    if start_is_dir {
        dirs_up(start)
    } else {
        match parent_of(start) {
            Some(dir) => dirs_up(dir),
            None => Seq::empty(),
        }
    }
}

/// The highest-ranked marker a directory holds: `holds[m]` says whether
/// it holds `markers[m]`.
pub open spec fn first_marker(holds: Seq<bool>, markers: Seq<Seq<char>>) -> Option<Seq<char>>
    decreases markers.len(),
{
    if markers.len() == 0 || holds.len() == 0 {
        None
    } else if holds[0] {
        Some(markers[0])
    } else {
        first_marker(holds.drop_first(), markers.drop_first())
    }
}

/// The workspace among `dirs`, nearest first: the first directory that
/// holds a root marker, with the highest-ranked marker it holds; `holds[i]`
/// says which of the root markers `dirs[i]` holds.
pub open spec fn spec_workspace_at(dirs: Seq<Seq<char>>, holds: Seq<Seq<bool>>) -> Option<(Seq<char>, Seq<char>)>
    decreases dirs.len(),
{
    if dirs.len() == 0 || holds.len() == 0 {
        None
    } else {
        match first_marker(holds[0], root_markers()) {
            Some(marker) => Some((dirs[0], marker)),
            None => spec_workspace_at(dirs.drop_first(), holds.drop_first()),
        }
    }
}

/// A workspace as its root and marker texts.
pub open spec fn workspace_view(w: Option<Workspace>) -> Option<(Seq<char>, Seq<char>)> {
    match w {
        Some(w) => Some((w.root@, w.marker@)),
        None => None,
    }
}

/// Each row of marker answers as a sequence.
pub open spec fn rows(holds: Seq<Vec<bool>>) -> Seq<Seq<bool>> {
    holds.map_values(|row: Vec<bool>| row@)
}

/// The workspace is the nearest directory holding any root marker, with
/// the highest-ranked marker it holds; none when no directory tried holds
/// one.
pub proof fn the_nearest_marked_directory_is_the_root(dirs: Seq<Seq<char>>, holds: Seq<Seq<bool>>)
    ensures
        (match spec_workspace_at(dirs, holds) {
            Some((root, marker)) => exists|i: int|
                0 <= i < dirs.len() && i < holds.len() && dirs[i] == root && #[trigger] first_marker(holds[i], root_markers())
                    == Some(marker) && forall|j: int| 0 <= j < i ==> first_marker(holds[j], root_markers()) is None,
            None => forall|j: int|
                0 <= j < dirs.len() && j < holds.len() ==> #[trigger] first_marker(holds[j], root_markers()) is None,
        }),
    decreases dirs.len(),
{
    if dirs.len() > 0 && holds.len() > 0 && first_marker(holds[0], root_markers()) is None {
        the_nearest_marked_directory_is_the_root(dirs.drop_first(), holds.drop_first());
        match spec_workspace_at(dirs, holds) {
            Some((root, marker)) => {
                let i = choose|i: int|
                    0 <= i < dirs.drop_first().len() && i < holds.drop_first().len() && dirs.drop_first()[i] == root
                        && #[trigger] first_marker(holds.drop_first()[i], root_markers()) == Some(marker) && forall|j: int|
                        0 <= j < i ==> first_marker(holds.drop_first()[j], root_markers()) is None;
                assert(holds[i + 1] == holds.drop_first()[i]);
                assert forall|j: int| 0 <= j < i + 1 implies first_marker(holds[j], root_markers()) is None by {
                    if j > 0 {
                        assert(holds[j] == holds.drop_first()[j - 1]);
                    }
                }
                assert(first_marker(holds[i + 1], root_markers()) == Some(marker));
            },
            None => {
                assert forall|j: int| 0 <= j < dirs.len() && j < holds.len() implies #[trigger] first_marker(
                    holds[j],
                    root_markers(),
                ) is None by {
                    if j > 0 {
                        assert(holds[j] == holds.drop_first()[j - 1]);
                    }
                }
            },
        }
    } else if dirs.len() > 0 && holds.len() > 0 {
        let w = spec_workspace_at(dirs, holds)->0;
        assert(first_marker(holds[0], root_markers()) == Some(w.1));
    }
}

/// The highest-ranked marker that `holds` says a directory holds.
fn marker_in(holds: &Vec<bool>) -> (marker: Option<&'static str>)
    ensures
        opt_view(marker) == first_marker(holds@, root_markers()),
{
    let markers = root_markers_list();
    let ghost all = root_markers();
    assert(all.skip(0) =~= all);
    assert(holds@.skip(0) =~= holds@);
    let mut m: usize = 0;
    while m < markers.len() && m < holds.len()
        invariant
            m <= markers.len(),
            m <= holds.len(),
            markers@.len() == all.len(),
            all == root_markers(),
            forall|i: int| 0 <= i < markers@.len() ==> (#[trigger] markers@[i])@ == all[i],
            first_marker(holds@, all) == first_marker(holds@.skip(m as int), all.skip(m as int)),
        decreases markers.len() - m,
    {
        assert(holds@.skip(m as int)[0] == holds@[m as int]);
        assert(all.skip(m as int)[0] == all[m as int]);
        if holds[m] {
            return Some(markers[m]);
        }
        assert(holds@.skip(m as int).drop_first() =~= holds@.skip(m + 1));
        assert(all.skip(m as int).drop_first() =~= all.skip(m + 1));
        m = m + 1;
    }
    assert(holds@.skip(m as int).len() == 0 || all.skip(m as int).len() == 0);
    None
}

/// The workspace among `dirs`, given which root markers each holds: the
/// nearest directory holding any, with the highest-ranked marker it holds;
/// `None` when none holds one. Directories past the end of either list are
/// not tried.
pub fn workspace_at(dirs: &[String], holds: &[Vec<bool>]) -> (found: Option<Workspace>)
    ensures
        workspace_view(found) == spec_workspace_at(texts(dirs@), rows(holds@)),
{
    let ghost all = texts(dirs@);
    let ghost hs = rows(holds@);
    assert(all.skip(0) =~= all);
    assert(hs.skip(0) =~= hs);
    let mut i: usize = 0;
    while i < dirs.len() && i < holds.len()
        invariant
            i <= dirs.len(),
            i <= holds.len(),
            all == texts(dirs@),
            hs == rows(holds@),
            spec_workspace_at(all, hs) == spec_workspace_at(all.skip(i as int), hs.skip(i as int)),
        decreases dirs.len() - i,
    {
        assert(all.skip(i as int)[0] == dirs@[i as int]@);
        assert(hs.skip(i as int)[0] == holds@[i as int]@);
        if let Some(marker) = marker_in(&holds[i]) {
            return Some(Workspace { root: dirs[i].clone(), marker });
        }
        assert(all.skip(i as int).drop_first() =~= all.skip(i + 1));
        assert(hs.skip(i as int).drop_first() =~= hs.skip(i + 1));
        i = i + 1;
    }
    assert(all.skip(i as int).len() == 0 || hs.skip(i as int).len() == 0);
    None
}

/// `dir` and each of its ancestors, nearest first.
fn ancestors(dir: String) -> (dirs: Vec<String>)
    ensures
        texts(dirs@) == dirs_up(dir@),
    decreases dir@.len(),
{
    let mut dirs: Vec<String> = Vec::new();
    let mut current = dir;
    loop
        invariant
            dirs_up(dir@) == texts(dirs@) + dirs_up(current@),
        decreases current@.len(),
    {
        assert(texts(dirs@.push(current)) =~= texts(dirs@).push(current@));
        match path_parent(current.as_str()) {
            Some(up) => {
                assert(dirs_up(current@) == seq![current@] + dirs_up(up@));
                dirs.push(current);
                assert(texts(dirs@) + dirs_up(up@) =~= dirs_up(dir@));
                current = up;
            },
            None => {
                assert(dirs_up(current@) == seq![current@]);
                dirs.push(current);
                assert(texts(dirs@) =~= dirs_up(dir@));
                return dirs;
            },
        }
    }
}

/// Which root markers each of `dirs` holds on disk, nearest first. The
/// disk is asked until a directory holds one, and within a directory until
/// a marker is found; past that every answer is "no", since the first
/// marker found decides whatever lies beyond.
fn marker_answers(dirs: &Vec<String>) -> (holds: Vec<Vec<bool>>)
    ensures
        holds.len() == dirs.len(),
        forall|i: int| 0 <= i < holds.len() ==> (#[trigger] holds@[i])@.len() == root_markers().len(),
{
    let markers = root_markers_list();
    let mut holds: Vec<Vec<bool>> = Vec::new();
    let mut found = false;
    let mut i: usize = 0;
    while i < dirs.len()
        invariant
            i <= dirs.len(),
            holds.len() == i,
            markers@.len() == root_markers().len(),
            forall|k: int| 0 <= k < holds.len() ==> (#[trigger] holds@[k])@.len() == root_markers().len(),
        decreases dirs.len() - i,
    {
        let mut row: Vec<bool> = Vec::new();
        let mut m: usize = 0;
        while m < markers.len()
            invariant
                m <= markers.len(),
                row.len() == m,
                i < dirs.len(),
            decreases markers.len() - m,
        {
            if found {
                row.push(false);
            } else {
                let here = path_is_file(join_path(dirs[i].as_str(), markers[m]).as_str());
                found = here;
                row.push(here);
            }
            m = m + 1;
        }
        holds.push(row);
        i = i + 1;
    }
    holds
}

/// Walk upward from `start` looking for a workspace root.
///
/// Markers are ranked rather than taken first-found, so a nested `WORKSPACE`
/// never beats an ancestor's `MODULE.bazel` at the same depth. Whether
/// `start` is a directory, and which markers each directory holds, is read
/// from the disk; the answer is what [`workspace_at`] makes of what was
/// read.
pub fn find_workspace(start: &str) -> (found: Option<Workspace>)
    ensures
        exists|start_is_dir: bool, holds: Seq<Seq<bool>>|
            holds.len() == search_dirs(start@, start_is_dir).len()
            && (forall|i: int| 0 <= i < holds.len() ==> (#[trigger] holds[i]).len() == root_markers().len())
            && workspace_view(found) == #[trigger] spec_workspace_at(search_dirs(start@, start_is_dir), holds),
{
    let start_is_dir = path_is_dir(start);
    let dirs = if start_is_dir {
        ancestors(start.to_owned())
    } else {
        match path_parent(start) {
            Some(dir) => ancestors(dir),
            None => Vec::new(),
        }
    };
    assert(texts(dirs@) == search_dirs(start@, start_is_dir));
    let holds = marker_answers(&dirs);
    let found = workspace_at(dirs.as_slice(), holds.as_slice());
    proof {
        let hs = rows(holds@);
        assert forall|i: int| 0 <= i < hs.len() implies (#[trigger] hs[i]).len() == root_markers().len() by {
            assert(hs[i] == holds@[i]@);
        }
        assert(hs.len() == search_dirs(start@, start_is_dir).len());
    }
    found
}

/// Outcome of one Bazel invocation.
#[derive(Debug)]
pub struct Invocation {
    pub stdout: Vec<u8>,
    pub stderr: String,
    pub status: Option<i32>,
}

impl Invocation {
    /// Whether Bazel exited with status zero.
    pub fn ok(&self) -> (ok: bool)
        ensures
            ok == (self.status == Some(0i32)),
    {
        match self.status {
            Some(code) => code == 0,
            None => false,
        }
    }
}

/// What a Bazel invocation reported, once its output has been consumed.
#[derive(Debug)]
pub struct Outcome {
    pub stderr: String,
    pub status: Option<i32>,
}

impl Outcome {
    /// Whether Bazel exited with status zero.
    pub fn ok(&self) -> (ok: bool)
        ensures
            ok == (self.status == Some(0i32)),
    {
        match self.status {
            Some(code) => code == 0,
            None => false,
        }
    }
}

/// Why the installed Bazel cannot be driven.
#[derive(Debug, Clone, PartialEq, Eq)]
pub enum ProbeError {
    /// `bazel.enable` is off.
    Disabled,
    /// The binary could not be run at all; the message says why.
    Unrunnable(String),
    /// `bazel --version` exited non-zero, with this on stderr.
    Failed(String),
    /// What `bazel --version` printed names no release.
    NoRelease(String),
    /// The release is older than the floor.
    TooOld(Version),
}

/// Runs Bazel. Owned by a single dedicated thread.
#[derive(Debug, Clone)]
pub struct BazelClient {
    config: BazelConfig,
    workspace: String,
    output_base: Option<String>,
}

/// The FNV-1a hash of a byte string.
pub open spec fn fnv1a(bytes: Seq<u8>) -> u64
    decreases bytes.len(),
{
    if bytes.len() == 0 {
        0xcbf2_9ce4_8422_2325u64
    } else {
        (fnv1a(bytes.drop_last()) ^ (bytes.last() as u64)).wrapping_mul(0x100_0000_01b3u64)
    }
}

/// The lower-case hexadecimal digit of a nibble.
pub open spec fn hex_digit(n: u64) -> char {
    if n < 10 {
        (('0' as u64) + n) as char
    } else {
        (('a' as u64) + n - 10) as char
    }
}

/// Sixteen lower-case hexadecimal digits, most significant first.
pub open spec fn hex16(v: u64) -> Seq<char> {
    Seq::new(16, |i: int| hex_digit(((v >> ((15 - i) * 4) as u64) & 0xf) as u64))
}

/// The directory name of a per-workspace output base.

/// The FNV-1a hash of the workspace path's bytes.
fn workspace_hash(workspace: &str) -> (hash: u64)
    ensures
        hash == fnv1a(workspace.spec_bytes()),
{
    let bytes = workspace.as_bytes();
    let mut hash: u64 = 0xcbf2_9ce4_8422_2325;
    let mut i: usize = 0;
    assert(bytes@.take(0) =~= Seq::<u8>::empty());
    while i < bytes.len()
        invariant
            i <= bytes@.len(),
            hash == fnv1a(bytes@.take(i as int)),
        decreases bytes@.len() - i,
    {
        assert(bytes@.take(i + 1).drop_last() =~= bytes@.take(i as int));
        hash = hash ^ (bytes[i] as u64);
        hash = hash.wrapping_mul(0x100_0000_01b3);
        i = i + 1;
    }
    assert(bytes@.take(bytes@.len() as int) =~= bytes@);
    hash
}

/// Sixteen lower-case hexadecimal digits of `v`.
fn hex_string(v: u64) -> (s: String)
    ensures
        s@ == hex16(v),
{
    let mut cs: Vec<char> = Vec::new();
    let mut i: u64 = 0;
    while i < 16
        invariant
            i <= 16,
            cs@.len() == i,
            forall|k: int| 0 <= k < i ==> cs@[k] == hex16(v)[k],
        decreases 16 - i,
    {
        let shift: u64 = (15 - i) * 4;
        let nibble = (v >> shift) & 0xf;
        assert(nibble < 16) by (bit_vector)
            requires
                nibble == (v >> shift) & 0xf,
        ;
        assert(shift == ((15 - i) * 4) as u64);
        let c = if nibble < 10 {
            (('0' as u8) + (nibble as u8)) as char
        } else {
            (('a' as u8) + (nibble as u8) - 10) as char
        };
        assert(c == hex_digit(nibble));
        cs.push(c);
        i = i + 1;
    }
    assert(cs@ =~= hex16(v));
    string_of(&cs)
}

impl BazelClient {
    /// A client for `workspace`. With a private output base, it lives under
    /// `temp_dir` at a name derived from the workspace path alone, so one
    /// workspace always gets the same one.
    pub fn new(config: BazelConfig, workspace: String, temp_dir: &str) -> (client: Self)
        ensures
            client.config() == config,
            client.workspace()@ == workspace@,
            (match client.output_base() {
                Some(base) => config.private_output_base && base@ == spec_join(
                    temp_dir@,
                    "bls-output-base-"@ + hex16(fnv1a(vstd::utf8::encode_utf8(workspace@))),
                ),
                None => !config.private_output_base,
            }),
    {
        let output_base = if config.private_output_base {
            let name = hex_string(workspace_hash(workspace.as_str()));
            let mut dirname = "bls-output-base-".to_owned();
            crate::text::append(&mut dirname, name.as_str());
            Some(join_path(temp_dir, dirname.as_str()))
        } else {
            None
        };
        Self { config, workspace, output_base }
    }

    pub closed spec fn config(&self) -> BazelConfig {
        self.config
    }

    pub closed spec fn workspace(&self) -> String {
        self.workspace
    }

    pub closed spec fn output_base(&self) -> Option<String> {
        self.output_base
    }

    /// The binary being invoked, for a message that has to name it.
    pub fn binary(&self) -> (binary: &str)
        ensures
            binary@ == self.config().path@,
    {
        self.config.path.as_str()
    }

    /// The configuration this client runs Bazel with.
    pub fn settings(&self) -> (config: &BazelConfig)
        ensures
            *config == self.config(),
    {
        &self.config
    }

    /// The workspace Bazel runs in.
    pub fn workspace_dir(&self) -> (dir: &str)
        ensures
            dir@ == self.workspace()@,
    {
        self.workspace.as_str()
    }

    /// The private output base, when one was asked for.
    pub fn private_base(&self) -> (base: Option<&str>)
        ensures
            (match self.output_base() {
                Some(b) => base matches Some(s) && s@ == b@,
                None => base is None,
            }),
    {
        match &self.output_base {
            Some(base) => Some(base.as_str()),
            None => None,
        }
    }
}

} // verus!

verus! {

/// What `String::from_utf8_lossy` makes of a byte string.
pub uninterp spec fn lossy_utf8(bytes: Seq<u8>) -> Seq<char>;

/// `String::from_utf8_lossy`: the bytes decoded, with each invalid sequence
/// replaced by U+FFFD. Stated here: the result is a function of the bytes,
/// and valid UTF-8 decodes exactly. The replacement of invalid sequences is
/// left unsaid.
#[verifier::external_body]
pub(crate) fn from_utf8_lossy(bytes: &[u8]) -> (s: String)
    ensures
        s@ == lossy_utf8(bytes@),
        valid_utf8(bytes@) ==> s@ == decode_utf8(bytes@),
{
    String::from_utf8_lossy(bytes).into_owned()
}

/// What probing a Bazel yields, given how `bazel --version` answered: the
/// reported line and its release, or the error as its kind (see
/// [`probe_error_view`]), the text it carries and the release it names.
pub open spec fn spec_probe(
    enable: bool,
    answer: Result<(Seq<u8>, Seq<char>, Option<i32>), Seq<char>>,
) -> Result<(Seq<char>, Version), (int, Seq<char>, Option<Version>)> {
    if !enable {
        Err((0, Seq::empty(), None))
    } else {
        match answer {
            Err(why) => Err((1, why, None)),
            Ok((stdout, stderr, status)) => {
                if status != Some(0i32) {
                    Err((2, stderr, None))
                } else {
                    let reported = trim(lossy_utf8(stdout));
                    match spec_parse_version(reported) {
                        None => Err((3, reported, None)),
                        Some(version) => if version_at_least(version, 8, 0, 0) {
                            Ok((reported, version))
                        } else {
                            Err((4, Seq::empty(), Some(version)))
                        },
                    }
                }
            },
        }
    }
}

/// The view of an invocation answer.
pub open spec fn answer_view(answer: &Result<Invocation, String>) -> Result<
    (Seq<u8>, Seq<char>, Option<i32>),
    Seq<char>,
> {
    match answer {
        Ok(run) => Ok((run.stdout@, run.stderr@, run.status)),
        Err(why) => Err(why@),
    }
}

/// The view of a probe error: which one, and the text it carries.
pub open spec fn probe_error_view(e: ProbeError) -> (int, Seq<char>, Option<Version>) {
    match e {
        ProbeError::Disabled => (0, Seq::empty(), None),
        ProbeError::Unrunnable(s) => (1, s@, None),
        ProbeError::Failed(s) => (2, s@, None),
        ProbeError::NoRelease(s) => (3, s@, None),
        ProbeError::TooOld(v) => (4, Seq::empty(), Some(v)),
    }
}

impl BazelClient {
    /// The installed Bazel, if this server can drive it, from what
    /// `bazel --version` answered (`Err` when it could not be run).
    ///
    /// Every way this fails names which one it was: disabled, no binary, a
    /// failing binary, no release named, or one older than [`floor_version`].
    pub fn probe(&self, answer: Result<Invocation, String>) -> (probe: Result<Probe, ProbeError>)
        ensures
            (match spec_probe(self.config().enable, answer_view(&answer)) {
                Ok((reported, version)) => probe matches Ok(p) && p.reported@ == reported
                    && p.version == version && p.capabilities.rule_classes == version_at_least(
                    version,
                    8,
                    0,
                    0,
                ) && p.capabilities.repo_mapping == version_at_least(version, 7, 1, 0)
                    && p.capabilities.query_output_file == version_at_least(version, 8, 2, 0),
                Err(e) => probe matches Err(f) && probe_error_view(f) == e,
            }),
    {
        if !self.config.enable {
            return Err(ProbeError::Disabled);
        }
        let out = match answer {
            Ok(out) => out,
            Err(why) => {
                return Err(ProbeError::Unrunnable(why));
            },
        };
        if !out.ok() {
            return Err(ProbeError::Failed(out.stderr));
        }
        let lossy = from_utf8_lossy(out.stdout.as_slice());
        let trimmed = trim_chars(&chars_of(lossy.as_str()));
        let reported = string_of(&trimmed);
        let version = match Version::parse(reported.as_str()) {
            Some(version) => version,
            None => {
                return Err(ProbeError::NoRelease(reported));
            },
        };
        if !version.at_least(&floor_version()) {
            return Err(ProbeError::TooOld(version));
        }
        Ok(Probe { reported, version, capabilities: version.capabilities() })
    }
}

} // verus!
