//! Which index tiers a change in the workspace can reach, and how a burst of
//! changes collapses into one rebuild.
//!
//! The watcher itself, its thread and its debounce window live with the
//! program; what is decided here is what each changed path costs.

use vstd::prelude::*;
use crate::index::{is_ignored, spec_is_ignored};
use crate::paths::{
    components_of, file_name_of, path_components, path_file_name, path_strip_prefix, relative_to,
    texts,
};
use crate::text::{
    chars_of, ends_with, is_last_index, last_index_of, rfind_char, starts_with, str_eq,
    str_ends_with, str_starts_with,
};

verus! {

/// What a set of invalidations reaches: the whole target table, the BUILD
/// files whose targets must be re-read, the graph Bazel answers for, and the
/// imported rc configuration.
pub type Reach = (bool, Seq<Seq<char>>, bool, bool);

/// Which tiers a changed file can possibly affect.
#[derive(Clone, Debug, PartialEq, Eq)]
pub struct Invalidates {
    pub full_targets: bool,
    pub target_files: Vec<String>,
    /// What Bazel would say, which every file Bazel loads can change.
    pub graph: bool,
    /// The imported rc graph.
    pub configuration: bool,
}

/// Nothing at all.
pub open spec fn no_reach() -> Reach {
    (false, Seq::empty(), false, false)
}

/// What only Bazel reads: the graph tier alone.
pub open spec fn graph_reach() -> Reach {
    (false, Seq::empty(), true, false)
}

/// Every tier.
pub open spec fn full_reach() -> Reach {
    (true, Seq::empty(), true, true)
}

/// An rc file: the configuration, and the graph Bazel derives under it.
pub open spec fn configuration_reach() -> Reach {
    (false, Seq::empty(), true, true)
}

/// The first build: the target table and the configuration.
pub open spec fn initial_reach() -> Reach {
    (true, Seq::empty(), false, true)
}

/// One BUILD file: its targets, and the graph.
pub open spec fn file_reach(path: Seq<char>) -> Reach {
    (false, seq![path], true, false)
}

/// Whether a reach reaches anything.
pub open spec fn reaches_anything(r: Reach) -> bool {
    r.0 || r.1.len() > 0 || r.2 || r.3
}

/// What two reaches reach together. A full rebuild makes the files moot.
pub open spec fn union(a: Reach, b: Reach) -> Reach {
    let full = a.0 || b.0;
    (full, if full { Seq::empty() } else { a.1 + b.1 }, a.2 || b.2, a.3 || b.3)
}

impl Invalidates {
    pub open spec fn reach(&self) -> Reach {
        (self.full_targets, texts(self.target_files@), self.graph, self.configuration)
    }

    fn from_flags(full_targets: bool, graph: bool, configuration: bool) -> (r: Self)
        ensures
            r.reach() == (full_targets, Seq::<Seq<char>>::empty(), graph, configuration),
    {
        let r = Invalidates { full_targets, target_files: Vec::new(), graph, configuration };
        assert(texts(r.target_files@) =~= Seq::<Seq<char>>::empty());
        r
    }

    /// Nothing at all.
    pub fn nothing() -> (r: Self)
        ensures
            r.reach() == no_reach(),
    {
        Self::from_flags(false, false, false)
    }

    /// What only Bazel reads: the graph tier alone.
    pub fn graph_only() -> (r: Self)
        ensures
            r.reach() == graph_reach(),
    {
        Self::from_flags(false, true, false)
    }

    /// Every tier.
    pub fn both() -> (r: Self)
        ensures
            r.reach() == full_reach(),
    {
        Self::from_flags(true, true, true)
    }

    /// An rc file: the configuration and the graph.
    pub fn configuration_and_graph() -> (r: Self)
        ensures
            r.reach() == configuration_reach(),
    {
        Self::from_flags(false, true, true)
    }

    /// The first build: the target table and the configuration.
    pub fn initial() -> (r: Self)
        ensures
            r.reach() == initial_reach(),
    {
        Self::from_flags(true, false, true)
    }

    /// One BUILD file: its targets and the graph.
    pub fn file(path: &str) -> (r: Self)
        ensures
            r.reach() == file_reach(path@),
    {
        let mut target_files: Vec<String> = Vec::new();
        target_files.push(path.to_owned());
        let r = Invalidates { full_targets: false, target_files, graph: true, configuration: false };
        assert(texts(r.target_files@) =~= seq![path@]);
        r
    }

    /// Everything either reaches.
    pub fn with(self, other: Self) -> (r: Self)
        ensures
            r.reach() == union(self.reach(), other.reach()),
    {
        let ghost mine = texts(self.target_files@);
        let ghost theirs = texts(other.target_files@);
        let full_targets = self.full_targets || other.full_targets;
        let graph = self.graph || other.graph;
        let configuration = self.configuration || other.configuration;
        let mut target_files = self.target_files;
        let mut more = other.target_files;
        if full_targets {
            target_files = Vec::new();
            assert(texts(target_files@) =~= Seq::<Seq<char>>::empty());
        } else {
            let ghost before = target_files@;
            let ghost added = more@;
            target_files.append(&mut more);
            assert(texts(target_files@) =~= mine + theirs) by {
                assert(target_files@ == before + added);
            }
        }
        Invalidates { full_targets, target_files, graph, configuration }
    }

    /// Whether this reaches any tier at all.
    pub fn anything(&self) -> (b: bool)
        ensures
            b == reaches_anything(self.reach()),
    {
        self.full_targets || self.target_files.len() > 0 || self.graph || self.configuration
    }
}

impl Default for Invalidates {
    fn default() -> (r: Self)
        ensures
            r.reach() == no_reach(),
    {
        Self::nothing()
    }
}

/// What `Path::extension` makes of a file name: what follows its last dot,
/// unless there is none, the only dot opens the name, or the name is `..`.
pub open spec fn extension(name: Seq<char>) -> Option<Seq<char>> {
    match last_index_of(name, '.') {
        Some(k) => if k == 0 || name == ".."@ {
            None
        } else {
            Some(name.skip(k + 1))
        },
        None => None,
    }
}

/// Whether `name` is one of Bazel's own root files, which only Bazel reads.
pub open spec fn is_graph_file(name: Seq<char>) -> bool {
    name == "MODULE.bazel"@ || name == "MODULE.bazel.lock"@ || name == "WORKSPACE"@ || name
        == "WORKSPACE.bazel"@ || name == "WORKSPACE.bzlmod"@ || name == "REPO.bazel"@
}

/// The tiers a change to `path` reaches, by the name of the file.
pub open spec fn spec_invalidated(path: Seq<char>) -> Reach {
    match file_name_of(path) {
        None => no_reach(),
        Some(name) => if name == "BUILD"@ || name == "BUILD.bazel"@ {
            file_reach(path)
        } else if name == ".bazelignore"@ {
            full_reach()
        } else if is_graph_file(name) {
            graph_reach()
        } else if ends_with(name, ".bazelrc"@) {
            configuration_reach()
        } else if extension(name) == Some("bzl"@) {
            graph_reach()
        } else {
            no_reach()
        },
    }
}

/// Whether the extension of `name` is `bzl`.
fn is_bzl(name: &str) -> (b: bool)
    ensures
        b == (extension(name@) == Some("bzl"@)),
{
    let cs = chars_of(name);
    match rfind_char(&cs, '.') {
        None => false,
        Some(k) => {
            assert(is_last_index(cs@, '.', k as int));
            if k == 0 || str_eq(name, "..") {
                return false;
            }
            assert(k < cs.len());
            let from: usize = k + 1;
            let tail = crate::text::string_of_range(&cs, from, cs.len());
            assert(cs@.subrange(k + 1, cs@.len() as int) =~= cs@.skip(k + 1));
            str_eq(tail.as_str(), "bzl")
        },
    }
}

/// Classify a change by the index tiers it can affect.
pub fn invalidated(path: &str) -> (r: Invalidates)
    ensures
        r.reach() == spec_invalidated(path@),
{
    let name = match path_file_name(path) {
        Some(name) => name,
        None => {
            return Invalidates::nothing();
        },
    };
    let n = name.as_str();
    if str_eq(n, "BUILD") || str_eq(n, "BUILD.bazel") {
        Invalidates::file(path)
    } else if str_eq(n, ".bazelignore") {
        Invalidates::both()
    } else if str_eq(n, "MODULE.bazel") || str_eq(n, "MODULE.bazel.lock") || str_eq(n, "WORKSPACE")
        || str_eq(n, "WORKSPACE.bazel") || str_eq(n, "WORKSPACE.bzlmod") || str_eq(n, "REPO.bazel") {
        Invalidates::graph_only()
    } else if str_ends_with(n, ".bazelrc") {
        Invalidates::configuration_and_graph()
    } else if is_bzl(n) {
        Invalidates::graph_only()
    } else {
        Invalidates::nothing()
    }
}

/// Whether a relative path's components lie in metadata or a root-level
/// Bazel output tree.
pub open spec fn excluded_components(cs: Seq<Seq<char>>) -> bool {
    (cs.len() > 0 && starts_with(cs[0], "bazel-"@)) || exists|i: int|
        0 <= i < cs.len() && (#[trigger] cs[i] == ".git"@ || cs[i] == ".jj"@)
}

/// Whether `path` lies outside the workspace `root`, in its metadata, or in
/// one of the `bazel-*` output trees at its top.
pub open spec fn spec_excluded(root: Seq<char>, path: Seq<char>) -> bool {
    match relative_to(path, root) {
        None => true,
        Some(rel) => excluded_components(components_of(rel)),
    }
}

/// Whether a path lies in metadata or a root-level Bazel output tree.
pub fn excluded(root: &str, path: &str) -> (b: bool)
    ensures
        b == spec_excluded(root@, path@),
{
    let rel = match path_strip_prefix(path, root) {
        Some(rel) => rel,
        None => {
            return true;
        },
    };
    let parts = path_components(rel.as_str());
    let ghost cs = components_of(rel@);
    assert(texts(parts@) == cs);
    if parts.len() > 0 && str_starts_with(parts[0].as_str(), "bazel-") {
        assert(cs[0] == parts@[0]@);
        return true;
    }
    let mut i: usize = 0;
    while i < parts.len()
        invariant
            i <= parts@.len(),
            texts(parts@) == cs,
            cs == components_of(rel@),
            relative_to(path@, root@) == Some(rel@),
            forall|j: int| 0 <= j < i ==> !(#[trigger] cs[j] == ".git"@ || cs[j] == ".jj"@),
        decreases parts.len() - i,
    {
        assert(cs[i as int] == parts@[i as int]@);
        if str_eq(parts[i].as_str(), ".git") || str_eq(parts[i].as_str(), ".jj") {
            assert(0 <= i < cs.len() && (cs[i as int] == ".git"@ || cs[i as int] == ".jj"@));
            return true;
        }
        i = i + 1;
    }
    false
}

/// Whether a changed path is the workspace's business: inside it, outside
/// its metadata and output trees, and not under a `.bazelignore` entry.
pub open spec fn relevant(root: Seq<char>, ignored: Seq<Seq<char>>, path: Seq<char>) -> bool {
    !spec_excluded(root, path) && !spec_is_ignored(root, path, ignored)
}

/// What the relevant paths among `paths` reach, taken together in order.
pub open spec fn gathered(root: Seq<char>, ignored: Seq<Seq<char>>, paths: Seq<Seq<char>>) -> Reach
    decreases paths.len(),
{
    if paths.len() == 0 {
        no_reach()
    } else {
        let before = gathered(root, ignored, paths.drop_last());
        if relevant(root, ignored, paths.last()) {
            union(before, spec_invalidated(paths.last()))
        } else {
            before
        }
    }
}

/// What one filesystem event reaches: everything when the watcher lost
/// events, or when a directory appeared, vanished or moved somewhere that
/// matters; otherwise what each relevant path reaches.
pub open spec fn spec_wanted(
    root: Seq<char>,
    ignored: Seq<Seq<char>>,
    rescan: bool,
    tree_change: bool,
    paths: Seq<Seq<char>>,
) -> Reach {
    if rescan {
        full_reach()
    } else if tree_change && exists|i: int| 0 <= i < paths.len() && relevant(root, ignored, #[trigger] paths[i]) {
        full_reach()
    } else {
        gathered(root, ignored, paths)
    }
}

/// Map one filesystem event to index invalidations. `rescan` says the
/// watcher dropped events, whose paths are unknown; `tree_change` that the
/// event created, removed or renamed a directory.
pub fn wanted(
    root: &str,
    ignored: &[String],
    rescan: bool,
    tree_change: bool,
    paths: &[String],
) -> (r: Invalidates)
    ensures
        r.reach() == spec_wanted(root@, texts(ignored@), rescan, tree_change, texts(paths@)),
{
    let ghost ps = texts(paths@);
    let ghost ig = texts(ignored@);
    if rescan {
        return Invalidates::both();
    }
    if tree_change {
        let mut i: usize = 0;
        while i < paths.len()
            invariant
                i <= paths@.len(),
                ps == texts(paths@),
                ig == texts(ignored@),
                !rescan,
                tree_change,
                forall|j: int| 0 <= j < i ==> !relevant(root@, ig, #[trigger] ps[j]),
            decreases paths.len() - i,
        {
            let p = paths[i].as_str();
            assert(ps[i as int] == p@);
            if !excluded(root, p) && !is_ignored(root, p, ignored) {
                assert(relevant(root@, ig, ps[i as int]));
                return Invalidates::both();
            }
            i = i + 1;
        }
    }
    let mut reaches = Invalidates::nothing();
    let mut i: usize = 0;
    while i < paths.len()
        invariant
            i <= paths@.len(),
            ps == texts(paths@),
            ig == texts(ignored@),
            reaches.reach() == gathered(root@, ig, ps.take(i as int)),
        decreases paths.len() - i,
    {
        let p = paths[i].as_str();
        proof {
            assert(ps.take(i + 1).drop_last() =~= ps.take(i as int));
            assert(ps.take(i + 1).last() == p@);
        }
        if !excluded(root, p) && !is_ignored(root, p, ignored) {
            reaches = reaches.with(invalidated(p));
        }
        i = i + 1;
    }
    assert(ps.take(paths@.len() as int) =~= ps);
    reaches
}

/// The most BUILD files a pending burst lists before it becomes a full
/// rebuild.
pub const MAX_FILES: usize = 1024;

/// A pending reach no full rebuild lists files in, with at most
/// [`MAX_FILES`] of them.
pub open spec fn bounded(r: Reach) -> bool {
    r.1.len() <= MAX_FILES && (r.0 ==> r.1.len() == 0)
}

/// What has changed since the rebuild thread last looked, and whether it has
/// been woken for it.
#[derive(Debug)]
pub struct EventState {
    pub queued: bool,
    pub pending: Invalidates,
}

/// A pending reach after `reaches` joins it: the union, or a full rebuild
/// once it lists more than [`MAX_FILES`] files.
pub open spec fn recorded(pending: Reach, reaches: Reach) -> Reach {
    let merged = union(pending, reaches);
    if merged.1.len() > MAX_FILES {
        (true, Seq::empty(), merged.2, merged.3)
    } else {
        merged
    }
}

impl EventState {
    /// Nothing pending, nobody woken.
    pub fn new() -> (s: Self)
        ensures
            !s.queued,
            s.pending.reach() == no_reach(),
    {
        EventState { queued: false, pending: Invalidates::nothing() }
    }

    /// Add one event's reach. Returns whether the rebuild thread must be
    /// woken: only for the first event of a burst, and never for one that
    /// reaches nothing.
    pub fn record(&mut self, reaches: Invalidates) -> (wake: bool)
        ensures
            (if !reaches_anything(reaches.reach()) {
                &&& !wake
                &&& final(self).queued == old(self).queued
                &&& final(self).pending.reach() == old(self).pending.reach()
            } else {
                &&& wake == !old(self).queued
                &&& final(self).queued
                &&& final(self).pending.reach() == recorded(old(self).pending.reach(), reaches.reach())
            }),
            bounded(old(self).pending.reach()) ==> bounded(final(self).pending.reach()),
    {
        if !reaches.anything() {
            return false;
        }
        let mut pending = Invalidates::nothing();
        std::mem::swap(&mut pending, &mut self.pending);
        let mut merged = pending.with(reaches);
        if merged.target_files.len() > MAX_FILES {
            merged.full_targets = true;
            merged.target_files = Vec::new();
            assert(texts(merged.target_files@) =~= Seq::<Seq<char>>::empty());
        }
        self.pending = merged;
        if self.queued {
            return false;
        }
        self.queued = true;
        true
    }

    /// Hand the pending reach to the rebuild thread and start a new burst.
    pub fn take(&mut self) -> (taken: Invalidates)
        ensures
            taken.reach() == old(self).pending.reach(),
            !final(self).queued,
            final(self).pending.reach() == no_reach(),
    {
        self.queued = false;
        let mut taken = Invalidates::nothing();
        std::mem::swap(&mut taken, &mut self.pending);
        taken
    }
}

impl Default for EventState {
    fn default() -> (s: Self)
        ensures
            !s.queued,
            s.pending.reach() == no_reach(),
    {
        Self::new()
    }
}

/// What a burst of events leaves pending, each recorded in turn from
/// nothing; an event that reaches nothing is not recorded.
pub open spec fn burst(events: Seq<Reach>) -> Reach
    decreases events.len(),
{
    if events.len() == 0 {
        no_reach()
    } else {
        let before = burst(events.drop_last());
        if reaches_anything(events.last()) {
            recorded(before, events.last())
        } else {
            before
        }
    }
}

/// Every target file a burst of events names, in order.
pub open spec fn burst_files(events: Seq<Reach>) -> Seq<Seq<char>>
    decreases events.len(),
{
    if events.len() == 0 {
        Seq::empty()
    } else {
        burst_files(events.drop_last()) + events.last().1
    }
}

/// A burst reaches the union of what its events reach: the graph and the
/// configuration when any event does; a full rebuild of the target table
/// when any event asks for one or the files together pass
/// [`MAX_FILES`]; and otherwise every file any event names, in order.
pub proof fn a_burst_reaches_the_union_of_its_events(events: Seq<Reach>)
    ensures
        burst(events).2 == exists|i: int| 0 <= i < events.len() && (#[trigger] events[i]).2,
        burst(events).3 == exists|i: int| 0 <= i < events.len() && (#[trigger] events[i]).3,
        burst(events).0 == ((exists|i: int| 0 <= i < events.len() && (#[trigger] events[i]).0)
            || burst_files(events).len() > MAX_FILES),
        !burst(events).0 ==> burst(events).1 == burst_files(events),
        bounded(burst(events)),
    decreases events.len(),
{
    if events.len() > 0 {
        let shorter = events.drop_last();
        a_burst_reaches_the_union_of_its_events(shorter);
        let last = events.last();
        assert forall|i: int| 0 <= i < shorter.len() implies #[trigger] shorter[i] == events[i] by {}
        assert(events[events.len() - 1] == last);
        if burst(shorter).0 {
            assert(burst_files(events).len() >= burst_files(shorter).len());
        } else if !reaches_anything(last) {
            assert(last.1.len() == 0);
            assert(burst_files(events) =~= burst_files(shorter));
        }
        if exists|i: int| 0 <= i < shorter.len() && (#[trigger] shorter[i]).2 {
            let i = choose|i: int| 0 <= i < shorter.len() && (#[trigger] shorter[i]).2;
            assert(events[i].2);
        }
        if exists|i: int| 0 <= i < shorter.len() && (#[trigger] shorter[i]).3 {
            let i = choose|i: int| 0 <= i < shorter.len() && (#[trigger] shorter[i]).3;
            assert(events[i].3);
        }
        if exists|i: int| 0 <= i < shorter.len() && (#[trigger] shorter[i]).0 {
            let i = choose|i: int| 0 <= i < shorter.len() && (#[trigger] shorter[i]).0;
            assert(events[i].0);
        }
        if exists|i: int| 0 <= i < events.len() && (#[trigger] events[i]).2 {
            let i = choose|i: int| 0 <= i < events.len() && (#[trigger] events[i]).2;
            if i < shorter.len() {
                assert(shorter[i].2);
            }
        }
        if exists|i: int| 0 <= i < events.len() && (#[trigger] events[i]).3 {
            let i = choose|i: int| 0 <= i < events.len() && (#[trigger] events[i]).3;
            if i < shorter.len() {
                assert(shorter[i].3);
            }
        }
        if exists|i: int| 0 <= i < events.len() && (#[trigger] events[i]).0 {
            let i = choose|i: int| 0 <= i < events.len() && (#[trigger] events[i]).0;
            if i < shorter.len() {
                assert(shorter[i].0);
            }
        }
    }
}

/// What wakes the rebuild thread.
#[derive(Debug, Clone, Copy, PartialEq, Eq)]
pub enum Wake {
    /// Something changed on disk.
    Fs,
    /// Somebody asked for a full rebuild.
    Manual,
    Stop,
}

/// Which tiers a wake reaches: everything on request, what has piled up for
/// a filesystem wake, and nothing for a stop.
pub fn reached(wake: Wake, events: &mut EventState) -> (r: Invalidates)
    ensures
        (match wake {
            Wake::Manual => r.reach() == full_reach() && *final(events) == *old(events),
            Wake::Fs => r.reach() == old(events).pending.reach() && !final(events).queued
                && final(events).pending.reach() == no_reach(),
            Wake::Stop => r.reach() == no_reach() && *final(events) == *old(events),
        }),
{
    match wake {
        Wake::Manual => Invalidates::both(),
        Wake::Fs => events.take(),
        Wake::Stop => Invalidates::nothing(),
    }
}

/// Count of the watch's first publication: BUILD files read, targets found,
/// and how long it took.
pub struct Ready {
    pub files: usize,
    pub targets: usize,
    pub elapsed: std::time::Duration,
}

} // verus!
