//! The static tier of the target index: what parsing BUILD files finds,
//! keyed by the label each target resolves to.
//!
//! Files are numbered in the order they were read; a target names its file
//! by that number.

use vstd::prelude::*;
use crate::index::{package_dir, spec_package_dir};
use crate::text::{append, str_eq};
use crate::handlers::symbols::TopLevelCall;
use crate::line_index::{text_position, LineIndex};
use vstd::string::StringSliceAdditionalSpecFns;

verus! {

/// Index into [`Index::files`].
#[derive(Debug, Clone, Copy, PartialEq, Eq, Hash, PartialOrd, Ord)]
pub struct FileId(pub u32);

/// Where a target was declared.
#[derive(Debug, Clone, PartialEq, Eq)]
pub struct Target {
    /// Package-relative name, without the leading colon.
    pub name: String,
    /// The rule or macro that declared it, as written at the call site.
    pub rule: String,
    pub file: FileId,
    /// Byte offset of the declaring call within its file.
    pub offset: u32,
    /// Zero-based line of the target's name, and its column in UTF-16 code
    /// units.
    pub line: u32,
    pub character: u32,
}

/// The package label of a BUILD file: `//` and its directory relative to
/// `root`, or `//` alone at the root.
pub open spec fn spec_package_label(root: Seq<char>, build_file: Seq<char>) -> Option<Seq<char>> {
    match spec_package_dir(root, build_file) {
        None => None,
        Some(dir) => Some("//"@ + dir),
    }
}

/// Package label for a BUILD file, e.g. `//lib/sub`, relative to `root`.
pub fn package_label(root: &str, build_file: &str) -> (label: Option<String>)
    ensures
        (match spec_package_label(root@, build_file@) {
            Some(l) => label matches Some(s) && s@ == l,
            None => label is None,
        }),
{
    match package_dir(root, build_file) {
        None => None,
        Some(dir) => {
            let mut label = "//".to_owned();
            append(&mut label, dir.as_str());
            proof {
                reveal_strlit("//");
            }
            Some(label)
        },
    }
}

/// The label a target named `name` in `package` resolves to: `//:name` at
/// the root, `//pkg:name` elsewhere.
pub open spec fn spec_target_label(package: Seq<char>, name: Seq<char>) -> Seq<char> {
    if package == "//"@ {
        "//:"@ + name
    } else {
        package + ":"@ + name
    }
}

/// The label a target named `name` in `package` resolves to.
pub fn target_label(package: &str, name: &str) -> (label: String)
    ensures
        label@ == spec_target_label(package@, name@),
{
    if str_eq(package, "//") {
        let mut label = "//:".to_owned();
        append(&mut label, name);
        label
    } else {
        let mut label = package.to_owned();
        append(&mut label, ":");
        append(&mut label, name);
        label
    }
}

/// An immutable snapshot of the static tier.
#[derive(Debug)]
pub struct Index {
    /// Every BUILD file read, in order.
    files: Vec<String>,
    /// Targets and the labels they resolve to, each label once.
    targets: Vec<(String, Target)>,
    /// Whether the graph tier has run. False means the counts undercount.
    graph_loaded: bool,
}

/// A list of labelled targets as a map from label to target.
pub open spec fn table_of(entries: Seq<(String, Target)>) -> Map<Seq<char>, Target> {
    Map::new(
        |l: Seq<char>| labels_of(entries).contains(l),
        |l: Seq<char>| entries[labels_of(entries).index_of(l)].1,
    )
}

/// The labels of a list of labelled targets.
pub open spec fn labels_of(entries: Seq<(String, Target)>) -> Seq<Seq<char>> {
    entries.map_values(|e: (String, Target)| e.0@)
}

impl Index {
    #[verifier::type_invariant]
    spec fn distinct_labels(&self) -> bool {
        labels_of(self.targets@).no_duplicates()
    }

    /// The index as a map from label to target.
    pub closed spec fn table(&self) -> Map<Seq<char>, Target> {
        table_of(self.targets@)
    }

    /// The BUILD files read, in order.
    pub closed spec fn file_list(&self) -> Seq<Seq<char>> {
        self.files@.map_values(|f: String| f@)
    }

    /// Whether the graph tier has run.
    pub closed spec fn graph(&self) -> bool {
        self.graph_loaded
    }

    /// An index of nothing.
    pub fn new() -> (index: Self)
        ensures
            index.table() == Map::<Seq<char>, Target>::empty(),
            index.file_list().len() == 0,
            !index.graph(),
    {
        let index = Index { files: Vec::new(), targets: Vec::new(), graph_loaded: false };
        assert(index.table() =~= Map::<Seq<char>, Target>::empty());
        index
    }

    fn find(&self, label: &str) -> (at: Option<usize>)
        ensures
            (match at {
                Some(i) => i < self.targets@.len() && self.targets@[i as int].0@ == label@,
                None => !labels_of(self.targets@).contains(label@),
            }),
    {
        let mut i: usize = 0;
        while i < self.targets.len()
            invariant
                i <= self.targets@.len(),
                forall|j: int| 0 <= j < i ==> self.targets@[j].0@ != label@,
            decreases self.targets.len() - i,
        {
            if str_eq(self.targets[i].0.as_str(), label) {
                return Some(i);
            }
            i = i + 1;
        }
        proof {
            if labels_of(self.targets@).contains(label@) {
                let k = choose|k: int| 0 <= k < labels_of(self.targets@).len() && labels_of(self.targets@)[k] == label@;
                assert(self.targets@[k].0@ == label@);
            }
        }
        None
    }

    /// The target `label` resolves to.
    pub fn target(&self, label: &str) -> (t: Option<&Target>)
        ensures
            (match t {
                Some(t) => self.table().dom().contains(label@) && *t == self.table()[label@],
                None => !self.table().dom().contains(label@),
            }),
    {
        proof {
            use_type_invariant(self);
        }
        match self.find(label) {
            Some(i) => {
                proof {
                    let ls = labels_of(self.targets@);
                    assert(ls[i as int] == label@);
                                        assert(ls.contains(label@));
                    lemma_index_of_unique(ls, i as int);
                }
                Some(&self.targets[i].1)
            },
            None => None,
        }
    }

    /// Record `target` under `label`, in place of any target already there.
    pub fn insert(&mut self, label: String, target: Target)
        ensures
            final(self).table() == old(self).table().insert(label@, target),
            final(self).file_list() == old(self).file_list(),
            final(self).graph() == old(self).graph(),
    {
        proof {
            use_type_invariant(&*self);
        }
        let ghost before = self.table();
        let ghost old_targets = self.targets@;
        let found = self.find(label.as_str());
        let mut targets: Vec<(String, Target)> = Vec::new();
        std::mem::swap(&mut targets, &mut self.targets);
        match found {
            Some(i) => {
                let ghost l = label@;
                targets.set(i, (label, target));
                proof {
                    let ls0 = labels_of(old_targets);
                    let ls = labels_of(targets@);
                    assert(ls =~= ls0.update(i as int, l));
                    assert(ls0[i as int] == l);
                    assert(ls =~= ls0);
                    assert(ls0.contains(l));
                    assert(table_of(targets@) =~= before.insert(l, target)) by {
                        assert forall|k: Seq<char>| #[trigger] ls.contains(k) implies
                            targets@[ls.index_of(k)].1 == (if k == l { target } else { before[k] }) by {
                            let j = ls.index_of(k);
                            lemma_index_of(ls, k);
                            if k == l {
                                lemma_index_of_unique(ls, i as int);
                            } else {
                                assert(j != i);
                            }
                        }
                    }
                }
                self.targets = targets;
            },
            None => {
                let ghost l = label@;
                targets.push((label, target));
                proof {
                    let ls0 = labels_of(old_targets);
                    let ls = labels_of(targets@);
                    assert(ls =~= ls0.push(l));
                    assert(ls.no_duplicates()) by {
                        assert forall|a: int, b: int| 0 <= a < ls.len() && 0 <= b < ls.len() && a != b
                            implies ls[a] != ls[b] by {
                            if a < ls0.len() && b < ls0.len() {
                            } else if a == ls0.len() {
                                assert(ls0.contains(ls[b]) || b == a);
                            } else {
                                assert(ls0.contains(ls[a]) || b == a);
                            }
                        }
                    }
                    assert(table_of(targets@) =~= before.insert(l, target)) by {
                        assert forall|k: Seq<char>| #[trigger] ls.contains(k) implies
                            targets@[ls.index_of(k)].1 == (if k == l { target } else { before[k] }) by {
                            lemma_index_of(ls, k);
                            let j = ls.index_of(k);
                            if k == l {
                                lemma_index_of_unique(ls, ls0.len() as int);
                            } else {
                                assert(ls0.contains(k)) by {
                                    assert(j < ls0.len());
                                    assert(ls0[j] == k);
                                }
                                lemma_index_of(ls0, k);
                                lemma_index_of_unique(ls, ls0.index_of(k));
                            }
                        }
                        assert forall|k: Seq<char>| #[trigger] before.insert(l, target).dom().contains(k)
                            implies ls.contains(k) by {
                            if k == l {
                                assert(ls[ls0.len() as int] == l);
                            } else {
                                let j = ls0.index_of(k);
                                lemma_index_of(ls0, k);
                                assert(ls[j] == k);
                            }
                        }
                    }
                }
                self.targets = targets;
            },
        }
    }

    /// The BUILD file numbered `id`.
    pub fn path(&self, id: FileId) -> (p: Option<&str>)
        ensures
            (match p {
                Some(p) => id.0 < self.file_list().len() && p@ == self.file_list()[id.0 as int],
                None => id.0 >= self.file_list().len(),
            }),
    {
        let i = id.0 as usize;
        if i < self.files.len() {
            Some(self.files[i].as_str())
        } else {
            None
        }
    }

    /// Number the next BUILD file read; `None` once every number is taken.
    pub fn add_file(&mut self, path: String) -> (id: Option<FileId>)
        ensures
            (match id {
                Some(id) => id.0 == old(self).file_list().len()
                    && final(self).file_list() == old(self).file_list().push(path@),
                None => old(self).file_list().len() > u32::MAX
                    && final(self).file_list() == old(self).file_list(),
            }),
            final(self).table() == old(self).table(),
            final(self).graph() == old(self).graph(),
    {
        proof {
            use_type_invariant(&*self);
        }
        let n = self.files.len();
        if n > 4294967295 {
            return None;
        }
        let ghost before = self.files@;
        let mut files: Vec<String> = Vec::new();
        std::mem::swap(&mut files, &mut self.files);
        files.push(path);
        self.files = files;
        proof {
            assert(self.files@.map_values(|f: String| f@) =~= before.map_values(|f: String| f@).push(self.files@[n as int]@));
        }
        Some(FileId(n as u32))
    }

    /// How many BUILD files were read.
    pub fn files_read(&self) -> (n: usize)
        ensures
            n == self.file_list().len(),
    {
        self.files.len()
    }

    /// Record that the graph tier has run.
    pub fn mark_graph_loaded(&mut self)
        ensures
            final(self).graph(),
            final(self).table() == old(self).table(),
            final(self).file_list() == old(self).file_list(),
    {
        proof {
            use_type_invariant(&*self);
        }
        self.graph_loaded = true;
    }

    /// Whether the graph tier has run; until it has, counts undercount.
    pub fn graph_loaded(&self) -> (b: bool)
        ensures
            b == self.graph(),
    {
        self.graph_loaded
    }

    /// How many labels resolve.
    pub fn len(&self) -> (n: usize)
        ensures
            n == self.table().len(),
    {
        proof {
            use_type_invariant(self);
            lemma_table_len(self.targets@);
        }
        self.targets.len()
    }

    /// Whether no label resolves.
    pub fn is_empty(&self) -> (b: bool)
        ensures
            b == (self.table().len() == 0),
    {
        self.len() == 0
    }
}

/// In a sequence without repeats, the first place an item occurs is the
/// place it was found.
proof fn lemma_index_of_unique(ls: Seq<Seq<char>>, i: int)
    requires
        ls.no_duplicates(),
        0 <= i < ls.len(),
    ensures
        ls.index_of(ls[i]) == i,
{
    lemma_index_of(ls, ls[i]);
}

/// Where an item that occurs is found, it occurs.
proof fn lemma_index_of(ls: Seq<Seq<char>>, k: Seq<char>)
    requires
        ls.contains(k),
    ensures
        0 <= ls.index_of(k) < ls.len(),
        ls[ls.index_of(k)] == k,
{
}

/// A table has as many entries as its list has labels, when no label
/// repeats.
proof fn lemma_table_len(entries: Seq<(String, Target)>)
    requires
        labels_of(entries).no_duplicates(),
    ensures
        table_of(entries).len() == entries.len(),
{
    let ls = labels_of(entries);
    assert(table_of(entries).dom() =~= ls.to_set());
    ls.unique_seq_to_set();
}

/// The target a top-level call of a BUILD file declares, under its label:
/// a call with a rule name and a string `name` declares one, placed at the
/// name's content, or at the call where the tree gives no range for it.
pub open spec fn declared_by(bs: Seq<u8>, call: TopLevelCall, file: FileId, package: Seq<char>) -> Option<(Seq<char>, Target)> {
    match (call.rule, call.name) {
        (Some(rule), Some(name)) => {
            let anchor = match call.name_range {
                Some(range) => range.0 as int,
                None => call.start as int,
            };
            let (line, character) = text_position(bs, anchor);
            Some((spec_target_label(package, name@), Target { name, rule, file, offset: call.start, line, character }))
        },
        _ => None,
    }
}

/// `table` with what `calls` declare recorded in order, a later
/// declaration of a label in place of an earlier one.
pub open spec fn declared_all(
    table: Map<Seq<char>, Target>,
    bs: Seq<u8>,
    calls: Seq<TopLevelCall>,
    file: FileId,
    package: Seq<char>,
) -> Map<Seq<char>, Target>
    decreases calls.len(),
{
    if calls.len() == 0 {
        table
    } else {
        let before = declared_all(table, bs, calls.drop_last(), file, package);
        match declared_by(bs, calls.last(), file, package) {
            Some((label, target)) => before.insert(label, target),
            None => before,
        }
    }
}

/// Record every target the top-level calls of the BUILD file `file`, in
/// `package`, declare; `text` is the file's text, which places them.
pub fn collect_targets(text: &str, calls: &[TopLevelCall], file: FileId, package: &str, index: &mut Index)
    requires
        text.spec_bytes().len() <= isize::MAX,
    ensures
        final(index).table() == declared_all(old(index).table(), text.spec_bytes(), calls@, file, package@),
        final(index).file_list() == old(index).file_list(),
        final(index).graph() == old(index).graph(),
{
    let lines = LineIndex::new(text);
    let ghost bs = text.spec_bytes();
    let mut i: usize = 0;
    assert(calls@.take(0) =~= Seq::<TopLevelCall>::empty());
    while i < calls.len()
        invariant
            i <= calls.len(),
            lines.indexes(text),
            bs == text.spec_bytes(),
            bs.len() <= isize::MAX,
            index.table() == declared_all(old(index).table(), bs, calls@.take(i as int), file, package@),
            index.file_list() == old(index).file_list(),
            index.graph() == old(index).graph(),
        decreases calls.len() - i,
    {
        let call = &calls[i];
        assert(calls@.take(i + 1).drop_last() =~= calls@.take(i as int));
        assert(calls@.take(i + 1).last() == calls@[i as int]);
        match (&call.rule, &call.name) {
            (Some(rule), Some(name)) => {
                let anchor: usize = match call.name_range {
                    Some(range) => range.0 as usize,
                    None => call.start as usize,
                };
                let (line, character) = lines.position(text, anchor);
                let label = target_label(package, name.as_str());
                index.insert(label, Target { name: name.clone(), rule: rule.clone(), file, offset: call.start, line, character });
            },
            _ => {},
        }
        i = i + 1;
    }
    assert(calls@.take(calls.len() as int) =~= calls@);
}

} // verus!
