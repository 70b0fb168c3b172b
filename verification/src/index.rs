//! The target index: where targets are declared and where labels mention
//! them, and which directories of a workspace it may read.
//!
//! Paths are carried as text. A target's position is its name's zero-based
//! line and its column in UTF-16 code units, the encoding LSP positions use.

use vstd::prelude::*;
use crate::paths::{components_of, parent_of, path_parent, path_strip_prefix, relative_to, same_path, texts};
use crate::repos::Repos;
use crate::table::Table;
use vstd::seq_lib::lemma_no_dup_in_concat;
use crate::text::{
    chars_of, forward_slashes, starts_with, str_eq, string_of, trim,
    trim_chars, to_forward_slashes,
};

verus! {

/// Where a target was declared.
#[derive(Debug, Clone, PartialEq, Eq)]
pub struct Target {
    /// Package-relative name, without the leading colon.
    pub name: String,
    /// The rule or macro that declared it, as written at the call site.
    pub rule: String,
    pub file: String,
    /// Zero-based line of the target's name, and its column in UTF-16 code
    /// units.
    pub line: u32,
    pub character: u32,
    /// The name's width in UTF-16 code units; zero where no name is written,
    /// as for every target a macro computed.
    pub length: u32,
}

/// Where a label was written, somewhere other than its own declaration: the
/// position of the name inside the label, which is the span a rename
/// replaces. Ordered by file, then position.
#[derive(Debug, Clone, PartialEq, Eq, PartialOrd, Ord)]
pub struct Reference {
    pub file: String,
    pub line: u32,
    pub character: u32,
    /// The name's width in UTF-16 code units.
    pub length: u32,
}

/// Filtering a list without repeats leaves a list without repeats.
proof fn lemma_filter_no_duplicates<A>(s: Seq<A>, p: spec_fn(A) -> bool)
    requires
        s.no_duplicates(),
    ensures
        s.filter(p).no_duplicates(),
    decreases s.len(),
{
    reveal(Seq::filter);
    if s.len() > 0 {
        let rest = s.drop_last();
        assert(rest.no_duplicates());
        lemma_filter_no_duplicates(rest, p);
        if p(s.last()) && rest.filter(p).contains(s.last()) {
            rest.lemma_filter_contains_rev(p, s.last());
            let k = choose|k: int| 0 <= k < rest.len() && rest[k] == s.last();
            assert(s[k] == s[s.len() - 1]);
        }
    }
}

/// What a filter keeps is what the list holds and the predicate accepts.
proof fn lemma_filter_contains_iff<A>(s: Seq<A>, p: spec_fn(A) -> bool, x: A)
    ensures
        s.filter(p).contains(x) <==> s.contains(x) && p(x),
{
    if s.filter(p).contains(x) {
        s.lemma_filter_contains_rev(p, x);
        let k = choose|k: int| 0 <= k < s.filter(p).len() && s.filter(p)[k] == x;
        s.lemma_filter_pred(p, k);
    }
    if s.contains(x) && p(x) {
        let k = choose|k: int| 0 <= k < s.len() && s[k] == x;
        s.lemma_filter_contains(p, k);
    }
}

/// What one source of targets knows: the disk's BUILD files, the buffers
/// open in the editor, or what only Bazel can name.
#[derive(Debug)]
pub struct Tier {
    /// How many BUILD files this was built from, including those that
    /// declare nothing.
    pub files: u32,
    /// Keyed by `//package:name`, the form a label resolves to.
    pub targets: Table<Target>,
    /// Every mention of a label in a rule-call argument, under the same key
    /// as `targets`. A key here need not be a key there: a label may name a
    /// source file, an output file, or nothing at all.
    pub references: Table<Vec<Reference>>,
    /// The files this tier is the whole truth about, so that a target it
    /// does not declare in one of them is a target that does not exist.
    /// Empty for every tier but the buffers.
    pub speaks_for: Vec<String>,
}

impl Tier {
    /// Whether the tier declares `label`.
    pub open spec fn declares(&self, label: Seq<char>) -> bool {
        self.targets.map().dom().contains(label)
    }

    /// The target the tier declares under `label`.
    pub open spec fn declared(&self, label: Seq<char>) -> Target {
        self.targets.map()[label]
    }

    /// Whether the tier speaks for `file`: one of its files is `file`,
    /// component for component.
    pub open spec fn speaks(&self, file: Seq<char>) -> bool {
        exists|i: int|
            0 <= i < self.speaks_for@.len() && components_of(#[trigger] self.speaks_for@[i]@)
                == components_of(file)
    }

    /// The mentions of `label` the tier records, in the order recorded.
    pub open spec fn mentions(&self, label: Seq<char>) -> Seq<Reference> {
        if self.references.map().dom().contains(label) {
            self.references.map()[label]@
        } else {
            Seq::empty()
        }
    }

    /// A tier that knows nothing.
    pub fn new() -> (tier: Self)
        ensures
            tier.files == 0,
            tier.targets.map() == Map::<Seq<char>, Target>::empty(),
            tier.targets.keys().len() == 0,
            tier.references.map() == Map::<Seq<char>, Vec<Reference>>::empty(),
            tier.speaks_for@.len() == 0,
    {
        Tier { files: 0, targets: Table::new(), references: Table::new(), speaks_for: Vec::new() }
    }

    /// How many targets the tier declares.
    pub fn len(&self) -> (n: usize)
        ensures
            n == self.targets.keys().len(),
    {
        self.targets.len()
    }

    /// Record that `label` is declared as `target`, in place of any earlier
    /// declaration.
    pub fn declare(&mut self, label: String, target: Target)
        ensures
            final(self).targets.map() == old(self).targets.map().insert(label@, target),
            final(self).references.map() == old(self).references.map(),
            final(self).speaks_for@ == old(self).speaks_for@,
            final(self).files == old(self).files,
    {
        self.targets.insert(label, target);
    }

    /// Record a mention of `label`, after those already recorded.
    pub fn mention(&mut self, label: String, reference: Reference)
        ensures
            final(self).mentions(label@) == old(self).mentions(label@).push(reference),
            forall|other: Seq<char>|
                other != label@ ==> #[trigger] final(self).mentions(other) == old(self).mentions(other),
            final(self).targets.map() == old(self).targets.map(),
            final(self).speaks_for@ == old(self).speaks_for@,
            final(self).files == old(self).files,
    {
        self.references.push_to(label, reference);
    }

    /// Record that the tier is the whole truth about `file`.
    pub fn speak_for(&mut self, file: String)
        ensures
            final(self).speaks_for@ == old(self).speaks_for@.push(file),
            final(self).targets.map() == old(self).targets.map(),
            final(self).references.map() == old(self).references.map(),
            final(self).files == old(self).files,
    {
        self.speaks_for.push(file);
    }

    fn speaks_for_file(&self, file: &str) -> (b: bool)
        ensures
            b == self.speaks(file@),
    {
        let mut i: usize = 0;
        while i < self.speaks_for.len()
            invariant
                i <= self.speaks_for@.len(),
                forall|j: int|
                    0 <= j < i ==> components_of(#[trigger] self.speaks_for@[j]@) != components_of(file@),
            decreases self.speaks_for.len() - i,
        {
            if same_path(self.speaks_for[i].as_str(), file) {
                return true;
            }
            i = i + 1;
        }
        false
    }
}

impl Default for Tier {
    fn default() -> (tier: Self)
        ensures
            tier.files == 0,
            tier.targets.map() == Map::<Seq<char>, Target>::empty(),
            tier.references.map() == Map::<Seq<char>, Vec<Reference>>::empty(),
            tier.speaks_for@.len() == 0,
    {
        Tier::new()
    }
}

/// Every tier at once, for the life of one request. Precedence is the
/// buffer the user is typing into, then the disk under it, then what only
/// Bazel can name.
#[derive(Debug)]
pub struct Index {
    pub buffer: Tier,
    pub disk: Tier,
    pub graph: Tier,
    pub repos: Repos,
}

impl Index {
    /// The declaration `label` resolves to.
    ///
    /// A buffer's declaration wins. The disk's stands unless a buffer speaks
    /// for the file it sits in: that buffer has then said everything true
    /// about the file, so a target it no longer declares is gone. The graph
    /// answers only for a label no parsed tier declares at all.
    pub open spec fn resolved(&self, label: Seq<char>) -> Option<Target> {
        if self.buffer.declares(label) {
            Some(self.buffer.declared(label))
        } else if self.disk.declares(label) {
            if self.buffer.speaks(self.disk.declared(label).file@) {
                None
            } else {
                Some(self.disk.declared(label))
            }
        } else if self.graph.declares(label) {
            Some(self.graph.declared(label))
        } else {
            None
        }
    }

    /// The mentions of `label`: the buffer's, then the disk's in files no
    /// buffer speaks for. The graph records no mentions.
    pub open spec fn mentioned(&self, label: Seq<char>) -> Seq<Reference> {
        self.buffer.mentions(label) + self.disk.mentions(label).filter(
            |r: Reference| !self.buffer.speaks(r.file@),
        )
    }

    /// Whether only Bazel declares `label`.
    pub open spec fn bazel_only(&self, label: Seq<char>) -> bool {
        self.graph.declares(label) && !self.buffer.declares(label) && !self.disk.declares(label)
    }

    /// Whether a label the disk declares is listed from the disk.
    pub open spec fn disk_listed(&self, label: Seq<char>) -> bool {
        !self.buffer.declares(label) && !self.buffer.speaks(self.disk.declared(label).file@)
    }

    /// The labels listed as known: the buffer's, then the disk's it does not
    /// hide, then those only Bazel declares.
    pub open spec fn listing(&self) -> Seq<Seq<char>> {
        self.buffer.targets.keys() + self.disk.targets.keys().filter(
            |l: Seq<char>| self.disk_listed(l),
        ) + self.graph.targets.keys().filter(|l: Seq<char>| self.bazel_only(l))
    }

    /// A view of the disk alone, with no buffers, no Bazel and no
    /// repository mapping.
    pub fn of_disk(disk: Tier) -> (index: Self)
        ensures
            index.disk == disk,
            index.buffer.targets.map() == Map::<Seq<char>, Target>::empty(),
            index.buffer.references.map() == Map::<Seq<char>, Vec<Reference>>::empty(),
            index.buffer.speaks_for@.len() == 0,
            index.graph.targets.map() == Map::<Seq<char>, Target>::empty(),
    {
        Index { buffer: Tier::new(), disk, graph: Tier::new(), repos: Repos::empty() }
    }

    /// The declaration of `label`, from the source if any parser has seen it
    /// and from Bazel otherwise.
    pub fn target(&self, label: &str) -> (t: Option<&Target>)
        ensures
            (match t {
                Some(t) => self.resolved(label@) == Some(*t),
                None => self.resolved(label@) is None,
            }),
    {
        match self.buffer.targets.get(label) {
            Some(t) => {
                return Some(t);
            },
            None => {},
        }
        match self.disk.targets.get(label) {
            Some(t) => {
                if self.buffer.speaks_for_file(t.file.as_str()) {
                    None
                } else {
                    Some(t)
                }
            },
            None => self.graph.targets.get(label),
        }
    }

    /// Every recorded mention of `label`: the buffer's, then the disk's in
    /// files no buffer speaks for.
    pub fn references(&self, label: &str) -> (found: Vec<&Reference>)
        ensures
            found@.len() == self.mentioned(label@).len(),
            forall|i: int| 0 <= i < found@.len() ==> *found@[i] == self.mentioned(label@)[i],
    {
        let mut found: Vec<&Reference> = Vec::new();
        match self.buffer.references.get(label) {
            Some(refs) => {
                let mut j: usize = 0;
                while j < refs.len()
                    invariant
                        j <= refs@.len(),
                        refs@ == self.buffer.mentions(label@),
                        found@.len() == j,
                        forall|i: int| 0 <= i < j ==> *found@[i] == refs@[i],
                    decreases refs.len() - j,
                {
                    found.push(&refs[j]);
                    j = j + 1;
                }
            },
            None => {},
        }
        let ghost head = self.buffer.mentions(label@);
        assert(found@.len() == head.len());
        let ghost keep = |r: Reference| !self.buffer.speaks(r.file@);
        match self.disk.references.get(label) {
            Some(refs) => {
                let mut j: usize = 0;
                while j < refs.len()
                    invariant
                        j <= refs@.len(),
                        refs@ == self.disk.mentions(label@),
                        head == self.buffer.mentions(label@),
                        keep == (|r: Reference| !self.buffer.speaks(r.file@)),
                        found@.len() == head.len() + refs@.take(j as int).filter(keep).len(),
                        forall|i: int|
                            0 <= i < found@.len() ==> *found@[i] == (head + refs@.take(
                                j as int,
                            ).filter(keep))[i],
                    decreases refs.len() - j,
                {
                    let ghost before = refs@.take(j as int);
                    assert(refs@.take(j + 1).drop_last() =~= before);
                    assert(refs@.take(j + 1).last() == refs@[j as int]);
                    reveal(Seq::filter);
                    if !self.buffer.speaks_for_file(refs[j].file.as_str()) {
                        assert(refs@.take(j + 1).filter(keep) == before.filter(keep).push(refs@[j as int]));
                        found.push(&refs[j]);
                    } else {
                        assert(refs@.take(j + 1).filter(keep) == before.filter(keep));
                    }
                    j = j + 1;
                }
                assert(refs@.take(refs@.len() as int) =~= refs@);
            },
            None => {
                assert(self.disk.mentions(label@).filter(keep) =~= Seq::<Reference>::empty()) by {
                    reveal(Seq::filter);
                }
            },
        }
        found
    }

    /// Whether `label` is one only Bazel can name: no parser saw it.
    pub fn only_bazel_knows(&self, label: &str) -> (b: bool)
        ensures
            b == self.bazel_only(label@),
    {
        self.graph.targets.contains(label) && !self.buffer.targets.contains(label)
            && !self.disk.targets.contains(label)
    }

    /// Every target any tier knows, each label once, with the declaration
    /// it resolves to.
    pub fn targets(&self) -> (listed: Vec<(&str, &Target)>)
        ensures
            listed@.len() == self.listing().len(),
            forall|i: int|
                #![trigger listed@[i]]
                0 <= i < listed@.len() ==> listed@[i].0@ == self.listing()[i] && self.resolved(
                    listed@[i].0@,
                ) == Some(*listed@[i].1),
            self.listing().no_duplicates(),
            forall|l: Seq<char>| #[trigger] self.listing().contains(l) <==> self.resolved(l) is Some,
    {
        let mut listed: Vec<(&str, &Target)> = Vec::new();
        let nb = self.buffer.targets.len();
        let mut j: usize = 0;
        while j < nb
            invariant
                nb == self.buffer.targets.keys().len(),
                j <= nb,
                listed@.len() == j,
                forall|i: int|
                    #![trigger listed@[i]]
                    0 <= i < j ==> listed@[i].0@ == self.buffer.targets.keys()[i] && self.resolved(
                        listed@[i].0@,
                    ) == Some(*listed@[i].1),
            decreases nb - j,
        {
            let label = self.buffer.targets.key_at(j);
            let t = self.buffer.targets.value_at(j);
            listed.push((label, t));
            j = j + 1;
        }
        let ghost bk = self.buffer.targets.keys();
        let ghost dk = self.disk.targets.keys();
        let ghost on_disk = |l: Seq<char>| self.disk_listed(l);
        let nd = self.disk.targets.len();
        let mut j: usize = 0;
        while j < nd
            invariant
                nd == dk.len(),
                dk == self.disk.targets.keys(),
                bk == self.buffer.targets.keys(),
                on_disk == (|l: Seq<char>| self.disk_listed(l)),
                j <= nd,
                listed@.len() == (bk + dk.take(j as int).filter(on_disk)).len(),
                forall|i: int|
                    #![trigger listed@[i]]
                    0 <= i < listed@.len() ==> listed@[i].0@ == (bk + dk.take(j as int).filter(
                        on_disk,
                    ))[i] && self.resolved(listed@[i].0@) == Some(*listed@[i].1),
            decreases nd - j,
        {
            let label = self.disk.targets.key_at(j);
            let t = self.disk.targets.value_at(j);
            let ghost before = dk.take(j as int);
            assert(dk.take(j + 1).drop_last() =~= before);
            assert(dk.take(j + 1).last() == dk[j as int]);
            reveal(Seq::filter);
            if !self.buffer.targets.contains(label) && !self.buffer.speaks_for_file(t.file.as_str()) {
                assert(dk.take(j + 1).filter(on_disk) == before.filter(on_disk).push(label@));
                assert((bk + dk.take(j + 1).filter(on_disk)) =~= (bk + before.filter(on_disk)).push(label@));
                assert(self.resolved(label@) == Some(*t));
                listed.push((label, t));
            } else {
                assert(dk.take(j + 1).filter(on_disk) == before.filter(on_disk));
                assert((bk + dk.take(j + 1).filter(on_disk)) =~= (bk + before.filter(on_disk)));
            }
            j = j + 1;
        }
        assert(dk.take(nd as int) =~= dk);
        let ghost head = bk + dk.filter(on_disk);
        let ghost gk = self.graph.targets.keys();
        let ghost only = |l: Seq<char>| self.bazel_only(l);
        let ng = self.graph.targets.len();
        let mut j: usize = 0;
        while j < ng
            invariant
                ng == gk.len(),
                gk == self.graph.targets.keys(),
                head == self.buffer.targets.keys() + self.disk.targets.keys().filter(
                    |l: Seq<char>| self.disk_listed(l),
                ),
                only == (|l: Seq<char>| self.bazel_only(l)),
                j <= ng,
                listed@.len() == (head + gk.take(j as int).filter(only)).len(),
                forall|i: int|
                    #![trigger listed@[i]]
                    0 <= i < listed@.len() ==> listed@[i].0@ == (head + gk.take(j as int).filter(
                        only,
                    ))[i] && self.resolved(listed@[i].0@) == Some(*listed@[i].1),
            decreases ng - j,
        {
            let label = self.graph.targets.key_at(j);
            let t = self.graph.targets.value_at(j);
            let ghost before = gk.take(j as int);
            assert(gk.take(j + 1).drop_last() =~= before);
            assert(gk.take(j + 1).last() == gk[j as int]);
            reveal(Seq::filter);
            if !self.buffer.targets.contains(label) && !self.disk.targets.contains(label) {
                assert(gk.take(j + 1).filter(only) == before.filter(only).push(label@));
                assert((head + gk.take(j + 1).filter(only)) =~= (head + before.filter(only)).push(label@));
                assert(self.resolved(label@) == Some(*t));
                listed.push((label, t));
            } else {
                assert(gk.take(j + 1).filter(only) == before.filter(only));
                assert((head + gk.take(j + 1).filter(only)) =~= (head + before.filter(only)));
            }
            j = j + 1;
        }
        assert(gk.take(ng as int) =~= gk);
        assert(self.listing() =~= head + gk.filter(only));
        proof {
            self.lemma_listing(bk, dk, gk);
        }
        listed
    }

    /// The listing names each label once, and exactly the labels that
    /// resolve.
    proof fn lemma_listing(&self, bk: Seq<Seq<char>>, dk: Seq<Seq<char>>, gk: Seq<Seq<char>>)
        requires
            bk == self.buffer.targets.keys(),
            dk == self.disk.targets.keys(),
            gk == self.graph.targets.keys(),
            bk.no_duplicates(),
            dk.no_duplicates(),
            gk.no_duplicates(),
            forall|k: Seq<char>| #[trigger] self.buffer.targets.map().dom().contains(k) <==> bk.contains(k),
            forall|k: Seq<char>| #[trigger] self.disk.targets.map().dom().contains(k) <==> dk.contains(k),
            forall|k: Seq<char>| #[trigger] self.graph.targets.map().dom().contains(k) <==> gk.contains(k),
        ensures
            self.listing().no_duplicates(),
            forall|l: Seq<char>| #[trigger] self.listing().contains(l) <==> self.resolved(l) is Some,
    {
        let on_disk = |l: Seq<char>| self.disk_listed(l);
        let only = |l: Seq<char>| self.bazel_only(l);
        let df = dk.filter(on_disk);
        let gf = gk.filter(only);
        assert(self.listing() =~= bk + df + gf);
        lemma_filter_no_duplicates(dk, on_disk);
        lemma_filter_no_duplicates(gk, only);
        assert forall|l: Seq<char>| df.contains(l) <==> dk.contains(l) && on_disk(l) by {
            lemma_filter_contains_iff(dk, on_disk, l);
        }
        assert forall|l: Seq<char>| gf.contains(l) <==> gk.contains(l) && only(l) by {
            lemma_filter_contains_iff(gk, only, l);
        }
        assert forall|i: int, j: int| 0 <= i < bk.len() && 0 <= j < df.len() implies bk[i] != df[j] by {
            assert(df.contains(df[j]));
            assert(bk.contains(bk[i]));
        }
        lemma_no_dup_in_concat(bk, df);
        assert forall|i: int, j: int| 0 <= i < (bk + df).len() && 0 <= j < gf.len() implies (bk
            + df)[i] != gf[j] by {
            assert(gf.contains(gf[j]));
            if i < bk.len() {
                assert(bk.contains(bk[i]));
            } else {
                assert(df.contains(df[i - bk.len()]));
            }
        }
        lemma_no_dup_in_concat(bk + df, gf);
        assert forall|l: Seq<char>| #[trigger] self.listing().contains(l) <==> self.resolved(l) is Some by {
            if self.listing().contains(l) {
                let i = choose|i: int| 0 <= i < self.listing().len() && self.listing()[i] == l;
                if i < bk.len() {
                    assert(bk.contains(l));
                } else if i < bk.len() + df.len() {
                    assert(df.contains(l));
                } else {
                    assert(gf.contains(l));
                }
            }
            if self.resolved(l) is Some {
                if self.buffer.declares(l) {
                    let i = choose|i: int| 0 <= i < bk.len() && bk[i] == l;
                    assert((bk + df + gf)[i] == l);
                } else if self.disk.declares(l) {
                    assert(df.contains(l));
                    let i = choose|i: int| 0 <= i < df.len() && df[i] == l;
                    assert((bk + df + gf)[bk.len() + i] == l);
                } else {
                    assert(gf.contains(l));
                    let i = choose|i: int| 0 <= i < gf.len() && gf[i] == l;
                    assert((bk + df + gf)[bk.len() + df.len() + i] == l);
                }
            }
        }
    }

    /// How many targets are listed.
    pub fn len(&self) -> (n: usize)
        ensures
            n == self.listing().len(),
    {
        self.targets().len()
    }

    /// What this workspace's apparent repository names mean.
    pub fn repos(&self) -> (r: &Repos)
        ensures
            *r == self.repos,
    {
        &self.repos
    }

    /// How many BUILD files the walk over the disk read.
    pub fn files(&self) -> (n: u32)
        ensures
            n == self.disk.files,
    {
        self.disk.files
    }
}

/// A buffer's declaration is the one a label resolves to, whatever the disk
/// and Bazel say about it.
pub proof fn an_open_buffer_outranks_the_disk(index: &Index, label: Seq<char>)
    requires
        index.buffer.declares(label),
    ensures
        index.resolved(label) == Some(index.buffer.declared(label)),
{
}

/// A target the disk still declares in a file an open buffer speaks for,
/// and the buffer no longer declares, resolves to nothing: the deletion is
/// seen, and Bazel does not bring it back.
pub proof fn a_deletion_in_an_open_buffer_is_seen(index: &Index, label: Seq<char>)
    requires
        !index.buffer.declares(label),
        index.disk.declares(label),
        index.buffer.speaks(index.disk.declared(label).file@),
    ensures
        index.resolved(label) is None,
{
}

/// Bazel answers for exactly the labels no parser declares, and a label a
/// parser declares never resolves to Bazel's declaration of it.
pub proof fn bazel_names_only_what_no_parser_sees(index: &Index, label: Seq<char>)
    ensures
        index.bazel_only(label) ==> index.resolved(label) == Some(index.graph.declared(label)),
        index.buffer.declares(label) || index.disk.declares(label) ==> (index.resolved(label) is None
            || index.resolved(label) == Some(index.buffer.declared(label))
            || index.resolved(label) == Some(index.disk.declared(label))),
{
}

/// Every mention of a label comes from a parsed tier, and none from the
/// disk in a file an open buffer speaks for.
pub proof fn mentions_in_a_spoken_file_come_from_the_buffer(index: &Index, label: Seq<char>, i: int)
    requires
        0 <= i < index.mentioned(label).len(),
    ensures
        index.buffer.mentions(label).contains(index.mentioned(label)[i]) || (index.disk.mentions(
            label,
        ).contains(index.mentioned(label)[i]) && !index.buffer.speaks(index.mentioned(label)[i].file@)),
{
    let b = index.buffer.mentions(label);
    let keep = |r: Reference| !index.buffer.speaks(r.file@);
    let d = index.disk.mentions(label).filter(keep);
    let r = index.mentioned(label)[i];
    if i < b.len() {
        assert(b[i] == r);
    } else {
        assert(d[i - b.len()] == r);
        lemma_filter_contains_iff(index.disk.mentions(label), keep, r);
    }
}

/// The package a BUILD file defines, as a workspace-relative directory with
/// forward slashes: the file's directory relative to `root`.
pub open spec fn spec_package_dir(root: Seq<char>, build_file: Seq<char>) -> Option<Seq<char>> {
    match parent_of(build_file) {
        None => None,
        Some(dir) => match relative_to(dir, root) {
            None => None,
            Some(rel) => Some(forward_slashes(rel)),
        },
    }
}

/// The package a BUILD file defines, as a workspace-relative directory:
/// `lib/sub`, and the empty string at the root. This is the form
/// `parse_label` resolves relative labels against.
pub fn package_dir(root: &str, build_file: &str) -> (dir: Option<String>)
    ensures
        (match spec_package_dir(root@, build_file@) {
            Some(d) => dir matches Some(s) && s@ == d,
            None => dir is None,
        }),
{
    let parent = match path_parent(build_file) {
        Some(parent) => parent,
        None => {
            return None;
        },
    };
    let rel = match path_strip_prefix(parent.as_str(), root) {
        Some(rel) => rel,
        None => {
            return None;
        },
    };
    Some(to_forward_slashes(rel.as_str()))
}

/// Whether a directory met in a walk must not be entered: metadata anywhere,
/// and the `bazel-*` convenience symlinks directly under the root (depth 1),
/// which lead back into the source tree through the output base.
pub fn is_excluded(name: &str, depth: usize) -> (b: bool)
    ensures
        b == (name@ == ".git"@ || name@ == ".jj"@ || (depth == 1 && starts_with(name@, "bazel-"@))),
{
    if str_eq(name, ".git") || str_eq(name, ".jj") {
        return true;
    }
    depth == 1 && crate::text::str_starts_with(name, "bazel-")
}

/// Whether `path`, relative to `root` and with forward slashes, is one of the
/// directories `.bazelignore` lists.
pub open spec fn spec_is_ignored(root: Seq<char>, path: Seq<char>, ignored: Seq<Seq<char>>) -> bool {
    match relative_to(path, root) {
        None => false,
        Some(rel) => ignored.contains(forward_slashes(rel)),
    }
}

/// Whether `path` is one of the directories `.bazelignore` lists. Bazel
/// matches these literally.
pub fn is_ignored(root: &str, path: &str, ignored: &[String]) -> (b: bool)
    ensures
        b == spec_is_ignored(root@, path@, texts(ignored@)),
{
    let ghost ig = texts(ignored@);
    if ignored.len() == 0 {
        assert(ig.len() == 0);
        return false;
    }
    let found = match path_strip_prefix(path, root) {
        Some(found) => found,
        None => {
            return false;
        },
    };
    let rel = to_forward_slashes(found.as_str());
    let mut i: usize = 0;
    while i < ignored.len()
        invariant
            i <= ignored@.len(),
            ig == texts(ignored@),
            relative_to(path@, root@) == Some(found@),
            rel@ == forward_slashes(found@),
            forall|j: int| 0 <= j < i ==> ig[j] != rel@,
        decreases ignored.len() - i,
    {
        assert(ig[i as int] == ignored@[i as int]@);
        if str_eq(ignored[i].as_str(), rel.as_str()) {
            assert(ig[i as int] == rel@);
            assert(ig.contains(rel@));
            return true;
        }
        i = i + 1;
    }
    false
}

/// The lines `str::lines` yields: the text split at each newline, with no
/// empty line after a final newline. (A carriage return before the newline
/// stays; every use here trims it away.)
pub open spec fn lines_from(s: Seq<char>, current: Seq<char>) -> Seq<Seq<char>>
    decreases s.len(),
{
    if s.len() == 0 {
        if current.len() == 0 {
            Seq::empty()
        } else {
            seq![current]
        }
    } else if s[0] == '\n' {
        seq![current] + lines_from(s.drop_first(), Seq::empty())
    } else {
        lines_from(s.drop_first(), current.push(s[0]))
    }
}

/// `s` without the slashes that close it.
pub open spec fn trim_end_slashes(s: Seq<char>) -> Seq<char>
    decreases s.len(),
{
    if s.len() > 0 && s.last() == '/' {
        trim_end_slashes(s.drop_last())
    } else {
        s
    }
}

/// The directory one `.bazelignore` line names: the line trimmed, unless it
/// is blank or a comment, without trailing slashes and with forward ones.
pub open spec fn ignore_entry(line: Seq<char>) -> Option<Seq<char>> {
    let t = trim(line);
    if t.len() == 0 || t[0] == '#' {
        None
    } else {
        Some(forward_slashes(trim_end_slashes(t)))
    }
}

/// The directories a run of lines names, in order.
pub open spec fn ignore_entries(lines: Seq<Seq<char>>) -> Seq<Seq<char>>
    decreases lines.len(),
{
    if lines.len() == 0 {
        Seq::empty()
    } else {
        let rest = ignore_entries(lines.drop_last());
        match ignore_entry(lines.last()) {
            Some(e) => rest.push(e),
            None => rest,
        }
    }
}

proof fn lemma_ignore_entries_add(a: Seq<Seq<char>>, b: Seq<Seq<char>>)
    ensures
        ignore_entries(a + b) == ignore_entries(a) + ignore_entries(b),
    decreases b.len(),
{
    if b.len() == 0 {
        assert(a + b =~= a);
    } else {
        lemma_ignore_entries_add(a, b.drop_last());
        assert((a + b).drop_last() =~= a + b.drop_last());
        assert((a + b).last() == b.last());
    }
}

/// The directory one line names, if any.
fn ignore_line(line: &[char]) -> (entry: Option<String>)
    ensures
        (match ignore_entry(line@) {
            Some(e) => entry matches Some(s) && s@ == e,
            None => entry is None,
        }),
{
    let t = trim_chars(line);
    if t.len() == 0 || t[0] == '#' {
        return None;
    }
    let mut end = t.len();
    assert(t@.take(end as int) =~= t@);
    while end > 0 && t[end - 1] == '/'
        invariant
            end <= t@.len(),
            trim_end_slashes(t@.take(end as int)) == trim_end_slashes(t@),
        decreases end,
    {
        assert(t@.take(end - 1) =~= t@.take(end as int).drop_last());
        end = end - 1;
    }
    assert(t@.take(end as int) == trim_end_slashes(t@)) by {
        assert(!(end > 0 && t@.take(end as int).last() == '/'));
    }
    let kept = crate::text::string_of_range(&t, 0, end);
    assert(t@.subrange(0, end as int) =~= t@.take(end as int));
    Some(to_forward_slashes(kept.as_str()))
}

/// The workspace-relative directories a `.bazelignore` lists: one path per
/// line, relative to the root, `#` for comments, and no wildcards.
pub fn parse_bazelignore(text: &str) -> (ignored: Vec<String>)
    ensures
        texts(ignored@) == ignore_entries(lines_from(text@, Seq::empty())),
{
    let cs = chars_of(text);
    let mut out: Vec<String> = Vec::new();
    let mut current: Vec<char> = Vec::new();
    let mut i: usize = 0;
    assert(cs@.skip(0) =~= cs@);
    assert(texts(out@) =~= Seq::<Seq<char>>::empty());
    while i < cs.len()
        invariant
            i <= cs@.len(),
            cs@ == text@,
            ignore_entries(lines_from(cs@, Seq::empty())) == texts(out@) + ignore_entries(
                lines_from(cs@.skip(i as int), current@),
            ),
        decreases cs.len() - i,
    {
        let c = cs[i];
        let ghost rest = cs@.skip(i as int);
        assert(rest[0] == c);
        assert(rest.drop_first() =~= cs@.skip(i + 1));
        if c == '\n' {
            let ghost line = current@;
            proof {
                lemma_ignore_entries_add(seq![line], lines_from(cs@.skip(i + 1), Seq::empty()));
                assert(seq![line].drop_last() =~= Seq::<Seq<char>>::empty());
            }
            let ghost before = texts(out@);
            assert(ignore_entries(seq![line]) == (match ignore_entry(line) {
                Some(e) => seq![e],
                None => Seq::<Seq<char>>::empty(),
            })) by {
                assert(ignore_entries(Seq::<Seq<char>>::empty()) == Seq::<Seq<char>>::empty());
                assert(seq![line].drop_last() =~= Seq::<Seq<char>>::empty());
                assert(seq![line].last() == line);
                assert(Seq::<Seq<char>>::empty().push(ignore_entry(line).unwrap()) =~= seq![ignore_entry(line).unwrap()]);
            }
            match ignore_line(&current) {
                Some(e) => {
                    out.push(e);
                    assert(texts(out@) =~= before.push(ignore_entry(line).unwrap()));
                },
                None => {},
            }
            assert(texts(out@) + ignore_entries(lines_from(cs@.skip(i + 1), Seq::empty()))
                =~= before + ignore_entries(seq![line]) + ignore_entries(
                lines_from(cs@.skip(i + 1), Seq::empty()),
            ));
            current = Vec::new();
        } else {
            current.push(c);
        }
        i = i + 1;
    }
    let ghost line = current@;
    let ghost before = texts(out@);
    assert(cs@.skip(i as int).len() == 0);
    assert(lines_from(cs@.skip(i as int), line) == (if line.len() == 0 {
        Seq::<Seq<char>>::empty()
    } else {
        seq![line]
    }));
    assert(ignore_entries(Seq::<Seq<char>>::empty()) == Seq::<Seq<char>>::empty());
    if current.len() > 0 {
        assert(seq![line].drop_last() =~= Seq::<Seq<char>>::empty());
        assert(seq![line].last() == line);
        match ignore_line(&current) {
            Some(e) => {
                out.push(e);
                assert(texts(out@) =~= before.push(ignore_entry(line).unwrap()));
            },
            None => {},
        }
    } else {
        assert(before + Seq::<Seq<char>>::empty() =~= before);
    }
    out
}

} // verus!

verus! {

proof fn lemma_lines_add(a: Seq<Seq<char>>, b: Seq<Seq<char>>, c: Seq<Seq<char>>)
    ensures
        a + b + c == a + (b + c),
{
    assert(a + b + c =~= a + (b + c));
}

/// The lines `str::lines` yields, with any carriage return kept.
pub fn split_lines(text: &str) -> (lines: Vec<String>)
    ensures
        texts(lines@) == lines_from(text@, Seq::empty()),
{
    let cs = chars_of(text);
    let mut out: Vec<String> = Vec::new();
    let mut current: Vec<char> = Vec::new();
    let mut i: usize = 0;
    assert(cs@.skip(0) =~= cs@);
    assert(texts(out@) =~= Seq::<Seq<char>>::empty());
    while i < cs.len()
        invariant
            i <= cs@.len(),
            cs@ == text@,
            lines_from(cs@, Seq::empty()) == texts(out@) + lines_from(cs@.skip(i as int), current@),
        decreases cs.len() - i,
    {
        let c = cs[i];
        let ghost rest = cs@.skip(i as int);
        assert(rest[0] == c);
        assert(rest.drop_first() =~= cs@.skip(i + 1));
        if c == '\n' {
            let ghost before = texts(out@);
            let ghost line = current@;
            out.push(string_of(&current));
            assert(texts(out@) =~= before.push(line));
            assert(before + (seq![line] + lines_from(cs@.skip(i + 1), Seq::empty())) =~= texts(out@)
                + lines_from(cs@.skip(i + 1), Seq::empty()));
            current = Vec::new();
        } else {
            current.push(c);
        }
        i = i + 1;
    }
    let ghost before = texts(out@);
    assert(cs@.skip(i as int).len() == 0);
    if current.len() > 0 {
        let ghost line = current@;
        out.push(string_of(&current));
        assert(texts(out@) =~= before.push(line));
        assert(before + seq![line] =~= texts(out@));
    } else {
        assert(before + Seq::<Seq<char>>::empty() =~= before);
    }
    out
}

} // verus!
