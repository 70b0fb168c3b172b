//! Open buffers: which syntax a file is read with, and how the client's
//! edits change its text.
//!
//! An edit names its range by zero-based line and UTF-16 column, the LSP
//! encoding; the text is UTF-8. A range is checked before it is applied: it
//! must not end before it starts, and each end must name a place that
//! exists, so that a stale or mistaken edit is refused rather than guessed at.

use vstd::prelude::*;
use vstd::string::StringSliceAdditionalSpecFns;
use vstd::utf8::{decode_utf8, encode_utf8, is_char_boundary};
use crate::bazelrc::syntax::{lines_are, parse, spec_parse, Parse};
use crate::line_index::{line_starts, text_offset, text_position, LineIndex};
use crate::paths::{file_name_of, path_file_name};
use crate::label::opt_view;
use crate::source_kind::{reading, spec_reading, SourceKind, StarlarkDialect};
use crate::text::{append, ends_with, str_ends_with, str_eq};
use starlark_cst::parser::Parse as StarlarkTree;

verus! {

broadcast use vstd::utf8::group_utf8_lib;

/// Whether a path names an rc file: `.bazelrc`, or any name ending so.
pub open spec fn spec_is_bazelrc(path: Seq<char>) -> bool {
    match file_name_of(path) {
        Some(name) => name == ".bazelrc"@ || ends_with(name, ".bazelrc"@),
        None => false,
    }
}

/// Whether a path names an rc file, which has its own syntax.
pub fn is_bazelrc(path: &str) -> (b: bool)
    ensures
        b == spec_is_bazelrc(path@),
{
    match path_file_name(path) {
        Some(name) => str_eq(name.as_str(), ".bazelrc") || str_ends_with(name.as_str(), ".bazelrc"),
        None => false,
    }
}

/// One edit the client sent: the whole new text, or a range and what
/// replaces it.
#[derive(Debug, Clone, PartialEq, Eq)]
pub enum Change {
    Whole(String),
    Partial {
        start_line: u32,
        start_character: u32,
        end_line: u32,
        end_character: u32,
        text: String,
    },
}

/// Why an edit was refused.
#[derive(Debug, Clone, Copy, PartialEq, Eq)]
pub enum ChangeError {
    /// The range ends before it starts.
    EndsBeforeStart,
    /// An end of the range names a line or column the text does not have.
    OutsideDocument,
}

/// The text `bs` holds with bytes `a..b` replaced by `inserted`.
pub open spec fn spliced(bs: Seq<u8>, a: int, b: int, inserted: Seq<char>) -> Seq<char> {
    decode_utf8(bs.subrange(0, a)) + inserted + decode_utf8(bs.subrange(b, bs.len() as int))
}

/// What one edit makes of `text`.
pub open spec fn spec_change(text: Seq<char>, change: Change) -> Result<Seq<char>, ChangeError> {
    match change {
        Change::Whole(t) => Ok(t@),
        Change::Partial { start_line, start_character, end_line, end_character, text: t } => {
            let bs = encode_utf8(text);
            let a = text_offset(bs, start_line, start_character);
            let b = text_offset(bs, end_line, end_character);
            if a > b {
                Err(ChangeError::EndsBeforeStart)
            } else if text_position(bs, a) != (start_line, start_character)
                || text_position(bs, b) != (end_line, end_character)
                || !is_char_boundary(bs, a) || !is_char_boundary(bs, b) {
                Err(ChangeError::OutsideDocument)
            } else {
                Ok(spliced(bs, a, b, t@))
            }
        },
    }
}

/// What a run of edits makes of `text`, each applied to what the one
/// before it left; the first refused edit refuses the run.
pub open spec fn spec_changes(text: Seq<char>, changes: Seq<Change>) -> Result<Seq<char>, ChangeError>
    decreases changes.len(),
{
    if changes.len() == 0 {
        Ok(text)
    } else {
        match spec_change(text, changes[0]) {
            Err(e) => Err(e),
            Ok(t) => spec_changes(t, changes.drop_first()),
        }
    }
}

/// The bytes the edits insert, all told.
pub open spec fn inserted_bytes(changes: Seq<Change>) -> nat
    decreases changes.len(),
{
    if changes.len() == 0 {
        0
    } else {
        let here = match changes[0] {
            Change::Whole(t) => encode_utf8(t@).len(),
            Change::Partial { text: t, .. } => encode_utf8(t@).len(),
        };
        here + inserted_bytes(changes.drop_first())
    }
}

/// Encoding a concatenation encodes each part.
proof fn lemma_encode_concat(x: Seq<char>, y: Seq<char>)
    ensures
        encode_utf8(x + y) == encode_utf8(x) + encode_utf8(y),
    decreases x.len(),
{
    if x.len() == 0 {
        assert(x + y =~= y);
        assert(encode_utf8(x) =~= Seq::<u8>::empty());
        assert(Seq::<u8>::empty() + encode_utf8(y) =~= encode_utf8(y));
    } else {
        assert((x + y).drop_first() =~= x.drop_first() + y);
        assert((x + y)[0] == x[0]);
        lemma_encode_concat(x.drop_first(), y);
        assert(encode_utf8(x + y) =~= encode_utf8(x) + encode_utf8(y));
    }
}

/// Apply one edit to `text`.
fn apply_change(text: &str, change: &Change) -> (r: Result<String, ChangeError>)
    requires
        text.spec_bytes().len() <= isize::MAX,
    ensures
        (match r {
            Ok(t) => spec_change(text@, *change) == Ok::<Seq<char>, ChangeError>(t@),
            Err(e) => spec_change(text@, *change) == Err::<Seq<char>, ChangeError>(e),
        }),
{
    match change {
        Change::Whole(whole) => Ok(whole.clone()),
        Change::Partial { start_line, start_character, end_line, end_character, text: inserted } => {
            let lines = LineIndex::new(text);
            let a = lines.offset(text, *start_line, *start_character);
            let b = lines.offset(text, *end_line, *end_character);
            if a > b {
                return Err(ChangeError::EndsBeforeStart);
            }
            let pa = lines.position(text, a);
            let pb = lines.position(text, b);
            if pa.0 != *start_line || pa.1 != *start_character || pb.0 != *end_line || pb.1 != *end_character {
                return Err(ChangeError::OutsideDocument);
            }
            if !text.is_char_boundary(a) || !text.is_char_boundary(b) {
                return Err(ChangeError::OutsideDocument);
            }
            let (head, _) = text.split_at(a);
            let (_, tail) = text.split_at(b);
            let mut out = head.to_owned();
            append(&mut out, inserted.as_str());
            append(&mut out, tail);
            proof {
                assert(decode_utf8(encode_utf8(head@)) == head@);
                assert(decode_utf8(encode_utf8(tail@)) == tail@);
            }
            Ok(out)
        },
    }
}

/// Apply the client's edits, in order, to `original`.
pub fn apply_changes(original: &str, changes: Vec<Change>) -> (r: Result<String, ChangeError>)
    requires
        original.spec_bytes().len() + inserted_bytes(changes@) <= isize::MAX,
    ensures
        (match r {
            Ok(t) => spec_changes(original@, changes@) == Ok::<Seq<char>, ChangeError>(t@),
            Err(e) => spec_changes(original@, changes@) == Err::<Seq<char>, ChangeError>(e),
        }),
        r matches Ok(t) ==> encode_utf8(t@).len() <= original.spec_bytes().len() + inserted_bytes(changes@),
{
    let mut text = original.to_owned();
    let mut i: usize = 0;
    assert(changes@.skip(0) =~= changes@);
    while i < changes.len()
        invariant
            i <= changes@.len(),
            spec_changes(original@, changes@) == spec_changes(text@, changes@.skip(i as int)),
            encode_utf8(text@).len() + inserted_bytes(changes@.skip(i as int)) <= isize::MAX,
            encode_utf8(text@).len() + inserted_bytes(changes@.skip(i as int))
                <= original.spec_bytes().len() + inserted_bytes(changes@),
        decreases changes.len() - i,
    {
        let ghost rest = changes@.skip(i as int);
        assert(rest.drop_first() =~= changes@.skip(i + 1));
        assert(rest[0] == changes@[i as int]);
        match apply_change(text.as_str(), &changes[i]) {
            Ok(next) => {
                proof {
                    match changes@[i as int] {
                        Change::Whole(t) => {},
                        Change::Partial { start_line, start_character, end_line, end_character, text: t } => {
                            let bs = encode_utf8(text@);
                            let a = text_offset(bs, start_line, start_character);
                            let b = text_offset(bs, end_line, end_character);
                            let head = decode_utf8(bs.subrange(0, a));
                            let tail = decode_utf8(bs.subrange(b, bs.len() as int));
                            assert(bs =~= bs.subrange(0, a) + bs.subrange(a, bs.len() as int));
                            assert(encode_utf8(head) == bs.subrange(0, a));
                            assert(encode_utf8(tail) == bs.subrange(b, bs.len() as int));
                            lemma_encode_concat(head, t@);
                            lemma_encode_concat(head + t@, tail);
                            assert(next@ == head + t@ + tail);
                            assert(encode_utf8(next@).len() == a + encode_utf8(t@).len() + (bs.len() - b));
                        },
                    }
                }
                text = next;
            },
            Err(e) => {
                return Err(e);
            },
        }
        i = i + 1;
    }
    assert(changes@.skip(i as int) =~= Seq::<Change>::empty());
    Ok(text)
}

/// A Starlark syntax tree and the errors its parse recovered from.
#[verifier::external_type_specification]
#[verifier::external_body]
pub struct ExStarlarkParse(StarlarkTree);

/// What `starlark_cst::parse` makes of a text in a dialect.
pub uninterp spec fn starlark_parse(text: Seq<char>, dialect: StarlarkDialect) -> StarlarkTree;

/// `starlark_cst::parse`: the syntax tree of `text` in `dialect`, which
/// depends on nothing else. Offsets in the tree are `u32`, so the text is
/// at most that many bytes; the parser panics past it.
#[verifier::external_body]
pub(crate) fn parse_starlark(text: &str, dialect: StarlarkDialect) -> (tree: StarlarkTree)
    requires
        encode_utf8(text@).len() <= u32::MAX,
    ensures
        tree == starlark_parse(text@, dialect),
{
    let dialect = match dialect {
        StarlarkDialect::Standard => starlark_cst::Dialect::Standard,
        StarlarkDialect::Bazel => starlark_cst::Dialect::Bazel,
        StarlarkDialect::Scl => starlark_cst::Dialect::Scl,
    };
    starlark_cst::parse(text, dialect)
}

/// The syntax a buffer is read with.
enum Syntax {
    Starlark { kind: SourceKind, parsed: StarlarkTree },
    Bazelrc(Parse),
}

/// One open buffer: its text, where it lives, and what Bazel reads it as.
pub struct Document {
    text: String,
    path: String,
    version: i32,
    syntax: Syntax,
    lines: LineIndex,
}

impl Document {
    #[verifier::type_invariant]
    spec fn lines_fit(&self) -> bool {
        self.lines.starts() == line_starts(encode_utf8(self.text@), encode_utf8(self.text@).len())
    }

    /// The buffer's text.
    pub closed spec fn text_view(&self) -> Seq<char> {
        self.text@
    }

    /// Where the buffer lives.
    pub closed spec fn path_view(&self) -> Seq<char> {
        self.path@
    }

    /// The client's version of the buffer.
    pub closed spec fn version_view(&self) -> i32 {
        self.version
    }

    /// Whether the buffer is read with rc syntax.
    pub closed spec fn rc(&self) -> bool {
        self.syntax is Bazelrc
    }

    /// The rc parse, where the buffer is read with rc syntax.
    pub closed spec fn rc_parse(&self) -> Parse {
        match self.syntax {
            Syntax::Bazelrc(p) => p,
            Syntax::Starlark { .. } => arbitrary(),
        }
    }

    /// The kind of Starlark file the buffer was opened as.
    pub closed spec fn starlark_kind(&self) -> SourceKind {
        match self.syntax {
            Syntax::Starlark { kind, .. } => kind,
            Syntax::Bazelrc(_) => arbitrary(),
        }
    }

    /// The Starlark syntax tree the buffer was parsed into when it was
    /// opened.
    pub closed spec fn starlark_tree(&self) -> StarlarkTree {
        match self.syntax {
            Syntax::Starlark { parsed, .. } => parsed,
            Syntax::Bazelrc(_) => arbitrary(),
        }
    }

    /// Hold `text` as the contents of `path`, at the client's `version`:
    /// an rc file is parsed as one, anything else as Starlark of the kind
    /// its name says (plain Starlark in a `.bzl` file where it says none).
    pub fn versioned(path: String, version: i32, text: String, root: Option<&str>) -> (document: Self)
        requires
            !spec_is_bazelrc(path@) ==> encode_utf8(text@).len() <= u32::MAX,
        ensures
            document.text_view() == text@,
            document.path_view() == path@,
            document.version_view() == version,
            document.rc() == spec_is_bazelrc(path@),
            document.rc() ==> lines_are(document.rc_parse().lines@, spec_parse(encode_utf8(text@)).0),
            !document.rc() ==> document.starlark_kind() == spec_reading(path@, opt_view(root)).1
                && document.starlark_tree() == starlark_parse(text@, spec_reading(path@, opt_view(root)).0),
    {
        let syntax = if is_bazelrc(path.as_str()) {
            Syntax::Bazelrc(parse(text.as_str()))
        } else {
            let (dialect, kind) = reading(path.as_str(), root);
            Syntax::Starlark { kind, parsed: parse_starlark(text.as_str(), dialect) }
        };
        let lines = LineIndex::new(text.as_str());
        Document { text, path, version, syntax, lines }
    }

    /// The buffer's text.
    pub fn text(&self) -> (text: &str)
        ensures
            text@ == self.text_view(),
    {
        self.text.as_str()
    }

    /// Where the buffer lives.
    pub fn path(&self) -> (path: &str)
        ensures
            path@ == self.path_view(),
    {
        self.path.as_str()
    }

    /// The client's version of the buffer.
    pub fn version(&self) -> (version: i32)
        ensures
            version == self.version_view(),
    {
        self.version
    }

    /// Line starts, for a request converting more than one offset.
    pub fn line_index(&self) -> (index: &LineIndex)
        ensures
            index.indexes_chars(self.text_view()),
    {
        proof {
            use_type_invariant(self);
        }
        &self.lines
    }

    /// Whether the buffer is read with rc syntax.
    pub fn is_bazelrc(&self) -> (b: bool)
        ensures
            b == self.rc(),
    {
        match &self.syntax {
            Syntax::Bazelrc(_) => true,
            Syntax::Starlark { .. } => false,
        }
    }

    /// The rc parse, where the buffer is read with rc syntax.
    pub fn bazelrc(&self) -> (parsed: Option<&Parse>)
        ensures
            (match parsed {
                Some(p) => self.rc() && *p == self.rc_parse(),
                None => !self.rc(),
            }),
    {
        match &self.syntax {
            Syntax::Starlark { .. } => None,
            Syntax::Bazelrc(parsed) => Some(parsed),
        }
    }

    /// The kind of Starlark file the buffer is.
    pub fn kind(&self) -> (kind: SourceKind)
        requires
            !self.rc(),
        ensures
            kind == self.starlark_kind(),
    {
        match &self.syntax {
            Syntax::Starlark { kind, .. } => *kind,
            Syntax::Bazelrc(_) => vstd::pervasive::unreached(),
        }
    }

    /// The Starlark syntax tree.
    pub fn parse(&self) -> (tree: &StarlarkTree)
        requires
            !self.rc(),
        ensures
            *tree == self.starlark_tree(),
    {
        match &self.syntax {
            Syntax::Starlark { parsed, .. } => parsed,
            Syntax::Bazelrc(_) => vstd::pervasive::unreached(),
        }
    }

    /// The byte offset of a zero-based line and UTF-16 column.
    pub fn offset(&self, line: u32, character: u32) -> (offset: usize)
        requires
            encode_utf8(self.text_view()).len() <= isize::MAX,
        ensures
            offset == text_offset(encode_utf8(self.text_view()), line, character),
    {
        proof {
            use_type_invariant(self);
        }
        self.lines.offset(self.text.as_str(), line, character)
    }

    /// The zero-based line and UTF-16 column of a byte offset.
    pub fn position(&self, offset: usize) -> (position: (u32, u32))
        requires
            encode_utf8(self.text_view()).len() <= isize::MAX,
        ensures
            position == text_position(encode_utf8(self.text_view()), offset as int),
    {
        proof {
            use_type_invariant(self);
        }
        self.lines.position(self.text.as_str(), offset)
    }
}

/// Why a change to the open buffers was refused.
#[derive(Debug, Clone, Copy, PartialEq, Eq)]
pub enum DocumentsError {
    /// A change named a buffer that is not open.
    NotOpen,
    /// A change's version does not follow the buffer's.
    StaleVersion,
    /// An edit of the change was refused.
    Edit(ChangeError),
}

/// Every buffer the client has open, by the text of its URI.
pub struct Documents {
    buffers: Vec<(String, Document)>,
    root: Option<String>,
}

/// The URIs of a list of buffers.
pub open spec fn uris_of(buffers: Seq<(String, Document)>) -> Seq<Seq<char>> {
    buffers.map_values(|b: (String, Document)| b.0@)
}

/// The first place `uri` is open, if it is.
pub open spec fn place_of(buffers: Seq<(String, Document)>, uri: Seq<char>) -> Option<int> {
    if uris_of(buffers).contains(uri) {
        Some(uris_of(buffers).index_of(uri))
    } else {
        None
    }
}

impl Documents {
    #[verifier::type_invariant]
    spec fn one_buffer_per_uri(&self) -> bool {
        uris_of(self.buffers@).no_duplicates()
    }

    /// The open buffers, each with its URI, in the order they were opened.
    pub closed spec fn buffers_view(&self) -> Seq<(String, Document)> {
        self.buffers@
    }

    /// The workspace root buffers are classified against.
    pub closed spec fn root_view(&self) -> Option<Seq<char>> {
        match self.root {
            Some(r) => Some(r@),
            None => None,
        }
    }

    /// No buffers open yet.
    pub fn new(root: Option<String>) -> (documents: Self)
        ensures
            documents.buffers_view().len() == 0,
            documents.root_view() == (match root {
                Some(r) => Some(r@),
                None => None::<Seq<char>>,
            }),
    {
        Documents { buffers: Vec::new(), root }
    }

    fn find(&self, uri: &str) -> (at: Option<usize>)
        ensures
            (match at {
                Some(i) => i < self.buffers@.len() && self.buffers@[i as int].0@ == uri@,
                None => !uris_of(self.buffers@).contains(uri@),
            }),
    {
        let mut i: usize = 0;
        while i < self.buffers.len()
            invariant
                i <= self.buffers@.len(),
                forall|j: int| 0 <= j < i ==> self.buffers@[j].0@ != uri@,
            decreases self.buffers.len() - i,
        {
            if str_eq(self.buffers[i].0.as_str(), uri) {
                return Some(i);
            }
            i = i + 1;
        }
        proof {
            if uris_of(self.buffers@).contains(uri@) {
                let k = choose|k: int| 0 <= k < uris_of(self.buffers@).len() && uris_of(self.buffers@)[k] == uri@;
                assert(self.buffers@[k].0@ == uri@);
            }
        }
        None
    }

    /// The buffer open at `uri`.
    pub fn get(&self, uri: &str) -> (document: Option<&Document>)
        ensures
            (match document {
                Some(d) => place_of(self.buffers_view(), uri@) matches Some(i) && *d == self.buffers_view()[i].1,
                None => place_of(self.buffers_view(), uri@) is None,
            }),
    {
        proof {
            use_type_invariant(self);
        }
        match self.find(uri) {
            Some(i) => {
                proof {
                    let us = uris_of(self.buffers@);
                    assert(us[i as int] == uri@);
                    assert(us.contains(uri@));
                    let j = us.index_of(uri@);
                    assert(us[j] == uri@);
                }
                Some(&self.buffers[i].1)
            },
            None => None,
        }
    }

    /// Every open buffer with its URI.
    pub fn iter(&self) -> (buffers: &[(String, Document)])
        ensures
            buffers@ == self.buffers_view(),
    {
        self.buffers.as_slice()
    }

    /// Hold `document` at `uri`, in place of any buffer there.
    fn put(&mut self, uri: String, document: Document)
        ensures
            place_of(final(self).buffers_view(), uri@) matches Some(i)
                && final(self).buffers_view()[i].1 == document,
            forall|u: Seq<char>| u != uri@ ==> #[trigger] place_of(final(self).buffers_view(), u) is Some
                == place_of(old(self).buffers_view(), u) is Some,
            forall|u: Seq<char>|
                u != uri@ && #[trigger] place_of(old(self).buffers_view(), u) is Some ==>
                    final(self).buffers_view()[place_of(final(self).buffers_view(), u)->0].1
                        == old(self).buffers_view()[place_of(old(self).buffers_view(), u)->0].1,
            final(self).root_view() == old(self).root_view(),
    {
        proof {
            use_type_invariant(&*self);
        }
        let ghost before = self.buffers@;
        let found = self.find(uri.as_str());
        let mut buffers: Vec<(String, Document)> = Vec::new();
        std::mem::swap(&mut buffers, &mut self.buffers);
        let ghost u0 = uri@;
        match found {
            Some(i) => {
                buffers.set(i, (uri, document));
                proof {
                    let us0 = uris_of(before);
                    let us = uris_of(buffers@);
                    assert(us =~= us0.update(i as int, u0));
                    assert(us0[i as int] == u0);
                    assert(us =~= us0);
                    lemma_place(us, i as int);
                    assert forall|u: Seq<char>| u != u0 && #[trigger] place_of(before, u) is Some implies
                        buffers@[place_of(buffers@, u)->0].1 == before[place_of(before, u)->0].1 by {
                        let j = us.index_of(u);
                        assert(us.contains(u));
                        assert(us[j] == u);
                        assert(j != i);
                    }
                }
                self.buffers = buffers;
            },
            None => {
                buffers.push((uri, document));
                proof {
                    let us0 = uris_of(before);
                    let us = uris_of(buffers@);
                    assert(us =~= us0.push(u0));
                    assert(us.no_duplicates()) by {
                        assert forall|a: int, b: int| 0 <= a < us.len() && 0 <= b < us.len() && a != b
                            implies us[a] != us[b] by {
                            if a < us0.len() && b < us0.len() {
                            } else if a == us0.len() {
                                assert(us0.contains(us[b]) || b == a);
                            } else {
                                assert(us0.contains(us[a]) || b == a);
                            }
                        }
                    }
                    assert(us[us0.len() as int] == u0);
                    lemma_place(us, us0.len() as int);
                    assert forall|u: Seq<char>| u != u0 implies #[trigger] place_of(buffers@, u) is Some
                        == place_of(before, u) is Some by {
                        if us.contains(u) {
                            let j = us.index_of(u);
                            assert(us[j] == u);
                            assert(j < us0.len());
                            assert(us0[j] == u);
                        }
                        if us0.contains(u) {
                            let j = us0.index_of(u);
                            assert(us[j] == u);
                        }
                    }
                    assert forall|u: Seq<char>| u != u0 && #[trigger] place_of(before, u) is Some implies
                        buffers@[place_of(buffers@, u)->0].1 == before[place_of(before, u)->0].1 by {
                        let j = us0.index_of(u);
                        assert(us0.contains(u));
                        assert(us0[j] == u);
                        assert(us[j] == u);
                        lemma_place(us, j);
                    }
                }
                self.buffers = buffers;
            },
        }
    }

    /// Hold `text` as the current contents of `uri`, opened or edited.
    pub fn set(&mut self, uri: String, path: String, version: i32, text: String)
        requires
            !spec_is_bazelrc(path@) ==> encode_utf8(text@).len() <= u32::MAX,
        ensures
            place_of(final(self).buffers_view(), uri@) matches Some(i)
                && final(self).buffers_view()[i].1.text_view() == text@
                && final(self).buffers_view()[i].1.path_view() == path@
                && final(self).buffers_view()[i].1.version_view() == version,
            forall|u: Seq<char>| u != uri@ ==> #[trigger] place_of(final(self).buffers_view(), u) is Some
                == place_of(old(self).buffers_view(), u) is Some,
    {
        let document = match &self.root {
            Some(root) => Document::versioned(path, version, text, Some(root.as_str())),
            None => Document::versioned(path, version, text, None),
        };
        self.put(uri, document);
    }

    /// Apply an edit the client sent for `uri` at `version`: refused when
    /// the buffer is not open, when the version does not follow the
    /// buffer's, or when an edit is refused; the buffer is then unchanged.
    pub fn change(&mut self, uri: &str, version: i32, changes: Vec<Change>) -> (r: Result<(), DocumentsError>)
        requires
            forall|i: int| 0 <= i < old(self).buffers_view().len() ==>
                encode_utf8(#[trigger] old(self).buffers_view()[i].1.text_view()).len() + inserted_bytes(changes@) <= isize::MAX,
            forall|i: int| 0 <= i < old(self).buffers_view().len() && !spec_is_bazelrc(old(self).buffers_view()[i].1.path_view())
                ==> encode_utf8(#[trigger] old(self).buffers_view()[i].1.text_view()).len() + inserted_bytes(changes@) <= u32::MAX,
        ensures
            (match place_of(old(self).buffers_view(), uri@) {
                None => r == Err::<(), DocumentsError>(DocumentsError::NotOpen),
                Some(i) => {
                    let current = old(self).buffers_view()[i].1;
                    if version <= current.version_view() {
                        r == Err::<(), DocumentsError>(DocumentsError::StaleVersion)
                    } else {
                        match spec_changes(current.text_view(), changes@) {
                            Err(e) => r == Err::<(), DocumentsError>(DocumentsError::Edit(e)),
                            Ok(t) => r is Ok && (place_of(final(self).buffers_view(), uri@) matches Some(j)
                                && final(self).buffers_view()[j].1.text_view() == t
                                && final(self).buffers_view()[j].1.path_view() == current.path_view()
                                && final(self).buffers_view()[j].1.version_view() == version),
                        }
                    }
                },
            }),
            r is Err ==> final(self).buffers_view() == old(self).buffers_view(),
    {
        proof {
            use_type_invariant(&*self);
        }
        let i = match self.find(uri) {
            Some(i) => i,
            None => {
                return Err(DocumentsError::NotOpen);
            },
        };
        proof {
            let us = uris_of(self.buffers@);
            assert(us[i as int] == uri@);
            lemma_place(us, i as int);
        }
        let current = &self.buffers[i].1;
        if version <= current.version() {
            return Err(DocumentsError::StaleVersion);
        }
        let text = match apply_changes(current.text(), changes) {
            Ok(text) => text,
            Err(e) => {
                return Err(DocumentsError::Edit(e));
            },
        };
        let path = current.path().to_owned();
        let document = match &self.root {
            Some(root) => Document::versioned(path, version, text, Some(root.as_str())),
            None => Document::versioned(path, version, text, None),
        };
        let key = self.buffers[i].0.clone();
        self.put(key, document);
        Ok(())
    }

    /// Forget `uri`; the disk answers for that file again from here.
    pub fn forget(&mut self, uri: &str)
        ensures
            place_of(final(self).buffers_view(), uri@) is None,
            forall|u: Seq<char>| u != uri@ ==> #[trigger] place_of(final(self).buffers_view(), u) is Some
                == place_of(old(self).buffers_view(), u) is Some,
    {
        proof {
            use_type_invariant(&*self);
        }
        let ghost before = self.buffers@;
        match self.find(uri) {
            None => {},
            Some(i) => {
                let mut buffers: Vec<(String, Document)> = Vec::new();
                std::mem::swap(&mut buffers, &mut self.buffers);
                buffers.remove(i);
                proof {
                    let us0 = uris_of(before);
                    let us = uris_of(buffers@);
                    assert(us =~= us0.remove(i as int));
                    assert(us0[i as int] == uri@);
                    assert(us.no_duplicates()) by {
                        assert forall|a: int, b: int| 0 <= a < us.len() && 0 <= b < us.len() && a != b
                            implies us[a] != us[b] by {
                            let a0 = if a < i { a } else { a + 1 };
                            let b0 = if b < i { b } else { b + 1 };
                            assert(us[a] == us0[a0]);
                            assert(us[b] == us0[b0]);
                        }
                    }
                    assert(!us.contains(uri@)) by {
                        if us.contains(uri@) {
                            let k = choose|k: int| 0 <= k < us.len() && us[k] == uri@;
                            let k0 = if k < i { k } else { k + 1 };
                            assert(us0[k0] == uri@);
                        }
                    }
                    assert forall|u: Seq<char>| u != uri@ implies #[trigger] place_of(buffers@, u) is Some
                        == place_of(before, u) is Some by {
                        if us.contains(u) {
                            let k = choose|k: int| 0 <= k < us.len() && us[k] == u;
                            let k0 = if k < i { k } else { k + 1 };
                            assert(us0[k0] == u);
                        }
                        if us0.contains(u) {
                            let k = choose|k: int| 0 <= k < us0.len() && us0[k] == u;
                            assert(k != i);
                            let k1 = if k < i { k } else { k - 1 };
                            assert(us[k1] == u);
                        }
                    }
                }
                self.buffers = buffers;
            },
        }
    }
}

/// Where a URI that occurs once is found, it is found first.
proof fn lemma_place(us: Seq<Seq<char>>, i: int)
    requires
        us.no_duplicates(),
        0 <= i < us.len(),
    ensures
        us.contains(us[i]),
        us.index_of(us[i]) == i,
{
    assert(us.contains(us[i]));
    let j = us.index_of(us[i]);
    assert(us[j] == us[i]);
}

} // verus!

verus! {

/// An edit replaces exactly its range. With `a` and `b` the byte offsets
/// of its start and end positions: when `a` comes after `b` it is refused
/// as ending before it starts; when either end does not lead back to the
/// line and column it was given it is refused as outside the document;
/// otherwise it succeeds, whether its range lies on one line or spans
/// several, and the new text is the bytes before `a`, then the inserted
/// text, then the bytes from `b` on.
pub proof fn an_edit_replaces_exactly_its_range(
    text: Seq<char>,
    start_line: u32,
    start_character: u32,
    end_line: u32,
    end_character: u32,
    inserted: String,
)
    ensures
        ({
            let bs = encode_utf8(text);
            let a = text_offset(bs, start_line, start_character);
            let b = text_offset(bs, end_line, end_character);
            let result = spec_changes(
                text,
                seq![Change::Partial { start_line, start_character, end_line, end_character, text: inserted }],
            );
            let maps_back = text_position(bs, a) == (start_line, start_character) && text_position(bs, b) == (
                end_line,
                end_character,
            );
            &&& a > b ==> result == Err::<Seq<char>, ChangeError>(ChangeError::EndsBeforeStart)
            &&& (a <= b && !maps_back) ==> result == Err::<Seq<char>, ChangeError>(ChangeError::OutsideDocument)
            &&& (a <= b && maps_back) ==> (result matches Ok(t) && encode_utf8(t) == bs.subrange(0, a) + encode_utf8(
                inserted@,
            ) + bs.subrange(b, bs.len() as int))
        }),
{
    let bs = encode_utf8(text);
    let a = text_offset(bs, start_line, start_character);
    let b = text_offset(bs, end_line, end_character);
    let change = Change::Partial { start_line, start_character, end_line, end_character, text: inserted };
    let changes = seq![change];
    assert(changes.drop_first() =~= Seq::<Change>::empty());
    assert(changes[0] == change);
    vstd::utf8::encode_utf8_valid_utf8(text);
    crate::line_index::lemma_text_offset_on_a_boundary(bs, start_line, start_character);
    crate::line_index::lemma_text_offset_on_a_boundary(bs, end_line, end_character);
    vstd::utf8::is_char_boundary_start_end_of_seq(bs);
    if a < bs.len() {
        vstd::utf8::is_char_boundary_iff_not_is_continuation_byte(bs, a);
    }
    if b < bs.len() {
        vstd::utf8::is_char_boundary_iff_not_is_continuation_byte(bs, b);
    }
    assert(is_char_boundary(bs, a) && is_char_boundary(bs, b));
    if let Ok(t) = spec_change(text, change) {
        assert(spec_changes(t, changes.drop_first()) == Ok::<Seq<char>, ChangeError>(t));
    }
    assert(spec_changes(text, changes) == spec_change(text, change));
    if a <= b && text_position(bs, a) == (start_line, start_character) && text_position(bs, b) == (
        end_line,
        end_character,
    ) {
        let head = decode_utf8(bs.subrange(0, a));
        let tail = decode_utf8(bs.subrange(b, bs.len() as int));
        assert(spec_change(text, change) == Ok::<Seq<char>, ChangeError>(head + inserted@ + tail));
        assert(bs =~= bs.subrange(0, a) + bs.subrange(a, bs.len() as int));
        assert(bs =~= bs.subrange(0, b) + bs.subrange(b, bs.len() as int));
        assert(encode_utf8(head) == bs.subrange(0, a));
        assert(encode_utf8(tail) == bs.subrange(b, bs.len() as int));
        lemma_encode_concat(head, inserted@);
        lemma_encode_concat(head + inserted@, tail);
    }
}

/// Edits apply in order, each to what the ones before it left: a run of
/// edits is its first part applied, then the rest applied to the result,
/// and a refusal in the first part refuses the whole run. A whole-text
/// edit replaces the text, whatever it was.
pub proof fn edits_apply_in_order(text: Seq<char>, first: Seq<Change>, then: Seq<Change>, whole: String)
    ensures
        spec_changes(text, first + then) == match spec_changes(text, first) {
            Ok(t) => spec_changes(t, then),
            Err(e) => Err(e),
        },
        spec_changes(text, seq![Change::Whole(whole)]) == Ok::<Seq<char>, ChangeError>(whole@),
    decreases first.len(),
{
    let w = seq![Change::Whole(whole)];
    assert(w.drop_first() =~= Seq::<Change>::empty());
    assert(spec_changes(whole@, w.drop_first()) == Ok::<Seq<char>, ChangeError>(whole@));
    if first.len() == 0 {
        assert(first + then =~= then);
    } else {
        assert((first + then).drop_first() =~= first.drop_first() + then);
        assert((first + then)[0] == first[0]);
        if let Ok(t) = spec_change(text, first[0]) {
            edits_apply_in_order(t, first.drop_first(), then, whole);
        }
    }
}

} // verus!
