//! Semantic tokens: the colouring a grammar cannot produce.
//!
//! A walk of the Starlark tree finds load paths, called names, argument
//! names and string literals; those become tokens here, and every token is
//! written relative to the one before it, as the protocol carries them.

use vstd::prelude::*;
use crate::line_index::{is_boundary, lemma_columns_ordered, text_position, LineIndex};
use vstd::string::StringSliceAdditionalSpecFns;
use crate::text::{starts_with, str_starts_with};
use crate::document::Document;
use crate::syntax_tree::{mark_view, marks_before, syntax_marks, tree_elements};
use vstd::utf8::encode_utf8;

verus! {

/// A rule or macro name at a call.
pub const FUNCTION: u32 = 0;
/// An argument name.
pub const PARAMETER: u32 = 1;
/// A `load()` path.
pub const NAMESPACE: u32 = 2;
/// A label in a string.
pub const STRING: u32 = 3;

/// The token types this server emits, in the order the protocol indexes
/// them: a client resolves a type by its place here.
pub fn legend() -> (names: [&'static str; 4])
    ensures
        names[0]@ == "function"@,
        names[1]@ == "parameter"@,
        names[2]@ == "namespace"@,
        names[3]@ == "string"@,
{
    ["function", "parameter", "namespace", "string"]
}

/// What a walk of a Starlark tree found that may be coloured: a byte
/// range of the text, and for a string literal its value.
#[derive(Debug, Clone, PartialEq, Eq)]
pub enum Mark {
    LoadPath { start: usize, length: usize },
    Callee { start: usize, length: usize },
    ArgumentName { start: usize, length: usize },
    StringLiteral { start: usize, length: usize, value: String },
}

/// Whether a string's value reads as a label.
pub open spec fn is_label_text(value: Seq<char>) -> bool {
    starts_with(value, "//"@) || starts_with(value, ":"@) || starts_with(value, "@"@)
}

/// The range a mark covers and the type it is coloured with, unless it is
/// a string that is no label.
pub open spec fn mark_token(m: Mark) -> Option<(int, int, u32)> {
    match m {
        Mark::LoadPath { start, length } => Some((start as int, length as int, NAMESPACE)),
        Mark::Callee { start, length } => Some((start as int, length as int, FUNCTION)),
        Mark::ArgumentName { start, length } => Some((start as int, length as int, PARAMETER)),
        Mark::StringLiteral { start, length, value } => if is_label_text(value@) {
            Some((start as int, length as int, STRING))
        } else {
            None
        },
    }
}

/// A token at an absolute place: line, UTF-16 column, width, type.
pub type Absolute = (u32, u32, u32, u32);

/// The token for bytes `start..start + length` of a text: where it starts,
/// and its width in UTF-16 units when it ends on the line it starts on, or
/// else its length in bytes.
pub open spec fn spec_span(bs: Seq<u8>, start: int, length: int, token_type: u32) -> Absolute {
    let at = text_position(bs, start);
    let end = text_position(bs, start + length);
    let width: u32 = if end.0 == at.0 {
        (end.1 - at.1) as u32
    } else if length <= u32::MAX {
        length as u32
    } else {
        u32::MAX
    };
    (at.0, at.1, width, token_type)
}

/// The tokens of the marks from position `i` on, in mark order.
pub open spec fn mark_spans(bs: Seq<u8>, marks: Seq<Mark>) -> Seq<Absolute>
    decreases marks.len(),
{
    if marks.len() == 0 {
        Seq::empty()
    } else {
        let rest = mark_spans(bs, marks.drop_last());
        match mark_token(marks.last()) {
            Some((start, length, t)) => rest.push(spec_span(bs, start, length, t)),
            None => rest,
        }
    }
}

/// Tokens order by line, then column, width and type.
pub open spec fn absolute_less(a: Absolute, b: Absolute) -> bool {
    a.0 < b.0 || (a.0 == b.0 && (a.1 < b.1 || (a.1 == b.1 && (a.2 < b.2 || (a.2 == b.2 && a.3 < b.3)))))
}

/// No token sorts before one ahead of it.
pub open spec fn sorted(s: Seq<Absolute>) -> bool {
    forall|i: int, j: int| 0 <= i < j < s.len() ==> !absolute_less(#[trigger] s[j], #[trigger] s[i])
}

/// `x` placed into sorted tokens after every token that does not sort
/// after it.
pub open spec fn insert_absolute(s: Seq<Absolute>, x: Absolute) -> Seq<Absolute>
    decreases s.len(),
{
    if s.len() == 0 {
        seq![x]
    } else if absolute_less(x, s.last()) {
        insert_absolute(s.drop_last(), x).push(s.last())
    } else {
        s.push(x)
    }
}

/// Tokens in sorted order.
pub open spec fn sort_absolute(s: Seq<Absolute>) -> Seq<Absolute>
    decreases s.len(),
{
    if s.len() == 0 {
        s
    } else {
        insert_absolute(sort_absolute(s.drop_last()), s.last())
    }
}

/// One token as the protocol carries it: its line relative to the token
/// before, its column relative to that token's when on the same line, its
/// width, type and modifiers.
#[derive(Debug, Clone, Copy, PartialEq, Eq)]
pub struct SemanticToken {
    pub delta_line: u32,
    pub delta_start: u32,
    pub length: u32,
    pub token_type: u32,
    pub token_modifiers_bitset: u32,
}

/// Sorted tokens written relative to the one before each.
pub open spec fn spec_encode(s: Seq<Absolute>) -> Seq<SemanticToken> {
    Seq::new(
        s.len(),
        |i: int| {
            let prev: (u32, u32) = if i == 0 {
                (0, 0)
            } else {
                (s[i - 1].0, s[i - 1].1)
            };
            SemanticToken {
                delta_line: (s[i].0 - prev.0) as u32,
                delta_start: if s[i].0 == prev.0 {
                    (s[i].1 - prev.1) as u32
                } else {
                    s[i].1
                },
                length: s[i].2,
                token_type: s[i].3,
                token_modifiers_bitset: 0,
            }
        },
    )
}

/// Relative tokens back at their absolute places, each after the one
/// before it.
pub open spec fn decoded(d: Seq<SemanticToken>) -> Seq<Absolute>
    decreases d.len(),
{
    if d.len() == 0 {
        Seq::empty()
    } else {
        let rest = decoded(d.drop_last());
        let prev: (int, int) = if rest.len() == 0 {
            (0, 0)
        } else {
            (rest.last().0 as int, rest.last().1 as int)
        };
        let t = d.last();
        let place: (int, int) = if t.delta_line == 0 {
            (prev.0, prev.1 + t.delta_start)
        } else {
            (prev.0 + t.delta_line, t.delta_start as int)
        };
        rest.push((place.0 as u32, place.1 as u32, t.length, t.token_type))
    }
}

/// Decoding gives back the sorted tokens encoding was given: the relative
/// form loses nothing.
pub proof fn encoding_round_trips(s: Seq<Absolute>)
    requires
        sorted(s),
    ensures
        decoded(spec_encode(s)) == s,
    decreases s.len(),
{
    if s.len() > 0 {
        let d = spec_encode(s);
        let shorter = s.drop_last();
        assert(sorted(shorter)) by {
            assert forall|i: int, j: int| 0 <= i < j < shorter.len() implies !absolute_less(
                #[trigger] shorter[j],
                #[trigger] shorter[i],
            ) by {
                assert(shorter[i] == s[i] && shorter[j] == s[j]);
            }
        }
        encoding_round_trips(shorter);
        assert(d.drop_last() =~= spec_encode(shorter));
        let n = s.len() - 1;
        if n > 0 {
            assert(!absolute_less(s[n], s[n - 1]));
        }
        assert(decoded(d) =~= s);
    }
}

/// Sorted tokens written relative to the one before each.
pub fn encode(absolute: &[Absolute]) -> (out: Vec<SemanticToken>)
    requires
        sorted(absolute@),
    ensures
        out@ == spec_encode(absolute@),
{
    let mut out: Vec<SemanticToken> = Vec::new();
    let mut last_line: u32 = 0;
    let mut last_start: u32 = 0;
    let mut i: usize = 0;
    while i < absolute.len()
        invariant
            i <= absolute@.len(),
            sorted(absolute@),
            out@ =~= spec_encode(absolute@).take(i as int),
            i == 0 ==> last_line == 0 && last_start == 0,
            i > 0 ==> last_line == absolute@[i - 1].0 && last_start == absolute@[i - 1].1,
        decreases absolute.len() - i,
    {
        let (line, start, length, token_type) = absolute[i];
        if i > 0 {
            assert(!absolute_less(absolute@[i as int], absolute@[i - 1]));
        }
        let delta_line = line - last_line;
        let delta_start = if delta_line == 0 {
            start - last_start
        } else {
            start
        };
        out.push(SemanticToken { delta_line, delta_start, length, token_type, token_modifiers_bitset: 0 });
        last_line = line;
        last_start = start;
        i = i + 1;
    }
    out
}

/// Inserting into sorted tokens keeps them sorted, and adds just the one
/// token.
pub proof fn lemma_insert_sorted(s: Seq<Absolute>, x: Absolute)
    requires
        sorted(s),
    ensures
        sorted(insert_absolute(s, x)),
        insert_absolute(s, x).len() == s.len() + 1,
        forall|i: int| 0 <= i < insert_absolute(s, x).len() ==> (#[trigger] insert_absolute(s, x)[i] == x
            || s.contains(insert_absolute(s, x)[i])),
    decreases s.len(),
{
    if s.len() == 0 {
    } else if absolute_less(x, s.last()) {
        let shorter = s.drop_last();
        assert(sorted(shorter)) by {
            assert forall|i: int, j: int| 0 <= i < j < shorter.len() implies !absolute_less(
                #[trigger] shorter[j],
                #[trigger] shorter[i],
            ) by {
                assert(shorter[i] == s[i] && shorter[j] == s[j]);
            }
        }
        lemma_insert_sorted(shorter, x);
        let r = insert_absolute(shorter, x);
        let full = r.push(s.last());
        assert forall|i: int| 0 <= i < r.len() implies !absolute_less(s.last(), #[trigger] r[i]) by {
            if r[i] != x {
                assert(shorter.contains(r[i]));
                let j = choose|j: int| 0 <= j < shorter.len() && shorter[j] == r[i];
                assert(s[j] == r[i]);
                assert(!absolute_less(s[s.len() - 1], s[j]));
            }
        }
        assert forall|i: int, j: int| 0 <= i < j < full.len() implies !absolute_less(
            #[trigger] full[j],
            #[trigger] full[i],
        ) by {
            if j < r.len() {
                assert(full[i] == r[i] && full[j] == r[j]);
            } else {
                assert(full[i] == r[i]);
            }
        }
        assert forall|i: int| 0 <= i < full.len() implies (#[trigger] full[i] == x || s.contains(full[i])) by {
            if i < r.len() {
                assert(full[i] == r[i]);
                if r[i] != x {
                    assert(shorter.contains(r[i]));
                    let j = choose|j: int| 0 <= j < shorter.len() && shorter[j] == r[i];
                    assert(s[j] == r[i]);
                }
            } else {
                assert(full[i] == s[s.len() - 1]);
            }
        }
    } else {
        let full = s.push(x);
        assert forall|i: int, j: int| 0 <= i < j < full.len() implies !absolute_less(
            #[trigger] full[j],
            #[trigger] full[i],
        ) by {
            if j < s.len() {
                assert(full[i] == s[i] && full[j] == s[j]);
            } else {
                assert(full[i] == s[i]);
                if i < s.len() - 1 {
                    assert(!absolute_less(s[s.len() - 1], s[i]));
                }
            }
        }
        assert forall|i: int| 0 <= i < full.len() implies (#[trigger] full[i] == x || s.contains(full[i])) by {
            if i < s.len() {
                assert(full[i] == s[i]);
            }
        }
    }
}

/// The sorted tokens are sorted.
pub proof fn lemma_sort_sorted(s: Seq<Absolute>)
    ensures
        sorted(sort_absolute(s)),
        sort_absolute(s).len() == s.len(),
    decreases s.len(),
{
    if s.len() > 0 {
        lemma_sort_sorted(s.drop_last());
        lemma_insert_sorted(sort_absolute(s.drop_last()), s.last());
    }
}

/// Whether token `x` sorts before token `y`.
fn before(x: Absolute, y: Absolute) -> (b: bool)
    ensures
        b == absolute_less(x, y),
{
    x.0 < y.0 || (x.0 == y.0 && (x.1 < y.1 || (x.1 == y.1 && (x.2 < y.2 || (x.2 == y.2 && x.3 < y.3)))))
}

/// Place `x` into sorted tokens after every token that does not sort
/// after it.
fn insert_token(tokens: &mut Vec<Absolute>, x: Absolute)
    ensures
        final(tokens)@ == insert_absolute(old(tokens)@, x),
{
    let ghost s = tokens@;
    let mut j: usize = tokens.len();
    assert(s.take(j as int) =~= s);
    assert(s.skip(j as int) =~= Seq::<Absolute>::empty());
    while j > 0 && before(x, tokens[j - 1])
        invariant
            j <= tokens@.len(),
            s == tokens@,
            insert_absolute(s, x) == insert_absolute(s.take(j as int), x) + s.skip(j as int),
        decreases j,
    {
        proof {
            let t = s.take(j as int);
            assert(t.last() == s[j - 1]);
            assert(t.drop_last() =~= s.take(j - 1));
            assert(s.skip(j - 1) =~= seq![s[j - 1]] + s.skip(j as int));
            assert(insert_absolute(s.take(j - 1), x).push(s[j - 1]) + s.skip(j as int) =~= insert_absolute(
                s.take(j - 1),
                x,
            ) + s.skip(j - 1));
        }
        j = j - 1;
    }
    proof {
        let t = s.take(j as int);
        if j > 0 {
            assert(t.last() == s[j - 1]);
        }
    }
    tokens.insert(j, x);
    assert(tokens@ =~= s.take(j as int).push(x) + s.skip(j as int));
}

/// Tokens in sorted order.
pub(crate) fn sorted_tokens(tokens: &[Absolute]) -> (sorted: Vec<Absolute>)
    ensures
        sorted@ == sort_absolute(tokens@),
{
    let mut sorted: Vec<Absolute> = Vec::new();
    let mut i: usize = 0;
    assert(tokens@.take(0) =~= Seq::<Absolute>::empty());
    while i < tokens.len()
        invariant
            i <= tokens@.len(),
            sorted@ == sort_absolute(tokens@.take(i as int)),
        decreases tokens.len() - i,
    {
        assert(tokens@.take(i + 1).drop_last() =~= tokens@.take(i as int));
        assert(tokens@.take(i + 1).last() == tokens@[i as int]);
        insert_token(&mut sorted, tokens[i]);
        i = i + 1;
    }
    assert(tokens@.take(tokens@.len() as int) =~= tokens@);
    sorted
}

/// Whether a mark's range is a run of whole characters within the text.
pub open spec fn mark_fits(bs: Seq<u8>, m: Mark) -> bool {
    match mark_token(m) {
        Some((start, length, _)) => start + length <= bs.len() && is_boundary(bs, start)
            && is_boundary(bs, start + length),
        None => true,
    }
}

/// The token for a run of whole characters.
fn span(text: &str, lines: &LineIndex, start: usize, length: usize, token_type: u32) -> (t: Absolute)
    requires
        lines.indexes(text),
        text.spec_bytes().len() <= u32::MAX,
        start + length <= text.spec_bytes().len(),
        is_boundary(text.spec_bytes(), start as int),
        is_boundary(text.spec_bytes(), start + length),
    ensures
        t == spec_span(text.spec_bytes(), start as int, length as int, token_type),
{
    let at = lines.position(text, start);
    let end = lines.position(text, start + length);
    let width = if end.0 == at.0 {
        proof {
            vstd::utf8::encode_utf8_valid_utf8(text@);
            lemma_columns_ordered(text.spec_bytes(), start as int, start + length);
        }
        end.1 - at.1
    } else if length <= 4294967295 {
        length as u32
    } else {
        4294967295
    };
    (at.0, at.1, width, token_type)
}

/// The tokens of everything a walk of a Starlark text marked: load paths,
/// called names, argument names, and strings that read as labels; sorted,
/// and each written relative to the one before.
pub fn semantic_tokens(text: &str, lines: &LineIndex, marks: &[Mark]) -> (tokens: Vec<SemanticToken>)
    requires
        lines.indexes(text),
        text.spec_bytes().len() <= u32::MAX,
        forall|i: int| 0 <= i < marks@.len() ==> mark_fits(text.spec_bytes(), #[trigger] marks@[i]),
    ensures
        tokens@ == spec_encode(sort_absolute(mark_spans(text.spec_bytes(), marks@))),
{
    let ghost bs = text.spec_bytes();
    let mut absolute: Vec<Absolute> = Vec::new();
    let mut i: usize = 0;
    assert(marks@.take(0) =~= Seq::<Mark>::empty());
    while i < marks.len()
        invariant
            i <= marks@.len(),
            bs == text.spec_bytes(),
            lines.indexes(text),
            bs.len() <= u32::MAX,
            forall|k: int| 0 <= k < marks@.len() ==> mark_fits(bs, #[trigger] marks@[k]),
            absolute@ == sort_absolute(mark_spans(bs, marks@.take(i as int))),
        decreases marks.len() - i,
    {
        let m = &marks[i];
        assert(mark_fits(bs, marks@[i as int]));
        assert(marks@.take(i + 1).drop_last() =~= marks@.take(i as int));
        assert(marks@.take(i + 1).last() == marks@[i as int]);
        let found = match m {
            Mark::LoadPath { start, length } => Some(span(text, lines, *start, *length, NAMESPACE)),
            Mark::Callee { start, length } => Some(span(text, lines, *start, *length, FUNCTION)),
            Mark::ArgumentName { start, length } => Some(span(text, lines, *start, *length, PARAMETER)),
            Mark::StringLiteral { start, length, value } => {
                if str_starts_with(value.as_str(), "//") || str_starts_with(value.as_str(), ":")
                    || str_starts_with(value.as_str(), "@") {
                    Some(span(text, lines, *start, *length, STRING))
                } else {
                    None
                }
            },
        };
        let ghost ms = mark_spans(bs, marks@.take(i as int));
        match found {
            Some(t) => {
                assert(mark_spans(bs, marks@.take(i + 1)) == ms.push(t));
                assert(ms.push(t).drop_last() =~= ms);
                insert_token(&mut absolute, t);
            },
            None => {
                assert(mark_spans(bs, marks@.take(i + 1)) == ms);
            },
        }
        i = i + 1;
    }
    assert(marks@.take(marks@.len() as int) =~= marks@);
    proof {
        lemma_sort_sorted(mark_spans(bs, marks@));
    }
    encode(absolute.as_slice())
}

/// Whether a byte offset of `bytes` opens a character or ends the text.
pub(crate) fn boundary(bytes: &[u8], i: usize) -> (b: bool)
    ensures
        b == is_boundary(bytes@, i as int),
{
    i == 0 || i == bytes.len() || (i < bytes.len() && !(0x80 <= bytes[i] && bytes[i] < 0xC0))
}

/// Whether the text is short enough for its columns and every mark's range
/// is a run of whole characters within it: what [`semantic_tokens`] needs.
pub fn marks_fit(text: &str, marks: &[Mark]) -> (b: bool)
    ensures
        b == (text.spec_bytes().len() <= u32::MAX && forall|i: int|
            0 <= i < marks@.len() ==> mark_fits(text.spec_bytes(), #[trigger] marks@[i])),
{
    let bytes = text.as_bytes();
    if bytes.len() > 4294967295 {
        return false;
    }
    let mut i: usize = 0;
    while i < marks.len()
        invariant
            i <= marks@.len(),
            bytes@ == text.spec_bytes(),
            bytes@.len() <= u32::MAX,
            forall|k: int| 0 <= k < i ==> mark_fits(bytes@, #[trigger] marks@[k]),
        decreases marks.len() - i,
    {
        let (start, length) = match &marks[i] {
            Mark::LoadPath { start, length } => (*start, *length),
            Mark::Callee { start, length } => (*start, *length),
            Mark::ArgumentName { start, length } => (*start, *length),
            Mark::StringLiteral { start, length, value } => {
                if !(str_starts_with(value.as_str(), "//") || str_starts_with(value.as_str(), ":")
                    || str_starts_with(value.as_str(), "@")) {
                    i = i + 1;
                    continue;
                }
                (*start, *length)
            },
        };
        if start > bytes.len() || length > bytes.len() - start {
            return false;
        }
        if !boundary(bytes, start) || !boundary(bytes, start + length) {
            return false;
        }
        i = i + 1;
    }
    true
}

/// Whether every mark of `marks` is a run of whole characters within the
/// text `bs`, short enough for its columns.
pub open spec fn all_fit(bs: Seq<u8>, marks: Seq<Mark>) -> bool {
    bs.len() <= u32::MAX && forall|i: int| 0 <= i < marks.len() ==> mark_fits(bs, #[trigger] marks[i])
}

/// The semantic tokens of an open Starlark buffer: the marks a walk of its
/// syntax tree finds, coloured, sorted and written relative to one another;
/// `None` when a mark does not fit the text.
pub fn document_semantic_tokens(document: &Document) -> (tokens: Option<Vec<SemanticToken>>)
    requires
        !document.rc(),
    ensures
        exists|marks: Seq<Mark>|
            #![trigger all_fit(encode_utf8(document.text_view()), marks)]
            marks.map_values(|m: Mark| mark_view(m)) == marks_before(
                tree_elements(document.starlark_tree()),
                tree_elements(document.starlark_tree()).len() as int,
            ) && (match tokens {
                Some(t) => all_fit(encode_utf8(document.text_view()), marks)
                    && t@ == spec_encode(sort_absolute(mark_spans(encode_utf8(document.text_view()), marks))),
                None => !all_fit(encode_utf8(document.text_view()), marks),
            }),
{
    let marks = syntax_marks(document.parse());
    let text = document.text();
    proof {
        crate::text::lemma_str_byte_width(text);
    }
    let fit = marks_fit(text, marks.as_slice());
    assert(fit == all_fit(encode_utf8(document.text_view()), marks@));
    if !fit {
        return None;
    }
    let lines = document.line_index();
    Some(semantic_tokens(text, lines, marks.as_slice()))
}

} // verus!
