//! A Starlark syntax tree read as plain values: every node and token in
//! tree order, with its kind's number, its byte range, how many nodes
//! enclose it and, for a token, its text. The colouring marks are read off
//! that list.

use vstd::prelude::*;
use vstd::string::StringSliceAdditionalSpecFns;
use vstd::utf8::{decode_utf8, encode_utf8};
use crate::handlers::semantic::Mark;
use crate::handlers::cursor::{Place, StringSite};
use crate::handlers::implementation::{FunctionDef, RuleCall};
use crate::handlers::symbols::TopLevelCall;
use crate::collect::BuildCall;
use crate::text::{byte_width, lemma_str_byte_width};
use starlark_cst::parser::Parse as StarlarkTree;

verus! {

/// The kinds the marks are read from, by their numbers in the parser's
/// `SyntaxKind`.
pub const INT: u16 = 7;
pub const BYTES: u16 = 10;
pub const STRING: u16 = 9;
pub const IDENT: u16 = 11;
pub const ASSIGN: u16 = 50;
pub const LOAD_STMT: u16 = 84;
pub const LITERAL_EXPR: u16 = 90;
pub const IDENT_EXPR: u16 = 91;
pub const CALL_EXPR: u16 = 96;
pub const COMMENT: u16 = 1;
pub const TYPE_KW: u16 = 27;
pub const ISINSTANCE_KW: u16 = 29;
pub const FILE: u16 = 76;
pub const DEF_STMT: u16 = 77;
pub const DOT_EXPR: u16 = 97;
pub const ISINSTANCE_EXPR: u16 = 107;
pub const ARG_LIST: u16 = 113;
pub const SUITE: u16 = 89;
pub const LIST_EXPR: u16 = 100;
pub const TUPLE_EXPR: u16 = 101;
pub const DICT_EXPR: u16 = 102;
pub const LIST_COMP: u16 = 103;
pub const DICT_COMP: u16 = 104;
pub const ASSIGN_STMT: u16 = 85;
pub const EXPR_STMT: u16 = 86;
pub const ARG: u16 = 114;
pub const LOAD_ITEM: u16 = 115;

/// One node or token of a syntax tree.
#[derive(Debug, Clone, PartialEq, Eq)]
pub struct Element {
    pub kind: u16,
    pub start: u32,
    pub end: u32,
    /// How many nodes enclose it: none for the root.
    pub depth: usize,
    /// A token's text; `None` for a node.
    pub token: Option<String>,
}

/// Every element's range runs forward, and a token's range is as wide as
/// its text.
pub open spec fn ranges_fit(es: Seq<Element>) -> bool {
    forall|k: int| 0 <= k < es.len() ==> {
        &&& (#[trigger] es[k]).start <= es[k].end
        &&& (es[k].token matches Some(t) ==> es[k].end - es[k].start == byte_width(t@))
    }
}

/// An element as plain values.
pub type ElementView = (u16, u32, u32, usize, Option<Seq<char>>);

pub open spec fn element_view(e: Element) -> ElementView {
    (e.kind, e.start, e.end, e.depth, match e.token {
        Some(t) => Some(t@),
        None => None,
    })
}

pub open spec fn elements_view(es: Seq<Element>) -> Seq<ElementView> {
    es.map_values(|e: Element| element_view(e))
}

/// What the parser's tree holds, node and token, in tree order.
pub uninterp spec fn tree_elements(tree: StarlarkTree) -> Seq<ElementView>;

/// Every node and token of `tree` in tree order, as `descendants_with_tokens`
/// walks it: its kind's number, its range, how many nodes enclose it, and a
/// token's text. A token's range is as wide as its text and opens where
/// the range says.
#[verifier::external_body]
fn elements_of(tree: &StarlarkTree) -> (found: Vec<Element>)
    ensures
        elements_view(found@) == tree_elements(*tree),
        ranges_fit(found@),
{
    tree.syntax().descendants_with_tokens().map(|e| Element {
        kind: e.kind() as u16,
        start: e.text_range().start().into(),
        end: e.text_range().end().into(),
        depth: e.parent().map_or(0, |p| p.ancestors().count()),
        token: e.as_token().map(|t| t.text().to_string()),
    }).collect()
}

/// Whether a byte is a string prefix letter: `r`, `R`, `b` or `B`.
pub open spec fn is_prefix_letter(b: u8) -> bool {
    b == 0x72 || b == 0x52 || b == 0x62 || b == 0x42
}

/// How many prefix letters open a token, counting up to three.
pub open spec fn prefix_letters(bs: Seq<u8>) -> int {
    if !(bs.len() > 0 && is_prefix_letter(bs[0])) {
        0
    } else if !(bs.len() > 1 && is_prefix_letter(bs[1])) {
        1
    } else if !(bs.len() > 2 && is_prefix_letter(bs[2])) {
        2
    } else {
        3
    }
}

/// The byte range of a string token's content: past at most two prefix
/// letters and an opening quote (one character, or three alike), and up to
/// a closing run of the same quotes when the token ends with one; nothing
/// where the token does not open a string.
pub open spec fn content_range(bs: Seq<u8>) -> Option<(int, int)> {
    let i = prefix_letters(bs);
    if i > 2 || i >= bs.len() {
        None
    } else {
        let quote = bs[i];
        if quote != 0x27 && quote != 0x22 {
            None
        } else {
            let q: int = if bs.len() >= i + 3 && bs[i + 1] == quote && bs[i + 2] == quote { 3 } else { 1 };
            let start = i + q;
            let end = if bs.len() >= start + q && (forall|k: int| bs.len() - q <= k < bs.len() ==> bs[k] == quote) {
                bs.len() - q
            } else {
                bs.len() as int
            };
            Some((start, if end >= start { end } else { start }))
        }
    }
}

/// A string token's content: its byte range within the token, and the
/// text there.
pub open spec fn string_content_of(token: Seq<char>) -> Option<(int, int, Seq<char>)> {
    match content_range(encode_utf8(token)) {
        Some((a, b)) => Some((a, b, decode_utf8(encode_utf8(token).subrange(a, b)))),
        None => None,
    }
}

/// `starlark_cst::lexer::string_content_range`, with the text it names:
/// the content of a string token, quotes and prefix removed, as
/// [`content_range`] states it.
#[verifier::external_body]
fn string_content(token: &str) -> (r: Option<(usize, usize, String)>)
    ensures
        (match r {
            Some((a, b, v)) => string_content_of(token@) == Some((a as int, b as int, v@)) && a <= b <= token.spec_bytes().len(),
            None => string_content_of(token@) is None,
        }),
{
    let (start, end) = starlark_cst::lexer::string_content_range(token)?;
    Some((start, end, token[start..end].to_string()))
}

/// The first child of element `i`, from element `j` on, that is a token
/// (or a node) with a kind numbered `lo..=hi`.
pub open spec fn child_from(es: Seq<ElementView>, i: int, j: int, token: bool, lo: u16, hi: u16) -> Option<int>
    decreases es.len() - j,
{
    if j <= i || j >= es.len() || es[j].3 <= es[i].3 {
        None
    } else if es[j].3 == es[i].3 + 1 && (es[j].4 is Some) == token && lo <= es[j].0 <= hi {
        Some(j)
    } else {
        child_from(es, i, j + 1, token, lo, hi)
    }
}

/// The first child of element `i` that is a token (or a node) of a kind
/// numbered `lo..=hi`.
pub open spec fn first_child(es: Seq<ElementView>, i: int, token: bool, lo: u16, hi: u16) -> Option<int> {
    child_from(es, i, i + 1, token, lo, hi)
}

/// A mark as plain values: which kind (load path, callee, argument name,
/// string literal), where it starts, how long it is, and a string's value.
pub open spec fn mark_view(m: Mark) -> (int, int, int, Seq<char>) {
    match m {
        Mark::LoadPath { start, length } => (0, start as int, length as int, Seq::empty()),
        Mark::Callee { start, length } => (1, start as int, length as int, Seq::empty()),
        Mark::ArgumentName { start, length } => (2, start as int, length as int, Seq::empty()),
        Mark::StringLiteral { start, length, value } => (3, start as int, length as int, value@),
    }
}

/// The mark a string token makes: its content's range in the text.
pub open spec fn content_mark(es: Seq<ElementView>, t: int, kind: int, with_value: bool) -> Option<(int, int, int, Seq<char>)> {
    match es[t].4 {
        Some(text) => match string_content_of(text) {
            Some((a, b, v)) => Some((kind, es[t].1 + a, b - a, if with_value { v } else { Seq::empty() })),
            None => None,
        },
        None => None,
    }
}

/// The mark node `i` makes: a `load()` its module's path, a call its
/// callee when that is a plain name, a keyword argument its name, and a
/// string literal its content.
pub open spec fn mark_at(es: Seq<ElementView>, i: int) -> Option<(int, int, int, Seq<char>)> {
    let e = es[i];
    if e.4 is Some {
        None
    } else if e.0 == LOAD_STMT {
        match first_child(es, i, false, LOAD_ITEM, LOAD_ITEM) {
            Some(m) => match first_child(es, m, true, STRING, STRING) {
                Some(t) => content_mark(es, t, 0, false),
                None => None,
            },
            None => None,
        }
    } else if e.0 == CALL_EXPR {
        match first_child(es, i, false, IDENT_EXPR, IDENT_EXPR) {
            Some(c) => Some((1, es[c].1 as int, es[c].2 - es[c].1, Seq::empty())),
            None => None,
        }
    } else if e.0 == ARG {
        match (first_child(es, i, true, ASSIGN, ASSIGN), first_child(es, i, true, IDENT, IDENT)) {
            (Some(_), Some(n)) => Some((2, es[n].1 as int, es[n].2 - es[n].1, Seq::empty())),
            _ => None,
        }
    } else if e.0 == LITERAL_EXPR {
        match first_child(es, i, true, INT, BYTES) {
            Some(t) => if es[t].0 == STRING || es[t].0 == BYTES {
                content_mark(es, t, 3, true)
            } else {
                None
            },
            None => None,
        }
    } else {
        None
    }
}

/// The marks of the elements before `n`, in tree order.
pub open spec fn marks_before(es: Seq<ElementView>, n: int) -> Seq<(int, int, int, Seq<char>)>
    decreases n,
{
    if n <= 0 {
        Seq::empty()
    } else {
        marks_before(es, n - 1) + match mark_at(es, n - 1) {
            Some(m) => seq![m],
            None => Seq::empty(),
        }
    }
}

/// The first child of element `i` that is a token (or a node) of a kind
/// numbered `lo..=hi`.
fn find_child(es: &Vec<Element>, i: usize, token: bool, lo: u16, hi: u16) -> (found: Option<usize>)
    requires
        i < es.len(),
    ensures
        found matches Some(j) ==> i < j < es.len(),
        (match found {
            Some(j) => first_child(elements_view(es@), i as int, token, lo, hi) == Some(j as int),
            None => first_child(elements_view(es@), i as int, token, lo, hi) is None,
        }),
{
    let ghost v = elements_view(es@);
    let mut j = i + 1;
    while j < es.len()
        invariant
            i < j <= es@.len(),
            v == elements_view(es@),
            first_child(v, i as int, token, lo, hi) == child_from(v, i as int, j as int, token, lo, hi),
        decreases es.len() - j,
    {
        assert(v[j as int] == element_view(es@[j as int]));
        assert(v[i as int] == element_view(es@[i as int]));
        if es[j].depth <= es[i].depth {
            return None;
        }
        if es[j].depth - 1 == es[i].depth && es[j].token.is_some() == token && lo <= es[j].kind && es[j].kind <= hi {
            return Some(j);
        }
        j = j + 1;
    }
    None
}

/// The mark a string token makes, as `content_mark` says.
fn content(es: &Vec<Element>, t: usize, kind: u8, with_value: bool) -> (m: Option<Mark>)
    requires
        t < es@.len(),
        ranges_fit(es@),
        kind == 0 || kind == 3,
        kind == 3 <==> with_value,
    ensures
        (match m {
            Some(m) => content_mark(elements_view(es@), t as int, kind as int, with_value) == Some(mark_view(m)),
            None => content_mark(elements_view(es@), t as int, kind as int, with_value) is None,
        }),
{
    let ghost v = elements_view(es@);
    assert(v[t as int] == element_view(es@[t as int]));
    let text = match &es[t].token {
        Some(text) => text,
        None => {
            return None;
        },
    };
    let text = text.as_str();
    proof {
        lemma_str_byte_width(text);
    }
    match string_content(text) {
        Some((a, b, value)) => {
            let start = es[t].start as usize + a;
            if with_value {
                Some(Mark::StringLiteral { start, length: b - a, value })
            } else {
                Some(Mark::LoadPath { start, length: b - a })
            }
        },
        None => None,
    }
}

/// The mark element `i` makes, as `mark_at` says.
fn mark_of(es: &Vec<Element>, i: usize) -> (m: Option<Mark>)
    requires
        i < es@.len(),
        ranges_fit(es@),
    ensures
        (match m {
            Some(m) => mark_at(elements_view(es@), i as int) == Some(mark_view(m)),
            None => mark_at(elements_view(es@), i as int) is None,
        }),
{
    let ghost v = elements_view(es@);
    assert(v[i as int] == element_view(es@[i as int]));
    if es[i].token.is_some() {
        return None;
    }
    let kind = es[i].kind;
    if kind == LOAD_STMT {
        match find_child(es, i, false, LOAD_ITEM, LOAD_ITEM) {
            Some(m) => match find_child(es, m, true, STRING, STRING) {
                Some(t) => content(es, t, 0, false),
                None => None,
            },
            None => None,
        }
    } else if kind == CALL_EXPR {
        match find_child(es, i, false, IDENT_EXPR, IDENT_EXPR) {
            Some(c) => {
                assert(v[c as int] == element_view(es@[c as int]));
                Some(Mark::Callee { start: es[c].start as usize, length: (es[c].end - es[c].start) as usize })
            },
            None => None,
        }
    } else if kind == ARG {
        let assign = find_child(es, i, true, ASSIGN, ASSIGN);
        let name = find_child(es, i, true, IDENT, IDENT);
        match (assign, name) {
            (Some(_), Some(n)) => {
                assert(v[n as int] == element_view(es@[n as int]));
                Some(Mark::ArgumentName { start: es[n].start as usize, length: (es[n].end - es[n].start) as usize })
            },
            _ => None,
        }
    } else if kind == LITERAL_EXPR {
        match find_child(es, i, true, INT, BYTES) {
            Some(t) => {
                assert(v[t as int] == element_view(es@[t as int]));
                if es[t].kind == STRING || es[t].kind == BYTES {
                    content(es, t, 3, true)
                } else {
                    None
                }
            },
            None => None,
        }
    } else {
        None
    }
}

/// The marks of a list of elements in tree order: what may be coloured.
pub fn marks_in(es: &Vec<Element>) -> (marks: Vec<Mark>)
    requires
        ranges_fit(es@),
    ensures
        marks@.map_values(|m: Mark| mark_view(m)) == marks_before(elements_view(es@), es@.len() as int),
{
    let mut marks: Vec<Mark> = Vec::new();
    let mut i: usize = 0;
    while i < es.len()
        invariant
            i <= es@.len(),
            ranges_fit(es@),
            marks@.map_values(|m: Mark| mark_view(m)) == marks_before(elements_view(es@), i as int),
        decreases es.len() - i,
    {
        let ghost before = marks@;
        match mark_of(es, i) {
            Some(m) => {
                marks.push(m);
                assert(marks@.map_values(|m: Mark| mark_view(m)) =~= before.map_values(|m: Mark| mark_view(m)).push(
                    mark_view(marks@.last()),
                ));
            },
            None => {},
        }
        i = i + 1;
    }
    marks
}

/// What may be coloured in a parsed file, in tree order: each `load()`
/// path, each called plain name, each keyword argument's name and each
/// string literal's content.
pub fn syntax_marks(tree: &StarlarkTree) -> (marks: Vec<Mark>)
    ensures
        marks@.map_values(|m: Mark| mark_view(m)) == marks_before(tree_elements(*tree), tree_elements(*tree).len() as int),
{
    let es = elements_of(tree);
    assert(elements_view(es@).len() == es@.len());
    marks_in(&es)
}

/// The parent of element `j`, looked for from element `k` back: the
/// nearest element before it one level up.
pub open spec fn parent_from(es: Seq<ElementView>, j: int, k: int) -> Option<int>
    decreases k + 1,
{
    if k < 0 || k >= j || j >= es.len() {
        None
    } else if es[k].3 + 1 == es[j].3 {
        Some(k)
    } else if es[k].3 + 1 < es[j].3 {
        None
    } else {
        parent_from(es, j, k - 1)
    }
}

/// The parent of element `j`.
pub open spec fn parent(es: Seq<ElementView>, j: int) -> Option<int> {
    parent_from(es, j, j - 1)
}

/// The content of the first string token among node `n`'s children: its
/// range in the text and its text.
pub open spec fn child_string(es: Seq<ElementView>, n: int) -> Option<(int, int, Seq<char>)> {
    match first_child(es, n, true, STRING, STRING) {
        Some(t) => match es[t].4 {
            Some(text) => match string_content_of(text) {
                Some((a, b, v)) => Some((es[t].1 + a, es[t].1 + b, v)),
                None => None,
            },
            None => None,
        },
        None => None,
    }
}

/// The content of a literal's string: its first literal token, when that
/// is a string or bytes.
pub open spec fn literal_string(es: Seq<ElementView>, n: int) -> Option<(int, int, Seq<char>)> {
    match first_child(es, n, true, INT, BYTES) {
        Some(t) => if es[t].0 == STRING || es[t].0 == BYTES {
            match es[t].4 {
                Some(text) => match string_content_of(text) {
                    Some((a, b, v)) => Some((es[t].1 + a, es[t].1 + b, v)),
                    None => None,
                },
                None => None,
            }
        } else {
            None
        },
        None => None,
    }
}

/// Whether element `e` is of kind `kind`.
pub open spec fn kind_is(es: Seq<ElementView>, e: Option<int>, kind: u16) -> bool {
    e matches Some(i) && es[i].0 == kind
}

/// Whether argument `a` is named `name`: it has an `=` and its name token
/// reads `name`.
pub open spec fn named_name(es: Seq<ElementView>, a: int) -> bool {
    &&& first_child(es, a, true, ASSIGN, ASSIGN) is Some
    &&& match first_child(es, a, true, IDENT, IDENT) {
        Some(id) => es[id].4 == Some("name"@),
        None => false,
    }
}

/// Whether argument `a` is one of a call's at the top level of the file:
/// its list's parent is a call, in an expression statement of the file.
pub open spec fn top_level_argument(es: Seq<ElementView>, a: int) -> bool {
    match parent(es, a) {
        Some(list) => match parent(es, list) {
            Some(call) => es[call].0 == CALL_EXPR && match parent(es, call) {
                Some(stmt) => es[stmt].0 == EXPR_STMT && kind_is(es, parent(es, stmt), FILE),
                None => false,
            },
            None => false,
        },
        None => false,
    }
}

/// Whether the literal `n` is the `name` of a call at the top level of the
/// file: ARG, its list, CALL_EXPR, EXPR_STMT, FILE.
pub open spec fn declares_a_target(es: Seq<ElementView>, n: int) -> bool {
    match parent(es, n) {
        Some(a) => es[a].0 == ARG && named_name(es, a) && top_level_argument(es, a),
        None => false,
    }
}

/// A string site as plain values: the token's range, the content's range
/// and text, and where it sits (a `load()` module 0, a loaded symbol 1 with
/// its module, a top-level `name` 2, anywhere else 3).
pub open spec fn site_view(s: StringSite) -> (int, int, int, int, Seq<char>, (int, Seq<char>)) {
    (s.token_start as int, s.token_end as int, s.start as int, s.end as int, s.value@, match s.place {
        Place::LoadModule => (0, Seq::empty()),
        Place::LoadSymbol(m) => (1, m@),
        Place::TopLevelName => (2, Seq::empty()),
        Place::Elsewhere => (3, Seq::empty()),
    })
}

/// The site string token `t` makes: inside a `load()`, its item's content,
/// and whether it is the module or a symbol loaded from it; in a literal,
/// the literal's content, and whether it names a target at the top level.
pub open spec fn site_at(es: Seq<ElementView>, t: int) -> Option<(int, int, int, int, Seq<char>, (int, Seq<char>))> {
    if es[t].4 is None || es[t].0 != STRING {
        None
    } else {
        match parent(es, t) {
            None => None,
            Some(p) => if es[p].0 == LOAD_ITEM {
                match parent(es, p) {
                    Some(l) => if es[l].0 != LOAD_STMT {
                        None
                    } else {
                        match first_child(es, l, false, LOAD_ITEM, LOAD_ITEM) {
                            None => None,
                            Some(m) => {
                                let place = if m == p {
                                    Some((0int, Seq::<char>::empty()))
                                } else {
                                    match child_string(es, m) {
                                        Some((_, _, v)) => Some((1int, v)),
                                        None => None,
                                    }
                                };
                                match (place, child_string(es, p)) {
                                    (Some(place), Some((a, b, v))) => Some((es[t].1 as int, es[t].2 as int, a, b, v, place)),
                                    _ => None,
                                }
                            },
                        }
                    },
                    None => None,
                }
            } else if es[p].0 == LITERAL_EXPR {
                let place = if declares_a_target(es, p) { (2int, Seq::<char>::empty()) } else { (3int, Seq::<char>::empty()) };
                match literal_string(es, p) {
                    Some((a, b, v)) => Some((es[t].1 as int, es[t].2 as int, a, b, v, place)),
                    None => None,
                }
            } else {
                None
            },
        }
    }
}

/// The sites of the elements before `n`, in tree order.
pub open spec fn sites_before(es: Seq<ElementView>, n: int) -> Seq<(int, int, int, int, Seq<char>, (int, Seq<char>))>
    decreases n,
{
    if n <= 0 {
        Seq::empty()
    } else {
        sites_before(es, n - 1) + match site_at(es, n - 1) {
            Some(site) => seq![site],
            None => Seq::empty(),
        }
    }
}

/// The parent of element `j`.
fn find_parent(es: &Vec<Element>, j: usize) -> (found: Option<usize>)
    requires
        j < es.len(),
    ensures
        found matches Some(k) ==> k < j,
        (match found {
            Some(k) => parent(elements_view(es@), j as int) == Some(k as int),
            None => parent(elements_view(es@), j as int) is None,
        }),
{
    let ghost v = elements_view(es@);
    assert(v[j as int] == element_view(es@[j as int]));
    let mut k = j;
    while k > 0
        invariant
            k <= j < es.len(),
            v == elements_view(es@),
            parent(v, j as int) == parent_from(v, j as int, k - 1),
        decreases k,
    {
        let at = k - 1;
        assert(v[at as int] == element_view(es@[at as int]));
        if es[at].depth < es[j].depth && es[j].depth - es[at].depth == 1 {
            return Some(at);
        }
        if es[at].depth < es[j].depth {
            return None;
        }
        k = at;
    }
    None
}

/// The content of the first string token among node `n`'s children.
fn find_child_string(es: &Vec<Element>, n: usize) -> (found: Option<(u32, u32, String)>)
    requires
        n < es.len(),
        ranges_fit(es@),
    ensures
        (match found {
            Some((a, b, v)) => child_string(elements_view(es@), n as int) == Some((a as int, b as int, v@)),
            None => child_string(elements_view(es@), n as int) is None,
        }),
{
    match find_child(es, n, true, STRING, STRING) {
        Some(t) => token_content(es, t),
        None => None,
    }
}

/// The content of token `t`: its range in the text and its text.
fn token_content(es: &Vec<Element>, t: usize) -> (found: Option<(u32, u32, String)>)
    requires
        t < es.len(),
        ranges_fit(es@),
    ensures
        (match found {
            Some((a, b, v)) => (match elements_view(es@)[t as int].4 {
                Some(text) => string_content_of(text) matches Some((x, y, w)) && a == es@[t as int].start + x
                    && b == es@[t as int].start + y && v@ == w,
                None => false,
            }),
            None => (match elements_view(es@)[t as int].4 {
                Some(text) => string_content_of(text) is None,
                None => true,
            }),
        }),
{
    let ghost v = elements_view(es@);
    assert(v[t as int] == element_view(es@[t as int]));
    let text = match &es[t].token {
        Some(text) => text,
        None => {
            return None;
        },
    };
    let text = text.as_str();
    proof {
        lemma_str_byte_width(text);
    }
    match string_content(text) {
        Some((a, b, value)) => Some((es[t].start + a as u32, es[t].start + b as u32, value)),
        None => None,
    }
}

/// The content of a literal's string.
fn find_literal_string(es: &Vec<Element>, n: usize) -> (found: Option<(u32, u32, String)>)
    requires
        n < es.len(),
        ranges_fit(es@),
    ensures
        (match found {
            Some((a, b, v)) => literal_string(elements_view(es@), n as int) == Some((a as int, b as int, v@)),
            None => literal_string(elements_view(es@), n as int) is None,
        }),
{
    let ghost v = elements_view(es@);
    match find_child(es, n, true, INT, BYTES) {
        Some(t) => {
            assert(v[t as int] == element_view(es@[t as int]));
            if es[t].kind == STRING || es[t].kind == BYTES {
                token_content(es, t)
            } else {
                None
            }
        },
        None => None,
    }
}

/// Whether argument `a` is named `name`.
fn is_named_name(es: &Vec<Element>, a: usize) -> (b: bool)
    requires
        a < es.len(),
    ensures
        b == named_name(elements_view(es@), a as int),
{
    let ghost v = elements_view(es@);
    if find_child(es, a, true, ASSIGN, ASSIGN).is_none() {
        return false;
    }
    match find_child(es, a, true, IDENT, IDENT) {
        Some(id) => {
            assert(v[id as int] == element_view(es@[id as int]));
            match &es[id].token {
                Some(text) => {
                    proof {
                        reveal_strlit("name");
                    }
                    crate::text::str_eq(text.as_str(), "name")
                },
                None => false,
            }
        },
        None => false,
    }
}

/// Whether the literal `n` names a target at the top level of the file.
fn is_declaration(es: &Vec<Element>, n: usize) -> (b: bool)
    requires
        n < es.len(),
    ensures
        b == declares_a_target(elements_view(es@), n as int),
{
    let ghost v = elements_view(es@);
    let a = match find_parent(es, n) {
        Some(a) => a,
        None => {
            return false;
        },
    };
    assert(v[a as int] == element_view(es@[a as int]));
    if es[a].kind != ARG || !is_named_name(es, a) {
        return false;
    }
    let list = match find_parent(es, a) {
        Some(list) => list,
        None => {
            return false;
        },
    };
    let call = match find_parent(es, list) {
        Some(call) => call,
        None => {
            return false;
        },
    };
    assert(v[call as int] == element_view(es@[call as int]));
    if es[call].kind != CALL_EXPR {
        return false;
    }
    let stmt = match find_parent(es, call) {
        Some(stmt) => stmt,
        None => {
            return false;
        },
    };
    assert(v[stmt as int] == element_view(es@[stmt as int]));
    if es[stmt].kind != EXPR_STMT {
        return false;
    }
    match find_parent(es, stmt) {
        Some(file) => {
            assert(v[file as int] == element_view(es@[file as int]));
            es[file].kind == FILE
        },
        None => false,
    }
}

/// The site element `t` makes, as `site_at` says.
fn site_of(es: &Vec<Element>, t: usize) -> (site: Option<StringSite>)
    requires
        t < es.len(),
        ranges_fit(es@),
    ensures
        (match site {
            Some(s) => site_at(elements_view(es@), t as int) == Some(site_view(s)),
            None => site_at(elements_view(es@), t as int) is None,
        }),
{
    let ghost v = elements_view(es@);
    assert(v[t as int] == element_view(es@[t as int]));
    if es[t].token.is_none() || es[t].kind != STRING {
        return None;
    }
    let p = match find_parent(es, t) {
        Some(p) => p,
        None => {
            return None;
        },
    };
    assert(v[p as int] == element_view(es@[p as int]));
    let (token_start, token_end) = (es[t].start, es[t].end);
    if es[p].kind == LOAD_ITEM {
        let l = match find_parent(es, p) {
            Some(l) => l,
            None => {
                return None;
            },
        };
        assert(v[l as int] == element_view(es@[l as int]));
        if es[l].kind != LOAD_STMT {
            return None;
        }
        let m = match find_child(es, l, false, LOAD_ITEM, LOAD_ITEM) {
            Some(m) => m,
            None => {
                return None;
            },
        };
        let place = if m == p {
            Place::LoadModule
        } else {
            match find_child_string(es, m) {
                Some((_, _, module)) => Place::LoadSymbol(module),
                None => {
                    return None;
                },
            }
        };
        match find_child_string(es, p) {
            Some((start, end, value)) => Some(StringSite { token_start, token_end, start, end, value, place }),
            None => None,
        }
    } else if es[p].kind == LITERAL_EXPR {
        let place = if is_declaration(es, p) {
            Place::TopLevelName
        } else {
            Place::Elsewhere
        };
        match find_literal_string(es, p) {
            Some((start, end, value)) => Some(StringSite { token_start, token_end, start, end, value, place }),
            None => None,
        }
    } else {
        None
    }
}

/// The string sites of a list of elements in tree order.
pub fn string_sites_in(es: &Vec<Element>) -> (sites: Vec<StringSite>)
    requires
        ranges_fit(es@),
    ensures
        sites@.map_values(|s: StringSite| site_view(s)) == sites_before(elements_view(es@), es@.len() as int),
{
    let mut sites: Vec<StringSite> = Vec::new();
    let mut i: usize = 0;
    while i < es.len()
        invariant
            i <= es@.len(),
            ranges_fit(es@),
            sites@.map_values(|s: StringSite| site_view(s)) == sites_before(elements_view(es@), i as int),
        decreases es.len() - i,
    {
        let ghost before = sites@;
        match site_of(es, i) {
            Some(site) => {
                sites.push(site);
                assert(sites@.map_values(|s: StringSite| site_view(s)) =~= before.map_values(|s: StringSite| site_view(s)).push(
                    site_view(sites@.last()),
                ));
            },
            None => {},
        }
        i = i + 1;
    }
    sites
}

/// Every string literal of a parsed file, in tree order, with where it
/// sits: the module or a symbol of a `load()`, the `name` of a top-level
/// call, or anywhere else.
pub fn syntax_string_sites(tree: &StarlarkTree) -> (sites: Vec<StringSite>)
    ensures
        sites@.map_values(|s: StringSite| site_view(s)) == sites_before(tree_elements(*tree), tree_elements(*tree).len() as int),
{
    let es = elements_of(tree);
    assert(elements_view(es@).len() == es@.len());
    string_sites_in(&es)
}

/// Whether a node of this kind is a region a reader can collapse: a call,
/// a list, dict or tuple, a comprehension, a block, a `load()`.
pub open spec fn is_foldable(kind: u16) -> bool {
    kind == CALL_EXPR || kind == LIST_EXPR || kind == DICT_EXPR || kind == TUPLE_EXPR || kind == LIST_COMP
        || kind == DICT_COMP || kind == SUITE || kind == LOAD_STMT
}

/// The ranges of the elements before `n` that `keep` keeps, in tree order.
pub open spec fn ranges_before(es: Seq<ElementView>, n: int, keep: spec_fn(ElementView) -> bool) -> Seq<(u32, u32)>
    decreases n,
{
    if n <= 0 {
        Seq::empty()
    } else {
        ranges_before(es, n - 1, keep) + if keep(es[n - 1]) {
            seq![(es[n - 1].1, es[n - 1].2)]
        } else {
            Seq::empty()
        }
    }
}

/// A node a reader can collapse.
pub open spec fn foldable(e: ElementView) -> bool {
    e.4 is None && is_foldable(e.0)
}

/// A comment token.
pub open spec fn comment(e: ElementView) -> bool {
    e.4 is Some && e.0 == COMMENT
}

/// Any node.
pub open spec fn any_node(e: ElementView) -> bool {
    e.4 is None
}

/// Which of the three selections a walk keeps.
fn kept(e: &Element, which: u8) -> (b: bool)
    requires
        which < 3,
    ensures
        b == (if which == 0 {
            foldable(element_view(*e))
        } else if which == 1 {
            comment(element_view(*e))
        } else {
            any_node(element_view(*e))
        }),
{
    let node = e.token.is_none();
    if which == 0 {
        node && (e.kind == CALL_EXPR || e.kind == LIST_EXPR || e.kind == DICT_EXPR || e.kind == TUPLE_EXPR
            || e.kind == LIST_COMP || e.kind == DICT_COMP || e.kind == SUITE || e.kind == LOAD_STMT)
    } else if which == 1 {
        !node && e.kind == COMMENT
    } else {
        node
    }
}

/// The selection `which` names.
pub open spec fn selection(which: u8) -> spec_fn(ElementView) -> bool {
    if which == 0 {
        |e: ElementView| foldable(e)
    } else if which == 1 {
        |e: ElementView| comment(e)
    } else {
        |e: ElementView| any_node(e)
    }
}

/// The ranges of the elements a selection keeps, in tree order.
fn ranges_of(es: &Vec<Element>, which: u8) -> (ranges: Vec<(u32, u32)>)
    requires
        which < 3,
    ensures
        ranges@ == ranges_before(elements_view(es@), es@.len() as int, selection(which)),
{
    let ghost v = elements_view(es@);
    let mut ranges: Vec<(u32, u32)> = Vec::new();
    let mut i: usize = 0;
    while i < es.len()
        invariant
            i <= es@.len(),
            which < 3,
            v == elements_view(es@),
            ranges@ == ranges_before(v, i as int, selection(which)),
        decreases es.len() - i,
    {
        assert(v[i as int] == element_view(es@[i as int]));
        if kept(&es[i], which) {
            ranges.push((es[i].start, es[i].end));
        }
        i = i + 1;
    }
    ranges
}

/// The ranges of the nodes a reader can collapse, in tree order.
pub fn foldable_regions(tree: &StarlarkTree) -> (regions: Vec<(u32, u32)>)
    ensures
        regions@ == ranges_before(tree_elements(*tree), tree_elements(*tree).len() as int, selection(0)),
{
    let es = elements_of(tree);
    ranges_of(&es, 0)
}

/// Where each comment starts, in tree order.
pub fn comment_offsets(tree: &StarlarkTree) -> (offsets: Vec<u32>)
    ensures
        offsets@ == ranges_before(tree_elements(*tree), tree_elements(*tree).len() as int, selection(1)).map_values(
            |r: (u32, u32)| r.0,
        ),
{
    let es = elements_of(tree);
    let ranges = ranges_of(&es, 1);
    let mut offsets: Vec<u32> = Vec::new();
    let mut i: usize = 0;
    while i < ranges.len()
        invariant
            i <= ranges@.len(),
            offsets@ == ranges@.take(i as int).map_values(|r: (u32, u32)| r.0),
        decreases ranges.len() - i,
    {
        offsets.push(ranges[i].0);
        i = i + 1;
        assert(ranges@.take(i as int) =~= ranges@.take(i - 1).push(ranges@[i - 1]));
    }
    assert(ranges@.take(ranges@.len() as int) =~= ranges@);
    offsets
}

/// The range of every node, outer nodes first.
pub fn node_ranges(tree: &StarlarkTree) -> (ranges: Vec<(u32, u32)>)
    ensures
        ranges@ == ranges_before(tree_elements(*tree), tree_elements(*tree).len() as int, selection(2)),
{
    let es = elements_of(tree);
    ranges_of(&es, 2)
}

/// The earlier of two places, where either is found.
pub open spec fn earlier(a: Option<int>, b: Option<int>) -> Option<int> {
    match (a, b) {
        (Some(x), Some(y)) => Some(if x <= y { x } else { y }),
        (Some(x), None) => Some(x),
        (None, y) => y,
    }
}

/// The name a plain-name expression spells: its first name token, a
/// keyword that may stand as a name included.
pub open spec fn ident_name(es: Seq<ElementView>, n: int) -> Option<Seq<char>> {
    match earlier(first_child(es, n, true, IDENT, IDENT), first_child(es, n, true, TYPE_KW, ISINSTANCE_KW)) {
        Some(t) => es[t].4,
        None => None,
    }
}

/// The first expression among node `n`'s children.
pub open spec fn expr_child(es: Seq<ElementView>, n: int) -> Option<int> {
    first_child(es, n, false, LITERAL_EXPR, ISINSTANCE_EXPR)
}

/// The names a dotted expression spells, outermost last: its base's, then
/// its field.
pub open spec fn dotted_parts(es: Seq<ElementView>, d: int) -> Seq<Seq<char>>
    decreases es.len() - d,
{
    let prefix = match expr_child(es, d) {
        Some(b) => if b <= d || b >= es.len() {
            Seq::empty()
        } else if es[b].0 == DOT_EXPR {
            dotted_parts(es, b)
        } else if es[b].0 == IDENT_EXPR {
            match ident_name(es, b) {
                Some(n) => seq![n],
                None => Seq::empty(),
            }
        } else {
            Seq::empty()
        },
        None => Seq::empty(),
    };
    prefix + match first_child(es, d, true, IDENT, IDENT) {
        Some(f) => match es[f].4 {
            Some(t) => seq![t],
            None => Seq::empty(),
        },
        None => Seq::empty(),
    }
}

/// Names joined with dots.
pub open spec fn dotted(parts: Seq<Seq<char>>) -> Seq<char>
    decreases parts.len(),
{
    if parts.len() == 0 {
        Seq::empty()
    } else if parts.len() == 1 {
        parts[0]
    } else {
        dotted(parts.drop_last()) + seq!['.'] + parts.last()
    }
}

/// What a call's callee spells: a plain name, or a dotted path; nothing for
/// a computed callee.
pub open spec fn callee_name(es: Seq<ElementView>, c: int) -> Option<Seq<char>> {
    match expr_child(es, c) {
        Some(e) => if es[e].0 == IDENT_EXPR {
            ident_name(es, e)
        } else if es[e].0 == DOT_EXPR {
            Some(dotted(dotted_parts(es, e)))
        } else {
            None
        },
        None => None,
    }
}

/// The first argument named `name` among the children of list `l`, from
/// element `j` on.
pub open spec fn name_arg_from(es: Seq<ElementView>, l: int, j: int) -> Option<int>
    decreases es.len() - j,
{
    if j <= l || j >= es.len() || es[j].3 <= es[l].3 {
        None
    } else if es[j].3 == es[l].3 + 1 && es[j].4 is None && es[j].0 == ARG && named_name(es, j) {
        Some(j)
    } else {
        name_arg_from(es, l, j + 1)
    }
}

/// The literal a call passes as its `name`: the value of its first
/// argument named so, when that is a literal.
pub open spec fn name_literal(es: Seq<ElementView>, c: int) -> Option<int> {
    match first_child(es, c, false, ARG_LIST, ARG_LIST) {
        Some(l) => match name_arg_from(es, l, l + 1) {
            Some(a) => match expr_child(es, a) {
                Some(v) => if es[v].0 == LITERAL_EXPR { Some(v) } else { None },
                None => None,
            },
            None => None,
        },
        None => None,
    }
}

/// Whether element `j` is a statement at the top level of a file.
pub open spec fn top_level(es: Seq<ElementView>, j: int) -> bool {
    &&& es.len() > 0
    &&& es[0].4 is None && es[0].0 == FILE && es[0].3 == 0
    &&& 0 < j < es.len() && es[j].3 == 1 && es[j].4 is None
}

/// A top-level call as plain values: its callee's name, its range, and its
/// `name` string with that string's content range.
pub type CallView = (Option<Seq<char>>, u32, u32, Option<Seq<char>>, Option<(int, int)>);

pub open spec fn call_view(c: TopLevelCall) -> CallView {
    (
        match c.rule { Some(r) => Some(r@), None => None },
        c.start,
        c.end,
        match c.name { Some(n) => Some(n@), None => None },
        match c.name_range { Some(r) => Some((r.0 as int, r.1 as int)), None => None },
    )
}

/// The call expression statement `j` makes, when it is one.
pub open spec fn statement_call(es: Seq<ElementView>, j: int) -> Option<int> {
    if top_level(es, j) && es[j].0 == EXPR_STMT {
        match expr_child(es, j) {
            Some(c) => if es[c].0 == CALL_EXPR { Some(c) } else { None },
            None => None,
        }
    } else {
        None
    }
}

/// The top-level call statement `j` makes.
pub open spec fn call_at(es: Seq<ElementView>, j: int) -> Option<CallView> {
    match statement_call(es, j) {
        Some(c) => {
            let content = match name_literal(es, c) {
                Some(v) => literal_string(es, v),
                None => None,
            };
            Some((
                callee_name(es, c),
                es[c].1,
                es[c].2,
                match content { Some((_, _, v)) => Some(v), None => None },
                match content { Some((a, b, _)) => Some((a, b)), None => None },
            ))
        },
        None => None,
    }
}

/// The top-level calls among the elements before `n`, in order.
pub open spec fn calls_before(es: Seq<ElementView>, n: int) -> Seq<CallView>
    decreases n,
{
    if n <= 0 {
        Seq::empty()
    } else {
        calls_before(es, n - 1) + match call_at(es, n - 1) {
            Some(c) => seq![c],
            None => Seq::empty(),
        }
    }
}

/// A top-level `def` as plain values: its name and range.
pub open spec fn def_at(es: Seq<ElementView>, j: int) -> Option<(Option<Seq<char>>, u32, u32)> {
    if top_level(es, j) && es[j].0 == DEF_STMT {
        Some((
            match first_child(es, j, true, IDENT, IDENT) {
                Some(t) => es[t].4,
                None => None,
            },
            es[j].1,
            es[j].2,
        ))
    } else {
        None
    }
}

/// The top-level `def`s among the elements before `n`, in order.
pub open spec fn defs_before(es: Seq<ElementView>, n: int) -> Seq<(Option<Seq<char>>, u32, u32)>
    decreases n,
{
    if n <= 0 {
        Seq::empty()
    } else {
        defs_before(es, n - 1) + match def_at(es, n - 1) {
            Some(d) => seq![d],
            None => Seq::empty(),
        }
    }
}

/// The text of token `t`, where it is one.
fn token_text(es: &Vec<Element>, t: usize) -> (text: Option<String>)
    requires
        t < es.len(),
    ensures
        (match text {
            Some(s) => elements_view(es@)[t as int].4 == Some(s@),
            None => elements_view(es@)[t as int].4 is None,
        }),
{
    let ghost v = elements_view(es@);
    assert(v[t as int] == element_view(es@[t as int]));
    match &es[t].token {
        Some(s) => Some(s.clone()),
        None => None,
    }
}

/// The name a plain-name expression spells.
fn find_ident_name(es: &Vec<Element>, n: usize) -> (name: Option<String>)
    requires
        n < es.len(),
    ensures
        (match name {
            Some(s) => ident_name(elements_view(es@), n as int) == Some(s@),
            None => ident_name(elements_view(es@), n as int) is None,
        }),
{
    let a = find_child(es, n, true, IDENT, IDENT);
    let b = find_child(es, n, true, TYPE_KW, ISINSTANCE_KW);
    let t = match (a, b) {
        (Some(x), Some(y)) => if x <= y { x } else { y },
        (Some(x), None) => x,
        (None, Some(y)) => y,
        (None, None) => {
            return None;
        },
    };
    token_text(es, t)
}

/// The names a dotted expression spells, outermost last.
fn find_dotted_parts(es: &Vec<Element>, d: usize) -> (parts: Vec<String>)
    requires
        d < es.len(),
    ensures
        parts@.map_values(|p: String| p@) == dotted_parts(elements_view(es@), d as int),
    decreases es.len() - d,
{
    let ghost v = elements_view(es@);
    let mut parts: Vec<String> = match find_child(es, d, false, LITERAL_EXPR, ISINSTANCE_EXPR) {
        Some(b) => {
            assert(v[b as int] == element_view(es@[b as int]));
            if es[b].kind == DOT_EXPR {
                find_dotted_parts(es, b)
            } else if es[b].kind == IDENT_EXPR {
                match find_ident_name(es, b) {
                    Some(n) => vec![n],
                    None => Vec::new(),
                }
            } else {
                Vec::new()
            }
        },
        None => Vec::new(),
    };
    let ghost prefix = parts@.map_values(|p: String| p@);
    match find_child(es, d, true, IDENT, IDENT) {
        Some(f) => match token_text(es, f) {
            Some(t) => {
                parts.push(t);
                assert(parts@.map_values(|p: String| p@) =~= prefix.push(parts@.last()@));
            },
            None => {},
        },
        None => {},
    }
    assert(parts@.map_values(|p: String| p@) =~= dotted_parts(v, d as int));
    parts
}

/// Names joined with dots.
fn join_dotted(parts: &Vec<String>) -> (joined: String)
    ensures
        joined@ == dotted(parts@.map_values(|p: String| p@)),
{
    let ghost all = parts@.map_values(|p: String| p@);
    let mut joined = String::new();
    let mut i: usize = 0;
    assert(all.take(0) =~= Seq::<Seq<char>>::empty());
    while i < parts.len()
        invariant
            i <= parts.len(),
            all == parts@.map_values(|p: String| p@),
            joined@ == dotted(all.take(i as int)),
        decreases parts.len() - i,
    {
        assert(all.take(i + 1).drop_last() =~= all.take(i as int));
        assert(all.take(i + 1).last() == parts@[i as int]@);
        if i > 0 {
            crate::text::append(&mut joined, ".");
            proof {
                reveal_strlit(".");
            }
        }
        crate::text::append(&mut joined, parts[i].as_str());
        proof {
            if i == 0 {
                assert(all.take(1) =~= seq![parts@[0]@]);
                assert(joined@ =~= Seq::<char>::empty() + parts@[0]@);
            } else {
                assert(joined@ =~= dotted(all.take(i as int)) + seq!['.'] + parts@[i as int]@);
            }
        }
        i = i + 1;
    }
    assert(all.take(parts.len() as int) =~= all);
    joined
}

/// What a call's callee spells.
fn find_callee_name(es: &Vec<Element>, c: usize) -> (name: Option<String>)
    requires
        c < es.len(),
    ensures
        (match name {
            Some(s) => callee_name(elements_view(es@), c as int) == Some(s@),
            None => callee_name(elements_view(es@), c as int) is None,
        }),
{
    let ghost v = elements_view(es@);
    match find_child(es, c, false, LITERAL_EXPR, ISINSTANCE_EXPR) {
        Some(e) => {
            assert(v[e as int] == element_view(es@[e as int]));
            if es[e].kind == IDENT_EXPR {
                find_ident_name(es, e)
            } else if es[e].kind == DOT_EXPR {
                let parts = find_dotted_parts(es, e);
                Some(join_dotted(&parts))
            } else {
                None
            }
        },
        None => None,
    }
}

/// The first argument named `name` among the children of list `l`.
fn find_name_arg(es: &Vec<Element>, l: usize) -> (found: Option<usize>)
    requires
        l < es.len(),
    ensures
        found matches Some(x) ==> l < x < es.len(),
        (match found {
            Some(x) => name_arg_from(elements_view(es@), l as int, l + 1) == Some(x as int),
            None => name_arg_from(elements_view(es@), l as int, l + 1) is None,
        }),
{
    let ghost v = elements_view(es@);
    assert(v[l as int] == element_view(es@[l as int]));
    let mut j = l + 1;
    while j < es.len()
        invariant
            l < j <= es@.len(),
            v == elements_view(es@),
            v[l as int] == element_view(es@[l as int]),
            name_arg_from(v, l as int, l + 1) == name_arg_from(v, l as int, j as int),
        decreases es.len() - j,
    {
        assert(v[j as int] == element_view(es@[j as int]));
        if es[j].depth <= es[l].depth {
            return None;
        }
        if es[j].depth - 1 == es[l].depth && es[j].token.is_none() && es[j].kind == ARG && is_named_name(es, j) {
            return Some(j);
        }
        j = j + 1;
    }
    None
}

/// The literal a call passes as its `name`.
fn find_name_literal(es: &Vec<Element>, c: usize) -> (found: Option<usize>)
    requires
        c < es.len(),
    ensures
        found matches Some(x) ==> x < es.len(),
        (match found {
            Some(x) => name_literal(elements_view(es@), c as int) == Some(x as int),
            None => name_literal(elements_view(es@), c as int) is None,
        }),
{
    let ghost v = elements_view(es@);
    let l = match find_child(es, c, false, ARG_LIST, ARG_LIST) {
        Some(l) => l,
        None => {
            return None;
        },
    };
    let a = match find_name_arg(es, l) {
        Some(a) => a,
        None => {
            return None;
        },
    };
    match find_child(es, a, false, LITERAL_EXPR, ISINSTANCE_EXPR) {
        Some(value) => {
            assert(v[value as int] == element_view(es@[value as int]));
            if es[value].kind == LITERAL_EXPR {
                Some(value)
            } else {
                None
            }
        },
        None => None,
    }
}

/// Whether element `j` is a statement at the top level of a file.
fn is_top_level(es: &Vec<Element>, j: usize) -> (b: bool)
    requires
        j < es.len(),
    ensures
        b == top_level(elements_view(es@), j as int),
{
    let ghost v = elements_view(es@);
    assert(v[j as int] == element_view(es@[j as int]));
    assert(v[0] == element_view(es@[0]));
    j > 0 && es[0].token.is_none() && es[0].kind == FILE && es[0].depth == 0 && es[j].depth == 1 && es[j].token.is_none()
}

/// The top-level call statement `j` makes.
fn call_of(es: &Vec<Element>, j: usize) -> (call: Option<TopLevelCall>)
    requires
        j < es.len(),
        ranges_fit(es@),
    ensures
        (match call {
            Some(c) => call_at(elements_view(es@), j as int) == Some(call_view(c)),
            None => call_at(elements_view(es@), j as int) is None,
        }),
{
    let ghost v = elements_view(es@);
    assert(v[j as int] == element_view(es@[j as int]));
    if !is_top_level(es, j) || es[j].kind != EXPR_STMT {
        return None;
    }
    let c = match find_child(es, j, false, LITERAL_EXPR, ISINSTANCE_EXPR) {
        Some(c) => c,
        None => {
            return None;
        },
    };
    assert(v[c as int] == element_view(es@[c as int]));
    if es[c].kind != CALL_EXPR {
        return None;
    }
    let rule = find_callee_name(es, c);
    let content = match find_name_literal(es, c) {
        Some(literal) => find_literal_string(es, literal),
        None => None,
    };
    let (name, name_range) = match content {
        Some((a, b, value)) => (Some(value), Some((a, b))),
        None => (None, None),
    };
    Some(TopLevelCall { rule, start: es[c].start, end: es[c].end, name, name_range })
}

/// The calls at the top level of a list of elements, in order.
pub fn calls_in(es: &Vec<Element>) -> (calls: Vec<TopLevelCall>)
    requires
        ranges_fit(es@),
    ensures
        calls@.map_values(|c: TopLevelCall| call_view(c)) == calls_before(elements_view(es@), es@.len() as int),
{
    let mut calls: Vec<TopLevelCall> = Vec::new();
    let mut i: usize = 0;
    while i < es.len()
        invariant
            i <= es@.len(),
            ranges_fit(es@),
            calls@.map_values(|c: TopLevelCall| call_view(c)) == calls_before(elements_view(es@), i as int),
        decreases es.len() - i,
    {
        let ghost before = calls@;
        match call_of(es, i) {
            Some(c) => {
                calls.push(c);
                assert(calls@.map_values(|c: TopLevelCall| call_view(c)) =~= before.map_values(
                    |c: TopLevelCall| call_view(c),
                ).push(call_view(calls@.last())));
            },
            None => {},
        }
        i = i + 1;
    }
    calls
}

/// The calls at the top level of a parsed file, in order: each one's
/// callee (a plain name or a dotted path), its range, and its `name` when
/// that is a string literal, with the string's content range.
pub fn top_level_calls(tree: &StarlarkTree) -> (calls: Vec<TopLevelCall>)
    ensures
        calls@.map_values(|c: TopLevelCall| call_view(c)) == calls_before(tree_elements(*tree), tree_elements(*tree).len() as int),
{
    let es = elements_of(tree);
    calls_in(&es)
}

/// The `def`s at the top level of a parsed file, in order: each one's name
/// and range.
pub fn function_defs(tree: &StarlarkTree) -> (defs: Vec<FunctionDef>)
    ensures
        defs@.map_values(|d: FunctionDef| (match d.name { Some(n) => Some(n@), None => None }, d.start, d.end))
            == defs_before(tree_elements(*tree), tree_elements(*tree).len() as int),
{
    let es = elements_of(tree);
    let ghost v = elements_view(es@);
    let mut defs: Vec<FunctionDef> = Vec::new();
    let mut i: usize = 0;
    while i < es.len()
        invariant
            i <= es@.len(),
            v == elements_view(es@),
            defs@.map_values(|d: FunctionDef| (match d.name { Some(n) => Some(n@), None => None }, d.start, d.end))
                == defs_before(v, i as int),
        decreases es.len() - i,
    {
        assert(v[i as int] == element_view(es@[i as int]));
        if is_top_level(&es, i) && es[i].kind == DEF_STMT {
            let name = match find_child(&es, i, true, IDENT, IDENT) {
                Some(t) => token_text(&es, t),
                None => None,
            };
            let ghost before = defs@;
            defs.push(FunctionDef { name, start: es[i].start, end: es[i].end });
            assert(defs@.map_values(|d: FunctionDef| (match d.name { Some(n) => Some(n@), None => None }, d.start, d.end))
                =~= before.map_values(|d: FunctionDef| (match d.name { Some(n) => Some(n@), None => None }, d.start, d.end)).push(
                    (match defs@.last().name { Some(n) => Some(n@), None => None }, defs@.last().start, defs@.last().end),
                ));
        }
        i = i + 1;
    }
    defs
}

/// The expression a call passes as its `name`, whatever it is.
pub open spec fn name_value(es: Seq<ElementView>, c: int) -> Option<int> {
    match first_child(es, c, false, ARG_LIST, ARG_LIST) {
        Some(l) => match name_arg_from(es, l, l + 1) {
            Some(a) => expr_child(es, a),
            None => None,
        },
        None => None,
    }
}

/// The string literals inside list `l` from element `j` on, outside the
/// range `skip`, each with the offset where its content starts.
pub open spec fn strings_from(es: Seq<ElementView>, l: int, j: int, skip: Option<(u32, u32)>) -> Seq<(Seq<char>, int)>
    decreases es.len() - j,
{
    if j <= l || j >= es.len() || es[j].3 <= es[l].3 {
        Seq::empty()
    } else {
        let here = if es[j].4 is Some && es[j].0 == STRING && !(skip matches Some(r) && r.0 <= es[j].1 && es[j].2 <= r.1) {
            match parent(es, j) {
                Some(p) => if es[p].0 == LITERAL_EXPR {
                    match literal_string(es, p) {
                        Some((a, _, v)) => seq![(v, a)],
                        None => Seq::empty(),
                    }
                } else {
                    Seq::empty()
                },
                None => Seq::empty(),
            }
        } else {
            Seq::empty()
        };
        here + strings_from(es, l, j + 1, skip)
    }
}

/// The strings among a call's arguments other than its `name`.
pub open spec fn call_strings(es: Seq<ElementView>, c: int) -> Seq<(Seq<char>, int)> {
    match first_child(es, c, false, ARG_LIST, ARG_LIST) {
        Some(l) => strings_from(es, l, l + 1, match name_value(es, c) {
            Some(v) => Some((es[v].1, es[v].2)),
            None => None,
        }),
        None => Seq::empty(),
    }
}

/// The strings as plain values.
pub open spec fn strings_view(strings: Seq<(String, usize)>) -> Seq<(Seq<char>, int)> {
    strings.map_values(|x: (String, usize)| (x.0@, x.1 as int))
}

/// The string literals inside list `l`, outside the range `skip`.
fn strings_in(es: &Vec<Element>, l: usize, skip: Option<(u32, u32)>) -> (strings: Vec<(String, usize)>)
    requires
        l < es.len(),
        ranges_fit(es@),
    ensures
        strings_view(strings@) == strings_from(elements_view(es@), l as int, l + 1, skip),
{
    let ghost v = elements_view(es@);
    assert(v[l as int] == element_view(es@[l as int]));
    let mut strings: Vec<(String, usize)> = Vec::new();
    let mut j = l + 1;
    while j < es.len()
        invariant
            l < j <= es@.len(),
            ranges_fit(es@),
            v == elements_view(es@),
            v[l as int] == element_view(es@[l as int]),
            strings_from(v, l as int, l + 1, skip) == strings_view(strings@) + strings_from(v, l as int, j as int, skip),
        decreases es.len() - j,
    {
        assert(v[j as int] == element_view(es@[j as int]));
        if es[j].depth <= es[l].depth {
            assert(strings_from(v, l as int, j as int, skip) =~= Seq::<(Seq<char>, int)>::empty());
            assert(strings_view(strings@) + Seq::<(Seq<char>, int)>::empty() =~= strings_view(strings@));
            return strings;
        }
        let ghost before = strings_view(strings@);
        let outside = match skip {
            Some((a, b)) => !(a <= es[j].start && es[j].end <= b),
            None => true,
        };
        let mut found: Option<(String, usize)> = None;
        if es[j].token.is_some() && es[j].kind == STRING && outside {
            if let Some(p) = find_parent(es, j) {
                assert(v[p as int] == element_view(es@[p as int]));
                if es[p].kind == LITERAL_EXPR {
                    if let Some((a, _, value)) = find_literal_string(es, p) {
                        found = Some((value, a as usize));
                    }
                }
            }
        }
        match found {
            Some(item) => {
                strings.push(item);
                assert(strings_view(strings@) =~= before.push((strings@.last().0@, strings@.last().1 as int)));
            },
            None => {},
        }
        proof {
            let rest = strings_from(v, l as int, j + 1, skip);
            assert(strings_view(strings@) + rest =~= before + strings_from(v, l as int, j as int, skip));
        }
        j = j + 1;
    }
    assert(strings_from(v, l as int, j as int, skip) =~= Seq::<(Seq<char>, int)>::empty());
    assert(strings_view(strings@) + Seq::<(Seq<char>, int)>::empty() =~= strings_view(strings@));
    strings
}

/// The call expression statement `j` makes, when it is one.
fn find_statement_call(es: &Vec<Element>, j: usize) -> (found: Option<usize>)
    requires
        j < es.len(),
    ensures
        found matches Some(c) ==> c < es.len(),
        (match found {
            Some(c) => statement_call(elements_view(es@), j as int) == Some(c as int),
            None => statement_call(elements_view(es@), j as int) is None,
        }),
{
    let ghost v = elements_view(es@);
    assert(v[j as int] == element_view(es@[j as int]));
    if !is_top_level(es, j) || es[j].kind != EXPR_STMT {
        return None;
    }
    match find_child(es, j, false, LITERAL_EXPR, ISINSTANCE_EXPR) {
        Some(c) => {
            assert(v[c as int] == element_view(es@[c as int]));
            if es[c].kind == CALL_EXPR {
                Some(c)
            } else {
                None
            }
        },
        None => None,
    }
}

/// The strings among call `c`'s arguments other than its `name`.
fn strings_of_call(es: &Vec<Element>, c: usize) -> (strings: Vec<(String, usize)>)
    requires
        c < es.len(),
        ranges_fit(es@),
    ensures
        strings_view(strings@) == call_strings(elements_view(es@), c as int),
{
    let ghost v = elements_view(es@);
    let l = match find_child(es, c, false, ARG_LIST, ARG_LIST) {
        Some(l) => l,
        None => {
            return Vec::new();
        },
    };
    let skip = match find_name_arg(es, l) {
        Some(a) => match find_child(es, a, false, LITERAL_EXPR, ISINSTANCE_EXPR) {
            Some(value) => {
                assert(v[value as int] == element_view(es@[value as int]));
                Some((es[value].start, es[value].end))
            },
            None => None,
        },
        None => None,
    };
    strings_in(es, l, skip)
}

/// A top-level call with its strings, as plain values.
pub open spec fn build_call_at(es: Seq<ElementView>, j: int) -> Option<(CallView, Seq<(Seq<char>, int)>)> {
    match (call_at(es, j), statement_call(es, j)) {
        (Some(call), Some(c)) => Some((call, call_strings(es, c))),
        _ => None,
    }
}

/// The top-level calls with their strings among the elements before `n`.
pub open spec fn build_calls_before(es: Seq<ElementView>, n: int) -> Seq<(CallView, Seq<(Seq<char>, int)>)>
    decreases n,
{
    if n <= 0 {
        Seq::empty()
    } else {
        build_calls_before(es, n - 1) + match build_call_at(es, n - 1) {
            Some(b) => seq![b],
            None => Seq::empty(),
        }
    }
}

/// A call with its strings as plain values.
pub open spec fn build_call_view(b: BuildCall) -> (CallView, Seq<(Seq<char>, int)>) {
    (call_view(b.call), strings_view(b.strings@))
}

/// The calls at the top level of a parsed file, each with the string
/// literals among its arguments other than its `name`: where labels are
/// written.
pub fn build_calls(tree: &StarlarkTree) -> (calls: Vec<BuildCall>)
    ensures
        calls@.map_values(|b: BuildCall| build_call_view(b)) == build_calls_before(
            tree_elements(*tree),
            tree_elements(*tree).len() as int,
        ),
{
    let es = elements_of(tree);
    let ghost v = elements_view(es@);
    let mut calls: Vec<BuildCall> = Vec::new();
    let mut i: usize = 0;
    while i < es.len()
        invariant
            i <= es@.len(),
            ranges_fit(es@),
            v == elements_view(es@),
            calls@.map_values(|b: BuildCall| build_call_view(b)) == build_calls_before(v, i as int),
        decreases es.len() - i,
    {
        let ghost before = calls@;
        match (call_of(&es, i), find_statement_call(&es, i)) {
            (Some(call), Some(c)) => {
                let strings = strings_of_call(&es, c);
                calls.push(BuildCall { call, strings });
                assert(calls@.map_values(|b: BuildCall| build_call_view(b)) =~= before.map_values(
                    |b: BuildCall| build_call_view(b),
                ).push(build_call_view(calls@.last())));
            },
            _ => {},
        }
        i = i + 1;
    }
    calls
}

/// Whether argument `a` is named `implementation`.
pub open spec fn named_implementation(es: Seq<ElementView>, a: int) -> bool {
    &&& first_child(es, a, true, ASSIGN, ASSIGN) is Some
    &&& match first_child(es, a, true, IDENT, IDENT) {
        Some(id) => es[id].4 == Some("implementation"@),
        None => false,
    }
}

/// The first argument named `implementation` among the children of list
/// `l`, from element `j` on.
pub open spec fn implementation_arg_from(es: Seq<ElementView>, l: int, j: int) -> Option<int>
    decreases es.len() - j,
{
    if j <= l || j >= es.len() || es[j].3 <= es[l].3 {
        None
    } else if es[j].3 == es[l].3 + 1 && es[j].4 is None && es[j].0 == ARG && named_implementation(es, j) {
        Some(j)
    } else {
        implementation_arg_from(es, l, j + 1)
    }
}

/// The first name token inside node `a`, from element `j` on, other than
/// the word `implementation`.
pub open spec fn named_function_from(es: Seq<ElementView>, a: int, j: int) -> Option<int>
    decreases es.len() - j,
{
    if j <= a || j >= es.len() || es[j].3 <= es[a].3 {
        None
    } else if es[j].0 == IDENT && (es[j].4 matches Some(t) && t != "implementation"@) {
        Some(j)
    } else {
        named_function_from(es, a, j + 1)
    }
}

/// The name token a `rule()` call's `implementation` argument holds.
pub open spec fn implementation_token(es: Seq<ElementView>, c: int) -> Option<int> {
    match first_child(es, c, false, ARG_LIST, ARG_LIST) {
        Some(l) => match implementation_arg_from(es, l, l + 1) {
            Some(a) => named_function_from(es, a, a + 1),
            None => None,
        },
        None => None,
    }
}

/// A rule call as plain values: the function it names, and the ranges of
/// the identifiers that mean it.
pub open spec fn rule_view(r: RuleCall) -> (Option<Seq<char>>, Seq<(u32, u32)>) {
    (match r.implementation { Some(s) => Some(s@), None => None }, r.triggers@)
}

/// The `rule()` call node `i` makes: without an implementation name, none
/// of it; with one, that name, then the callee, then the name the call is
/// assigned to.
pub open spec fn rule_at(es: Seq<ElementView>, i: int) -> Option<(Option<Seq<char>>, Seq<(u32, u32)>)> {
    if es[i].4 is Some || es[i].0 != CALL_EXPR || callee_name(es, i) != Some("rule"@) {
        None
    } else {
        match implementation_token(es, i) {
            None => Some((None, Seq::empty())),
            Some(t) => {
                let callee = match first_child(es, i, false, IDENT_EXPR, IDENT_EXPR) {
                    Some(c) => seq![(es[c].1, es[c].2)],
                    None => Seq::empty(),
                };
                let assigned = match parent(es, i) {
                    Some(p) => if es[p].0 == ASSIGN_STMT {
                        match first_child(es, p, false, IDENT_EXPR, IDENT_EXPR) {
                            Some(x) => seq![(es[x].1, es[x].2)],
                            None => Seq::empty(),
                        }
                    } else {
                        Seq::empty()
                    },
                    None => Seq::empty(),
                };
                Some((es[t].4, seq![(es[t].1, es[t].2)] + callee + assigned))
            },
        }
    }
}

/// The `rule()` calls among the elements before `n`, in tree order.
pub open spec fn rules_before(es: Seq<ElementView>, n: int) -> Seq<(Option<Seq<char>>, Seq<(u32, u32)>)>
    decreases n,
{
    if n <= 0 {
        Seq::empty()
    } else {
        rules_before(es, n - 1) + match rule_at(es, n - 1) {
            Some(r) => seq![r],
            None => Seq::empty(),
        }
    }
}

/// Whether argument `a` is named `implementation`.
fn is_named_implementation(es: &Vec<Element>, a: usize) -> (b: bool)
    requires
        a < es.len(),
    ensures
        b == named_implementation(elements_view(es@), a as int),
{
    let ghost v = elements_view(es@);
    if find_child(es, a, true, ASSIGN, ASSIGN).is_none() {
        return false;
    }
    match find_child(es, a, true, IDENT, IDENT) {
        Some(id) => {
            assert(v[id as int] == element_view(es@[id as int]));
            match &es[id].token {
                Some(text) => crate::text::str_eq(text.as_str(), "implementation"),
                None => false,
            }
        },
        None => false,
    }
}

/// The name token a `rule()` call's `implementation` argument holds.
fn find_implementation_token(es: &Vec<Element>, c: usize) -> (found: Option<usize>)
    requires
        c < es.len(),
    ensures
        found matches Some(t) ==> t < es.len(),
        (match found {
            Some(t) => implementation_token(elements_view(es@), c as int) == Some(t as int),
            None => implementation_token(elements_view(es@), c as int) is None,
        }),
{
    let ghost v = elements_view(es@);
    let l = match find_child(es, c, false, ARG_LIST, ARG_LIST) {
        Some(l) => l,
        None => {
            return None;
        },
    };
    assert(v[l as int] == element_view(es@[l as int]));
    let a = match find_implementation_arg(es, l) {
        Some(a) => a,
        None => {
            return None;
        },
    };
    assert(v[a as int] == element_view(es@[a as int]));
    let mut j = a + 1;
    while j < es.len()
        invariant
            a < j <= es@.len(),
            v == elements_view(es@),
            v[a as int] == element_view(es@[a as int]),
            implementation_token(v, c as int) == named_function_from(v, a as int, a + 1),
            named_function_from(v, a as int, a + 1) == named_function_from(v, a as int, j as int),
        decreases es.len() - j,
    {
        assert(v[j as int] == element_view(es@[j as int]));
        if es[j].depth <= es[a].depth {
            return None;
        }
        if es[j].kind == IDENT {
            if let Some(text) = &es[j].token {
                if !crate::text::str_eq(text.as_str(), "implementation") {
                    return Some(j);
                }
            }
        }
        j = j + 1;
    }
    None
}

/// The first argument named `implementation` among the children of list `l`.
fn find_implementation_arg(es: &Vec<Element>, l: usize) -> (found: Option<usize>)
    requires
        l < es.len(),
    ensures
        found matches Some(x) ==> l < x < es.len(),
        (match found {
            Some(x) => implementation_arg_from(elements_view(es@), l as int, l + 1) == Some(x as int),
            None => implementation_arg_from(elements_view(es@), l as int, l + 1) is None,
        }),
{
    let ghost v = elements_view(es@);
    assert(v[l as int] == element_view(es@[l as int]));
    let mut j = l + 1;
    while j < es.len()
        invariant
            l < j <= es@.len(),
            v == elements_view(es@),
            v[l as int] == element_view(es@[l as int]),
            implementation_arg_from(v, l as int, l + 1) == implementation_arg_from(v, l as int, j as int),
        decreases es.len() - j,
    {
        assert(v[j as int] == element_view(es@[j as int]));
        if es[j].depth <= es[l].depth {
            return None;
        }
        if es[j].depth - 1 == es[l].depth && es[j].token.is_none() && es[j].kind == ARG && is_named_implementation(es, j) {
            return Some(j);
        }
        j = j + 1;
    }
    None
}

/// The `rule()` call node `i` makes.
fn rule_of(es: &Vec<Element>, i: usize) -> (rule: Option<RuleCall>)
    requires
        i < es.len(),
    ensures
        (match rule {
            Some(r) => rule_at(elements_view(es@), i as int) == Some(rule_view(r)),
            None => rule_at(elements_view(es@), i as int) is None,
        }),
{
    let ghost v = elements_view(es@);
    assert(v[i as int] == element_view(es@[i as int]));
    if es[i].token.is_some() || es[i].kind != CALL_EXPR {
        return None;
    }
    match find_callee_name(es, i) {
        Some(name) => {
            proof {
                reveal_strlit("rule");
            }
            if !crate::text::str_eq(name.as_str(), "rule") {
                return None;
            }
        },
        None => {
            return None;
        },
    }
    let t = match find_implementation_token(es, i) {
        Some(t) => t,
        None => {
            return Some(RuleCall { implementation: None, triggers: Vec::new() });
        },
    };
    assert(v[t as int] == element_view(es@[t as int]));
    let mut triggers: Vec<(u32, u32)> = vec![(es[t].start, es[t].end)];
    let ghost first = triggers@;
    let ghost callee: Seq<(u32, u32)> = Seq::empty();
    if let Some(c) = find_child(es, i, false, IDENT_EXPR, IDENT_EXPR) {
        assert(v[c as int] == element_view(es@[c as int]));
        triggers.push((es[c].start, es[c].end));
        proof {
            callee = seq![(es@[c as int].start, es@[c as int].end)];
        }
    }
    assert(triggers@ =~= first + callee);
    let ghost assigned: Seq<(u32, u32)> = Seq::empty();
    if let Some(p) = find_parent(es, i) {
        assert(v[p as int] == element_view(es@[p as int]));
        if es[p].kind == ASSIGN_STMT {
            if let Some(x) = find_child(es, p, false, IDENT_EXPR, IDENT_EXPR) {
                assert(v[x as int] == element_view(es@[x as int]));
                triggers.push((es[x].start, es[x].end));
                proof {
                    assigned = seq![(es@[x as int].start, es@[x as int].end)];
                }
            }
        }
    }
    assert(triggers@ =~= first + callee + assigned);
    let implementation = token_text(es, t);
    Some(RuleCall { implementation, triggers })
}

/// Every `rule()` call of a parsed file, in tree order: the function its
/// `implementation` names, and the identifiers that mean it (that name,
/// the callee, and the name the rule is assigned to).
pub fn rule_calls(tree: &StarlarkTree) -> (rules: Vec<RuleCall>)
    ensures
        rules@.map_values(|r: RuleCall| rule_view(r)) == rules_before(tree_elements(*tree), tree_elements(*tree).len() as int),
{
    let es = elements_of(tree);
    let ghost v = elements_view(es@);
    let mut rules: Vec<RuleCall> = Vec::new();
    let mut i: usize = 0;
    while i < es.len()
        invariant
            i <= es@.len(),
            v == elements_view(es@),
            rules@.map_values(|r: RuleCall| rule_view(r)) == rules_before(v, i as int),
        decreases es.len() - i,
    {
        let ghost before = rules@;
        match rule_of(&es, i) {
            Some(r) => {
                rules.push(r);
                assert(rules@.map_values(|r: RuleCall| rule_view(r)) =~= before.map_values(|r: RuleCall| rule_view(r)).push(
                    rule_view(rules@.last()),
                ));
            },
            None => {},
        }
        i = i + 1;
    }
    rules
}

} // verus!
