//! From a Starlark `rule()` to the function behind it.
//!
//! A `rule()` call says what it does only by naming a function, so the jump
//! worth having is `implementation = _foo` to `def _foo`. The cursor may be
//! on the rule's own name, the `rule` callee, or the identifier it names.
//! One file only: following a `load()` would need a symbol table.

use vstd::prelude::*;
use crate::document::Document;
use crate::line_index::{text_offset, text_position};
use crate::text::str_eq;
use crate::uri::{checked_file_uri, file_uri_ok, spec_file_uri};
use vstd::utf8::encode_utf8;

verus! {

/// A `rule()` call, as the syntax tree shows it: the function its
/// `implementation` names, where it names one, and the byte ranges of the
/// identifiers that mean it (the named function, the `rule` callee, and the
/// name the rule is assigned to).
#[derive(Debug, Clone, PartialEq, Eq)]
pub struct RuleCall {
    pub implementation: Option<String>,
    pub triggers: Vec<(u32, u32)>,
}

/// A `def` at the top level of the file: its name, where it has one, and
/// its byte range.
#[derive(Debug, Clone, PartialEq, Eq)]
pub struct FunctionDef {
    pub name: Option<String>,
    pub start: u32,
    pub end: u32,
}

/// Whether one of `triggers` holds `offset`, ends included.
pub open spec fn triggered(triggers: Seq<(u32, u32)>, offset: int) -> bool {
    exists|i: int| 0 <= i < triggers.len() && triggers[i].0 <= offset <= #[trigger] triggers[i].1
}

/// The function named by the first rule from `i` on whose identifiers hold
/// `offset`; the search ends, with nothing, at a rule that names no
/// implementation.
pub open spec fn implementation_name(rules: Seq<RuleCall>, offset: int, i: int) -> Option<Seq<char>>
    decreases rules.len() - i,
{
    if i < 0 || i >= rules.len() {
        None
    } else {
        match rules[i].implementation {
            None => None,
            Some(name) => if triggered(rules[i].triggers@, offset) {
                Some(name@)
            } else {
                implementation_name(rules, offset, i + 1)
            },
        }
    }
}

/// The byte range of the first `def` from `i` on named `name`.
pub open spec fn definition_of(defs: Seq<FunctionDef>, name: Seq<char>, i: int) -> Option<(u32, u32)>
    decreases defs.len() - i,
{
    if i < 0 || i >= defs.len() {
        None
    } else if defs[i].name matches Some(n) && n@ == name {
        Some((defs[i].start, defs[i].end))
    } else {
        definition_of(defs, name, i + 1)
    }
}

/// The jump from `offset`: to the `def` the rule there names, as the
/// buffer's URI and the `def`'s range.
pub open spec fn spec_implementation(
    bs: Seq<u8>,
    path: Seq<char>,
    rules: Seq<RuleCall>,
    defs: Seq<FunctionDef>,
    offset: int,
) -> Option<(Seq<char>, (u32, u32), (u32, u32))> {
    match implementation_name(rules, offset, 0) {
        None => None,
        Some(name) => match definition_of(defs, name, 0) {
            None => None,
            Some((start, end)) => if file_uri_ok(path) {
                Some((spec_file_uri(path), text_position(bs, start as int), text_position(bs, end as int)))
            } else {
                None
            },
        },
    }
}

fn holds(triggers: &[(u32, u32)], offset: u32) -> (b: bool)
    ensures
        b == triggered(triggers@, offset as int),
{
    let mut i: usize = 0;
    while i < triggers.len()
        invariant
            i <= triggers@.len(),
            forall|j: int| 0 <= j < i ==> !(triggers@[j].0 <= offset <= #[trigger] triggers@[j].1),
        decreases triggers.len() - i,
    {
        if triggers[i].0 <= offset && offset <= triggers[i].1 {
            return true;
        }
        i = i + 1;
    }
    false
}

/// The first rule whose identifiers hold `offset`, where no rule before it
/// names no implementation.
fn rule_at(rules: &[RuleCall], offset: u32) -> (at: Option<usize>)
    ensures
        (match implementation_name(rules@, offset as int, 0) {
            Some(n) => at matches Some(i) && i < rules@.len() && (rules@[i as int].implementation matches Some(s)
                && s@ == n),
            None => at is None,
        }),
{
    let mut i: usize = 0;
    while i < rules.len()
        invariant
            i <= rules@.len(),
            implementation_name(rules@, offset as int, 0) == implementation_name(rules@, offset as int, i as int),
        decreases rules.len() - i,
    {
        match &rules[i].implementation {
            None => {
                return None;
            },
            Some(_) => {
                if holds(&rules[i].triggers, offset) {
                    return Some(i);
                }
            },
        }
        i = i + 1;
    }
    None
}

/// The `def` of the function the rule under a zero-based line and UTF-16
/// column names, given the buffer's `rule()` calls and top-level `def`s in
/// document order: its range in the buffer itself.
pub fn implementation(
    document: &Document,
    rules: &[RuleCall],
    defs: &[FunctionDef],
    line: u32,
    character: u32,
) -> (found: Option<(String, (u32, u32), (u32, u32))>)
    requires
        encode_utf8(document.text_view()).len() <= isize::MAX,
    ensures
        ({
            let bs = encode_utf8(document.text_view());
            let offset = text_offset(bs, line, character);
            if offset > u32::MAX {
                found is None
            } else {
                match spec_implementation(bs, document.path_view(), rules@, defs@, offset) {
                    Some((uri, start, end)) => found matches Some(f) && f.0@ == uri && f.1 == start
                        && f.2 == end,
                    None => found is None,
                }
            }
        }),
{
    let offset = document.offset(line, character);
    if offset > u32::MAX as usize {
        return None;
    }
    let offset = offset as u32;
    let name = match rule_at(rules, offset) {
        Some(i) => match &rules[i].implementation {
            Some(n) => n.as_str(),
            None => {
                return None;
            },
        },
        None => {
            return None;
        },
    };
    let mut j: usize = 0;
    while j < defs.len()
        invariant
            j <= defs@.len(),
            encode_utf8(document.text_view()).len() <= isize::MAX,
            offset as int == text_offset(encode_utf8(document.text_view()), line, character),
            implementation_name(rules@, offset as int, 0) == Some(name@),
            definition_of(defs@, name@, 0) == definition_of(defs@, name@, j as int),
        decreases defs.len() - j,
    {
        let hit = match &defs[j].name {
            Some(n) => str_eq(n.as_str(), name),
            None => false,
        };
        if hit {
            assert(definition_of(defs@, name@, j as int) == Some((defs@[j as int].start, defs@[j as int].end)));
            let uri = match checked_file_uri(document.path()) {
                Some(uri) => uri,
                None => {
                    return None;
                },
            };
            return Some((uri, document.position(defs[j].start as usize), document.position(defs[j].end as usize)));
        }
        j = j + 1;
    }
    None
}

} // verus!
