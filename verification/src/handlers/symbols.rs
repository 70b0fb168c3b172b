//! Symbols: the targets a BUILD file declares, how a target's rule reads in
//! a picker, and which targets a workspace query matches.

use vstd::prelude::*;
use vstd::string::is_ascii;
use vstd::utf8::is_ascii_chars;
use crate::text::{append, chars_of, contains_chars, contains_seq, ends_with, str_ends_with, str_eq};
use crate::document::Document;
use crate::index::Index;
use crate::line_index::text_position;
use crate::uri::{checked_file_uri, file_uri_ok, spec_file_uri};
use vstd::utf8::encode_utf8;

verus! {

/// The symbol kind a picker shows for a target, chosen by what its rule
/// does: LSP has no kind for a build target, and one kind for all of them is
/// a column of noise.
#[derive(Debug, Clone, Copy, PartialEq, Eq)]
pub enum SymbolClass {
    /// Tests and test suites.
    Event,
    /// Binaries.
    Function,
    /// Libraries and modules.
    Module,
    /// Aliases.
    Interface,
    /// File groups.
    File,
    /// Rules that generate files.
    Constructor,
    /// Settings and flags.
    Constant,
    /// Everything else.
    Struct,
}

/// The kind a rule's targets take.
pub open spec fn spec_symbol_kind(rule: Seq<char>) -> SymbolClass {
    if ends_with(rule, "_test"@) || rule == "test_suite"@ {
        SymbolClass::Event
    } else if ends_with(rule, "_binary"@) {
        SymbolClass::Function
    } else if ends_with(rule, "_library"@) || ends_with(rule, "_module"@) {
        SymbolClass::Module
    } else if rule == "alias"@ {
        SymbolClass::Interface
    } else if rule == "filegroup"@ || rule == "exports_files"@ || rule == "pkg_files"@ {
        SymbolClass::File
    } else if rule == "genrule"@ || rule == "run_binary"@ {
        SymbolClass::Constructor
    } else if ends_with(rule, "_setting"@) || ends_with(rule, "_flag"@) {
        SymbolClass::Constant
    } else {
        SymbolClass::Struct
    }
}

/// The kind a rule's targets take in a picker.
pub fn symbol_kind(rule: &str) -> (kind: SymbolClass)
    ensures
        kind == spec_symbol_kind(rule@),
{
    if str_ends_with(rule, "_test") || str_eq(rule, "test_suite") {
        SymbolClass::Event
    } else if str_ends_with(rule, "_binary") {
        SymbolClass::Function
    } else if str_ends_with(rule, "_library") || str_ends_with(rule, "_module") {
        SymbolClass::Module
    } else if str_eq(rule, "alias") {
        SymbolClass::Interface
    } else if str_eq(rule, "filegroup") || str_eq(rule, "exports_files") || str_eq(
        rule,
        "pkg_files",
    ) {
        SymbolClass::File
    } else if str_eq(rule, "genrule") || str_eq(rule, "run_binary") {
        SymbolClass::Constructor
    } else if str_ends_with(rule, "_setting") || str_ends_with(rule, "_flag") {
        SymbolClass::Constant
    } else {
        SymbolClass::Struct
    }
}

/// A character's code with an ASCII capital folded to its small letter.
pub open spec fn folded(c: char) -> u32 {
    let u = c as u32;
    if 65 <= u && u <= 90 {
        (u + 32) as u32
    } else {
        u
    }
}

/// The two sequences are equal once ASCII capitals are folded.
pub open spec fn eq_ignore_ascii_case(a: Seq<char>, b: Seq<char>) -> bool {
    a.len() == b.len() && forall|i: int| 0 <= i < a.len() ==> folded(#[trigger] a[i]) == folded(b[i])
}

/// What `str::to_lowercase` makes of a string.
pub uninterp spec fn lowercase_of(s: Seq<char>) -> Seq<char>;

/// `str::to_lowercase`: the string with every character mapped to its
/// Unicode lowercase, which a few characters (`İ`) turn into more than one.
/// The mapping is named, not restated; only that it maps ASCII as ASCII
/// folding does is stated.
#[verifier::external_body]
fn to_lowercase(s: &str) -> (lower: String)
    ensures
        lower@ == lowercase_of(s@),
        is_ascii_chars(s@) ==> lower@.len() == s@.len() && forall|i: int|
            0 <= i < s@.len() ==> (#[trigger] lower@[i]) as u32 == folded(s@[i]),
{
    s.to_lowercase()
}

/// Whether `query` occurs in `text`, ignoring case: ASCII capitals fold
/// when both are ASCII, and otherwise both are lowercased in full.
pub open spec fn spec_contains_case_insensitive(text: Seq<char>, query: Seq<char>) -> bool {
    if query.len() == 0 {
        true
    } else if is_ascii_chars(text) && is_ascii_chars(query) {
        exists|at: int|
            0 <= at && at + query.len() <= text.len() && #[trigger] eq_ignore_ascii_case(
                text.subrange(at, at + query.len()),
                query,
            )
    } else {
        contains_seq(lowercase_of(text), lowercase_of(query))
    }
}

/// Whether two characters are equal once ASCII capitals are folded.
fn fold_eq(a: char, b: char) -> (r: bool)
    ensures
        r == (folded(a) == folded(b)),
{
    let x = a as u32;
    let y = b as u32;
    let fx = if 65 <= x && x <= 90 {
        x + 32
    } else {
        x
    };
    let fy = if 65 <= y && y <= 90 {
        y + 32
    } else {
        y
    };
    fx == fy
}

/// Whether `text[at..]` opens with `query`, ignoring ASCII case.
fn window_matches(text: &[char], at: usize, query: &[char]) -> (r: bool)
    requires
        at + query@.len() <= text@.len(),
    ensures
        r == eq_ignore_ascii_case(text@.subrange(at as int, at + query@.len()), query@),
{
    let ghost w = text@.subrange(at as int, at + query@.len());
    let n = text.len();
    let mut i: usize = 0;
    while i < query.len()
        invariant
            n == text@.len(),
            at + query@.len() <= text@.len(),
            w == text@.subrange(at as int, at + query@.len()),
            i <= query@.len(),
            forall|j: int| 0 <= j < i ==> folded(#[trigger] w[j]) == folded(query@[j]),
        decreases query.len() - i,
    {
        if !fold_eq(text[at + i], query[i]) {
            assert(w[i as int] == text@[at + i]);
            return false;
        }
        assert(w[i as int] == text@[at + i]);
        i = i + 1;
    }
    true
}

/// Whether `query` occurs in `text`, ignoring case, for a workspace symbol
/// query.
pub fn contains_case_insensitive(text: &str, query: &str) -> (r: bool)
    ensures
        r == spec_contains_case_insensitive(text@, query@),
{
    let q = chars_of(query);
    if q.len() == 0 {
        return true;
    }
    if text.is_ascii() && query.is_ascii() {
        let t = chars_of(text);
        if q.len() > t.len() {
            return false;
        }
        let limit = t.len() - q.len();
        let mut at: usize = 0;
        while at <= limit
            invariant
                t@ == text@,
                q@ == query@,
                q@.len() <= t@.len(),
                q@.len() >= 1,
                is_ascii_chars(text@),
                is_ascii_chars(query@),
                limit == t@.len() - q@.len(),
                limit < usize::MAX,
                forall|k: int|
                    0 <= k < at ==> !#[trigger] eq_ignore_ascii_case(
                        t@.subrange(k, k + q@.len()),
                        q@,
                    ),
            decreases limit + 1 - at,
        {
            if window_matches(&t, at, &q) {
                assert(eq_ignore_ascii_case(t@.subrange(at as int, at + q@.len()), q@));
                return true;
            }
            at = at + 1;
        }
        return false;
    }
    let lower_text = to_lowercase(text);
    let lower_query = to_lowercase(query);
    contains_chars(&chars_of(lower_text.as_str()), &chars_of(lower_query.as_str()))
}

/// The positions of the labels a workspace query matches, in order, at most
/// `limit` of them.
pub open spec fn spec_matching(labels: Seq<Seq<char>>, query: Seq<char>, limit: nat) -> Seq<int>
    decreases labels.len(),
{
    if labels.len() == 0 {
        Seq::empty()
    } else {
        let before = spec_matching(labels.drop_last(), query, limit);
        if before.len() < limit && spec_contains_case_insensitive(labels.last(), query) {
            before.push(labels.len() - 1)
        } else {
            before
        }
    }
}

/// The most symbols a workspace query answers with.
pub const WORKSPACE_SYMBOL_LIMIT: usize = 512;

/// Which of `labels` a workspace symbol query lists: those that contain the
/// query ignoring case, the first [`WORKSPACE_SYMBOL_LIMIT`] of them.
pub fn workspace_matches(labels: &[String], query: &str) -> (found: Vec<usize>)
    ensures
        found@.map_values(|i: usize| i as int) == spec_matching(
            labels@.map_values(|s: String| s@),
            query@,
            WORKSPACE_SYMBOL_LIMIT as nat,
        ),
{
    let ghost ls = labels@.map_values(|s: String| s@);
    let mut found: Vec<usize> = Vec::new();
    let mut i: usize = 0;
    assert(found@.map_values(|i: usize| i as int) =~= Seq::<int>::empty());
    while i < labels.len()
        invariant
            i <= labels@.len(),
            ls == labels@.map_values(|s: String| s@),
            found@.map_values(|i: usize| i as int) == spec_matching(
                ls.take(i as int),
                query@,
                WORKSPACE_SYMBOL_LIMIT as nat,
            ),
            found@.len() <= WORKSPACE_SYMBOL_LIMIT,
        decreases labels.len() - i,
    {
        let ghost before = found@;
        proof {
            assert(ls.take(i + 1).drop_last() =~= ls.take(i as int));
            assert(ls.take(i + 1).last() == labels@[i as int]@);
        }
        if found.len() < WORKSPACE_SYMBOL_LIMIT && contains_case_insensitive(labels[i].as_str(), query) {
            found.push(i);
            assert(found@.map_values(|i: usize| i as int) =~= before.map_values(|i: usize| i as int).push(i as int));
        }
        i = i + 1;
    }
    assert(ls.take(labels@.len() as int) =~= ls);
    found
}


/// A call at the top level of a Starlark file, as the syntax tree shows it:
/// the callee's name where it is a plain name, the call's byte range, and
/// its `name` argument where that is a string literal, with the byte range
/// of the string's content where the tree gives one.
#[derive(Debug, Clone, PartialEq, Eq)]
pub struct TopLevelCall {
    pub rule: Option<String>,
    pub start: u32,
    pub end: u32,
    pub name: Option<String>,
    pub name_range: Option<(u32, u32)>,
}

/// A target declared in a BUILD file, with the ranges an editor needs: the
/// whole rule call, and the name's content alone.
#[derive(Debug, PartialEq, Eq)]
pub struct Declaration {
    pub name: String,
    pub rule: String,
    pub full: ((u32, u32), (u32, u32)),
    pub selection: ((u32, u32), (u32, u32)),
}

/// A declaration as its name, rule and ranges.
pub open spec fn declaration_view(d: Declaration) -> (Seq<char>, Seq<char>, ((u32, u32), (u32, u32)), (
    (u32, u32),
    (u32, u32),
)) {
    (d.name@, d.rule@, d.full, d.selection)
}

/// The positions of a byte range of `bs`.
pub open spec fn range_at(bs: Seq<u8>, start: u32, end: u32) -> ((u32, u32), (u32, u32)) {
    (text_position(bs, start as int), text_position(bs, end as int))
}

/// The declaration a top-level call makes, where it names a rule and a
/// target.
pub open spec fn declaration_of(bs: Seq<u8>, call: TopLevelCall) -> Option<
    (Seq<char>, Seq<char>, ((u32, u32), (u32, u32)), ((u32, u32), (u32, u32))),
> {
    match (call.rule, call.name) {
        (Some(rule), Some(name)) => {
            let full = range_at(bs, call.start, call.end);
            let selection = match call.name_range {
                Some(r) => range_at(bs, r.0, r.1),
                None => full,
            };
            Some((name@, rule@, full, selection))
        },
        _ => None,
    }
}

/// The declarations of a list of top-level calls, in order.
pub open spec fn declarations_of(bs: Seq<u8>, calls: Seq<TopLevelCall>) -> Seq<
    (Seq<char>, Seq<char>, ((u32, u32), (u32, u32)), ((u32, u32), (u32, u32))),
>
    decreases calls.len(),
{
    if calls.len() == 0 {
        Seq::empty()
    } else {
        let rest = declarations_of(bs, calls.drop_last());
        match declaration_of(bs, calls.last()) {
            Some(d) => rest.push(d),
            None => rest,
        }
    }
}

/// Every target a BUILD file declares: each top-level call that names a
/// rule and a target, in order. A file of any other kind declares none.
pub fn declarations(document: &Document, calls: &[TopLevelCall], build_file: bool) -> (found: Vec<Declaration>)
    requires
        encode_utf8(document.text_view()).len() <= isize::MAX,
    ensures
        found@.map_values(|d: Declaration| declaration_view(d)) == (if build_file {
            declarations_of(encode_utf8(document.text_view()), calls@)
        } else {
            Seq::empty()
        }),
{
    let mut found: Vec<Declaration> = Vec::new();
    if !build_file {
        assert(found@.map_values(|d: Declaration| declaration_view(d)) =~= Seq::<
            (Seq<char>, Seq<char>, ((u32, u32), (u32, u32)), ((u32, u32), (u32, u32))),
        >::empty());
        return found;
    }
    let ghost bs = encode_utf8(document.text_view());
    let mut i: usize = 0;
    assert(calls@.take(0) =~= Seq::<TopLevelCall>::empty());
    assert(found@.map_values(|d: Declaration| declaration_view(d)) =~= Seq::<
        (Seq<char>, Seq<char>, ((u32, u32), (u32, u32)), ((u32, u32), (u32, u32))),
    >::empty());
    while i < calls.len()
        invariant
            i <= calls@.len(),
            bs == encode_utf8(document.text_view()),
            bs.len() <= isize::MAX,
            found@.map_values(|d: Declaration| declaration_view(d)) == declarations_of(bs, calls@.take(i as int)),
        decreases calls.len() - i,
    {
        assert(calls@.take(i + 1).drop_last() =~= calls@.take(i as int));
        assert(calls@.take(i + 1).last() == calls@[i as int]);
        let call = &calls[i];
        match (&call.rule, &call.name) {
            (Some(rule), Some(name)) => {
                let full = (document.position(call.start as usize), document.position(call.end as usize));
                let selection = match call.name_range {
                    Some(r) => (document.position(r.0 as usize), document.position(r.1 as usize)),
                    None => full,
                };
                let d = Declaration { name: name.clone(), rule: rule.clone(), full, selection };
                let ghost before = found@.map_values(|d: Declaration| declaration_view(d));
                let ghost v = declaration_view(d);
                found.push(d);
                assert(found@.map_values(|d: Declaration| declaration_view(d)) =~= before.push(v));
            },
            _ => {},
        }
        i = i + 1;
    }
    assert(calls@.take(i as int) =~= calls@);
    found
}

/// A symbol of a document: a declared target, named like a label.
#[derive(Debug, PartialEq, Eq)]
pub struct DocumentSymbol {
    pub name: String,
    pub kind: SymbolClass,
    pub detail: String,
    pub full: ((u32, u32), (u32, u32)),
    pub selection: ((u32, u32), (u32, u32)),
}

/// The symbols of a BUILD file: each declaration, named `:name`, with the
/// kind its rule reads as and the rule as its detail.
pub fn document_symbols(document: &Document, calls: &[TopLevelCall], build_file: bool) -> (symbols: Vec<
    DocumentSymbol,
>)
    requires
        encode_utf8(document.text_view()).len() <= isize::MAX,
    ensures
        ({
            let ds = if build_file {
                declarations_of(encode_utf8(document.text_view()), calls@)
            } else {
                Seq::empty()
            };
            &&& symbols@.len() == ds.len()
            &&& forall|i: int|
                0 <= i < ds.len() ==> (#[trigger] symbols@[i]).name@ == seq![':'] + ds[i].0
                    && symbols@[i].kind == spec_symbol_kind(ds[i].1) && symbols@[i].detail@ == ds[i].1
                    && symbols@[i].full == ds[i].2 && symbols@[i].selection == ds[i].3
        }),
{
    let found = declarations(document, calls, build_file);
    let ghost ds = found@.map_values(|d: Declaration| declaration_view(d));
    let mut symbols: Vec<DocumentSymbol> = Vec::new();
    let mut i: usize = 0;
    while i < found.len()
        invariant
            i <= found@.len(),
            ds == found@.map_values(|d: Declaration| declaration_view(d)),
            symbols@.len() == i,
            forall|j: int|
                0 <= j < i ==> (#[trigger] symbols@[j]).name@ == seq![':'] + ds[j].0
                    && symbols@[j].kind == spec_symbol_kind(ds[j].1) && symbols@[j].detail@ == ds[j].1
                    && symbols@[j].full == ds[j].2 && symbols@[j].selection == ds[j].3,
        decreases found.len() - i,
    {
        let d = &found[i];
        let mut name = String::new();
        append(&mut name, ":");
        append(&mut name, d.name.as_str());
        proof {
            reveal_strlit(":");
            assert(name@ =~= seq![':'] + d.name@);
        }
        symbols.push(
            DocumentSymbol {
                name,
                kind: symbol_kind(d.rule.as_str()),
                detail: d.rule.clone(),
                full: d.full,
                selection: d.selection,
            },
        );
        i = i + 1;
    }
    symbols
}

/// A target a workspace query lists: its label, the kind its rule reads
/// as, its rule, and where its name is written.
#[derive(Debug, PartialEq, Eq)]
pub struct WorkspaceSymbol {
    pub name: String,
    pub kind: SymbolClass,
    pub rule: String,
    pub uri: String,
    pub line: u32,
    pub character: u32,
}

/// The symbols for listed targets, skipping those whose file's URI does not
/// parse: label, kind, rule, URI and position.
pub open spec fn symbols_of(index: &Index, labels: Seq<Seq<char>>) -> Seq<
    (Seq<char>, SymbolClass, Seq<char>, Seq<char>, u32, u32),
>
    decreases labels.len(),
{
    if labels.len() == 0 {
        Seq::empty()
    } else {
        let rest = symbols_of(index, labels.drop_last());
        let l = labels.last();
        let t = index.resolved(l).unwrap();
        if file_uri_ok(t.file@) {
            rest.push((l, spec_symbol_kind(t.rule@), t.rule@, spec_file_uri(t.file@), t.line, t.character))
        } else {
            rest
        }
    }
}

/// A workspace symbol as its label, kind, rule, URI and position.
pub open spec fn workspace_symbol_view(s: WorkspaceSymbol) -> (Seq<char>, SymbolClass, Seq<char>, Seq<char>, u32, u32) {
    (s.name@, s.kind, s.rule@, s.uri@, s.line, s.character)
}

/// The targets a workspace query lists: those whose label contains the
/// query ignoring case, the first [`WORKSPACE_SYMBOL_LIMIT`] of them in the
/// index's listing order, each where its file's URI parses.
pub fn workspace_symbols(index: &Index, query: &str) -> (found: Vec<WorkspaceSymbol>)
    ensures
        found@.map_values(|s: WorkspaceSymbol| workspace_symbol_view(s)) == symbols_of(
            index,
            spec_matching(index.listing(), query@, WORKSPACE_SYMBOL_LIMIT as nat).map_values(
                |i: int| index.listing()[i],
            ),
        ),
{
    let listed = index.targets();
    let ghost listing = index.listing();
    let mut labels: Vec<String> = Vec::new();
    let mut k: usize = 0;
    while k < listed.len()
        invariant
            k <= listed@.len(),
            listed@.len() == listing.len(),
            listing == index.listing(),
            forall|i: int|
                #![trigger listed@[i]]
                0 <= i < listed@.len() ==> listed@[i].0@ == listing[i] && index.resolved(listed@[i].0@)
                    == Some(*listed@[i].1),
            labels@.len() == k,
            forall|i: int| 0 <= i < k ==> (#[trigger] labels@[i])@ == listing[i],
        decreases listed.len() - k,
    {
        labels.push(listed[k].0.to_owned());
        k = k + 1;
    }
    assert(labels@.map_values(|s: String| s@) =~= listing);
    let picked = workspace_matches(&labels, query);
    let ghost chosen = spec_matching(listing, query@, WORKSPACE_SYMBOL_LIMIT as nat);
    let ghost names = chosen.map_values(|i: int| listing[i]);
    proof {
        lemma_matching_in_range(listing, query@, WORKSPACE_SYMBOL_LIMIT as nat);
    }
    let mut found: Vec<WorkspaceSymbol> = Vec::new();
    let mut j: usize = 0;
    assert(names.take(0) =~= Seq::<Seq<char>>::empty());
    assert(found@.map_values(|s: WorkspaceSymbol| workspace_symbol_view(s)) =~= Seq::<
        (Seq<char>, SymbolClass, Seq<char>, Seq<char>, u32, u32),
    >::empty());
    while j < picked.len()
        invariant
            j <= picked@.len(),
            listed@.len() == listing.len(),
            listing == index.listing(),
            forall|i: int|
                #![trigger listed@[i]]
                0 <= i < listed@.len() ==> listed@[i].0@ == listing[i] && index.resolved(listed@[i].0@)
                    == Some(*listed@[i].1),
            picked@.map_values(|i: usize| i as int) == chosen,
            chosen == spec_matching(listing, query@, WORKSPACE_SYMBOL_LIMIT as nat),
            names == chosen.map_values(|i: int| listing[i]),
            forall|i: int| 0 <= i < chosen.len() ==> 0 <= #[trigger] chosen[i] < listing.len(),
            found@.map_values(|s: WorkspaceSymbol| workspace_symbol_view(s)) == symbols_of(
                index,
                names.take(j as int),
            ),
        decreases picked.len() - j,
    {
        assert(chosen[j as int] == picked@[j as int] as int);
        let at = picked[j];
        let (label, target) = listed[at];
        assert(names.take(j + 1).drop_last() =~= names.take(j as int));
        assert(names.take(j + 1).last() == listing[at as int]);
        match checked_file_uri(target.file.as_str()) {
            Some(uri) => {
                let s = WorkspaceSymbol {
                    name: label.to_owned(),
                    kind: symbol_kind(target.rule.as_str()),
                    rule: target.rule.clone(),
                    uri,
                    line: target.line,
                    character: target.character,
                };
                let ghost before = found@.map_values(|s: WorkspaceSymbol| workspace_symbol_view(s));
                let ghost v = workspace_symbol_view(s);
                found.push(s);
                assert(found@.map_values(|s: WorkspaceSymbol| workspace_symbol_view(s)) =~= before.push(v));
            },
            None => {},
        }
        j = j + 1;
    }
    assert(names.take(j as int) =~= names);
    found
}

/// The positions a query picks lie among the labels.
proof fn lemma_matching_in_range(labels: Seq<Seq<char>>, query: Seq<char>, limit: nat)
    ensures
        forall|i: int|
            0 <= i < spec_matching(labels, query, limit).len() ==> 0 <= #[trigger] spec_matching(
                labels,
                query,
                limit,
            )[i] < labels.len(),
    decreases labels.len(),
{
    if labels.len() > 0 {
        lemma_matching_in_range(labels.drop_last(), query, limit);
        let before = spec_matching(labels.drop_last(), query, limit);
        let all = spec_matching(labels, query, limit);
        assert forall|i: int| 0 <= i < all.len() implies 0 <= #[trigger] all[i] < labels.len() by {
            if i < before.len() {
                assert(all[i] == before[i]);
            }
        }
    }
}

} // verus!
