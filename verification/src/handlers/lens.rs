//! The Bazel commands a target line of a BUILD file affords.
//!
//! Build for every target, and test as well for a target whose rule name
//! ends in `_test` or is `test_suite`: `bazel test` on anything else is an
//! error, so offering it there would be offering a mistake.

use vstd::prelude::*;
use crate::document::Document;
use crate::handlers::cursor::{enclosing_package, found_among};
use crate::handlers::symbols::{declaration_view, declarations, declarations_of, TopLevelCall};
use crate::label::{spec_key, Label};
use crate::text::{append, ends_with, str_ends_with, str_eq};
use vstd::utf8::encode_utf8;

verus! {

/// The command a lens runs, and what `workspace/executeCommand` answers to.
pub const RUN_COMMAND: &'static str = "bazel-language-server.run";

/// A lens: where it sits, the Bazel verb it runs, the label it runs it on,
/// and its title.
#[derive(Debug, PartialEq, Eq)]
pub struct Lens {
    pub position: (u32, u32),
    pub verb: String,
    pub label: String,
    pub title: String,
}

/// A lens as its position, verb, label and title.
pub open spec fn lens_view(l: Lens) -> ((u32, u32), Seq<char>, Seq<char>, Seq<char>) {
    (l.position, l.verb@, l.label@, l.title@)
}

/// Whether a rule makes tests.
pub open spec fn is_test_rule(rule: Seq<char>) -> bool {
    ends_with(rule, "_test"@) || rule == "test_suite"@
}

/// The lens running `verb` on `label` at `position`, titled `verb label`.
pub open spec fn lens_of(position: (u32, u32), verb: Seq<char>, label: Seq<char>) -> (
    (u32, u32),
    Seq<char>,
    Seq<char>,
    Seq<char>,
) {
    (position, verb, label, verb + " "@ + label)
}

/// The lenses of declarations in `package`, in order: build at each, and
/// test too at each test target.
pub open spec fn lenses_of(
    decls: Seq<(Seq<char>, Seq<char>, ((u32, u32), (u32, u32)), ((u32, u32), (u32, u32)))>,
    package: Seq<char>,
) -> Seq<((u32, u32), Seq<char>, Seq<char>, Seq<char>)>
    decreases decls.len(),
{
    if decls.len() == 0 {
        Seq::empty()
    } else {
        let d = decls.last();
        let label = spec_key(package, d.0);
        let at = d.2.0;
        lenses_of(decls.drop_last(), package) + seq![lens_of(at, "build"@, label)] + (if is_test_rule(
            d.1,
        ) {
            seq![lens_of(at, "test"@, label)]
        } else {
            Seq::empty()
        })
    }
}

fn lens(position: (u32, u32), verb: &str, label: &str) -> (l: Lens)
    ensures
        lens_view(l) == lens_of(position, verb@, label@),
{
    let mut title = String::new();
    append(&mut title, verb);
    append(&mut title, " ");
    append(&mut title, label);
    Lens { position, verb: verb.to_owned(), label: label.to_owned(), title }
}

/// The lenses of a BUILD file in `package`, given its top-level calls.
pub fn lenses_at(document: &Document, calls: &[TopLevelCall], package: &str) -> (lenses: Vec<Lens>)
    requires
        encode_utf8(document.text_view()).len() <= isize::MAX,
    ensures
        lenses@.map_values(|l: Lens| lens_view(l)) == lenses_of(
            declarations_of(encode_utf8(document.text_view()), calls@),
            package@,
        ),
{
    let found = declarations(document, calls, true);
    let ghost ds = found@.map_values(|d: crate::handlers::symbols::Declaration| declaration_view(d));
    let mut lenses: Vec<Lens> = Vec::new();
    let mut i: usize = 0;
    assert(ds.take(0) =~= Seq::<(Seq<char>, Seq<char>, ((u32, u32), (u32, u32)), ((u32, u32), (u32, u32)))>::empty());
    assert(lenses@.map_values(|l: Lens| lens_view(l)) =~= Seq::<((u32, u32), Seq<char>, Seq<char>, Seq<char>)>::empty());
    while i < found.len()
        invariant
            i <= found@.len(),
            ds == found@.map_values(|d: crate::handlers::symbols::Declaration| declaration_view(d)),
            lenses@.map_values(|l: Lens| lens_view(l)) == lenses_of(ds.take(i as int), package@),
        decreases found.len() - i,
    {
        assert(ds.take(i + 1).drop_last() =~= ds.take(i as int));
        assert(ds.take(i + 1).last() == declaration_view(found@[i as int]));
        let d = &found[i];
        let label = Label::new(package, d.name.as_str()).key();
        let at = d.full.0;
        let ghost before = lenses@.map_values(|l: Lens| lens_view(l));
        let b = lens(at, "build", label.as_str());
        let ghost bv = lens_view(b);
        lenses.push(b);
        assert(lenses@.map_values(|l: Lens| lens_view(l)) =~= before.push(bv));
        if str_ends_with(d.rule.as_str(), "_test") || str_eq(d.rule.as_str(), "test_suite") {
            let ghost mid = lenses@.map_values(|l: Lens| lens_view(l));
            let t = lens(at, "test", label.as_str());
            let ghost tv = lens_view(t);
            lenses.push(t);
            assert(lenses@.map_values(|l: Lens| lens_view(l)) =~= mid.push(tv));
            assert(lenses@.map_values(|l: Lens| lens_view(l)) =~= before + seq![bv] + seq![tv]);
        } else {
            assert(lenses@.map_values(|l: Lens| lens_view(l)) =~= before + seq![bv] + Seq::<
                ((u32, u32), Seq<char>, Seq<char>, Seq<char>),
            >::empty());
        }
        i = i + 1;
    }
    assert(ds.take(i as int) =~= ds);
    lenses
}

/// The lenses above every target a BUILD file declares, given its top-level
/// calls: none for a file of another kind or in no package, which is read
/// from the disk; otherwise the lenses of its declarations in that package,
/// one of the buffer's candidate packages.
pub fn code_lenses(document: &Document, calls: &[TopLevelCall], build_file: bool, root: &str) -> (lenses: Vec<
    Lens,
>)
    requires
        encode_utf8(document.text_view()).len() <= isize::MAX,
    ensures
        !build_file ==> lenses@.len() == 0,
        build_file ==> (lenses@.len() == 0 || exists|package: Seq<char>|
            found_among(root@, document.path_view(), package) && lenses@.map_values(|l: Lens| lens_view(l))
                == #[trigger] lenses_of(declarations_of(encode_utf8(document.text_view()), calls@), package)),
{
    if !build_file {
        return Vec::new();
    }
    match enclosing_package(root, document.path()) {
        Some(package) => {
            let lenses = lenses_at(document, calls, package.as_str());
            assert(found_among(root@, document.path_view(), package@));
            lenses
        },
        None => Vec::new(),
    }
}

} // verus!
