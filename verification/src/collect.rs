//! What one BUILD file contributes to the disk tier: the targets its
//! top-level calls declare and the labels written in their arguments.

use vstd::prelude::*;
use vstd::string::StringSliceAdditionalSpecFns;
use crate::handlers::symbols::TopLevelCall;
use crate::document::{parse_starlark, starlark_parse};
use crate::source_kind::StarlarkDialect;
use crate::static_index::{collect_targets, declared_all, FileId, Index};
use crate::syntax_tree::{build_call_view, build_calls, build_calls_before, call_view, calls_before, top_level_calls, tree_elements};
use vstd::utf8::encode_utf8;
use crate::index::{Reference, Target, Tier};
use crate::label::{make_variable_labels, parse_label, spec_key, spec_make_variable_labels, spec_parse_label, Label};
use crate::line_index::{text_position, utf16_len, LineIndex};
use crate::text::{lemma_str_byte_width, str_len, utf16_width};

verus! {

/// A top-level call of a BUILD file, with the string literals among its
/// arguments other than its `name`, each with the byte offset where its
/// content starts.
#[derive(Debug, Clone, PartialEq, Eq)]
pub struct BuildCall {
    pub call: TopLevelCall,
    pub strings: Vec<(String, usize)>,
}

/// `a + b`, or the largest offset where that does not fit.
pub open spec fn sat_add(a: int, b: int) -> int {
    if a + b > usize::MAX {
        usize::MAX as int
    } else {
        a + b
    }
}

/// The label texts a call's strings may hold, each with the byte offset
/// where it is written: every string whole, followed by the labels of its
/// make-variable expansions.
pub open spec fn label_strings(strings: Seq<(String, usize)>) -> Seq<(Seq<char>, int)>
    decreases strings.len(),
{
    if strings.len() == 0 {
        Seq::empty()
    } else {
        let (value, start) = strings.last();
        label_strings(strings.drop_last()) + seq![(value@, start as int)]
            + spec_make_variable_labels(value@).map_values(|e: (Seq<char>, int)| (e.0, sat_add(start as int, e.1)))
    }
}

/// The target a call declares, under its key: a call with a rule name and a
/// string `name`, placed at the name's content, or at the call where no
/// range is given for it.
pub open spec fn tier_target(bs: Seq<u8>, call: TopLevelCall, path: String, package: Seq<char>) -> Option<(Seq<char>, Target)> {
    match (call.rule, call.name) {
        (Some(rule), Some(name)) => {
            let anchor = match call.name_range {
                Some(range) => range.0 as int,
                None => call.start as int,
            };
            let (line, character) = text_position(bs, anchor);
            Some((
                spec_key(package, name@),
                Target { name, rule, file: path, line, character, length: utf16_width(name@) as u32 },
            ))
        },
        _ => None,
    }
}

/// `table` with what `calls` declare recorded in order.
pub open spec fn tier_targets(
    table: Map<Seq<char>, Target>,
    bs: Seq<u8>,
    calls: Seq<BuildCall>,
    path: String,
    package: Seq<char>,
) -> Map<Seq<char>, Target>
    decreases calls.len(),
{
    if calls.len() == 0 {
        table
    } else {
        let before = tier_targets(table, bs, calls.drop_last(), path, package);
        match tier_target(bs, calls.last().call, path, package) {
            Some((key, target)) => before.insert(key, target),
            None => before,
        }
    }
}

/// The mention a label text written at byte `at` makes, under the key of
/// the label it resolves to in `package`: placed at the label's name, the
/// part a rename rewrites.
pub open spec fn mention_of(bs: Seq<u8>, raw: Seq<char>, at: int, path: String, package: Seq<char>) -> Option<(Seq<char>, Reference)> {
    match spec_parse_label(raw, Some(package)) {
        Some((p, n)) => {
            let offset = if str_len(raw) >= str_len(n) {
                str_len(raw) - str_len(n)
            } else {
                0
            };
            let (line, character) = text_position(bs, at + offset);
            Some((spec_key(p, n), Reference { file: path, line, character, length: utf16_width(n) as u32 }))
        },
        None => None,
    }
}

/// The mentions a list of label texts makes, in order.
pub open spec fn mentions_in(bs: Seq<u8>, items: Seq<(Seq<char>, int)>, path: String, package: Seq<char>) -> Seq<(Seq<char>, Reference)>
    decreases items.len(),
{
    if items.len() == 0 {
        Seq::empty()
    } else {
        mentions_in(bs, items.drop_last(), path, package) + match mention_of(bs, items.last().0, items.last().1, path, package) {
            Some(m) => seq![m],
            None => Seq::empty(),
        }
    }
}

/// The mentions the calls make, call by call.
pub open spec fn tier_mentions(bs: Seq<u8>, calls: Seq<BuildCall>, path: String, package: Seq<char>) -> Seq<(Seq<char>, Reference)>
    decreases calls.len(),
{
    if calls.len() == 0 {
        Seq::empty()
    } else {
        tier_mentions(bs, calls.drop_last(), path, package) + mentions_in(bs, label_strings(calls.last().strings@), path, package)
    }
}

/// The references among `mentions` that are filed under `key`, in order.
pub open spec fn filed_under(mentions: Seq<(Seq<char>, Reference)>, key: Seq<char>) -> Seq<Reference>
    decreases mentions.len(),
{
    if mentions.len() == 0 {
        Seq::empty()
    } else {
        filed_under(mentions.drop_last(), key) + if mentions.last().0 == key {
            seq![mentions.last().1]
        } else {
            Seq::empty()
        }
    }
}

/// Offsets past the end of the text are all placed at its end.
proof fn lemma_position_past_end(bs: Seq<u8>, a: int, b: int)
    requires
        a >= bs.len(),
        b >= bs.len(),
    ensures
        text_position(bs, a) == text_position(bs, b),
{
}

/// The label texts of a call's strings, as [`label_strings`] lists them.
fn label_candidates(strings: &Vec<(String, usize)>) -> (items: Vec<(String, usize)>)
    ensures
        items@.len() == label_strings(strings@).len(),
        forall|k: int| 0 <= k < items@.len() ==> (#[trigger] items@[k]).0@ == label_strings(strings@)[k].0
            && items@[k].1 as int == label_strings(strings@)[k].1,
{
    let mut items: Vec<(String, usize)> = Vec::new();
    let mut j: usize = 0;
    assert(strings@.take(0) =~= Seq::<(String, usize)>::empty());
    while j < strings.len()
        invariant
            j <= strings.len(),
            items@.len() == label_strings(strings@.take(j as int)).len(),
            forall|k: int| 0 <= k < items@.len() ==> (#[trigger] items@[k]).0@ == label_strings(strings@.take(j as int))[k].0
                && items@[k].1 as int == label_strings(strings@.take(j as int))[k].1,
        decreases strings.len() - j,
    {
        let ghost before = label_strings(strings@.take(j as int));
        let (value, start) = (&strings[j].0, strings[j].1);
        assert(strings@.take(j + 1).drop_last() =~= strings@.take(j as int));
        assert(strings@.take(j + 1).last() == strings@[j as int]);
        items.push((value.clone(), start));
        let value_text = value.as_str();
        let width = value_text.as_bytes().len();
        proof {
            lemma_str_byte_width(value_text);
        }
        let expansions = make_variable_labels(value_text);
        let ghost spec_exp = spec_make_variable_labels(value@);
        let ghost mapped = spec_exp.map_values(|e: (Seq<char>, int)| (e.0, sat_add(start as int, e.1)));
        let ghost whole = before + seq![(value@, start as int)];
        assert(label_strings(strings@.take(j + 1)) == whole + mapped);
        let mut e: usize = 0;
        while e < expansions.len()
            invariant
                e <= expansions@.len(),
                expansions@.len() == spec_exp.len(),
                forall|k: int| 0 <= k < expansions@.len() ==> (#[trigger] expansions@[k]).0@ == spec_exp[k].0
                    && expansions@[k].1 == spec_exp[k].1,
                mapped == spec_exp.map_values(|x: (Seq<char>, int)| (x.0, sat_add(start as int, x.1))),
                items@.len() == whole.len() + e,
                forall|k: int| 0 <= k < whole.len() ==> (#[trigger] items@[k]).0@ == whole[k].0 && items@[k].1 as int == whole[k].1,
                forall|k: int| 0 <= k < e ==> (#[trigger] items@[whole.len() + k]).0@ == mapped[k].0
                    && items@[whole.len() + k].1 as int == mapped[k].1,
            decreases expansions.len() - e,
        {
            let (label, offset) = (&expansions[e].0, expansions[e].1);
            items.push((label.clone(), start.saturating_add(offset)));
            proof {
                assert(items@[whole.len() + e].0@ == mapped[e as int].0);
            }
            e = e + 1;
        }
        proof {
            let all = whole + mapped;
            assert forall|k: int| 0 <= k < items@.len() implies (#[trigger] items@[k]).0@ == all[k].0
                && items@[k].1 as int == all[k].1 by {
                if k >= whole.len() {
                    let m = k - whole.len();
                    assert(items@[whole.len() + m] == items@[k]);
                }
            }
        }
        j = j + 1;
    }
    assert(strings@.take(strings.len() as int) =~= strings@);
    items
}

/// The label texts and offsets a list holds, as plain values.
pub open spec fn items_view(items: Seq<(String, usize)>) -> Seq<(Seq<char>, int)> {
    items.map_values(|x: (String, usize)| (x.0@, x.1 as int))
}

/// Filing a concatenation files each part.
proof fn lemma_filed_under_add(a: Seq<(Seq<char>, Reference)>, b: Seq<(Seq<char>, Reference)>, key: Seq<char>)
    ensures
        filed_under(a + b, key) == filed_under(a, key) + filed_under(b, key),
    decreases b.len(),
{
    if b.len() == 0 {
        assert(a + b =~= a);
        assert(filed_under(a, key) + filed_under(b, key) =~= filed_under(a, key));
    } else {
        lemma_filed_under_add(a, b.drop_last(), key);
        assert((a + b).drop_last() =~= a + b.drop_last());
        assert((a + b).last() == b.last());
    }
}

/// Record the mentions `items` make, in order.
fn mention_all(text: &str, lines: &LineIndex, items: &Vec<(String, usize)>, path: &String, package: &str, tier: &mut Tier)
    requires
        lines.indexes(text),
        text.spec_bytes().len() <= isize::MAX,
    ensures
        forall|key: Seq<char>| #[trigger] final(tier).mentions(key) == old(tier).mentions(key) + filed_under(
            mentions_in(text.spec_bytes(), items_view(items@), *path, package@),
            key,
        ),
        final(tier).targets.map() == old(tier).targets.map(),
        final(tier).speaks_for@ == old(tier).speaks_for@,
        final(tier).files == old(tier).files,
{
    let ghost bs = text.spec_bytes();
    let ghost iv = items_view(items@);
    let mut k: usize = 0;
    assert(iv.take(0) =~= Seq::<(Seq<char>, int)>::empty());
    while k < items.len()
        invariant
            k <= items.len(),
            lines.indexes(text),
            bs == text.spec_bytes(),
            bs.len() <= isize::MAX,
            iv == items_view(items@),
            forall|key: Seq<char>| #[trigger] tier.mentions(key) == old(tier).mentions(key) + filed_under(
                mentions_in(bs, iv.take(k as int), *path, package@),
                key,
            ),
            tier.targets.map() == old(tier).targets.map(),
            tier.speaks_for@ == old(tier).speaks_for@,
            tier.files == old(tier).files,
        decreases items.len() - k,
    {
        let ghost before = mentions_in(bs, iv.take(k as int), *path, package@);
        assert(iv.take(k + 1).drop_last() =~= iv.take(k as int));
        assert(iv.take(k + 1).last() == iv[k as int]);
        let raw = items[k].0.as_str();
        let at = items[k].1;
        match parse_label(raw, Some(package)) {
            Some(label) => {
                let offset = label.name_offset(raw);
                let anchor = at.saturating_add(offset);
                let (line, character) = lines.position(text, anchor);
                proof {
                    if at + offset > usize::MAX {
                        lemma_position_past_end(bs, anchor as int, at + offset);
                    }
                }
                let length = utf16_len(label.name.as_str());
                let key = label.key();
                let reference = Reference { file: path.clone(), line, character, length };
                let ghost entry = (key@, reference);
                assert(mentions_in(bs, iv.take(k + 1), *path, package@) == before.push(entry));
                let ghost old_tier = *tier;
                tier.mention(key, reference);
                proof {
                    assert forall|other: Seq<char>| #[trigger] tier.mentions(other) == old(tier).mentions(other) + filed_under(
                        before.push(entry),
                        other,
                    ) by {
                        assert(before.push(entry).drop_last() =~= before);
                        if other == entry.0 {
                            assert(old(tier).mentions(other) + filed_under(before, other) + seq![reference]
                                =~= old(tier).mentions(other) + (filed_under(before, other) + seq![reference]));
                        } else {
                            assert(filed_under(before, other) + Seq::<Reference>::empty() =~= filed_under(before, other));
                        }
                    }
                }
            },
            None => {
                assert(mentions_in(bs, iv.take(k + 1), *path, package@) =~= before);
            },
        }
        k = k + 1;
    }
    assert(iv.take(items.len() as int) =~= iv);
}

/// Record what the top-level calls of the BUILD file at `path`, in
/// `package`, declare and mention; `text` is the file's text, which
/// places them. Both come out of one walk of the calls.
pub fn collect_tier(text: &str, calls: &[BuildCall], path: &String, package: &str, tier: &mut Tier)
    requires
        text.spec_bytes().len() <= isize::MAX,
    ensures
        final(tier).targets.map() == tier_targets(old(tier).targets.map(), text.spec_bytes(), calls@, *path, package@),
        forall|key: Seq<char>| #[trigger] final(tier).mentions(key) == old(tier).mentions(key) + filed_under(
            tier_mentions(text.spec_bytes(), calls@, *path, package@),
            key,
        ),
        final(tier).speaks_for@ == old(tier).speaks_for@,
        final(tier).files == old(tier).files,
{
    let lines = LineIndex::new(text);
    let ghost bs = text.spec_bytes();
    let mut i: usize = 0;
    assert(calls@.take(0) =~= Seq::<BuildCall>::empty());
    while i < calls.len()
        invariant
            i <= calls.len(),
            lines.indexes(text),
            bs == text.spec_bytes(),
            bs.len() <= isize::MAX,
                tier.targets.map() == tier_targets(old(tier).targets.map(), bs, calls@.take(i as int), *path, package@),
            forall|key: Seq<char>| #[trigger] tier.mentions(key) == old(tier).mentions(key) + filed_under(
                tier_mentions(bs, calls@.take(i as int), *path, package@),
                key,
            ),
            tier.speaks_for@ == old(tier).speaks_for@,
            tier.files == old(tier).files,
        decreases calls.len() - i,
    {
        let call = &calls[i];
        assert(calls@.take(i + 1).drop_last() =~= calls@.take(i as int));
        assert(calls@.take(i + 1).last() == calls@[i as int]);
        let ghost before = tier_mentions(bs, calls@.take(i as int), *path, package@);
        let ghost start = *tier;
        match (&call.call.rule, &call.call.name) {
            (Some(rule), Some(name)) => {
                let anchor: usize = match call.call.name_range {
                    Some(range) => range.0 as usize,
                    None => call.call.start as usize,
                };
                let (line, character) = lines.position(text, anchor);
                let length = utf16_len(name.as_str());
                let key = Label::new(package, name.as_str()).key();
                tier.declare(key, Target { name: name.clone(), rule: rule.clone(), file: path.clone(), line, character, length });
            },
            _ => {},
        }
        let items = label_candidates(&call.strings);
        assert(items_view(items@) =~= label_strings(call.strings@));
        let ghost middle = *tier;
        mention_all(text, &lines, &items, path, package, tier);
        proof {
            let added = mentions_in(bs, label_strings(call.strings@), *path, package@);
            assert(tier_mentions(bs, calls@.take(i + 1), *path, package@) == before + added);
            assert forall|key: Seq<char>| #[trigger] tier.mentions(key) == old(tier).mentions(key) + filed_under(
                before + added,
                key,
            ) by {
                lemma_filed_under_add(before, added, key);
                assert(start.mentions(key) == old(tier).mentions(key) + filed_under(before, key));
                assert(middle.references.map() == start.references.map());
                assert(middle.mentions(key) == start.mentions(key));
            }
        }
        i = i + 1;
    }
    assert(calls@.take(calls.len() as int) =~= calls@);
}

/// The calls a parse of `text` in `dialect` shows, with their strings.
pub open spec fn parsed_build_calls(text: Seq<char>, dialect: StarlarkDialect) -> Seq<(crate::syntax_tree::CallView, Seq<(Seq<char>, int)>)> {
    build_calls_before(tree_elements(starlark_parse(text, dialect)), tree_elements(starlark_parse(text, dialect)).len() as int)
}

/// The top-level calls a parse of `text` in `dialect` shows.
pub open spec fn parsed_calls(text: Seq<char>, dialect: StarlarkDialect) -> Seq<crate::syntax_tree::CallView> {
    calls_before(tree_elements(starlark_parse(text, dialect)), tree_elements(starlark_parse(text, dialect)).len() as int)
}

/// Record what the BUILD file at `path`, in `package`, declares and
/// mentions: its text parsed in `dialect`, its top-level calls with the
/// strings among their arguments, collected into the tier.
pub fn collect_build_file(text: &str, path: &String, package: &str, dialect: StarlarkDialect, tier: &mut Tier)
    requires
        encode_utf8(text@).len() <= u32::MAX,
        text.spec_bytes().len() <= isize::MAX,
    ensures
        exists|calls: Seq<BuildCall>|
            #![trigger tier_targets(old(tier).targets.map(), text.spec_bytes(), calls, *path, package@)]
            calls.map_values(|b: BuildCall| build_call_view(b)) == parsed_build_calls(text@, dialect)
            && final(tier).targets.map() == tier_targets(old(tier).targets.map(), text.spec_bytes(), calls, *path, package@)
            && forall|key: Seq<char>| #[trigger] final(tier).mentions(key) == old(tier).mentions(key) + filed_under(
                tier_mentions(text.spec_bytes(), calls, *path, package@),
                key,
            ),
        final(tier).speaks_for@ == old(tier).speaks_for@,
        final(tier).files == old(tier).files,
{
    let tree = parse_starlark(text, dialect);
    let calls = build_calls(&tree);
    collect_tier(text, calls.as_slice(), path, package, tier);
    proof {
        assert(tier_targets(old(tier).targets.map(), text.spec_bytes(), calls@, *path, package@) == tier.targets.map());
    }
}

/// Record every target the BUILD file `file`, in `package`, declares: its
/// text parsed in `dialect`, and the targets of its top-level calls.
pub fn collect_static_file(text: &str, file: FileId, package: &str, dialect: StarlarkDialect, index: &mut Index)
    requires
        encode_utf8(text@).len() <= u32::MAX,
        text.spec_bytes().len() <= isize::MAX,
    ensures
        exists|calls: Seq<TopLevelCall>|
            #![trigger declared_all(old(index).table(), text.spec_bytes(), calls, file, package@)]
            calls.map_values(|c: TopLevelCall| call_view(c)) == parsed_calls(text@, dialect)
            && final(index).table() == declared_all(old(index).table(), text.spec_bytes(), calls, file, package@),
        final(index).file_list() == old(index).file_list(),
        final(index).graph() == old(index).graph(),
{
    let tree = parse_starlark(text, dialect);
    let calls = top_level_calls(&tree);
    collect_targets(text, calls.as_slice(), file, package, index);
    proof {
        assert(declared_all(old(index).table(), text.spec_bytes(), calls@, file, package@) == index.table());
    }
}

} // verus!
