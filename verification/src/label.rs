//! Label parsing and normalisation.
//!
//! A label is only meaningful relative to the package that writes it, so this
//! is where `":srcs"` in `//lib` becomes the `//lib:srcs` key both the target
//! table and the reference table are stored under.

use vstd::prelude::*;
use vstd::utf8::encode_utf8;
use crate::text::{
    byte_len_prefix, byte_width, char_len_utf8, count_leading_whitespace, find_whitespace,
    first_whitespace, lemma_byte_width_prefix_le, lemma_byte_width_push, lemma_byte_width_single,
    lemma_byte_width_split, lemma_byte_width_take, lemma_encode_utf8_add, leading_whitespace,
    occurs_at, trim, trim_chars, any_whitespace, chars_of, contains_chars, contains_seq, ends_with, find_char, first_index_of,
    has_prefix, has_prefix_at, has_suffix, has_whitespace, last_index_of, rfind_char, same_chars,
    starts_with, str_len, string_of, sub_vec,
};

verus! {

/// A label resolved against the package that names it.
#[derive(Debug, Clone, PartialEq, Eq)]
pub struct Label {
    /// Workspace-relative package directory. Empty for the root package.
    pub package: String,
    /// The target name. For a source file this is a package-relative path,
    /// which is why it may contain slashes.
    pub name: String,
}

/// What follows a leading `@@` or `@`, if the label opens with one.
pub open spec fn after_repo_marker(raw: Seq<char>) -> Option<Seq<char>> {
    if starts_with(raw, seq!['@', '@']) {
        Some(raw.skip(2))
    } else if starts_with(raw, seq!['@']) {
        Some(raw.skip(1))
    } else {
        None
    }
}

/// `raw` names a repository other than the main one: it opens with `@` or
/// `@@` and what follows is not `//`.
pub open spec fn spec_is_external(raw: Seq<char>) -> bool {
    match after_repo_marker(raw) {
        Some(rest) => !starts_with(rest, seq!['/', '/']),
        None => false,
    }
}

/// `raw` with a leading `@@` or `@` removed.
pub open spec fn without_repo_marker(raw: Seq<char>) -> Seq<char> {
    match after_repo_marker(raw) {
        Some(rest) => rest,
        None => raw,
    }
}

/// What follows the last `/` of `s`, or all of `s`.
pub open spec fn last_component(s: Seq<char>) -> Seq<char> {
    match last_index_of(s, '/') {
        Some(i) => s.skip(i + 1),
        None => s,
    }
}

/// The package and name a label spells, before validation: `//pkg:name`,
/// `//pkg` (naming its last component), `:name` and a bare `name` (both in
/// `package`). A colon anywhere else makes no label.
pub open spec fn split_label(raw: Seq<char>, package: Option<Seq<char>>) -> Option<
    (Seq<char>, Seq<char>),
> {
    if starts_with(raw, seq!['/', '/']) {
        let rest = raw.skip(2);
        match first_index_of(rest, ':') {
            Some(i) => Some((rest.take(i), rest.skip(i + 1))),
            None => Some((rest, last_component(rest))),
        }
    } else if starts_with(raw, seq![':']) {
        match package {
            Some(p) => Some((p, raw.skip(1))),
            None => None,
        }
    } else if raw.contains(':') {
        None
    } else {
        match package {
            Some(p) => Some((p, raw)),
            None => None,
        }
    }
}

/// The names that make a target pattern rather than a label.
pub open spec fn is_pattern_name(name: Seq<char>) -> bool {
    name == seq!['a', 'l', 'l'] || name == seq!['*'] || name == seq![
        'a',
        'l',
        'l',
        '-',
        't',
        'a',
        'r',
        'g',
        'e',
        't',
        's',
    ]
}

/// The package and name `raw` resolves to when written in `package`, or
/// nothing when it is not a label of the main repository.
pub open spec fn spec_parse_label(raw: Seq<char>, package: Option<Seq<char>>) -> Option<
    (Seq<char>, Seq<char>),
> {
    if spec_is_external(raw) {
        None
    } else {
        let r = without_repo_marker(raw);
        if contains_seq(r, seq!['.', '.', '.']) {
            None
        } else {
            match split_label(r, package) {
                None => None,
                Some((p, n)) => {
                    if n.len() == 0 || starts_with(p, seq!['/']) || ends_with(p, seq!['/'])
                        || is_pattern_name(n) || has_whitespace(r) {
                        None
                    } else {
                        Some((p, n))
                    }
                },
            }
        }
    }
}

/// The view of an optional string.
pub open spec fn opt_view(s: Option<&str>) -> Option<Seq<char>> {
    match s {
        Some(s) => Some(s@),
        None => None,
    }
}

/// The index key `//package:name`.
pub open spec fn spec_key(package: Seq<char>, name: Seq<char>) -> Seq<char> {
    seq!['/', '/'] + package + seq![':'] + name
}

/// Where a source file of this name sits: the name under the package
/// directory, or the name alone at the root or when it is absolute.
pub open spec fn spec_label_path(package: Seq<char>, name: Seq<char>) -> Seq<char> {
    if package.len() == 0 || starts_with(name, seq!['/']) {
        name
    } else {
        package + seq!['/'] + name
    }
}

impl Label {
    /// A label naming `name` in `package`, already resolved.
    pub fn new(package: &str, name: &str) -> (label: Self)
        ensures
            label.package@ == package@,
            label.name@ == name@,
    {
        Self { package: package.to_owned(), name: name.to_owned() }
    }

    /// The index key: `//pkg:name`, and `//:name` at the root.
    pub fn key(&self) -> (key: String)
        ensures
            key@ == spec_key(self.package@, self.name@),
    {
        let package = chars_of(self.package.as_str());
        let name = chars_of(self.name.as_str());
        let mut all: Vec<char> = Vec::new();
        all.push('/');
        all.push('/');
        let mut i: usize = 0;
        while i < package.len()
            invariant
                i <= package.len(),
                all@ == seq!['/', '/'] + package@.take(i as int),
            decreases package.len() - i,
        {
            all.push(package[i]);
            i = i + 1;
            assert(package@.take(i as int) =~= package@.take(i - 1).push(package@[i - 1]));
            assert(all@ =~= seq!['/', '/'] + package@.take(i as int));
        }
        all.push(':');
        let mut j: usize = 0;
        assert(package@.take(package.len() as int) =~= package@);
        while j < name.len()
            invariant
                j <= name.len(),
                all@ == seq!['/', '/'] + package@ + seq![':'] + name@.take(j as int),
            decreases name.len() - j,
        {
            all.push(name[j]);
            j = j + 1;
            assert(name@.take(j as int) =~= name@.take(j - 1).push(name@[j - 1]));
            assert(all@ =~= seq!['/', '/'] + package@ + seq![':'] + name@.take(j as int));
        }
        assert(name@.take(name.len() as int) =~= name@);
        string_of(&all)
    }

    /// Where a source file of this name would sit, relative to the workspace.
    pub fn path(&self) -> (path: String)
        ensures
            path@ == spec_label_path(self.package@, self.name@),
    {
        let package = chars_of(self.package.as_str());
        let name = chars_of(self.name.as_str());
        let slash = ['/'];
        assert(slash@ =~= seq!['/']);
        if package.len() == 0 || has_prefix(&name, &slash) {
            return self.name.clone();
        }
        let mut all = package;
        all.push('/');
        let mut j: usize = 0;
        let ghost base = all@;
        while j < name.len()
            invariant
                j <= name.len(),
                all@ == base + name@.take(j as int),
            decreases name.len() - j,
        {
            all.push(name[j]);
            j = j + 1;
            assert(name@.take(j as int) =~= name@.take(j - 1).push(name@[j - 1]));
            assert(all@ =~= base + name@.take(j as int));
        }
        assert(name@.take(name.len() as int) =~= name@);
        string_of(&all)
    }

    /// The byte offset of the name within `raw`, the label this was parsed
    /// from: every accepted form ends with the name, so rewriting that tail
    /// renames the target.
    pub fn name_offset(&self, raw: &str) -> (offset: usize)
        ensures
            offset == if str_len(raw@) >= str_len(self.name@) {
                (str_len(raw@) - str_len(self.name@)) as usize
            } else {
                0
            },
    {
        let whole = raw.len();
        let name = self.name.as_str().len();
        if whole >= name {
            whole - name
        } else {
            0
        }
    }
}

/// Whether `raw` names a repository other than the main one.
pub fn is_external(raw: &str) -> (external: bool)
    ensures
        external == spec_is_external(raw@),
{
    let cs = chars_of(raw);
    is_external_chars(&cs)
}

fn is_external_chars(cs: &[char]) -> (external: bool)
    ensures
        external == spec_is_external(cs@),
{
    let at2 = ['@', '@'];
    let at1 = ['@'];
    let slashes = ['/', '/'];
    assert(at2@ =~= seq!['@', '@']);
    assert(at1@ =~= seq!['@']);
    assert(slashes@ =~= seq!['/', '/']);
    if has_prefix(cs, &at2) {
        !has_prefix_at(cs, 2, &slashes)
    } else if has_prefix(cs, &at1) {
        !has_prefix_at(cs, 1, &slashes)
    } else {
        false
    }
}

/// Normalise a label written in `package` to its absolute form.
///
/// Handled: `//pkg:target`, `//:target`, `//pkg` (shorthand for
/// `//pkg:<last component>`), `:target`, and a bare `target`; `@//` and `@@//`
/// name the main repository explicitly. Refused: any other repository, every
/// target pattern (`...`, `:all`, `:*`, `:all-targets`), and any string with
/// whitespace in it.
pub fn parse_label(raw: &str, package: Option<&str>) -> (label: Option<Label>)
    ensures
        (match spec_parse_label(raw@, opt_view(package)) {
            Some((p, n)) => label matches Some(l) && l.package@ == p && l.name@ == n,
            None => label is None,
        }),
{
    let all = chars_of(raw);
    if is_external_chars(&all) {
        return None;
    }
    let at2 = ['@', '@'];
    let at1 = ['@'];
    let slashes = ['/', '/'];
    let colon = [':'];
    let slash = ['/'];
    let dots = ['.', '.', '.'];
    let word_all = ['a', 'l', 'l'];
    let star = ['*'];
    let all_targets = ['a', 'l', 'l', '-', 't', 'a', 'r', 'g', 'e', 't', 's'];
    assert(at2@ =~= seq!['@', '@']);
    assert(at1@ =~= seq!['@']);
    assert(slashes@ =~= seq!['/', '/']);
    assert(colon@ =~= seq![':']);
    assert(slash@ =~= seq!['/']);
    assert(dots@ =~= seq!['.', '.', '.']);
    assert(word_all@ =~= seq!['a', 'l', 'l']);
    assert(star@ =~= seq!['*']);
    assert(all_targets@ =~= seq!['a', 'l', 'l', '-', 't', 'a', 'r', 'g', 'e', 't', 's']);
    let start: usize = if has_prefix(&all, &at2) {
        2
    } else if has_prefix(&all, &at1) {
        1
    } else {
        0
    };
    let r = sub_vec(&all, start, all.len());
    assert(r@ == without_repo_marker(raw@)) by {
        assert(all@.subrange(0, all@.len() as int) =~= all@);
    }
    if contains_chars(&r, &dots) {
        return None;
    }
    let (p, n): (Vec<char>, Vec<char>) = if has_prefix(&r, &slashes) {
        let rest = sub_vec(&r, 2, r.len());
        assert(rest@ =~= r@.skip(2));
        match find_char(&rest, ':') {
            Some(i) => {
                let p = sub_vec(&rest, 0, i);
                let n = sub_vec(&rest, i + 1, rest.len());
                assert(p@ =~= rest@.take(i as int));
                assert(n@ =~= rest@.skip(i + 1));
                (p, n)
            },
            None => {
                let n = match rfind_char(&rest, '/') {
                    Some(j) => {
                        let n = sub_vec(&rest, j + 1, rest.len());
                        assert(n@ =~= rest@.skip(j + 1));
                        n
                    },
                    None => {
                        let n = sub_vec(&rest, 0, rest.len());
                        assert(n@ =~= rest@);
                        n
                    },
                };
                let p = sub_vec(&rest, 0, rest.len());
                assert(p@ =~= rest@);
                (p, n)
            },
        }
    } else if has_prefix(&r, &colon) {
        match package {
            Some(pk) => {
                let n = sub_vec(&r, 1, r.len());
                assert(n@ =~= r@.skip(1));
                (chars_of(pk), n)
            },
            None => {
                return None;
            },
        }
    } else {
        if find_char(&r, ':').is_some() {
            return None;
        }
        match package {
            Some(pk) => {
                let n = sub_vec(&r, 0, r.len());
                assert(n@ =~= r@);
                (chars_of(pk), n)
            },
            None => {
                return None;
            },
        }
    };
    assert(split_label(r@, opt_view(package)) == Some((p@, n@)));
    if n.len() == 0 || has_prefix(&p, &slash) || has_suffix(&p, &slash) {
        return None;
    }
    if same_chars(&n, &word_all) || same_chars(&n, &star) || same_chars(&n, &all_targets) {
        return None;
    }
    if any_whitespace(&r) {
        return None;
    }
    Some(Label { package: string_of(&p), name: string_of(&n) })
}

} // verus!

verus! {

/// The make variables that take a label, per the Bazel documentation.
pub open spec fn takes_a_label(function: Seq<char>) -> bool {
    function == "location"@ || function == "locations"@ || function == "rootpath"@ || function
        == "rootpaths"@ || function == "execpath"@ || function == "execpaths"@ || function
        == "rlocationpath"@ || function == "rlocationpaths"@
}

/// The label inside a `$(function label)` expansion that opens at character
/// `open` of `text`, with the byte offset where the label starts: the
/// function is what precedes the first whitespace before the closing
/// parenthesis, and the label is the rest, trimmed. Padding after the
/// separator is skipped; the separator itself counts one byte.
pub open spec fn spec_expansion(text: Seq<char>, open: int) -> Option<(Seq<char>, int)> {
    let rest = text.skip(open + 2);
    match first_index_of(rest, ')') {
        None => None,
        Some(close) => {
            let inner = rest.take(close);
            match first_whitespace(inner) {
                None => None,
                Some(w) => {
                    let function = inner.take(w);
                    let argument = inner.skip(w + 1);
                    let label = trim(argument);
                    if !takes_a_label(function) || label.len() == 0 {
                        None
                    } else {
                        Some(
                            (
                                label,
                                (byte_width(text.take(open)) + 2 + byte_width(function) + 1
                                    + byte_width(argument.take(leading_whitespace(argument))))
                                    as int,
                            ),
                        )
                    }
                },
            }
        },
    }
}

/// What an expansion opening at character `at` contributes.
pub open spec fn expansion_here(text: Seq<char>, at: int) -> Seq<(Seq<char>, int)> {
    if occurs_at(text, seq!['$', '('], at) {
        match spec_expansion(text, at) {
            Some(found) => seq![found],
            None => Seq::empty(),
        }
    } else {
        Seq::empty()
    }
}

/// Every label inside an expansion that opens before character `end`, in
/// the order they are written.
pub open spec fn expansions_before(text: Seq<char>, end: nat) -> Seq<(Seq<char>, int)>
    decreases end,
{
    if end == 0 {
        Seq::empty()
    } else {
        expansions_before(text, (end - 1) as nat) + expansion_here(text, end - 1)
    }
}

/// The labels of every make-variable expansion in `text`.
pub open spec fn spec_make_variable_labels(text: Seq<char>) -> Seq<(Seq<char>, int)> {
    expansions_before(text, text.len())
}

/// The label of the expansion opening at character `open`, whose byte offset
/// is `open_bytes`.
fn expansion(cs: &[char], open: usize, open_bytes: usize) -> (found: Option<(String, usize)>)
    requires
        occurs_at(cs@, seq!['$', '('], open as int),
        open_bytes == byte_width(cs@.take(open as int)),
        byte_width(cs@) <= usize::MAX,
    ensures
        (match spec_expansion(cs@, open as int) {
            Some((label, at)) => found matches Some((l, a)) && l@ == label && a == at,
            None => found is None,
        }),
{
    let n = cs.len();
    assert(open + 2 <= n);
    let rest = sub_vec(cs, open + 2, n);
    assert(rest@ =~= cs@.skip(open + 2));
    let close = match find_char(&rest, ')') {
        Some(close) => close,
        None => {
            return None;
        },
    };
    let inner = sub_vec(&rest, 0, close);
    assert(inner@ =~= rest@.take(close as int));
    let w = match find_whitespace(&inner) {
        Some(w) => w,
        None => {
            return None;
        },
    };
    let function = sub_vec(&inner, 0, w);
    let argument = sub_vec(&inner, w + 1, inner.len());
    assert(function@ =~= inner@.take(w as int));
    assert(argument@ =~= inner@.skip(w + 1));
    let names = [
        chars_of("location"),
        chars_of("locations"),
        chars_of("rootpath"),
        chars_of("rootpaths"),
        chars_of("execpath"),
        chars_of("execpaths"),
        chars_of("rlocationpath"),
        chars_of("rlocationpaths"),
    ];
    let known = same_chars(&function, &names[0]) || same_chars(&function, &names[1])
        || same_chars(&function, &names[2]) || same_chars(&function, &names[3]) || same_chars(
        &function,
        &names[4],
    ) || same_chars(&function, &names[5]) || same_chars(&function, &names[6]) || same_chars(
        &function,
        &names[7],
    );
    if !known {
        return None;
    }
    let lead = count_leading_whitespace(&argument);
    let label = trim_chars(&argument);
    if label.len() == 0 {
        return None;
    }
    proof {
        // The pieces of `cs` before the label fit in its width.
        lemma_byte_width_split(cs@, open as int);
        let after = cs@.skip(open as int);
        assert(after =~= seq!['$', '('] + rest@) by {
            assert(cs@.subrange(open as int, open + 2) == seq!['$', '(']);
            assert(after[0] == cs@[open as int]);
            assert(after[1] == cs@[open + 1]);
            assert(after.take(2) =~= seq!['$', '(']);
            assert(after =~= after.take(2) + after.skip(2));
        }
        lemma_encode_utf8_add(seq!['$', '('], rest@);
        lemma_byte_width_split(rest@, close as int);
        lemma_byte_width_split(inner@, w as int);
        let tail = inner@.skip(w as int);
        assert(tail =~= seq![inner@[w as int]] + argument@);
        lemma_encode_utf8_add(seq![inner@[w as int]], argument@);
        lemma_byte_width_single(inner@[w as int]);
        lemma_byte_width_split(argument@, lead as int);
        assert(byte_width(seq!['$', '(']) == 2) by {
            lemma_byte_width_push(seq!['$'], '(');
            lemma_byte_width_single('$');
            assert(seq!['$'].push('(') =~= seq!['$', '(']);
        }
    }
    let function_bytes = byte_len_prefix(&function, function.len());
    let padding = byte_len_prefix(&argument, lead);
    assert(function@.take(function.len() as int) =~= function@);
    Some((string_of(&label), open_bytes + 2 + function_bytes + 1 + padding))
}

/// Labels inside `$(location …)` and its siblings, with their byte offsets in
/// the string: the one place Bazel reads a label out of a string that is not
/// itself a label.
pub fn make_variable_labels(text: &str) -> (found: Vec<(String, usize)>)
    requires
        byte_width(text@) <= usize::MAX,
    ensures
        found@.len() == spec_make_variable_labels(text@).len(),
        forall|i: int|
            0 <= i < found@.len() ==> found@[i].0@ == (#[trigger] spec_make_variable_labels(
                text@,
            )[i]).0 && found@[i].1 == spec_make_variable_labels(text@)[i].1,
{
    let cs = chars_of(text);
    let opener = ['$', '('];
    assert(opener@ =~= seq!['$', '(']);
    let mut found: Vec<(String, usize)> = Vec::new();
    let mut at: usize = 0;
    let mut at_bytes: usize = 0;
    assert(cs@.take(0) =~= Seq::<char>::empty());
    while at < cs.len()
        invariant
            at <= cs.len(),
            cs@ == text@,
            opener@ == seq!['$', '('],
            byte_width(cs@) <= usize::MAX,
            at_bytes == byte_width(cs@.take(at as int)),
            found@.len() == expansions_before(cs@, at as nat).len(),
            forall|i: int|
                0 <= i < found@.len() ==> found@[i].0@ == (#[trigger] expansions_before(
                    cs@,
                    at as nat,
                )[i]).0 && found@[i].1 == expansions_before(cs@, at as nat)[i].1,
        decreases cs.len() - at,
    {
        let ghost before = found@;
        let opens = has_prefix_at(&cs, at, &opener);
        assert(opens == occurs_at(cs@, seq!['$', '('], at as int)) by {
            if at + 2 <= cs.len() {
                assert(cs@.skip(at as int).take(2) =~= cs@.subrange(at as int, at + 2));
            }
        }
        if opens {
            match expansion(&cs, at, at_bytes) {
                Some(pair) => {
                    found.push(pair);
                },
                None => {},
            }
        }
        proof {
            lemma_byte_width_take(cs@, at as int);
            lemma_byte_width_prefix_le(cs@, at + 1);
        }
        at_bytes = at_bytes + char_len_utf8(cs[at]);
        at = at + 1;
        assert forall|i: int| 0 <= i < found@.len() implies found@[i].0@ == (
        #[trigger] expansions_before(cs@, at as nat)[i]).0 && found@[i].1 == expansions_before(
            cs@,
            at as nat,
        )[i].1 by {
            assert(expansions_before(cs@, at as nat) == expansions_before(cs@, (at - 1) as nat)
                + expansion_here(cs@, at - 1));
            if i < before.len() {
                assert(found@[i] == before[i]);
            }
        }
    }
    found
}

/// The name a label resolves to, or nothing.
pub open spec fn parsed_name(raw: Seq<char>, package: Option<Seq<char>>) -> Seq<char> {
    match spec_parse_label(raw, package) {
        Some((_, n)) => n,
        None => Seq::empty(),
    }
}

/// What a rename rests on: the name is the tail of the label, whichever
/// form it was written in.
pub proof fn the_name_is_the_tail_of_the_label(raw: Seq<char>, package: Option<Seq<char>>)
    requires
        spec_parse_label(raw, package) is Some,
    ensures
        ends_with(raw, parsed_name(raw, package)),
{
    let r = without_repo_marker(raw);
    assert(ends_with(raw, r)) by {
        if starts_with(raw, seq!['@', '@']) {
            crate::text::lemma_skip_ends(raw, 2);
        } else if starts_with(raw, seq!['@']) {
            crate::text::lemma_skip_ends(raw, 1);
        } else {
            crate::text::lemma_skip_ends(raw, 0);
            assert(raw.skip(0) =~= raw);
        }
    }
    let n = parsed_name(raw, package);
    assert(ends_with(r, n)) by {
        if starts_with(r, seq!['/', '/']) {
            let rest = r.skip(2);
            crate::text::lemma_skip_ends(r, 2);
            if rest.contains(':') {
                crate::text::lemma_first_index(rest, ':');
                let i = first_index_of(rest, ':')->0;
                crate::text::lemma_skip_ends(rest, i + 1);
                crate::text::lemma_ends_with_trans(r, rest, rest.skip(i + 1));
            } else if rest.contains('/') {
                crate::text::lemma_last_index(rest, '/');
                let i = last_index_of(rest, '/')->0;
                crate::text::lemma_skip_ends(rest, i + 1);
                crate::text::lemma_ends_with_trans(r, rest, rest.skip(i + 1));
            } else {
                assert(n == rest);
            }
        } else if starts_with(r, seq![':']) {
            crate::text::lemma_skip_ends(r, 1);
        } else {
            crate::text::lemma_skip_ends(r, 0);
            assert(r.skip(0) =~= r);
        }
    }
    crate::text::lemma_ends_with_trans(raw, r, n);
}

/// The package a label resolves to, or nothing.
pub open spec fn parsed_package(raw: Seq<char>, package: Option<Seq<char>>) -> Seq<char> {
    match spec_parse_label(raw, package) {
        Some((p, _)) => p,
        None => Seq::empty(),
    }
}

/// Absolute labels are already keys: `//pkg:name` resolves to the label
/// whose key it is, character for character.
pub proof fn absolute_labels_are_already_keys(raw: Seq<char>, package: Option<Seq<char>>)
    requires
        starts_with(raw, seq!['/', '/']),
        raw.skip(2).contains(':'),
        spec_parse_label(raw, package) is Some,
    ensures
        spec_key(parsed_package(raw, package), parsed_name(raw, package)) == raw,
{
    assert(after_repo_marker(raw) is None);
    let rest = raw.skip(2);
    crate::text::lemma_first_index(rest, ':');
    let i = first_index_of(rest, ':')->0;
    assert(parsed_package(raw, package) == rest.take(i));
    assert(parsed_name(raw, package) == rest.skip(i + 1));
    assert(seq!['/', '/'] + rest.take(i) + seq![':'] + rest.skip(i + 1) =~= raw);
}

/// A key names its own label: `//pkg:name` parses back to the package and
/// name it was made of, wherever it is written, when the package has no
/// colon and no slash at either end, and the name is a real one.
pub proof fn a_key_parses_back_to_its_label(package: Seq<char>, name: Seq<char>, written_in: Option<Seq<char>>)
    requires
        name.len() > 0,
        !package.contains(':'),
        !starts_with(package, seq!['/']),
        !ends_with(package, seq!['/']),
        !is_pattern_name(name),
        !contains_seq(spec_key(package, name), seq!['.', '.', '.']),
        !has_whitespace(spec_key(package, name)),
    ensures
        spec_parse_label(spec_key(package, name), written_in) == Some((package, name)),
{
    let raw = spec_key(package, name);
    assert(raw[0] == '/');
    assert(raw.take(1)[0] == '/');
    assert(raw.take(2)[0] == '/');
    assert(!starts_with(raw, seq!['@']));
    assert(!starts_with(raw, seq!['@', '@']));
    assert(starts_with(raw, seq!['/', '/'])) by {
        assert(raw.take(2) =~= seq!['/', '/']);
    }
    let rest = raw.skip(2);
    assert(rest =~= package + seq![':'] + name);
    assert(rest[package.len() as int] == ':');
    assert(rest.contains(':'));
    crate::text::lemma_first_index(rest, ':');
    let i = first_index_of(rest, ':')->0;
    assert(i == package.len()) by {
        if i < package.len() {
            assert(package[i] == rest[i]);
        }
    }
    assert(rest.take(i) =~= package);
    assert(rest.skip(i + 1) =~= name);
}

/// A label's name is the tail of its bytes too: the name's bytes are the
/// last bytes of the label, so a rename rewrites from there.
pub proof fn the_name_is_the_byte_tail_of_the_label(raw: Seq<char>, package: Option<Seq<char>>)
    requires
        spec_parse_label(raw, package) is Some,
    ensures
        encode_utf8(parsed_name(raw, package)).len() <= encode_utf8(raw).len(),
        encode_utf8(raw).skip(encode_utf8(raw).len() - encode_utf8(parsed_name(raw, package)).len())
            == encode_utf8(parsed_name(raw, package)),
{
    the_name_is_the_tail_of_the_label(raw, package);
    let n = parsed_name(raw, package);
    let head = raw.take(raw.len() - n.len());
    assert(raw =~= head + n);
    crate::text::lemma_encode_utf8_add(head, n);
    assert(encode_utf8(raw).skip(encode_utf8(head).len() as int) =~= encode_utf8(n));
}

/// What every label that parses is: of the main repository, with no `...`
/// and no whitespace after its repository marker, a real name that ends
/// the label, a package with no slash at either end, and either absolute
/// or resolved in the package it is written in.
pub proof fn what_a_parsed_label_is(raw: Seq<char>, package: Option<Seq<char>>)
    requires
        spec_parse_label(raw, package) is Some,
    ensures
        ({
            let (p, n) = spec_parse_label(raw, package)->0;
            let r = without_repo_marker(raw);
            &&& !spec_is_external(raw)
            &&& !contains_seq(r, seq!['.', '.', '.'])
            &&& !has_whitespace(r)
            &&& n.len() > 0
            &&& !is_pattern_name(n)
            &&& !starts_with(p, seq!['/'])
            &&& !ends_with(p, seq!['/'])
            &&& ends_with(raw, n)
            &&& (starts_with(r, seq!['/', '/']) || package == Some(p))
        }),
{
    the_name_is_the_tail_of_the_label(raw, package);
}

} // verus!

verus! {

/// The label `label` of an expansion found at byte `at` stands in `text`
/// thus: `$(` at character `open`, then a function that takes a label
/// (`w` characters), one or more whitespace characters, and the label at
/// character `q`. The label is nonempty, holds no `)` and is trimmed; `at`
/// counts the separator after the function as one byte, and so is the
/// label's byte offset whenever that separator is one byte wide; it lies
/// past the `$(` and not past the label.
pub open spec fn label_site(text: Seq<char>, open: int, w: int, q: int, label: Seq<char>, at: int) -> bool {
    &&& occurs_at(text, seq!['$', '('], open)
    &&& 0 < w
    &&& open + 2 + w < q
    &&& q + label.len() <= text.len()
    &&& takes_a_label(text.subrange(open + 2, open + 2 + w))
    &&& forall|m: int| open + 2 + w <= m < q ==> crate::text::is_whitespace(#[trigger] text[m])
    &&& text.subrange(q, q + label.len()) == label
    &&& label.len() > 0
    &&& !label.contains(')')
    &&& !crate::text::is_whitespace(label[0])
    &&& !crate::text::is_whitespace(label.last())
    &&& at == byte_width(text.take(open + 2 + w)) + 1 + byte_width(text.subrange(open + 3 + w, q))
    &&& (crate::text::char_width(text[open + 2 + w]) == 1 ==> at == byte_width(text.take(q)))
    &&& byte_width(text.take(open)) < at <= byte_width(text.take(q))
}

/// `label`, found at byte `at`, stands in an expansion of `text` as
/// [`label_site`] describes.
pub open spec fn stands_in_an_expansion(text: Seq<char>, label: Seq<char>, at: int) -> bool {
    exists|open: int, w: int, q: int| #[trigger] label_site(text, open, w, q, label, at)
}

/// As [`stands_in_an_expansion`], with the expansion opening before
/// character `end`.
pub open spec fn stands_before(text: Seq<char>, label: Seq<char>, at: int, end: int) -> bool {
    exists|open: int, w: int, q: int| open < end && #[trigger] label_site(text, open, w, q, label, at)
}

/// A function that takes a label is spelt in lower-case letters.
proof fn lemma_function_letters(f: Seq<char>)
    requires
        takes_a_label(f),
    ensures
        f.len() > 0,
        forall|m: int| 0 <= m < f.len() ==> 'a' <= #[trigger] f[m] <= 'z',
{
    reveal_strlit("location");
    reveal_strlit("locations");
    reveal_strlit("rootpath");
    reveal_strlit("rootpaths");
    reveal_strlit("execpath");
    reveal_strlit("execpaths");
    reveal_strlit("rlocationpath");
    reveal_strlit("rlocationpaths");
}


/// The leading whitespace of `s` is well defined.
proof fn lemma_leading_whitespace(s: Seq<char>)
    ensures
        crate::text::is_leading_whitespace(s, leading_whitespace(s)),
    decreases s.len(),
{
    if s.len() == 0 || !crate::text::is_whitespace(s[0]) {
        assert(crate::text::is_leading_whitespace(s, 0));
    } else {
        let t = s.drop_first();
        lemma_leading_whitespace(t);
        let n = leading_whitespace(t);
        assert forall|j: int| 0 <= j < n + 1 implies crate::text::is_whitespace(s[j]) by {
            if j > 0 {
                assert(s[j] == t[j - 1]);
            }
        }
        if n + 1 < s.len() {
            assert(s[n + 1] == t[n]);
        }
        assert(crate::text::is_leading_whitespace(s, n + 1));
    }
}

/// The trailing whitespace of `s` is well defined.
proof fn lemma_trailing_whitespace(s: Seq<char>)
    ensures
        crate::text::is_trailing_whitespace(s, crate::text::trailing_whitespace(s)),
    decreases s.len(),
{
    if s.len() == 0 || !crate::text::is_whitespace(s.last()) {
        assert(crate::text::is_trailing_whitespace(s, 0));
    } else {
        let t = s.drop_last();
        lemma_trailing_whitespace(t);
        let n = crate::text::trailing_whitespace(t);
        assert forall|j: int| s.len() - (n + 1) <= j < s.len() implies crate::text::is_whitespace(s[j]) by {
            if j < s.len() - 1 {
                assert(s[j] == t[j]);
            }
        }
        if n + 1 < s.len() {
            assert(s[s.len() - (n + 1) - 1] == t[t.len() - n - 1]);
        }
        assert(crate::text::is_trailing_whitespace(s, n + 1));
    }
}

/// The first whitespace of `s`, when there is one, is well defined.
proof fn lemma_first_whitespace(s: Seq<char>)
    requires
        has_whitespace(s),
    ensures
        first_whitespace(s) matches Some(i) && crate::text::is_first_whitespace(s, i),
    decreases s.len(),
{
    if crate::text::is_whitespace(s[0]) {
        assert(crate::text::is_first_whitespace(s, 0));
    } else {
        let t = s.drop_first();
        let k = choose|k: int| 0 <= k < s.len() && crate::text::is_whitespace(#[trigger] s[k]);
        assert(t[k - 1] == s[k]);
        lemma_first_whitespace(t);
        let i = first_whitespace(t)->0;
        assert forall|j: int| 0 <= j < i + 1 implies !crate::text::is_whitespace(s[j]) by {
            if j > 0 {
                assert(s[j] == t[j - 1]);
            }
        }
        assert(s[i + 1] == t[i]);
        assert(crate::text::is_first_whitespace(s, i + 1));
    }
}

/// The label of an expansion that opens at `open` stands in `text` as
/// [`label_site`] describes.
proof fn lemma_expansion_site(text: Seq<char>, open: int)
    requires
        occurs_at(text, seq!['$', '('], open),
        spec_expansion(text, open) is Some,
    ensures
        exists|w: int, q: int|
            label_site(text, open, w, q, (spec_expansion(text, open)->0).0, (spec_expansion(text, open)->0).1),
{
    let rest = text.skip(open + 2);
    crate::text::lemma_first_index(rest, ')');
    let close = first_index_of(rest, ')')->0;
    let inner = rest.take(close);
    lemma_first_whitespace(inner);
    let w = first_whitespace(inner)->0;
    let function = inner.take(w);
    let argument = inner.skip(w + 1);
    lemma_function_letters(function);
    lemma_leading_whitespace(argument);
    lemma_trailing_whitespace(argument);
    let lead = leading_whitespace(argument);
    let trail = crate::text::trailing_whitespace(argument);
    let label = trim(argument);
    let at = (spec_expansion(text, open)->0).1;
    assert(label == (spec_expansion(text, open)->0).0);
    assert(lead < argument.len());
    assert(trail < argument.len() - lead) by {
        if trail >= argument.len() - lead {
            assert(crate::text::is_whitespace(argument[lead]));
        }
    }
    let q = open + 3 + w + lead;
    assert(forall|j: int| 0 <= j < argument.len() ==> argument[j] == text[open + 3 + w + j]);
    assert(forall|j: int| 0 <= j < inner.len() ==> inner[j] == text[open + 2 + j]);
    assert(text.subrange(q, q + label.len()) =~= label);
    assert(text.subrange(open + 2, open + 2 + w) =~= function);
    assert forall|m: int| open + 2 + w <= m < q implies crate::text::is_whitespace(#[trigger] text[m]) by {
        if m > open + 2 + w {
            assert(text[m] == argument[m - open - 3 - w]);
        } else {
            assert(text[m] == inner[w]);
        }
    }
    assert(!label.contains(')')) by {
        if label.contains(')') {
            let j = choose|j: int| 0 <= j < label.len() && label[j] == ')';
            assert(label[j] == rest[w + 1 + lead + j]);
        }
    }
    assert(label[0] == argument[lead]);
    assert(label.last() == argument[argument.len() - trail - 1]);
    let dollar = seq!['$', '('];
    assert(text.take(open + 2 + w) =~= text.take(open) + dollar + function);
    lemma_encode_utf8_add(text.take(open) + dollar, function);
    lemma_encode_utf8_add(text.take(open), dollar);
    assert(dollar =~= seq!['$'] + seq!['(']);
    lemma_encode_utf8_add(seq!['$'], seq!['(']);
    lemma_byte_width_single('$');
    lemma_byte_width_single('(');
    assert(text.subrange(open + 3 + w, q) =~= argument.take(lead));
    let sep = text[open + 2 + w];
    assert(text.take(q) =~= text.take(open + 2 + w) + seq![sep] + argument.take(lead));
    lemma_encode_utf8_add(text.take(open + 2 + w) + seq![sep], argument.take(lead));
    lemma_encode_utf8_add(text.take(open + 2 + w), seq![sep]);
    lemma_byte_width_single(sep);
    assert(label_site(text, open, w, q, label, at));
}

/// An expansion's label ends no later than the next `$(` after its own.
proof fn lemma_site_ends_before(text: Seq<char>, open: int, w: int, q: int, label: Seq<char>, at: int, o: int)
    requires
        label_site(text, open, w, q, label, at),
        open < o,
        occurs_at(text, seq!['$', '('], o),
    ensures
        at <= byte_width(text.take(o)),
{
    assert(q <= o) by {
        if q > o {
            assert(text[o] == '$') by {
                assert(text.subrange(o, o + 2)[0] == text[o]);
            }
            if o == open + 1 {
                assert(text.subrange(open, open + 2)[1] == text[o]);
            } else if o < open + 2 + w {
                lemma_function_letters(text.subrange(open + 2, open + 2 + w));
                assert(text.subrange(open + 2, open + 2 + w)[o - open - 2] == text[o]);
            } else {
                assert(crate::text::is_whitespace(text[o]));
            }
        }
    }
    assert(text.take(o).take(q) =~= text.take(q));
    lemma_byte_width_prefix_le(text.take(o), q);
}

/// Every expansion label found before character `end` stands where
/// [`label_site`] says, at an opening before `end`, and their offsets rise.
proof fn lemma_expansion_sites(text: Seq<char>, end: nat)
    requires
        end <= text.len(),
    ensures
        forall|k: int|
            0 <= k < expansions_before(text, end).len() ==> stands_before(
                text,
                (#[trigger] expansions_before(text, end)[k]).0,
                expansions_before(text, end)[k].1,
                end as int,
            ),
        forall|a: int, b: int|
            0 <= a < b < expansions_before(text, end).len() ==> (#[trigger] expansions_before(text, end)[a]).1
                < (#[trigger] expansions_before(text, end)[b]).1,
    decreases end,
{
    if end > 0 {
        let o = end - 1;
        lemma_expansion_sites(text, o as nat);
        let before = expansions_before(text, o as nat);
        let here = expansion_here(text, o);
        let all = expansions_before(text, end);
        assert(all == before + here);
        assert forall|k: int| 0 <= k < before.len() implies all[k] == before[k] by {}
        if here.len() == 0 {
            assert(all =~= before);
            assert forall|k: int| 0 <= k < all.len() implies stands_before(text, (#[trigger] all[k]).0, all[k].1, end as int) by {
                assert(stands_before(text, before[k].0, before[k].1, o));
                let (open, w, q) = choose|open: int, w: int, q: int|
                    open < o && #[trigger] label_site(text, open, w, q, before[k].0, before[k].1);
                assert(open < end && label_site(text, open, w, q, all[k].0, all[k].1));
            }
        } else {
            lemma_expansion_site(text, o);
            let found = spec_expansion(text, o)->0;
            assert(here == seq![found]);
            assert(all[before.len() as int] == found);
            assert(stands_in_an_expansion(text, found.0, found.1));
            let (w1, q1) = choose|w: int, q: int| label_site(text, o, w, q, found.0, found.1);
            let o1 = o;
            assert(label_site(text, o1, w1, q1, found.0, found.1));
            assert forall|k: int| 0 <= k < all.len() implies stands_before(text, (#[trigger] all[k]).0, all[k].1, end as int) by {
                if k < before.len() {
                    assert(stands_before(text, before[k].0, before[k].1, o));
                    let (open, w, q) = choose|open: int, w: int, q: int|
                        open < o && #[trigger] label_site(text, open, w, q, before[k].0, before[k].1);
                    assert(open < end && label_site(text, open, w, q, all[k].0, all[k].1));
                } else {
                    assert(o1 < end && label_site(text, o1, w1, q1, all[k].0, all[k].1));
                }
            }
            assert forall|k: int| 0 <= k < before.len() implies (#[trigger] before[k]).1 < found.1 by {
                assert(stands_before(text, before[k].0, before[k].1, o));
                let (open, w, q) = choose|open: int, w: int, q: int|
                    open < o && #[trigger] label_site(text, open, w, q, before[k].0, before[k].1);
                lemma_site_ends_before(text, open, w, q, before[k].0, before[k].1, o);
            }
            assert forall|a: int, b: int| 0 <= a < b < all.len() implies (#[trigger] all[a]).1 < (#[trigger] all[b]).1 by {
                if b < before.len() {
                    assert(before[a].1 < before[b].1);
                } else {
                    assert(before[a].1 < found.1);
                }
            }
        }
    }
}

/// Every label that [`make_variable_labels`] finds stands inside a
/// `$(function label)` expansion whose function takes a label: it is
/// nonempty, holds no `)`, has no whitespace at either end, and its offset
/// is where it starts, counting the separator after the function as one
/// byte. The offsets rise strictly, in the order the labels are written.
pub proof fn what_an_expansion_label_is(text: Seq<char>)
    ensures
        forall|k: int|
            0 <= k < spec_make_variable_labels(text).len() ==> stands_in_an_expansion(
                text,
                (#[trigger] spec_make_variable_labels(text)[k]).0,
                spec_make_variable_labels(text)[k].1,
            ),
        forall|a: int, b: int|
            0 <= a < b < spec_make_variable_labels(text).len() ==> (#[trigger] spec_make_variable_labels(
                text,
            )[a]).1 < (#[trigger] spec_make_variable_labels(text)[b]).1,
{
    lemma_expansion_sites(text, text.len());
    let all = spec_make_variable_labels(text);
    assert forall|k: int| 0 <= k < all.len() implies stands_in_an_expansion(text, (#[trigger] all[k]).0, all[k].1) by {
        assert(stands_before(text, all[k].0, all[k].1, text.len() as int));
        let (open, w, q) = choose|open: int, w: int, q: int|
            open < text.len() && #[trigger] label_site(text, open, w, q, all[k].0, all[k].1);
        assert(label_site(text, open, w, q, all[k].0, all[k].1));
    }
}

} // verus!

verus! {

/// A run of ASCII characters is as many bytes wide as it is long.
proof fn lemma_ascii_width(s: Seq<char>)
    requires
        forall|i: int| 0 <= i < s.len() ==> (#[trigger] s[i] as u32) <= 0x7F,
    ensures
        byte_width(s) == s.len(),
    decreases s.len(),
{
    if s.len() > 0 {
        let front = s.drop_last();
        assert forall|i: int| 0 <= i < front.len() implies (#[trigger] front[i] as u32) <= 0x7F by {
            assert(front[i] == s[i]);
        }
        lemma_ascii_width(front);
        assert(front.push(s.last()) =~= s);
        lemma_byte_width_push(front, s.last());
    } else {
        assert(encode_utf8(s) =~= Seq::<u8>::empty());
    }
}

/// With no `$(` opening after the first character, the expansions of a
/// text are those opening at its start.
proof fn lemma_only_the_first_opens(text: Seq<char>, end: nat)
    requires
        1 <= end <= text.len(),
        forall|p: int| 1 <= p < text.len() ==> #[trigger] text[p] != '$',
    ensures
        expansions_before(text, end) == expansion_here(text, 0),
    decreases end,
{
    if end == 1 {
        assert(expansions_before(text, 0) =~= Seq::<(Seq<char>, int)>::empty());
        assert(Seq::<(Seq<char>, int)>::empty() + expansion_here(text, 0) =~= expansion_here(text, 0));
    } else {
        lemma_only_the_first_opens(text, (end - 1) as nat);
        let p = end - 1;
        if occurs_at(text, seq!['$', '('], p) {
            assert(text.subrange(p, p + 2)[0] == text[p]);
        }
        assert(expansion_here(text, p) =~= Seq::<(Seq<char>, int)>::empty());
        assert(expansion_here(text, 0) + Seq::<(Seq<char>, int)>::empty() =~= expansion_here(text, 0));
    }
}

/// The expansions of `$(f L)`: `L` at the byte offset where it starts when
/// `f` takes a label, and nothing otherwise.
proof fn lemma_single_expansion(f: Seq<char>, label: Seq<char>)
    requires
        f.len() > 0,
        forall|i: int|
            0 <= i < f.len() ==> !crate::text::is_whitespace(#[trigger] f[i]) && f[i] != ')' && f[i] != '$',
        label.len() > 0,
        forall|i: int|
            0 <= i < label.len() ==> !crate::text::is_whitespace(#[trigger] label[i]) && label[i] != ')' && label[i]
                != '$',
    ensures
        spec_make_variable_labels(seq!['$', '('] + f + seq![' '] + label + seq![')']) == if takes_a_label(f) {
            seq![(label, byte_width(f) + 3int)]
        } else {
            Seq::<(Seq<char>, int)>::empty()
        },
{
    let n = f.len() as int;
    let text = seq!['$', '('] + f + seq![' '] + label + seq![')'];
    assert(text.len() == n + label.len() + 4);
    assert forall|j: int| 0 <= j < n implies text[2 + j] == f[j] by {}
    assert(text[2 + n] == ' ');
    assert forall|j: int| 0 <= j < label.len() implies text[3 + n + j] == label[j] by {}
    assert(text[text.len() - 1] == ')');
    assert forall|p: int| 1 <= p < text.len() implies #[trigger] text[p] != '$' by {
        if p == 1 {
        } else if p < 2 + n {
            assert(text[2 + (p - 2)] == f[p - 2]);
        } else if p == 2 + n {
        } else if p < text.len() - 1 {
            assert(text[3 + n + (p - 3 - n)] == label[p - 3 - n]);
        }
    }
    lemma_only_the_first_opens(text, text.len());
    assert(text.subrange(0, 2) =~= seq!['$', '(']);
    let rest = text.skip(2);
    assert(rest =~= f + seq![' '] + label + seq![')']);
    let close = n + 1 + label.len();
    assert(rest[close] == ')');
    crate::text::lemma_first_index(rest, ')');
    let i = first_index_of(rest, ')')->0;
    assert(i == close) by {
        if i < n {
            assert(rest[i] == f[i]);
        } else if i == n {
        } else if i < close {
            assert(rest[i] == label[i - n - 1]);
        }
    }
    let inner = rest.take(close);
    assert(inner =~= f + seq![' '] + label);
    assert(crate::text::is_whitespace(inner[n]));
    assert(has_whitespace(inner));
    lemma_first_whitespace(inner);
    let w = first_whitespace(inner)->0;
    assert(w == n) by {
        if w < n {
            assert(inner[w] == f[w]);
        } else if w > n {
            assert(!crate::text::is_whitespace(inner[n]));
        }
    }
    let function = inner.take(w);
    let argument = inner.skip(w + 1);
    assert(function =~= f);
    assert(argument =~= label);
    lemma_leading_whitespace(argument);
    lemma_trailing_whitespace(argument);
    let lead = leading_whitespace(argument);
    let trail = crate::text::trailing_whitespace(argument);
    if lead > 0 {
        assert(crate::text::is_whitespace(argument[0]));
    }
    if trail > 0 {
        assert(crate::text::is_whitespace(argument[argument.len() - 1]));
    }
    assert(trim(argument) =~= label);
    assert(text.take(0) =~= Seq::<char>::empty());
    assert(argument.take(0) =~= Seq::<char>::empty());
    assert(encode_utf8(Seq::<char>::empty()) =~= Seq::<u8>::empty());
    if takes_a_label(f) {
        assert(spec_expansion(text, 0) == Some((label, byte_width(f) + 3int)));
        assert(expansion_here(text, 0) =~= seq![(label, byte_width(f) + 3int)]);
    } else {
        assert(spec_expansion(text, 0) is None);
    }
}

/// Every make variable that takes a label finds it: `$(f L)`, for each of
/// `location`, `locations`, `rootpath`, `rootpaths`, `execpath`,
/// `execpaths`, `rlocationpath` and `rlocationpaths`, and a label `L` with
/// no whitespace, `)` or `$`, yields exactly `L`, at the byte offset where
/// it starts.
pub proof fn each_label_function_finds_its_label(f: Seq<char>, label: Seq<char>)
    requires
        seq![
            "location"@, "locations"@, "rootpath"@, "rootpaths"@, "execpath"@, "execpaths"@,
            "rlocationpath"@, "rlocationpaths"@,
        ].contains(f),
        label.len() > 0,
        forall|i: int|
            0 <= i < label.len() ==> !crate::text::is_whitespace(#[trigger] label[i]) && label[i] != ')' && label[i]
                != '$',
    ensures
        spec_make_variable_labels(seq!['$', '('] + f + seq![' '] + label + seq![')']) == seq![
            (label, f.len() + 3int),
        ],
{
    let names = seq![
        "location"@, "locations"@, "rootpath"@, "rootpaths"@, "execpath"@, "execpaths"@,
        "rlocationpath"@, "rlocationpaths"@,
    ];
    let k = choose|k: int| 0 <= k < names.len() && names[k] == f;
    assert(takes_a_label(f)) by {
        if k == 0 {
            assert(f == "location"@);
        } else if k == 1 {
            assert(f == "locations"@);
        } else if k == 2 {
            assert(f == "rootpath"@);
        } else if k == 3 {
            assert(f == "rootpaths"@);
        } else if k == 4 {
            assert(f == "execpath"@);
        } else if k == 5 {
            assert(f == "execpaths"@);
        } else if k == 6 {
            assert(f == "rlocationpath"@);
        } else {
            assert(f == "rlocationpaths"@);
        }
    }
    lemma_function_letters(f);
    assert forall|j: int| 0 <= j < f.len() implies (#[trigger] f[j] as u32) <= 0x7F by {
        assert('a' <= f[j] <= 'z');
    }
    lemma_ascii_width(f);
    lemma_single_expansion(f, label);
}

/// No other make variable finds a label: `$(f L)` yields nothing when `f`
/// is none of the eight functions that take one.
pub proof fn no_other_function_finds_a_label(f: Seq<char>, label: Seq<char>)
    requires
        !seq![
            "location"@, "locations"@, "rootpath"@, "rootpaths"@, "execpath"@, "execpaths"@,
            "rlocationpath"@, "rlocationpaths"@,
        ].contains(f),
        f.len() > 0,
        forall|i: int|
            0 <= i < f.len() ==> !crate::text::is_whitespace(#[trigger] f[i]) && f[i] != ')' && f[i] != '$',
        label.len() > 0,
        forall|i: int|
            0 <= i < label.len() ==> !crate::text::is_whitespace(#[trigger] label[i]) && label[i] != ')' && label[i]
                != '$',
    ensures
        spec_make_variable_labels(seq!['$', '('] + f + seq![' '] + label + seq![')']).len() == 0,
{
    let names = seq![
        "location"@, "locations"@, "rootpath"@, "rootpaths"@, "execpath"@, "execpaths"@,
        "rlocationpath"@, "rlocationpaths"@,
    ];
    if takes_a_label(f) {
        if f == "location"@ {
            assert(names[0] == f);
        } else if f == "locations"@ {
            assert(names[1] == f);
        } else if f == "rootpath"@ {
            assert(names[2] == f);
        } else if f == "rootpaths"@ {
            assert(names[3] == f);
        } else if f == "execpath"@ {
            assert(names[4] == f);
        } else if f == "execpaths"@ {
            assert(names[5] == f);
        } else if f == "rlocationpath"@ {
            assert(names[6] == f);
        } else {
            assert(names[7] == f);
        }
    }
    lemma_single_expansion(f, label);
}

} // verus!

verus! {

/// Target patterns are never labels: no label that parses is named `all`,
/// `*` or `all-targets`.
pub proof fn patterns_are_not_labels(raw: Seq<char>, package: Option<Seq<char>>)
    requires
        spec_parse_label(raw, package) is Some,
    ensures
        (spec_parse_label(raw, package)->0).1 != "all"@,
        (spec_parse_label(raw, package)->0).1 != "*"@,
        (spec_parse_label(raw, package)->0).1 != "all-targets"@,
{
    reveal_strlit("all");
    reveal_strlit("*");
    reveal_strlit("all-targets");
    assert("all"@ =~= seq!['a', 'l', 'l']);
    assert("*"@ =~= seq!['*']);
    assert("all-targets"@ =~= seq!['a', 'l', 'l', '-', 't', 'a', 'r', 'g', 'e', 't', 's']);
}

/// A relative label names a target of the package it is written in:
/// `:name` and a bare `name` both resolve to that package and that name,
/// when the name is a real one (not empty, no colon or whitespace, no
/// `...`, not a pattern, not opening with `/` or `@`) and the package has no
/// slash at either end. Outside any package neither is a label.
pub proof fn relative_labels_resolve_in_their_package(name: Seq<char>, package: Seq<char>)
    requires
        name.len() > 0,
        name[0] != '/' && name[0] != '@',
        forall|i: int| 0 <= i < name.len() ==> #[trigger] name[i] != ':' && !crate::text::is_whitespace(name[i]),
        !contains_seq(name, seq!['.', '.', '.']),
        name != "all"@ && name != "*"@ && name != "all-targets"@,
        package.len() == 0 || (package[0] != '/' && package[package.len() - 1] != '/'),
    ensures
        spec_parse_label(seq![':'] + name, Some(package)) == Some((package, name)),
        spec_parse_label(name, Some(package)) == Some((package, name)),
        spec_parse_label(seq![':'] + name, None) is None,
        spec_parse_label(name, None) is None,
{
    reveal_strlit("all");
    reveal_strlit("*");
    reveal_strlit("all-targets");
    assert("all"@ =~= seq!['a', 'l', 'l']);
    assert("*"@ =~= seq!['*']);
    assert("all-targets"@ =~= seq!['a', 'l', 'l', '-', 't', 'a', 'r', 'g', 'e', 't', 's']);
    let colon = seq![':'] + name;
    assert(colon[0] == ':');
    assert(colon.skip(1) =~= name);
    // Neither form carries a repository marker.
    if starts_with(colon, seq!['@']) {
        assert(colon.take(1)[0] == colon[0]);
    }
    if starts_with(colon, seq!['@', '@']) {
        assert(colon.take(2)[0] == colon[0]);
    }
    if starts_with(name, seq!['@']) {
        assert(name.take(1)[0] == name[0]);
    }
    if starts_with(name, seq!['@', '@']) {
        assert(name.take(2)[0] == name[0]);
    }
    if starts_with(colon, seq!['/', '/']) {
        assert(colon.take(2)[0] == colon[0]);
    }
    if starts_with(name, seq!['/', '/']) {
        assert(name.take(2)[0] == name[0]);
    }
    assert(colon.take(1) =~= seq![':']);
    assert(!name.contains(':'));
    assert(!contains_seq(colon, seq!['.', '.', '.'])) by {
        if contains_seq(colon, seq!['.', '.', '.']) {
            let at = choose|at: int| occurs_at(colon, seq!['.', '.', '.'], at);
            assert(colon.subrange(at, at + 3)[0] == colon[at]);
            assert(at >= 1);
            assert(colon.subrange(at, at + 3) =~= name.subrange(at - 1, at + 2));
            assert(occurs_at(name, seq!['.', '.', '.'], at - 1));
        }
    }
    assert(!has_whitespace(colon)) by {
        if has_whitespace(colon) {
            let i = choose|i: int| 0 <= i < colon.len() && crate::text::is_whitespace(#[trigger] colon[i]);
            assert(i >= 1);
            assert(colon[i] == name[i - 1]);
        }
    }
    assert(!has_whitespace(name)) by {
        if has_whitespace(name) {
            let i = choose|i: int| 0 <= i < name.len() && crate::text::is_whitespace(#[trigger] name[i]);
        }
    }
    if package.len() > 0 {
        if starts_with(package, seq!['/']) {
            assert(package.take(1)[0] == package[0]);
        }
        if ends_with(package, seq!['/']) {
            assert(package.skip(package.len() - 1)[0] == package[package.len() - 1]);
        }
    }
}

} // verus!
