//! Renaming the target under the cursor in a Starlark file, and every label
//! that names it.
//!
//! Only a declared target can be renamed, and only to a name Bazel could
//! load. Only the name is rewritten: `":srcs"` becomes `":sources"` and
//! `"//lib:srcs"` becomes `"//lib:sources"`, package and colon as the
//! author wrote them.

use vstd::prelude::*;
use crate::document::Document;
use crate::handlers::cursor::{
    enclosing_package, name_sites, possible_package, spec_name_sites, spec_string_at, spec_target_label, string_at,
    target_label, AtView, StringAt, StringSite,
};
use crate::handlers::references::{located, Located};
use crate::index::Index;
use crate::label::{opt_view, spec_key};
use crate::line_index::{text_offset, text_position};
use crate::text::{append, ends_with, starts_with, str_len};
use crate::uri::checked_file_uri;
use vstd::utf8::encode_utf8;

verus! {

/// Whether Bazel allows `c` in a target name: an ASCII letter or digit, or
/// one of `!%-@^_"#$&'()*-+,;<=>?[]{|}~/.`.
pub open spec fn name_char(c: char) -> bool {
    ('a' <= c <= 'z') || ('A' <= c <= 'Z') || ('0' <= c <= '9') || c == '!' || c == '%' || c == '-'
        || c == '@' || c == '^' || c == '_' || c == '"' || c == '#' || c == '$' || c == '&' || c
        == '\'' || c == '(' || c == ')' || c == '*' || c == '+' || c == ',' || c == ';' || c == '<'
        || c == '=' || c == '>' || c == '?' || c == '[' || c == ']' || c == '{' || c == '|' || c
        == '}' || c == '~' || c == '/' || c == '.'
}

/// Whether `name` is a target name Bazel could load: at least one
/// character, each allowed, neither starting nor ending with `/`.
pub open spec fn valid_name(name: Seq<char>) -> bool {
    name.len() > 0 && !starts_with(name, seq!['/']) && !ends_with(name, seq!['/']) && forall|i: int|
        0 <= i < name.len() ==> name_char(#[trigger] name[i])
}

/// A new name Bazel could not load.
#[derive(Debug, Clone, PartialEq, Eq)]
pub struct NameError {
    pub name: String,
}

/// What `{:?}` prints for a string: the text quoted, with quotes,
/// backslashes and control characters escaped.
pub uninterp spec fn debug_quoted(text: Seq<char>) -> Seq<char>;

/// `{:?}` on a string: the text quoted and escaped.
#[verifier::external_body]
fn quoted(text: &str) -> (q: String)
    ensures
        q@ == debug_quoted(text@),
{
    format!("{text:?}")
}

impl NameError {
    /// What the editor shows: the refused name and what a name may hold.
    pub fn message(&self) -> (text: String)
        ensures
            text@ == debug_quoted(self.name@)
                + " is not a Bazel target name: a name holds a-zA-Z0-9 and !%-@^_\"#$&'()*-+,;<=>?[]{|}~/., has no whitespace, has at least one character, and neither starts nor ends with /"@,
    {
        let mut text = quoted(self.name.as_str());
        append(
            &mut text,
            " is not a Bazel target name: a name holds a-zA-Z0-9 and !%-@^_\"#$&'()*-+,;<=>?[]{|}~/., has no whitespace, has at least one character, and neither starts nor ends with /",
        );
        text
    }
}

fn is_name_char(c: char) -> (b: bool)
    ensures
        b == name_char(c),
{
    ('a' <= c && c <= 'z') || ('A' <= c && c <= 'Z') || ('0' <= c && c <= '9') || c == '!' || c
        == '%' || c == '-' || c == '@' || c == '^' || c == '_' || c == '"' || c == '#' || c == '$'
        || c == '&' || c == '\'' || c == '(' || c == ')' || c == '*' || c == '+' || c == ',' || c
        == ';' || c == '<' || c == '=' || c == '>' || c == '?' || c == '[' || c == ']' || c == '{'
        || c == '|' || c == '}' || c == '~' || c == '/' || c == '.'
}

/// Refuse a name Bazel could not load.
pub fn validate_name(name: &str) -> (r: Result<(), NameError>)
    ensures
        r is Ok <==> valid_name(name@),
        r matches Err(e) ==> e.name@ == name@,
{
    let cs = crate::text::chars_of(name);
    let slash = ['/'];
    assert(slash@ =~= seq!['/']);
    let mut ok = cs.len() > 0 && !crate::text::has_prefix(&cs, &slash) && !crate::text::has_suffix(&cs, &slash);
    let mut i: usize = 0;
    while i < cs.len()
        invariant
            i <= cs@.len(),
            cs@ == name@,
            ok == (cs@.len() > 0 && !starts_with(cs@, seq!['/']) && !ends_with(cs@, seq!['/'])
                && forall|j: int| 0 <= j < i ==> name_char(#[trigger] cs@[j])),
        decreases cs.len() - i,
    {
        if !is_name_char(cs[i]) {
            ok = false;
        }
        i = i + 1;
    }
    if ok {
        Ok(())
    } else {
        Err(NameError { name: name.to_owned() })
    }
}

/// The byte range of the name under the cursor and the key of the target
/// it renames: only a target the index declares can be renamed, and the
/// name is the tail of the string that spells it.
pub open spec fn spec_renameable(index: &Index, found: AtView, package: Option<Seq<char>>) -> Option<
    (int, int, Seq<char>),
> {
    match spec_target_label(found, package) {
        None => None,
        Some((p, n)) => {
            let key = spec_key(p, n);
            let offset = if str_len(found.value) >= str_len(n) {
                str_len(found.value) - str_len(n)
            } else {
                0
            };
            if index.resolved(key) is None || offset > u32::MAX || found.start + offset > u32::MAX {
                None
            } else {
                Some((found.start + offset, found.end, key))
            }
        },
    }
}

/// The byte range of the name under the cursor and the key of the target
/// it renames.
pub fn renameable(found: &StringAt, package: Option<&str>, index: &Index) -> (r: Option<(u32, u32, String)>)
    ensures
        (match spec_renameable(index, found@, opt_view(package)) {
            Some((start, end, key)) => r matches Some(x) && x.0 == start && x.1 == end && x.2@ == key,
            None => r is None,
        }),
{
    let label = match target_label(found, package) {
        Some(label) => label,
        None => {
            return None;
        },
    };
    let key = label.key();
    if index.target(key.as_str()).is_none() {
        return None;
    }
    let offset = label.name_offset(found.value.as_str());
    if offset > u32::MAX as usize {
        return None;
    }
    let offset = offset as u32;
    if found.start > u32::MAX - offset {
        return None;
    }
    Some((found.start + offset, found.end, key))
}

/// Whether `range` is the range a rename of `found` would replace, as
/// positions in a buffer of bytes `bs`, given the package.
pub open spec fn prepare_answer(
    bs: Seq<u8>,
    index: &Index,
    found: AtView,
    package: Option<Seq<char>>,
    range: Option<((u32, u32), (u32, u32))>,
) -> bool {
    match spec_renameable(index, found, package) {
        Some((start, end, _)) => range == Some((text_position(bs, start), text_position(bs, end))),
        None => range is None,
    }
}

/// The range a rename would replace for a found string, as positions.
pub fn prepare_rename_at(
    document: &Document,
    found: &StringAt,
    package: Option<&str>,
    index: &Index,
) -> (range: Option<((u32, u32), (u32, u32))>)
    requires
        encode_utf8(document.text_view()).len() <= isize::MAX,
    ensures
        prepare_answer(encode_utf8(document.text_view()), index, found@, opt_view(package), range),
{
    match renameable(found, package, index) {
        Some((start, end, _)) => Some((document.position(start as usize), document.position(end as usize))),
        None => None,
    }
}

/// One edit of a rename: the name at a place in the file at `uri`, and the
/// text replacing it.
#[derive(Debug, PartialEq, Eq)]
pub struct Edit {
    pub at: Located,
    pub new_text: String,
}

/// The places a rename of a found string rewrites, when the string names a
/// declared target.
pub open spec fn spec_rename_sites(index: &Index, found: AtView, package: Option<Seq<char>>) -> Option<
    Seq<(Seq<char>, u32, u32, u32)>,
> {
    match spec_renameable(index, found, package) {
        None => None,
        Some((_, _, key)) => Some(located(spec_name_sites(index, key, true))),
    }
}

/// Rename the target a found string names to `new_name`: an error where the
/// name is one Bazel could not load, nothing where there is no declared
/// target to rename, and otherwise an edit at every place the target is
/// named.
pub fn rename_at(
    found: &StringAt,
    package: Option<&str>,
    index: &Index,
    new_name: &str,
) -> (r: Result<Option<Vec<Edit>>, NameError>)
    ensures
        r is Err <==> !valid_name(new_name@),
        r matches Err(e) ==> e.name@ == new_name@,
        valid_name(new_name@) ==> (match spec_rename_sites(index, found@, opt_view(package)) {
            None => r == Ok::<Option<Vec<Edit>>, NameError>(None),
            Some(places) => r matches Ok(Some(edits)) && edits@.len() == places.len() && forall|i: int|
                0 <= i < places.len() ==> (#[trigger] edits@[i]).new_text@ == new_name@
                    && crate::handlers::references::located_view(edits@[i].at) == places[i],
        }),
{
    match validate_name(new_name) {
        Err(e) => {
            return Err(e);
        },
        Ok(()) => {},
    }
    let key = match renameable(found, package, index) {
        Some((_, _, key)) => key,
        None => {
            return Ok(None);
        },
    };
    let sites = name_sites(index, key.as_str(), true);
    let ghost all = crate::handlers::cursor::sites_view(sites@);
    let mut edits: Vec<Edit> = Vec::new();
    let mut i: usize = 0;
    assert(all.take(0) =~= Seq::<crate::handlers::cursor::SiteView>::empty());
    while i < sites.len()
        invariant
            i <= sites@.len(),
            all == crate::handlers::cursor::sites_view(sites@),
            edits@.len() == located(all.take(i as int)).len(),
            forall|j: int|
                0 <= j < edits@.len() ==> (#[trigger] edits@[j]).new_text@ == new_name@
                    && crate::handlers::references::located_view(edits@[j].at) == located(
                    all.take(i as int),
                )[j],
        decreases sites.len() - i,
    {
        assert(all.take(i + 1).drop_last() =~= all.take(i as int));
        assert(all.take(i + 1).last() == sites@[i as int]@);
        let site = &sites[i];
        match checked_file_uri(site.file.as_str()) {
            Some(uri) => {
                let at = Located { uri, line: site.line, start: site.start, end: site.end };
                edits.push(Edit { at, new_text: new_name.to_owned() });
            },
            None => {},
        }
        i = i + 1;
    }
    assert(all.take(i as int) =~= all);
    Ok(Some(edits))
}

/// The range a rename at a zero-based line and UTF-16 column of a Starlark
/// buffer would replace, given its string literals and whether it is a
/// BUILD file: what [`prepare_rename_at`] gives for the string there, with
/// the package read from the disk. Nothing when the cursor is on no string.
pub fn prepare_rename(
    document: &Document,
    sites: &[StringSite],
    build_file: bool,
    root: &str,
    index: &Index,
    line: u32,
    character: u32,
) -> (range: Option<((u32, u32), (u32, u32))>)
    requires
        encode_utf8(document.text_view()).len() <= isize::MAX,
    ensures
        ({
            let offset = text_offset(encode_utf8(document.text_view()), line, character);
            &&& (offset > u32::MAX || spec_string_at(sites@, offset, build_file) is None) ==> range is None
            &&& (offset <= u32::MAX && spec_string_at(sites@, offset, build_file) is Some) ==> exists|
                package: Option<Seq<char>>,
            |
                possible_package(root@, document.path_view(), package) && #[trigger] prepare_answer(
                    encode_utf8(document.text_view()),
                    index,
                    spec_string_at(sites@, offset, build_file).unwrap(),
                    package,
                    range,
                )
        }),
{
    let offset = document.offset(line, character);
    if offset > u32::MAX as usize {
        return None;
    }
    let found = match string_at(sites, offset as u32, build_file) {
        Some(found) => found,
        None => {
            return None;
        },
    };
    let package = enclosing_package(root, document.path());
    let package = match &package {
        Some(p) => Some(p.as_str()),
        None => None,
    };
    let range = prepare_rename_at(document, &found, package, index);
    assert(possible_package(root@, document.path_view(), opt_view(package)));
    range
}

/// Rename the target under a zero-based line and UTF-16 column of a
/// Starlark buffer, given its string literals and whether it is a BUILD
/// file: what [`rename_at`] does for the string there, with the package
/// read from the disk. The name is checked first; with a loadable name and
/// the cursor on no string, there is nothing to rename.
pub fn rename(
    document: &Document,
    sites: &[StringSite],
    build_file: bool,
    root: &str,
    index: &Index,
    line: u32,
    character: u32,
    new_name: &str,
) -> (r: Result<Option<Vec<Edit>>, NameError>)
    requires
        encode_utf8(document.text_view()).len() <= isize::MAX,
    ensures
        r is Err <==> !valid_name(new_name@),
        r matches Err(e) ==> e.name@ == new_name@,
        ({
            let offset = text_offset(encode_utf8(document.text_view()), line, character);
            (valid_name(new_name@) && (offset > u32::MAX || spec_string_at(sites@, offset, build_file) is None))
                ==> r == Ok::<Option<Vec<Edit>>, NameError>(None)
        }),
{
    match validate_name(new_name) {
        Err(e) => {
            return Err(e);
        },
        Ok(()) => {},
    }
    let offset = document.offset(line, character);
    if offset > u32::MAX as usize {
        return Ok(None);
    }
    let found = match string_at(sites, offset as u32, build_file) {
        Some(found) => found,
        None => {
            return Ok(None);
        },
    };
    let package = enclosing_package(root, document.path());
    let package = match &package {
        Some(p) => Some(p.as_str()),
        None => None,
    };
    rename_at(&found, package, index, new_name)
}

} // verus!

verus! {

/// A character Bazel allows in a target name is an ASCII letter or digit,
/// or one of the listed punctuation.
proof fn lemma_name_char(c: char)
    ensures
        name_char(c) <==> (('a' <= c && c <= 'z') || ('A' <= c && c <= 'Z') || ('0' <= c && c <= '9')
            || "!%-@^_\"#$&'()*-+,;<=>?[]{|}~/."@.contains(c)),
{
    reveal_strlit("!%-@^_\"#$&'()*-+,;<=>?[]{|}~/.");
    let listed = "!%-@^_\"#$&'()*-+,;<=>?[]{|}~/."@;
    if name_char(c) && !(('a' <= c && c <= 'z') || ('A' <= c && c <= 'Z') || ('0' <= c && c <= '9')) {
        if c == '!' {
            assert(listed[0] == c);
        } else if c == '%' {
            assert(listed[1] == c);
        } else if c == '-' {
            assert(listed[2] == c);
        } else if c == '@' {
            assert(listed[3] == c);
        } else if c == '^' {
            assert(listed[4] == c);
        } else if c == '_' {
            assert(listed[5] == c);
        } else if c == '"' {
            assert(listed[6] == c);
        } else if c == '#' {
            assert(listed[7] == c);
        } else if c == '$' {
            assert(listed[8] == c);
        } else if c == '&' {
            assert(listed[9] == c);
        } else if c == '\'' {
            assert(listed[10] == c);
        } else if c == '(' {
            assert(listed[11] == c);
        } else if c == ')' {
            assert(listed[12] == c);
        } else if c == '*' {
            assert(listed[13] == c);
        } else if c == '+' {
            assert(listed[15] == c);
        } else if c == ',' {
            assert(listed[16] == c);
        } else if c == ';' {
            assert(listed[17] == c);
        } else if c == '<' {
            assert(listed[18] == c);
        } else if c == '=' {
            assert(listed[19] == c);
        } else if c == '>' {
            assert(listed[20] == c);
        } else if c == '?' {
            assert(listed[21] == c);
        } else if c == '[' {
            assert(listed[22] == c);
        } else if c == ']' {
            assert(listed[23] == c);
        } else if c == '{' {
            assert(listed[24] == c);
        } else if c == '|' {
            assert(listed[25] == c);
        } else if c == '}' {
            assert(listed[26] == c);
        } else if c == '~' {
            assert(listed[27] == c);
        } else if c == '/' {
            assert(listed[28] == c);
        } else if c == '.' {
            assert(listed[29] == c);
        }
    }
    if listed.contains(c) {
        let k = choose|k: int| 0 <= k < listed.len() && listed[k] == c;
        if k == 0 {
            assert(listed[0] == '!');
        } else if k == 1 {
            assert(listed[1] == '%');
        } else if k == 2 {
            assert(listed[2] == '-');
        } else if k == 3 {
            assert(listed[3] == '@');
        } else if k == 4 {
            assert(listed[4] == '^');
        } else if k == 5 {
            assert(listed[5] == '_');
        } else if k == 6 {
            assert(listed[6] == '"');
        } else if k == 7 {
            assert(listed[7] == '#');
        } else if k == 8 {
            assert(listed[8] == '$');
        } else if k == 9 {
            assert(listed[9] == '&');
        } else if k == 10 {
            assert(listed[10] == '\'');
        } else if k == 11 {
            assert(listed[11] == '(');
        } else if k == 12 {
            assert(listed[12] == ')');
        } else if k == 13 {
            assert(listed[13] == '*');
        } else if k == 14 {
            assert(listed[14] == '-');
        } else if k == 15 {
            assert(listed[15] == '+');
        } else if k == 16 {
            assert(listed[16] == ',');
        } else if k == 17 {
            assert(listed[17] == ';');
        } else if k == 18 {
            assert(listed[18] == '<');
        } else if k == 19 {
            assert(listed[19] == '=');
        } else if k == 20 {
            assert(listed[20] == '>');
        } else if k == 21 {
            assert(listed[21] == '?');
        } else if k == 22 {
            assert(listed[22] == '[');
        } else if k == 23 {
            assert(listed[23] == ']');
        } else if k == 24 {
            assert(listed[24] == '{');
        } else if k == 25 {
            assert(listed[25] == '|');
        } else if k == 26 {
            assert(listed[26] == '}');
        } else if k == 27 {
            assert(listed[27] == '~');
        } else if k == 28 {
            assert(listed[28] == '/');
        } else if k == 29 {
            assert(listed[29] == '.');
        }
    }
}

/// The names a rename accepts are exactly those Bazel can load: at least
/// one character, neither the first nor the last a `/`, and every one an
/// ASCII letter or digit or one of `!%-@^_"#$&'()*-+,;<=>?[]{|}~/.`.
pub proof fn which_names_a_rename_accepts(name: Seq<char>)
    ensures
        valid_name(name) <==> (name.len() > 0 && name[0] != '/' && name[name.len() - 1] != '/' && forall|i: int|
            0 <= i < name.len() ==> ('a' <= #[trigger] name[i] && name[i] <= 'z') || ('A' <= name[i] && name[i] <= 'Z')
                || ('0' <= name[i] && name[i] <= '9') || "!%-@^_\"#$&'()*-+,;<=>?[]{|}~/."@.contains(name[i])),
{
    assert forall|i: int| 0 <= i < name.len() implies name_char(#[trigger] name[i]) <==> (('a' <= name[i] && name[i] <= 'z')
        || ('A' <= name[i] && name[i] <= 'Z') || ('0' <= name[i] && name[i] <= '9') || "!%-@^_\"#$&'()*-+,;<=>?[]{|}~/."@.contains(name[i])) by {
        lemma_name_char(name[i]);
    }
    if name.len() > 0 {
        assert(starts_with(name, seq!['/']) <==> name[0] == '/') by {
            if name[0] == '/' {
                assert(name.take(1) =~= seq!['/']);
            }
            if starts_with(name, seq!['/']) {
                assert(name.take(1)[0] == name[0]);
            }
        }
        assert(ends_with(name, seq!['/']) <==> name[name.len() - 1] == '/') by {
            if name[name.len() - 1] == '/' {
                assert(name.skip(name.len() - 1) =~= seq!['/']);
            }
            if ends_with(name, seq!['/']) {
                assert(name.skip(name.len() - 1)[0] == name[name.len() - 1]);
            }
        }
    }
}

} // verus!
