//! What hovering a native option of an rc file shows: everything the exact
//! flag catalog says of the flag it names.

use vstd::prelude::*;
use super::catalog::{scope_supports, Flag, FlagCatalog, FlagSpelling};
use super::index::{command_of, key_command};
use super::native_options::{line_options, option_uses, uses, OptionUse};
use super::syntax::{span_view, Line, Parse, Span, Token};
use crate::line_index::{text_offset, text_position, LineIndex};
use crate::paths::texts;
use crate::text::{append, opt_chars};
use vstd::string::StringSliceAdditionalSpecFns;

verus! {

/// One `Name: value` line, or nothing where there is no value or it is
/// empty.
pub open spec fn spec_field(name: Seq<char>, value: Option<Seq<char>>) -> Seq<char> {
    match value {
        Some(v) => if v.len() > 0 {
            name + ": "@ + v + "\n"@
        } else {
            Seq::empty()
        },
        None => Seq::empty(),
    }
}

/// Texts joined with `, `.
pub open spec fn joined(values: Seq<Seq<char>>) -> Seq<char>
    decreases values.len(),
{
    if values.len() == 0 {
        Seq::empty()
    } else if values.len() == 1 {
        values[0]
    } else {
        joined(values.drop_last()) + ", "@ + values.last()
    }
}

/// What a spelling other than the canonical one is called.
pub open spec fn spelling_note(spelling: FlagSpelling) -> Option<Seq<char>> {
    match spelling {
        FlagSpelling::Canonical => None,
        FlagSpelling::Negative => Some("negative form"@),
        FlagSpelling::Abbreviation => Some("abbreviation"@),
        FlagSpelling::NegativeAbbreviation => Some("negative abbreviation"@),
        FlagSpelling::OldName => Some("deprecated name"@),
        FlagSpelling::NegativeOldName => Some("negative form of deprecated name"@),
    }
}

/// Every other way to write a flag: its negative form, its abbreviation
/// (and that negated), and its deprecated name.
pub open spec fn alternate_list(flag: Flag) -> Seq<Seq<char>> {
    let negative: Seq<Seq<char>> = if flag.has_negative_flag {
        seq!["--no"@ + flag.name@]
    } else {
        Seq::empty()
    };
    let abbreviated: Seq<Seq<char>> = match flag.abbreviation {
        Some(a) => if flag.has_negative_flag {
            seq!["-"@ + a@, "-"@ + a@ + "-"@]
        } else {
            seq!["-"@ + a@]
        },
        None => Seq::empty(),
    };
    let old: Seq<Seq<char>> = match flag.old_name {
        Some(o) => seq!["--"@ + o@ + " (deprecated name)"@],
        None => Seq::empty(),
    };
    negative + abbreviated + old
}

/// The documentation paragraph, set off by blank lines, where there is one.
pub open spec fn documentation_part(flag: Flag) -> Seq<char> {
    match flag.documentation {
        Some(d) => if d@.len() > 0 {
            "\n"@ + d@ + "\n"@
        } else {
            Seq::empty()
        },
        None => Seq::empty(),
    }
}

/// The hover card for `flag`, written as `spelling`, in a section where it
/// is `supported` or not, from the catalog Bazel `reported`.
pub open spec fn spec_render(flag: Flag, spelling: FlagSpelling, supported: bool, reported: Seq<char>) -> Seq<char> {
    "--"@ + flag.name@ + "\n"@ + documentation_part(flag)
        + spec_field("Spelling"@, spelling_note(spelling))
        + spec_field("Alternate spellings"@, Some(joined(alternate_list(flag))))
        + spec_field("Type"@, opt_chars(flag.type_converter))
        + spec_field("Default"@, opt_chars(flag.default_value))
        + spec_field("Values"@, Some(joined(texts(flag.enum_values@))))
        + spec_field("Commands"@, Some(joined(texts(flag.commands@))))
        + spec_field(
            "Current scope"@,
            Some(if supported { "supported"@ } else { "not reported for this command"@ }),
        )
        + (if flag.allows_multiple { spec_field("Repeatable"@, Some("yes"@)) } else { Seq::empty() })
        + spec_field("Deprecated"@, opt_chars(flag.deprecation_warning))
        + spec_field("Expands to"@, Some(joined(texts(flag.option_expansions@))))
        + spec_field("Effects"@, Some(joined(texts(flag.effect_tags@))))
        + spec_field("Metadata"@, Some(joined(texts(flag.metadata_tags@))))
        + spec_field("Category"@, opt_chars(flag.documentation_category))
        + spec_field("Catalog"@, Some(reported))
}

/// Append one `Name: value` line, unless the value is absent or empty.
fn field(text: &mut String, name: &str, value: Option<&str>)
    ensures
        final(text)@ == old(text)@ + spec_field(
            name@,
            match value {
                Some(v) => Some(v@),
                None => None,
            },
        ),
{
    match value {
        Some(v) => {
            if crate::text::chars_of(v).len() > 0 {
                append(text, name);
                append(text, ": ");
                append(text, v);
                append(text, "\n");
            } else {
                assert(old(text)@ + Seq::<char>::empty() =~= old(text)@);
            }
        },
        None => {
            assert(old(text)@ + Seq::<char>::empty() =~= old(text)@);
        },
    }
}

/// Texts joined with `, `.
pub(crate) fn join_all(values: &[String]) -> (s: String)
    ensures
        s@ == joined(texts(values@)),
{
    let ghost all = texts(values@);
    let mut s = String::new();
    let mut i: usize = 0;
    while i < values.len()
        invariant
            i <= values@.len(),
            all == texts(values@),
            s@ == joined(all.take(i as int)),
        decreases values.len() - i,
    {
        let ghost before = all.take(i as int);
        assert(all.take(i + 1).drop_last() =~= before);
        if i > 0 {
            append(&mut s, ", ");
        }
        append(&mut s, values[i].as_str());
        proof {
            if i == 0 {
                assert(before.len() == 0);
                assert(s@ =~= all.take(1)[0]);
            }
        }
        i = i + 1;
    }
    assert(all.take(values@.len() as int) =~= all);
    s
}

/// Every other way to write `flag`, joined with `, `.
fn alternate_spellings(flag: &Flag) -> (s: String)
    ensures
        s@ == joined(alternate_list(*flag)),
{
    let mut spellings: Vec<String> = Vec::new();
    if flag.has_negative_flag {
        let mut s = "--no".to_owned();
        append(&mut s, flag.name.as_str());
        spellings.push(s);
    }
    match &flag.abbreviation {
        Some(a) => {
            let mut s = "-".to_owned();
            append(&mut s, a.as_str());
            spellings.push(s);
            if flag.has_negative_flag {
                let mut s = "-".to_owned();
                append(&mut s, a.as_str());
                append(&mut s, "-");
                spellings.push(s);
            }
        },
        None => {},
    }
    match &flag.old_name {
        Some(o) => {
            let mut s = "--".to_owned();
            append(&mut s, o.as_str());
            append(&mut s, " (deprecated name)");
            spellings.push(s);
        },
        None => {},
    }
    assert(texts(spellings@) =~= alternate_list(*flag));
    join_all(spellings.as_slice())
}

/// What a spelling other than the canonical one is called.
fn spelling(how: FlagSpelling) -> (note: Option<&'static str>)
    ensures
        (match spelling_note(how) {
            Some(n) => note matches Some(s) && s@ == n,
            None => note is None,
        }),
{
    match how {
        FlagSpelling::Canonical => None,
        FlagSpelling::Negative => Some("negative form"),
        FlagSpelling::Abbreviation => Some("abbreviation"),
        FlagSpelling::NegativeAbbreviation => Some("negative abbreviation"),
        FlagSpelling::OldName => Some("deprecated name"),
        FlagSpelling::NegativeOldName => Some("negative form of deprecated name"),
    }
}

/// An optional text borrowed as a string slice.
fn as_text(value: &Option<String>) -> (v: Option<&str>)
    ensures
        (match *value {
            Some(s) => v matches Some(t) && t@ == s@,
            None => v is None,
        }),
{
    match value {
        Some(s) => Some(s.as_str()),
        None => None,
    }
}

/// The hover card for `flag`, written as `how`, in the section of
/// `command`.
pub fn render(catalog: &FlagCatalog, command: &str, flag: &Flag, how: FlagSpelling) -> (text: String)
    ensures
        text@ == spec_render(
            *flag,
            how,
            scope_supports(catalog.view_of(), *flag, command@),
            catalog.reported_view(),
        ),
{
    let mut text = "--".to_owned();
    append(&mut text, flag.name.as_str());
    append(&mut text, "\n");
    match &flag.documentation {
        Some(d) => {
            if crate::text::chars_of(d.as_str()).len() > 0 {
                append(&mut text, "\n");
                append(&mut text, d.as_str());
                append(&mut text, "\n");
            }
        },
        None => {},
    }
    let ghost head = text@;
    assert(head =~= "--"@ + flag.name@ + "\n"@ + documentation_part(*flag));
    field(&mut text, "Spelling", spelling(how));
    let alternates = alternate_spellings(flag);
    field(&mut text, "Alternate spellings", Some(alternates.as_str()));
    field(&mut text, "Type", as_text(&flag.type_converter));
    field(&mut text, "Default", as_text(&flag.default_value));
    let values = join_all(flag.enum_values.as_slice());
    field(&mut text, "Values", Some(values.as_str()));
    let commands = join_all(flag.commands.as_slice());
    field(&mut text, "Commands", Some(commands.as_str()));
    let scope = if catalog.supports_scope(flag, command) {
        "supported"
    } else {
        "not reported for this command"
    };
    field(&mut text, "Current scope", Some(scope));
    if flag.allows_multiple {
        field(&mut text, "Repeatable", Some("yes"));
    } else {
        assert(text@ + Seq::<char>::empty() =~= text@);
    }
    field(&mut text, "Deprecated", as_text(&flag.deprecation_warning));
    let expansions = join_all(flag.option_expansions.as_slice());
    field(&mut text, "Expands to", Some(expansions.as_str()));
    let effects = join_all(flag.effect_tags.as_slice());
    field(&mut text, "Effects", Some(effects.as_str()));
    let metadata = join_all(flag.metadata_tags.as_slice());
    field(&mut text, "Metadata", Some(metadata.as_str()));
    field(&mut text, "Category", as_text(&flag.documentation_category));
    field(&mut text, "Catalog", Some(catalog.reported()));
    text
}

/// `offset` lies within `span`, either end included.
pub open spec fn span_holds(span: Span, offset: int) -> bool {
    span.start <= offset <= span.end
}

/// The token of an option use under `offset`: the option itself, or else
/// its separate value.
pub open spec fn use_hit(u: OptionUse, offset: int) -> Option<Token> {
    if span_holds(u.0.range, offset) {
        Some(u.0)
    } else {
        match u.2 {
            Some(v) => if span_holds(v.range, offset) {
                Some(v)
            } else {
                None
            },
            None => None,
        }
    }
}

/// The first of the uses from `i` on with a token under `offset`, and that
/// token.
pub open spec fn first_use_hit(uses: Seq<OptionUse>, offset: int, i: int) -> Option<(OptionUse, Token)>
    decreases uses.len() - i,
{
    if i < 0 || i >= uses.len() {
        None
    } else {
        match use_hit(uses[i], offset) {
            Some(t) => Some((uses[i], t)),
            None => first_use_hit(uses, offset, i + 1),
        }
    }
}

/// The first of the lines from `i` on with an option token under `offset`:
/// the line, the option use, and the token.
pub open spec fn first_line_hit(flags: Seq<Flag>, lines: Seq<Line>, offset: int, i: int) -> Option<(Line, OptionUse, Token)>
    decreases lines.len() - i,
{
    if i < 0 || i >= lines.len() {
        None
    } else {
        match first_use_hit(option_uses(flags, line_options(lines[i]), 0), offset, 0) {
            Some((u, t)) => Some((lines[i], u, t)),
            None => first_line_hit(flags, lines, offset, i + 1),
        }
    }
}

/// What hovering byte `offset` shows: the card of the flag the first option
/// token under it names, and that token's range. Nothing where no option
/// token lies under it, or the first one names no flag of the catalog.
pub open spec fn spec_hover_at(
    catalog: Map<Seq<char>, Flag>,
    flags: Seq<Flag>,
    reported: Seq<char>,
    lines: Seq<Line>,
    offset: int,
) -> Option<(Seq<char>, (int, int))> {
    match first_line_hit(flags, lines, offset, 0) {
        None => None,
        Some((line, u, token)) => match u.1 {
            None => None,
            Some((flag, how)) => Some(
                (
                    spec_render(
                        flag,
                        how,
                        scope_supports(catalog, flag, key_command(line.tokens@[0].text@)),
                        reported,
                    ),
                    span_view(token.range),
                ),
            ),
        },
    }
}

/// The hover card for the option under byte `offset` of a parsed rc file,
/// and the range of the token it is for.
pub fn hover_at(parsed: &Parse, catalog: &FlagCatalog, offset: usize) -> (found: Option<(String, Span)>)
    ensures
        (match spec_hover_at(catalog.view_of(), catalog.flag_list(), catalog.reported_view(), parsed.lines@, offset as int) {
            Some((text, range)) => found matches Some(f) && f.0@ == text && span_view(f.1) == range,
            None => found is None,
        }),
{
    let ghost flags = catalog.flag_list();
    let ghost lines = parsed.lines@;
    let mut i: usize = 0;
    while i < parsed.lines.len()
        invariant
            i <= lines.len(),
            lines == parsed.lines@,
            flags == catalog.flag_list(),
            first_line_hit(flags, lines, offset as int, 0) == first_line_hit(flags, lines, offset as int, i as int),
        decreases parsed.lines.len() - i,
    {
        let line = &parsed.lines[i];
        let found = uses(line, catalog);
        let ghost spec_uses = option_uses(flags, line_options(*line), 0);
        let mut j: usize = 0;
        while j < found.len()
            invariant
                i < lines.len(),
                lines == parsed.lines@,
                flags == catalog.flag_list(),
                *line == lines[i as int],
                first_line_hit(flags, lines, offset as int, 0) == first_line_hit(flags, lines, offset as int, i as int),
                spec_uses == option_uses(flags, line_options(*line), 0),
                j <= found@.len(),
                found@.len() == spec_uses.len(),
                forall|k: int| 0 <= k < found@.len() ==> crate::bazelrc::native_options::use_view(#[trigger] found@[k]) == spec_uses[k],
                first_use_hit(spec_uses, offset as int, 0) == first_use_hit(spec_uses, offset as int, j as int),
            decreases found.len() - j,
        {
            let option = found[j];
            assert(crate::bazelrc::native_options::use_view(found@[j as int]) == spec_uses[j as int]);
            let token: Option<&Token> = if option.option.range.start <= offset && offset <= option.option.range.end {
                Some(option.option)
            } else {
                match option.value {
                    Some(value) => if value.range.start <= offset && offset <= value.range.end {
                        Some(value)
                    } else {
                        None
                    },
                    None => None,
                }
            };
            match token {
                Some(token) => {
                    let resolved = match option.resolved {
                        Some(resolved) => resolved,
                        None => {
                            return None;
                        },
                    };
                    proof {
                        assert(line_options(*line).len() > 0);
                    }
                    let key = match line.key() {
                        Some(key) => key,
                        None => {
                            return None;
                        },
                    };
                    let command = command_of(key.text.as_str());
                    let text = render(catalog, command.as_str(), resolved.flag, resolved.spelling);
                    return Some((text, token.range));
                },
                None => {},
            }
            j = j + 1;
        }
        i = i + 1;
    }
    None
}

/// The hover card for the option at a zero-based line and UTF-16 column of
/// an rc file, and the start and end positions of the token it is for.
pub fn hover(
    text: &str,
    index: &LineIndex,
    parsed: &Parse,
    catalog: &FlagCatalog,
    line: u32,
    character: u32,
) -> (found: Option<(String, (u32, u32), (u32, u32))>)
    requires
        index.indexes(text),
        text.spec_bytes().len() <= isize::MAX,
    ensures
        ({
            let bs = text.spec_bytes();
            match spec_hover_at(
                catalog.view_of(),
                catalog.flag_list(),
                catalog.reported_view(),
                parsed.lines@,
                text_offset(bs, line, character),
            ) {
                Some((card, range)) => found matches Some(f) && f.0@ == card
                    && f.1 == text_position(bs, range.0) && f.2 == text_position(bs, range.1),
                None => found is None,
            }
        }),
{
    let offset = index.offset(text, line, character);
    match hover_at(parsed, catalog, offset) {
        Some((card, range)) => {
            let start = index.position(text, range.start);
            let end = index.position(text, range.end);
            Some((card, start, end))
        },
        None => None,
    }
}

} // verus!
