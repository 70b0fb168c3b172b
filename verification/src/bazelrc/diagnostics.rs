//! Conservative findings in one rc buffer, from Bazel 8.7 syntax, the
//! configuration graph and the exact flag catalog.
//!
//! Ranges are byte spans of the buffer; turning them into editor positions
//! is the line index's business.

use vstd::prelude::*;
use super::catalog::{
    is_build_setting, scope_supports, spec_supports, Flag, FlagCatalog, FlagSpelling,
};
use super::commands::{accepts_config, command_names, spec_accepts_config};
use super::index::{key_command, ConfigurationSnapshot, ProblemSeverity, SiteView};
use super::native_options::{line_options, option_uses, use_view, uses, OptionUse};
use super::syntax::{config_references, span_view, spec_config_references, Line, Parse, Span, Statement, Token};
use super::view::{site_named, ConfigurationView};
use crate::text::{append, chars_of, find_char, first_index_of, starts_with, str_eq, string_of_range};

verus! {

/// How much a finding matters.
#[derive(Debug, Clone, Copy, PartialEq, Eq)]
pub enum Level {
    Error,
    Warning,
    Information,
}

/// One finding: where, how much it matters, and what it says.
#[derive(Debug, Clone, PartialEq, Eq)]
pub struct RcFinding {
    pub range: Span,
    pub level: Level,
    pub message: String,
}

/// A finding as its span, level and message.
pub type FindingView = ((int, int), Level, Seq<char>);

pub open spec fn finding_view(f: RcFinding) -> FindingView {
    (span_view(f.range), f.level, f.message@)
}

pub open spec fn findings_view(s: Seq<RcFinding>) -> Seq<FindingView> {
    s.map_values(|f: RcFinding| finding_view(f))
}

fn push(found: &mut Vec<RcFinding>, range: Span, level: Level, message: String)
    ensures
        findings_view(final(found)@) == findings_view(old(found)@).push((span_view(range), level, message@)),
{
    let ghost before = found@;
    let f = RcFinding { range, level, message };
    found.push(f);
    assert(findings_view(found@) =~= findings_view(before).push(finding_view(f)));
}

/// `"`"` + `text` + `"`"`, the way messages quote names.
pub open spec fn quoted(text: Seq<char>) -> Seq<char> {
    "`"@ + text + "`"@
}

fn quote(text: &str) -> (q: String)
    ensures
        q@ == quoted(text@),
{
    let mut q = "`".to_owned();
    append(&mut q, text);
    append(&mut q, "`");
    q
}

/// Whether `tags` holds `wanted`.
pub open spec fn tagged(tags: Seq<String>, wanted: Seq<char>) -> bool {
    exists|i: int| 0 <= i < tags.len() && (#[trigger] tags[i])@ == wanted
}

fn has_tag(tags: &Vec<String>, wanted: &str) -> (b: bool)
    ensures
        b == tagged(tags@, wanted@),
{
    let mut i: usize = 0;
    while i < tags.len()
        invariant
            i <= tags@.len(),
            forall|j: int| 0 <= j < i ==> (#[trigger] tags@[j])@ != wanted@,
        decreases tags@.len() - i,
    {
        if str_eq(tags[i].as_str(), wanted) {
            return true;
        }
        i = i + 1;
    }
    false
}

/// The statuses the catalog gives a flag: no-op, hidden, undocumented.
pub open spec fn statuses(flag: Flag) -> Seq<Seq<char>> {
    (if tagged(flag.effect_tags@, "NO_OP"@) {
        seq!["no-op"@]
    } else {
        Seq::empty()
    }) + (if tagged(flag.metadata_tags@, "HIDDEN"@) {
        seq!["hidden"@]
    } else {
        Seq::empty()
    }) + (if flag.documentation_category matches Some(c) && c@ == "UNDOCUMENTED"@ {
        seq!["undocumented"@]
    } else {
        Seq::empty()
    })
}

/// Words joined by `", "`.
pub open spec fn joined(words: Seq<Seq<char>>) -> Seq<char>
    decreases words.len(),
{
    if words.len() == 0 {
        Seq::empty()
    } else if words.len() == 1 {
        words[0]
    } else {
        joined(words.drop_last()) + ", "@ + words.last()
    }
}

/// An old spelling, with the current one to use.
pub open spec fn old_spelling_findings(range: (int, int), flag: Flag, spelling: FlagSpelling) -> Seq<FindingView> {
    if spelling == FlagSpelling::OldName || spelling == FlagSpelling::NegativeOldName {
        let replacement = if spelling == FlagSpelling::NegativeOldName {
            "--no"@ + flag.name@
        } else {
            "--"@ + flag.name@
        };
        seq![(range, Level::Warning, "this is an old spelling; use "@ + quoted(replacement))]
    } else {
        Seq::empty()
    }
}

/// A deprecated flag: its own warning, or the catalog's tag.
pub open spec fn deprecation_findings(range: (int, int), flag: Flag) -> Seq<FindingView> {
    match flag.deprecation_warning {
        Some(m) if m@.len() > 0 => seq![(range, Level::Warning, m@)],
        _ => if tagged(flag.metadata_tags@, "DEPRECATED"@) {
            seq![(range, Level::Warning, quoted("--"@ + flag.name@) + " is deprecated in the Bazel 8.7 catalog"@)]
        } else {
            Seq::empty()
        },
    }
}

/// A flag the catalog gives statuses.
pub open spec fn status_findings(range: (int, int), flag: Flag) -> Seq<FindingView> {
    if statuses(flag).len() > 0 {
        seq![
            (
                range,
                Level::Information,
                quoted("--"@ + flag.name@) + " is catalogued as "@ + joined(statuses(flag)) + " by Bazel 8.7"@,
            ),
        ]
    } else {
        Seq::empty()
    }
}

/// What the catalog says of a flag an option names: an old spelling, a
/// deprecation, and its statuses.
pub open spec fn metadata_findings(range: (int, int), flag: Flag, spelling: FlagSpelling) -> Seq<FindingView> {
    old_spelling_findings(range, flag, spelling) + deprecation_findings(range, flag) + status_findings(range, flag)
}

fn old_spelling(range: Span, flag: &Flag, spelling: FlagSpelling, found: &mut Vec<RcFinding>)
    ensures
        findings_view(final(found)@) == findings_view(old(found)@) + old_spelling_findings(
            span_view(range),
            *flag,
            spelling,
        ),
{
    let ghost base = findings_view(found@);
    let old_spelling = match spelling {
        FlagSpelling::OldName => true,
        FlagSpelling::NegativeOldName => true,
        _ => false,
    };
    if old_spelling {
        let mut replacement = match spelling {
            FlagSpelling::NegativeOldName => "--no".to_owned(),
            _ => "--".to_owned(),
        };
        append(&mut replacement, flag.name.as_str());
        let mut message = "this is an old spelling; use ".to_owned();
        append(&mut message, quote(replacement.as_str()).as_str());
        push(found, range, Level::Warning, message);
    } else {
        assert(findings_view(found@) =~= base + Seq::<FindingView>::empty());
    }
}

fn deprecation(range: Span, flag: &Flag, found: &mut Vec<RcFinding>)
    ensures
        findings_view(final(found)@) == findings_view(old(found)@) + deprecation_findings(span_view(range), *flag),
{
    let ghost base = findings_view(found@);
    let own = match &flag.deprecation_warning {
        Some(m) => if chars_of(m.as_str()).len() > 0 {
            Some(m)
        } else {
            None
        },
        None => None,
    };
    match own {
        Some(m) => {
            push(found, range, Level::Warning, m.clone());
        },
        None => {
            if has_tag(&flag.metadata_tags, "DEPRECATED") {
                let mut dashed = "--".to_owned();
                append(&mut dashed, flag.name.as_str());
                let mut message = quote(dashed.as_str());
                append(&mut message, " is deprecated in the Bazel 8.7 catalog");
                push(found, range, Level::Warning, message);
            } else {
                assert(findings_view(found@) =~= base + Seq::<FindingView>::empty());
            }
        },
    }
}

fn status(range: Span, flag: &Flag, found: &mut Vec<RcFinding>)
    ensures
        findings_view(final(found)@) == findings_view(old(found)@) + status_findings(span_view(range), *flag),
{
    let ghost base = findings_view(found@);
    let no_op = has_tag(&flag.effect_tags, "NO_OP");
    let hidden = has_tag(&flag.metadata_tags, "HIDDEN");
    let undocumented = match &flag.documentation_category {
        Some(c) => str_eq(c.as_str(), "UNDOCUMENTED"),
        None => false,
    };
    assert(statuses(*flag).len() > 0 <==> (no_op || hidden || undocumented));
    if no_op || hidden || undocumented {
        let mut words = String::new();
        let ghost mut list: Seq<Seq<char>> = Seq::empty();
        if no_op {
            append(&mut words, "no-op");
            proof {
                list = list.push("no-op"@);
            }
        }
        if hidden {
            if no_op {
                append(&mut words, ", ");
            }
            append(&mut words, "hidden");
            proof {
                list = list.push("hidden"@);
            }
        }
        if undocumented {
            if no_op || hidden {
                append(&mut words, ", ");
            }
            append(&mut words, "undocumented");
            proof {
                list = list.push("undocumented"@);
            }
        }
        proof {
            assert(list =~= statuses(*flag));
            assert(words@ == joined(list)) by {
                reveal_with_fuel(joined, 4);
                if no_op && hidden && undocumented {
                    assert(list.drop_last().drop_last() =~= seq!["no-op"@]);
                    assert(list.drop_last() =~= seq!["no-op"@, "hidden"@]);
                } else if no_op && hidden {
                    assert(list.drop_last() =~= seq!["no-op"@]);
                } else if no_op && undocumented {
                    assert(list.drop_last() =~= seq!["no-op"@]);
                } else if hidden && undocumented {
                    assert(list.drop_last() =~= seq!["hidden"@]);
                }
            }
        }
        let mut dashed = "--".to_owned();
        append(&mut dashed, flag.name.as_str());
        let mut message = quote(dashed.as_str());
        append(&mut message, " is catalogued as ");
        append(&mut message, words.as_str());
        append(&mut message, " by Bazel 8.7");
        push(found, range, Level::Information, message);
    } else {
        assert(findings_view(found@) =~= base + Seq::<FindingView>::empty());
    }
}

fn diagnose_catalog_metadata(range: Span, flag: &Flag, spelling: FlagSpelling, found: &mut Vec<RcFinding>)
    ensures
        findings_view(final(found)@) == findings_view(old(found)@) + metadata_findings(
            span_view(range),
            *flag,
            spelling,
        ),
{
    let ghost base = findings_view(found@);
    old_spelling(range, flag, spelling, found);
    deprecation(range, flag, found);
    status(range, flag, found);
    assert(findings_view(found@) =~= base + metadata_findings(span_view(range), *flag, spelling));
}

} // verus!

verus! {

/// The name part of an option, before any `=`.
pub open spec fn before_equals(text: Seq<char>) -> Seq<char> {
    match first_index_of(text, '=') {
        Some(i) => text.take(i),
        None => text,
    }
}

/// What one native option of an entry for `command` is found to be: not a
/// flag of the catalog, not one for this section, a negative flag with a
/// value, a flag missing its value, and what the catalog says of it.
/// Options that are not flags, and build settings, are left alone.
pub open spec fn option_findings(catalog: Map<Seq<char>, Flag>, command: Seq<char>, u: OptionUse) -> Seq<FindingView> {
    let text = u.0.text@;
    let range = span_view(u.0.range);
    if !starts_with(text, "-"@) || is_build_setting(text) {
        Seq::empty()
    } else {
        match u.1 {
            None => seq![(range, Level::Warning, quoted(before_equals(text)) + " is not recognized by the Bazel 8.7 native flag catalog"@)],
            Some((flag, spelling)) => {
                let valued = text.contains('=');
                let dashed = quoted("--"@ + flag.name@);
                (if !scope_supports(catalog, flag, command) {
                    seq![(range, Level::Error, dashed + " is not accepted in "@ + quoted(command) + " rc entries by the Bazel 8.7 catalog"@)]
                } else {
                    Seq::empty()
                }) + (if (spelling == FlagSpelling::Negative || spelling == FlagSpelling::NegativeOldName) && valued {
                    seq![(range, Level::Error, "a negative boolean flag cannot have a value"@)]
                } else {
                    Seq::empty()
                }) + (if flag.requires_value && !valued && u.2 is None {
                    seq![(range, Level::Error, dashed + " requires a value"@)]
                } else {
                    Seq::empty()
                }) + metadata_findings(range, flag, spelling)
            },
        }
    }
}

/// The findings of each native option, in order.
pub open spec fn uses_findings(catalog: Map<Seq<char>, Flag>, command: Seq<char>, uses: Seq<OptionUse>) -> Seq<FindingView>
    decreases uses.len(),
{
    if uses.len() == 0 {
        Seq::empty()
    } else {
        uses_findings(catalog, command, uses.drop_last()) + option_findings(catalog, command, uses.last())
    }
}

/// References to configurations no applicable declaration names.
pub open spec fn reference_findings(
    declarations: Seq<SiteView>,
    command: Seq<char>,
    references: Seq<(Seq<char>, (int, int))>,
) -> Seq<FindingView>
    decreases references.len(),
{
    if references.len() == 0 {
        Seq::empty()
    } else {
        let r = references.last();
        let rest = reference_findings(declarations, command, references.drop_last());
        if declarations.filter(site_named(r.0, Some(command))).len() == 0 {
            rest.push((r.1, Level::Warning, "configuration "@ + quoted(r.0) + " is not declared in the workspace Bazelrc graph"@))
        } else {
            rest
        }
    }
}

/// Split `--config name` inside a named configuration body.
pub open spec fn split_config_findings(options: Seq<Token>) -> Seq<FindingView>
    decreases options.len(),
{
    if options.len() == 0 {
        Seq::empty()
    } else {
        let rest = split_config_findings(options.drop_last());
        if options.last().text@ == "--config"@ {
            rest.push((span_view(options.last().range), Level::Error, "named configuration bodies require `--config=name` in Bazel 8.7"@))
        } else {
            rest
        }
    }
}

/// A catalog as the map and list of its flags.
pub open spec fn catalog_view(catalog: Option<&FlagCatalog>) -> Option<(Map<Seq<char>, Flag>, Seq<Flag>)> {
    match catalog {
        Some(c) => Some((c.view_of(), c.flag_list())),
        None => None,
    }
}

/// What one entry line is found to be: a section that is no command, and
/// otherwise its undeclared configurations, split `--config` in a body, and
/// the findings of its native options.
pub open spec fn entry_findings(
    ready: bool,
    declarations: Seq<SiteView>,
    catalog: Option<(Map<Seq<char>, Flag>, Seq<Flag>)>,
    line: Line,
) -> Seq<FindingView> {
    if line.tokens@.len() == 0 {
        Seq::empty()
    } else {
        let key = line.tokens@[0];
        let command = key_command(key.text@);
        if !command_names().contains(command) {
            seq![(span_view(key.range), Level::Warning, quoted(command) + " is not a Bazel 8.7 command or rc scope"@)]
        } else {
            (if ready && spec_accepts_config(command) {
                reference_findings(declarations, command, spec_config_references(line))
            } else {
                Seq::empty()
            }) + (if key.text@.contains(':') {
                split_config_findings(line_options(line))
            } else {
                Seq::empty()
            }) + match catalog {
                None => Seq::empty(),
                Some((map, list)) => uses_findings(map, command, option_uses(list, line_options(line), 0)),
            }
        }
    }
}

/// Whether `text` holds `c`.
fn holds_char(text: &str, c: char) -> (b: bool)
    ensures
        b == text@.contains(c),
{
    let cs = chars_of(text);
    let found = find_char(&cs, c).is_some();
    proof {
        if text@.contains(c) {
            let k = choose|k: int| 0 <= k < text@.len() && text@[k] == c;
            assert(cs@[k] == c);
        }
    }
    found
}

fn option_check(catalog: &FlagCatalog, command: &str, u: &super::native_options::NativeOption, found: &mut Vec<RcFinding>)
    ensures
        findings_view(final(found)@) == findings_view(old(found)@) + option_findings(
            catalog.view_of(),
            command@,
            use_view(*u),
        ),
{
    let option = u.option;
    let resolved = u.resolved;
    let has_value_token = u.value.is_some();
    let ghost base = findings_view(found@);
    let text = chars_of(option.text.as_str());
    let dash = chars_of("-");
    if !crate::text::has_prefix(&text, &dash) || super::catalog::build_setting(&text) {
        assert(findings_view(found@) =~= base + Seq::<FindingView>::empty());
        return;
    }
    let r = match resolved {
        Some(r) => r,
        None => {
            let name = match find_char(&text, '=') {
                Some(i) => string_of_range(&text, 0, i),
                None => option.text.clone(),
            };
            assert(name@ =~= before_equals(option.text@));
            let mut message = quote(name.as_str());
            append(&mut message, " is not recognized by the Bazel 8.7 native flag catalog");
            push(found, option.range, Level::Warning, message);
            return;
        },
    };
    let flag = r.flag;
    let valued = holds_char(option.text.as_str(), '=');
    let mut dashed = "--".to_owned();
    append(&mut dashed, flag.name.as_str());
    let dashed = quote(dashed.as_str());
    let ghost s0 = findings_view(found@);
    if !catalog.supports_scope(flag, command) {
        let mut message = dashed.clone();
        append(&mut message, " is not accepted in ");
        append(&mut message, quote(command).as_str());
        append(&mut message, " rc entries by the Bazel 8.7 catalog");
        push(found, option.range, Level::Error, message);
    }
    let ghost s1 = findings_view(found@);
    let negative = match r.spelling {
        FlagSpelling::Negative => true,
        FlagSpelling::NegativeOldName => true,
        _ => false,
    };
    if negative && valued {
        push(found, option.range, Level::Error, "a negative boolean flag cannot have a value".to_owned());
    }
    let ghost s2 = findings_view(found@);
    if flag.requires_value && !valued && !has_value_token {
        let mut message = dashed.clone();
        append(&mut message, " requires a value");
        push(found, option.range, Level::Error, message);
    }
    let ghost s3 = findings_view(found@);
    diagnose_catalog_metadata(option.range, flag, r.spelling, found);
    proof {
        let range = span_view(option.range);
        let name = flag.name@;
        let a = if !scope_supports(catalog.view_of(), *flag, command@) {
            seq![(range, Level::Error, quoted("--"@ + name) + " is not accepted in "@ + quoted(command@) + " rc entries by the Bazel 8.7 catalog"@)]
        } else {
            Seq::<FindingView>::empty()
        };
        let b = if negative && valued {
            seq![(range, Level::Error, "a negative boolean flag cannot have a value"@)]
        } else {
            Seq::<FindingView>::empty()
        };
        let c = if flag.requires_value && !valued && !has_value_token {
            seq![(range, Level::Error, quoted("--"@ + name) + " requires a value"@)]
        } else {
            Seq::<FindingView>::empty()
        };
        assert(s1 =~= s0 + a);
        assert(s2 =~= s1 + b);
        assert(s3 =~= s2 + c);
        assert(findings_view(found@) =~= base + (a + b + c + metadata_findings(range, *flag, r.spelling)));
    }
}

} // verus!

verus! {

fn diagnose_entry(
    configuration: &ConfigurationView,
    catalog: Option<&FlagCatalog>,
    line: &Line,
    found: &mut Vec<RcFinding>,
)
    ensures
        findings_view(final(found)@) == findings_view(old(found)@) + entry_findings(
            configuration.is_ready(),
            configuration.declaration_sites(),
            catalog_view(catalog),
            *line,
        ),
{
    let ghost base = findings_view(found@);
    let key = match line.key() {
        Some(key) => key,
        None => {
            assert(findings_view(found@) =~= base + Seq::<FindingView>::empty());
            return;
        },
    };
    let command = super::index::command_of(key.text.as_str());
    if !super::commands::is_command(command.as_str()) {
        let mut message = quote(command.as_str());
        append(&mut message, " is not a Bazel 8.7 command or rc scope");
        push(found, key.range, Level::Warning, message);
        return;
    }
    let ghost s0 = findings_view(found@);
    let ghost decls = configuration.declaration_sites();
    if configuration.ready() && accepts_config(command.as_str()) {
        let refs = config_references(line);
        let ghost spec_refs = spec_config_references(*line);
        let mut k: usize = 0;
        assert(spec_refs.take(0) =~= Seq::<(Seq<char>, (int, int))>::empty());
        assert(findings_view(found@) =~= s0 + reference_findings(decls, command@, spec_refs.take(0)));
        while k < refs.len()
            invariant
                k <= refs@.len(),
                refs@.len() == spec_refs.len(),
                spec_refs == spec_config_references(*line),
                decls == configuration.declaration_sites(),
                forall|j: int|
                    0 <= j < refs@.len() ==> (#[trigger] refs@[j]).name@ == spec_refs[j].0 && span_view(
                        refs@[j].range,
                    ) == spec_refs[j].1,
                findings_view(found@) == s0 + reference_findings(decls, command@, spec_refs.take(k as int)),
            decreases refs@.len() - k,
        {
            let ghost before = findings_view(found@);
            proof {
                assert(spec_refs.take(k + 1).drop_last() =~= spec_refs.take(k as int));
                assert(spec_refs.take(k + 1).last() == spec_refs[k as int]);
            }
            let declared = configuration.applicable_declarations(command.as_str(), refs[k].name.as_str());
            if declared.len() == 0 {
                let mut message = "configuration ".to_owned();
                append(&mut message, quote(refs[k].name.as_str()).as_str());
                append(&mut message, " is not declared in the workspace Bazelrc graph");
                push(found, refs[k].range, Level::Warning, message);
            }
            proof {
                assert(declared@.map_values(|s: &super::index::ConfigSite| super::index::site_view(*s)).len()
                    == declared@.len());
            }
            k = k + 1;
        }
        assert(spec_refs.take(refs@.len() as int) =~= spec_refs);
    } else {
        assert(findings_view(found@) =~= s0 + Seq::<FindingView>::empty());
    }
    let ghost s1 = findings_view(found@);
    let key_has_colon = holds_char(key.text.as_str(), ':');
    if key_has_colon {
        let options = line.options();
        let mut k: usize = 0;
        assert(options@.take(0) =~= Seq::<Token>::empty());
        assert(findings_view(found@) =~= s1 + split_config_findings(options@.take(0)));
        while k < options.len()
            invariant
                k <= options@.len(),
                options@ == line_options(*line),
                findings_view(found@) == s1 + split_config_findings(options@.take(k as int)),
            decreases options@.len() - k,
        {
            proof {
                assert(options@.take(k + 1).drop_last() =~= options@.take(k as int));
                assert(options@.take(k + 1).last() == options@[k as int]);
            }
            if str_eq(options[k].text.as_str(), "--config") {
                push(
                    found,
                    options[k].range,
                    Level::Error,
                    "named configuration bodies require `--config=name` in Bazel 8.7".to_owned(),
                );
            }
            k = k + 1;
        }
        assert(options@.take(options@.len() as int) =~= options@);
    } else {
        assert(findings_view(found@) =~= s1 + Seq::<FindingView>::empty());
    }
    let ghost s2 = findings_view(found@);
    match catalog {
        Some(c) => {
            let all = uses(line, c);
            let ghost spec_uses = option_uses(c.flag_list(), line_options(*line), 0);
            let mut k: usize = 0;
            assert(spec_uses.take(0) =~= Seq::<OptionUse>::empty());
            assert(findings_view(found@) =~= s2 + uses_findings(c.view_of(), command@, spec_uses.take(0)));
            while k < all.len()
                invariant
                    k <= all@.len(),
                    all@.len() == spec_uses.len(),
                    spec_uses == option_uses(c.flag_list(), line_options(*line), 0),
                    forall|j: int| 0 <= j < all@.len() ==> use_view(#[trigger] all@[j]) == spec_uses[j],
                    findings_view(found@) == s2 + uses_findings(c.view_of(), command@, spec_uses.take(k as int)),
                decreases all@.len() - k,
            {
                proof {
                    assert(spec_uses.take(k + 1).drop_last() =~= spec_uses.take(k as int));
                    assert(spec_uses.take(k + 1).last() == spec_uses[k as int]);
                }
                option_check(c, command.as_str(), &all[k], found);
                k = k + 1;
            }
            assert(spec_uses.take(all@.len() as int) =~= spec_uses);
        },
        None => {
            assert(findings_view(found@) =~= s2 + Seq::<FindingView>::empty());
        },
    }
    assert(findings_view(found@) =~= base + entry_findings(
        configuration.is_ready(),
        configuration.declaration_sites(),
        catalog_view(catalog),
        *line,
    ));
}

} // verus!

verus! {

/// The saved text of the first file the graph read at `path`.
pub open spec fn saved_text(files: Seq<super::index::ConfigurationFile>, path: Seq<char>) -> Option<Seq<char>>
    decreases files.len(),
{
    if files.len() == 0 {
        None
    } else if files[0].path@ == path {
        Some(files[0].text@)
    } else {
        saved_text(files.drop_first(), path)
    }
}

/// The graph's problems in the file `path`, as findings.
pub open spec fn problem_findings(problems: Seq<super::index::Problem>, path: Seq<char>) -> Seq<FindingView>
    decreases problems.len(),
{
    if problems.len() == 0 {
        Seq::empty()
    } else {
        let rest = problem_findings(problems.drop_last(), path);
        let p = problems.last();
        if p.file@ == path {
            rest.push(
                (
                    span_view(p.range),
                    match p.severity {
                        ProblemSeverity::Error => Level::Error,
                        ProblemSeverity::Warning => Level::Warning,
                    },
                    p.message@,
                ),
            )
        } else {
            rest
        }
    }
}

/// Syntax errors, as findings.
pub open spec fn error_findings(errors: Seq<super::syntax::Error>) -> Seq<FindingView> {
    errors.map_values(|e: super::syntax::Error| (span_view(e.range), Level::Error, e.message@))
}

/// The findings of each entry line, in order.
pub open spec fn lines_findings(
    ready: bool,
    declarations: Seq<SiteView>,
    catalog: Option<(Map<Seq<char>, Flag>, Seq<Flag>)>,
    lines: Seq<Line>,
) -> Seq<FindingView>
    decreases lines.len(),
{
    if lines.len() == 0 {
        Seq::empty()
    } else {
        let rest = lines_findings(ready, declarations, catalog, lines.drop_last());
        if lines.last().statement == Some(Statement::Entry) {
            rest + entry_findings(ready, declarations, catalog, lines.last())
        } else {
            rest
        }
    }
}

/// The saved text of the first file the graph read at `path`.
fn saved<'a>(files: &'a Vec<super::index::ConfigurationFile>, path: &str) -> (text: Option<&'a str>)
    ensures
        (match saved_text(files@, path@) {
            Some(t) => text matches Some(s) && s@ == t,
            None => text is None,
        }),
{
    let mut i: usize = 0;
    assert(files@.skip(0) =~= files@);
    while i < files.len()
        invariant
            i <= files@.len(),
            saved_text(files@, path@) == saved_text(files@.skip(i as int), path@),
        decreases files@.len() - i,
    {
        assert(files@.skip(i as int)[0] == files@[i as int]);
        if str_eq(files[i].path.as_str(), path) {
            return Some(files[i].text.as_str());
        }
        assert(files@.skip(i as int).drop_first() =~= files@.skip(i + 1));
        i = i + 1;
    }
    None
}

/// Findings in one rc buffer at `path` holding `text`: its syntax errors;
/// the graph's problems in this file, when the graph read it as it stands;
/// and what each entry line is found to be.
pub fn diagnostics(
    path: &str,
    text: &str,
    parsed: &Parse,
    snapshot: &ConfigurationSnapshot,
    configuration: &ConfigurationView,
    catalog: Option<&FlagCatalog>,
) -> (found: Vec<RcFinding>)
    ensures
        findings_view(found@) == error_findings(parsed.errors@) + (if saved_text(snapshot.files@, path@) == Some(
            text@,
        ) {
            problem_findings(snapshot.problems@, path@)
        } else {
            Seq::empty()
        }) + lines_findings(
            configuration.is_ready(),
            configuration.declaration_sites(),
            catalog_view(catalog),
            parsed.lines@,
        ),
{
    let mut found: Vec<RcFinding> = Vec::new();
    let mut k: usize = 0;
    assert(findings_view(found@) =~= error_findings(parsed.errors@.take(0)));
    while k < parsed.errors.len()
        invariant
            k <= parsed.errors@.len(),
            findings_view(found@) == error_findings(parsed.errors@.take(k as int)),
        decreases parsed.errors@.len() - k,
    {
        let e = &parsed.errors[k];
        let ghost before = findings_view(found@);
        push(&mut found, e.range, Level::Error, e.message.clone());
        assert(error_findings(parsed.errors@.take(k + 1)) =~= error_findings(parsed.errors@.take(k as int)).push(
            (span_view(e.range), Level::Error, e.message@),
        ));
        k = k + 1;
    }
    assert(parsed.errors@.take(parsed.errors@.len() as int) =~= parsed.errors@);
    let ghost s0 = findings_view(found@);
    let current = match saved(&snapshot.files, path) {
        Some(saved_text) => str_eq(saved_text, text),
        None => false,
    };
    if current {
        let problems = &snapshot.problems;
        let mut k: usize = 0;
        assert(problems@.take(0) =~= Seq::<super::index::Problem>::empty());
        assert(findings_view(found@) =~= s0 + problem_findings(problems@.take(0), path@));
        while k < problems.len()
            invariant
                k <= problems@.len(),
                findings_view(found@) == s0 + problem_findings(problems@.take(k as int), path@),
            decreases problems@.len() - k,
        {
            proof {
                assert(problems@.take(k + 1).drop_last() =~= problems@.take(k as int));
                assert(problems@.take(k + 1).last() == problems@[k as int]);
            }
            let p = &problems[k];
            if str_eq(p.file.as_str(), path) {
                let level = match p.severity {
                    ProblemSeverity::Error => Level::Error,
                    ProblemSeverity::Warning => Level::Warning,
                };
                push(&mut found, p.range, level, p.message.clone());
            }
            k = k + 1;
        }
        assert(problems@.take(problems@.len() as int) =~= problems@);
    } else {
        assert(findings_view(found@) =~= s0 + Seq::<FindingView>::empty());
    }
    let ghost s1 = findings_view(found@);
    let lines = &parsed.lines;
    let mut k: usize = 0;
    assert(lines@.take(0) =~= Seq::<Line>::empty());
    assert(findings_view(found@) =~= s1 + lines_findings(
        configuration.is_ready(),
        configuration.declaration_sites(),
        catalog_view(catalog),
        lines@.take(0),
    ));
    while k < lines.len()
        invariant
            k <= lines@.len(),
            findings_view(found@) == s1 + lines_findings(
                configuration.is_ready(),
                configuration.declaration_sites(),
                catalog_view(catalog),
                lines@.take(k as int),
            ),
        decreases lines@.len() - k,
    {
        proof {
            assert(lines@.take(k + 1).drop_last() =~= lines@.take(k as int));
            assert(lines@.take(k + 1).last() == lines@[k as int]);
        }
        let entry = match &lines[k].statement {
            Some(Statement::Entry) => true,
            _ => false,
        };
        if entry {
            diagnose_entry(configuration, catalog, &lines[k], &mut found);
        }
        k = k + 1;
    }
    assert(lines@.take(lines@.len() as int) =~= lines@);
    found
}

} // verus!
