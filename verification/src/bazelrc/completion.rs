//! Completion in rc files: section keys and directives, named
//! configurations, and the native flags of the exact catalog.

use vstd::prelude::*;
use super::catalog::{scope_supports, Flag, FlagCatalog};
use super::commands::{applies, command_names, names, spec_applies};
use super::hover::{join_all, joined};
use super::index::{sites_view, ConfigSite, SiteView};
use super::view::ConfigurationView;
use super::catalog::FlagSpelling;
use super::index::{command_of, key_command};
use super::native_options::{line_options, option_uses, uses, OptionUse};
use super::navigation::span_holds;
use super::structural::line_at;
use super::syntax::{config_references, spec_config_references, spec_decoded_span, Line, Statement, Token};
use super::commands::{accepts_config, spec_accepts_config};
use crate::document::Document;
use crate::line_index::text_offset;
use crate::text::{chars_of, find_char, first_index_of, str_len, string_of_range};
use vstd::string::StringSliceAdditionalSpecFns;
use vstd::utf8::{decode_utf8, encode_utf8, is_char_boundary};
use crate::text::{sort_distinct, sorted_distinct};
use crate::paths::texts;
use crate::text::{append, starts_with, str_eq, str_starts_with, text_less};

verus! {

/// What kind of thing a completion offers.
#[derive(Debug, Clone, Copy, PartialEq, Eq)]
pub enum ItemKind {
    /// A section key or directive.
    Keyword,
    /// A native flag.
    Property,
    /// A named configuration.
    Reference,
}

/// One completion.
#[derive(Debug, Clone, PartialEq, Eq)]
pub struct Item {
    pub label: String,
    pub kind: ItemKind,
    pub detail: String,
    pub documentation: Option<String>,
    /// What to insert in place of the label, where that differs.
    pub insert_text: Option<String>,
    pub deprecated: bool,
}

/// An item as its label, kind, detail, documentation, insertion and
/// deprecation.
pub type ItemView = (Seq<char>, ItemKind, Seq<char>, Option<Seq<char>>, Option<Seq<char>>, bool);

pub open spec fn item_view(i: Item) -> ItemView {
    (
        i.label@,
        i.kind,
        i.detail@,
        crate::text::opt_chars(i.documentation),
        crate::text::opt_chars(i.insert_text),
        i.deprecated,
    )
}

pub open spec fn items_view(items: Seq<Item>) -> Seq<ItemView> {
    items.map_values(|i: Item| item_view(i))
}

/// A plain keyword item.
pub open spec fn keyword(label: Seq<char>, detail: Seq<char>) -> ItemView {
    (label, ItemKind::Keyword, detail, None, None, false)
}

/// The section keys, then the directives.
pub open spec fn spec_command_items() -> Seq<ItemView> {
    command_names().map_values(
        |name: Seq<char>|
            keyword(
                name,
                if name == "always"@ || name == "common"@ || name == "startup"@ {
                    "Bazel 8.7 rc scope"@
                } else {
                    "Bazel 8.7 command"@
                },
            ),
    ) + seq![
        keyword("import"@, "Required Bazelrc import"@),
        keyword("try-import"@, "Optional Bazelrc import"@),
        keyword("try-import-if-bazel-version"@, "Version-gated optional Bazelrc import"@),
    ]
}

fn keyword_item(label: &str, detail: &str) -> (item: Item)
    ensures
        item_view(item) == keyword(label@, detail@),
{
    Item {
        label: label.to_owned(),
        kind: ItemKind::Keyword,
        detail: detail.to_owned(),
        documentation: None,
        insert_text: None,
        deprecated: false,
    }
}

/// Every section key and directive an rc line may open with.
pub fn command_items() -> (items: Vec<Item>)
    ensures
        items_view(items@) == spec_command_items(),
{
    let all = names();
    let mut items: Vec<Item> = Vec::new();
    let mut i: usize = 0;
    while i < all.len()
        invariant
            i <= all@.len(),
            all@.len() == command_names().len(),
            forall|k: int| 0 <= k < all@.len() ==> (#[trigger] all@[k])@ == command_names()[k],
            items_view(items@) == spec_command_items().take(i as int),
        decreases all.len() - i,
    {
        let name = all[i];
        let detail = if str_eq(name, "always") || str_eq(name, "common") || str_eq(name, "startup") {
            "Bazel 8.7 rc scope"
        } else {
            "Bazel 8.7 command"
        };
        let item = keyword_item(name, detail);
        let ghost before = items_view(items@);
        items.push(item);
        assert(items_view(items@) =~= before.push(item_view(item)));
        assert(spec_command_items().take(i + 1) =~= spec_command_items().take(i as int).push(
            spec_command_items()[i as int],
        ));
        i = i + 1;
    }
    let ghost before = items_view(items@);
    let first = keyword_item("import", "Required Bazelrc import");
    let second = keyword_item("try-import", "Optional Bazelrc import");
    let third = keyword_item("try-import-if-bazel-version", "Version-gated optional Bazelrc import");
    items.push(first);
    items.push(second);
    items.push(third);
    proof {
        let keys = command_names().map_values(
            |name: Seq<char>|
                keyword(
                    name,
                    if name == "always"@ || name == "common"@ || name == "startup"@ {
                        "Bazel 8.7 rc scope"@
                    } else {
                        "Bazel 8.7 command"@
                    },
                ),
        );
        assert(spec_command_items().take(all@.len() as int) =~= keys);
        assert(before == keys);
        assert(items_view(items@) =~= before.push(item_view(first)).push(item_view(second)).push(item_view(third)));
        assert(spec_command_items() =~= keys.push(item_view(first)).push(item_view(second)).push(item_view(third)));
    }
    items
}

/// Whether some text of `tags` is `tag`.
pub open spec fn has_tag(tags: Seq<String>, tag: Seq<char>) -> bool {
    exists|i: int| 0 <= i < tags.len() && (#[trigger] tags[i])@ == tag
}

/// A flag a user may be offered: documented, not hidden, and not a no-op.
pub open spec fn spec_visible(flag: Flag) -> bool {
    crate::text::opt_chars(flag.documentation_category) != Some("UNDOCUMENTED"@)
        && !has_tag(flag.metadata_tags@, "HIDDEN"@) && !has_tag(flag.effect_tags@, "NO_OP"@)
}

fn tagged(tags: &Vec<String>, tag: &str) -> (b: bool)
    ensures
        b == has_tag(tags@, tag@),
{
    let mut i: usize = 0;
    while i < tags.len()
        invariant
            i <= tags@.len(),
            forall|k: int| 0 <= k < i ==> (#[trigger] tags@[k])@ != tag@,
        decreases tags.len() - i,
    {
        if str_eq(tags[i].as_str(), tag) {
            return true;
        }
        i = i + 1;
    }
    false
}

/// Whether a flag may be offered.
fn visible(flag: &Flag) -> (b: bool)
    ensures
        b == spec_visible(*flag),
{
    let undocumented = match &flag.documentation_category {
        Some(category) => str_eq(category.as_str(), "UNDOCUMENTED"),
        None => false,
    };
    !undocumented && !tagged(&flag.metadata_tags, "HIDDEN") && !tagged(&flag.effect_tags, "NO_OP")
}

/// The item for one spelling of a flag.
pub open spec fn flag_item(flag: Flag, spelling: Seq<char>) -> ItemView {
    (
        spelling,
        ItemKind::Property,
        match flag.type_converter {
            Some(t) => "Bazel 8.7 flag · "@ + t@,
            None => "Bazel 8.7 flag"@,
        },
        crate::text::opt_chars(flag.documentation),
        if flag.requires_value && starts_with(spelling, "--"@) {
            Some(spelling + "="@)
        } else {
            None
        },
        flag.deprecation_warning is Some || has_tag(flag.metadata_tags@, "DEPRECATED"@),
    )
}

/// The spellings a flag is offered under: canonical, negative, its
/// abbreviation, and that negated.
pub open spec fn offered_spellings(flag: Flag) -> Seq<Seq<char>> {
    let negative: Seq<Seq<char>> = if flag.has_negative_flag {
        seq!["--no"@ + flag.name@]
    } else {
        Seq::empty()
    };
    let abbreviated: Seq<Seq<char>> = match flag.abbreviation {
        Some(a) => if flag.has_negative_flag {
            seq!["-"@ + a@, "-"@ + a@ + "-"@]
        } else {
            seq!["-"@ + a@]
        },
        None => Seq::empty(),
    };
    seq!["--"@ + flag.name@] + negative + abbreviated
}

fn push_flag(items: &mut Vec<Item>, flag: &Flag, spelling: String)
    ensures
        items_view(final(items)@) == items_view(old(items)@).push(flag_item(*flag, spelling@)),
{
    let detail = match &flag.type_converter {
        Some(t) => {
            let mut d = "Bazel 8.7 flag · ".to_owned();
            append(&mut d, t.as_str());
            d
        },
        None => "Bazel 8.7 flag".to_owned(),
    };
    let deprecated = flag.deprecation_warning.is_some() || tagged(&flag.metadata_tags, "DEPRECATED");
    let insert_text = if flag.requires_value && str_starts_with(spelling.as_str(), "--") {
        let mut t = spelling.clone();
        append(&mut t, "=");
        Some(t)
    } else {
        None
    };
    let documentation = match &flag.documentation {
        Some(d) => Some(d.clone()),
        None => None,
    };
    let item = Item { label: spelling, kind: ItemKind::Property, detail, documentation, insert_text, deprecated };
    let ghost before = items_view(items@);
    items.push(item);
    assert(items_view(items@) =~= before.push(item_view(item)));
}

/// `x` placed into items sorted by label after every item whose label
/// does not sort after its own.
pub open spec fn insert_item(s: Seq<ItemView>, x: ItemView) -> Seq<ItemView>
    decreases s.len(),
{
    if s.len() == 0 {
        seq![x]
    } else if text_less(x.0, s.last().0) {
        insert_item(s.drop_last(), x).push(s.last())
    } else {
        s.push(x)
    }
}

/// Items sorted by label, items of one label kept in the order given.
pub open spec fn sort_items(s: Seq<ItemView>) -> Seq<ItemView>
    decreases s.len(),
{
    if s.len() == 0 {
        s
    } else {
        insert_item(sort_items(s.drop_last()), s.last())
    }
}

/// The items of the flags from position `i` on that `command`'s section
/// may hold and that are visible, each under every offered spelling.
pub open spec fn flag_candidates(catalog: Map<Seq<char>, Flag>, flags: Seq<Flag>, command: Seq<char>) -> Seq<ItemView>
    decreases flags.len(),
{
    if flags.len() == 0 {
        Seq::empty()
    } else {
        let rest = flag_candidates(catalog, flags.drop_last(), command);
        let flag = flags.last();
        if scope_supports(catalog, flag, command) && spec_visible(flag) {
            rest + offered_spellings(flag).map_values(|s: Seq<char>| flag_item(flag, s))
        } else {
            rest
        }
    }
}

/// Place `x` into items sorted by label.
fn insert_by_label(items: &mut Vec<Item>, x: Item)
    ensures
        items_view(final(items)@) == insert_item(items_view(old(items)@), item_view(x)),
{
    let ghost s = items_view(items@);
    let ghost xv = item_view(x);
    let label = crate::text::chars_of(x.label.as_str());
    let mut j: usize = items.len();
    assert(s.take(j as int) =~= s);
    assert(s.skip(j as int) =~= Seq::<ItemView>::empty());
    while j > 0 && crate::text::chars_less(&label, &crate::text::chars_of(items[j - 1].label.as_str()))
        invariant
            j <= items@.len(),
            s == items_view(items@),
            label@ == xv.0,
            xv == item_view(x),
            insert_item(s, xv) == insert_item(s.take(j as int), xv) + s.skip(j as int),
        decreases j,
    {
        proof {
            let t = s.take(j as int);
            assert(t.last() == s[j - 1]);
            assert(t.drop_last() =~= s.take(j - 1));
            assert(s.skip(j - 1) =~= seq![s[j - 1]] + s.skip(j as int));
            assert(insert_item(s.take(j - 1), xv).push(s[j - 1]) + s.skip(j as int) =~= insert_item(
                s.take(j - 1),
                xv,
            ) + s.skip(j - 1));
        }
        j = j - 1;
    }
    proof {
        if j > 0 {
            assert(s.take(j as int).last() == s[j - 1]);
        }
    }
    items.insert(j, x);
    assert(items_view(items@) =~= s.take(j as int).push(xv) + s.skip(j as int));
}

/// Every native flag `command`'s section may hold and a user may be
/// offered, under each spelling, sorted by label.
pub fn flag_items(catalog: &FlagCatalog, command: &str) -> (items: Vec<Item>)
    ensures
        items_view(items@) == sort_items(flag_candidates(catalog.view_of(), catalog.flag_list(), command@)),
{
    let flags = catalog.flags();
    let ghost all = catalog.flag_list();
    assert(flags@ == all);
    let mut candidates: Vec<Item> = Vec::new();
    let mut i: usize = 0;
    assert(all.take(0) =~= Seq::<Flag>::empty());
    assert(items_view(candidates@) =~= Seq::<ItemView>::empty());
    while i < flags.len()
        invariant
            i <= all.len(),
            flags@ == all,
            all == catalog.flag_list(),
            items_view(candidates@) == flag_candidates(catalog.view_of(), all.take(i as int), command@),
        decreases flags.len() - i,
    {
        let flag = &flags[i];
        assert(all.take(i + 1).drop_last() =~= all.take(i as int));
        assert(all.take(i + 1).last() == all[i as int]);
        if catalog.supports_scope(flag, command) && visible(flag) {
            let ghost before = items_view(candidates@);
            let mut canonical = "--".to_owned();
            append(&mut canonical, flag.name.as_str());
            push_flag(&mut candidates, flag, canonical);
            if flag.has_negative_flag {
                let mut negative = "--no".to_owned();
                append(&mut negative, flag.name.as_str());
                push_flag(&mut candidates, flag, negative);
            }
            match &flag.abbreviation {
                Some(a) => {
                    let mut short = "-".to_owned();
                    append(&mut short, a.as_str());
                    push_flag(&mut candidates, flag, short);
                    if flag.has_negative_flag {
                        let mut short_negative = "-".to_owned();
                        append(&mut short_negative, a.as_str());
                        append(&mut short_negative, "-");
                        push_flag(&mut candidates, flag, short_negative);
                    }
                },
                None => {},
            }
            assert(items_view(candidates@) =~= before + offered_spellings(*flag).map_values(
                |s: Seq<char>| flag_item(*flag, s),
            ));
        }
        i = i + 1;
    }
    assert(all.take(all.len() as int) =~= all);
    let ghost unsorted = items_view(candidates@);
    let mut sorted: Vec<Item> = Vec::new();
    let mut rest = candidates;
    let total = rest.len();
    let mut k: usize = 0;
    assert(unsorted.take(0) =~= Seq::<ItemView>::empty());
    assert(items_view(sorted@) =~= Seq::<ItemView>::empty());
    while rest.len() > 0
        invariant
            k <= unsorted.len(),
            total == unsorted.len(),
            items_view(rest@) == unsorted.skip(k as int),
            items_view(sorted@) == sort_items(unsorted.take(k as int)),
        decreases rest@.len(),
    {
        let ghost r0 = rest@;
        assert(items_view(r0).len() == r0.len());
        assert(items_view(r0)[0] == item_view(r0[0]));
        assert(unsorted.skip(k as int)[0] == unsorted[k as int]);
        let x = rest.remove(0);
        assert(items_view(rest@) =~= unsorted.skip(k + 1)) by {
            assert(rest@ =~= r0.skip(1));
            assert(items_view(rest@) =~= items_view(r0).skip(1));
            assert(unsorted.skip(k as int).skip(1) =~= unsorted.skip(k + 1));
        }
        assert(unsorted.take(k + 1).drop_last() =~= unsorted.take(k as int));
        assert(unsorted.take(k + 1).last() == unsorted[k as int]);
        insert_by_label(&mut sorted, x);
        k = k + 1;
    }
    assert(unsorted.take(k as int) =~= unsorted);
    sorted
}

/// The sites that apply to `command`, in order.
pub open spec fn applicable_sites(sites: Seq<SiteView>, command: Seq<char>) -> Seq<SiteView>
    decreases sites.len(),
{
    if sites.len() == 0 {
        Seq::empty()
    } else {
        let rest = applicable_sites(sites.drop_last(), command);
        if spec_applies(command, sites.last().1) {
            rest.push(sites.last())
        } else {
            rest
        }
    }
}

/// The commands of the sites named `name`, in order.
pub open spec fn commands_named(sites: Seq<SiteView>, name: Seq<char>) -> Seq<Seq<char>>
    decreases sites.len(),
{
    if sites.len() == 0 {
        Seq::empty()
    } else {
        let rest = commands_named(sites.drop_last(), name);
        if sites.last().0 == name {
            rest.push(sites.last().1)
        } else {
            rest
        }
    }
}

/// The item for a named configuration and the sections that declare it.
pub open spec fn config_item(name: Seq<char>, commands: Seq<Seq<char>>) -> ItemView {
    (name, ItemKind::Reference, "Bazelrc config ("@ + joined(commands) + ")"@, None, None, false)
}

/// Every configuration declared for a section that applies to `command`,
/// once each and sorted by name, with the sections declaring it, once each
/// and sorted.
pub open spec fn spec_config_items(sites: Seq<SiteView>, command: Seq<char>) -> Seq<ItemView> {
    let found = applicable_sites(sites, command);
    sorted_distinct(found.map_values(|s: SiteView| s.0)).map_values(
        |n: Seq<char>| config_item(n, sorted_distinct(commands_named(found, n))),
    )
}

/// The sites that apply to `command`.
fn applicable_to<'a>(sites: &'a [ConfigSite], command: &str) -> (found: Vec<&'a ConfigSite>)
    ensures
        found@.map_values(|s: &ConfigSite| crate::bazelrc::index::site_view(*s)) == applicable_sites(
            sites_view(sites@),
            command@,
        ),
{
    let ghost all = sites_view(sites@);
    let mut found: Vec<&ConfigSite> = Vec::new();
    let mut i: usize = 0;
    assert(all.take(0) =~= Seq::<SiteView>::empty());
    assert(found@.map_values(|s: &ConfigSite| crate::bazelrc::index::site_view(*s)) =~= Seq::<SiteView>::empty());
    while i < sites.len()
        invariant
            i <= sites@.len(),
            all == sites_view(sites@),
            found@.map_values(|s: &ConfigSite| crate::bazelrc::index::site_view(*s)) == applicable_sites(
                all.take(i as int),
                command@,
            ),
        decreases sites.len() - i,
    {
        assert(all.take(i + 1).drop_last() =~= all.take(i as int));
        assert(all.take(i + 1).last() == all[i as int]);
        let ghost before = found@.map_values(|s: &ConfigSite| crate::bazelrc::index::site_view(*s));
        if applies(command, sites[i].command.as_str()) {
            found.push(&sites[i]);
            assert(found@.map_values(|s: &ConfigSite| crate::bazelrc::index::site_view(*s)) =~= before.push(
                all[i as int],
            ));
        }
        i = i + 1;
    }
    assert(all.take(all.len() as int) =~= all);
    found
}

/// Every named configuration a `--config` in `command`'s section may name;
/// see [`spec_config_items`].
pub fn config_items(view: &ConfigurationView, command: &str) -> (items: Vec<Item>)
    ensures
        items_view(items@) == spec_config_items(view.declaration_sites(), command@),
{
    let found = applicable_to(view.declarations(), command);
    let ghost fv = found@.map_values(|s: &ConfigSite| crate::bazelrc::index::site_view(*s));
    let mut all_names: Vec<String> = Vec::new();
    let mut i: usize = 0;
    while i < found.len()
        invariant
            i <= found@.len(),
            fv == found@.map_values(|s: &ConfigSite| crate::bazelrc::index::site_view(*s)),
            texts(all_names@) == fv.take(i as int).map_values(|s: SiteView| s.0),
        decreases found.len() - i,
    {
        let ghost before = texts(all_names@);
        let name = found[i].name.clone();
        assert(fv[i as int].0 == found@[i as int].name@);
        all_names.push(name);
        assert(texts(all_names@) =~= before.push(fv[i as int].0));
        assert(fv.take(i + 1).map_values(|s: SiteView| s.0) =~= fv.take(i as int).map_values(|s: SiteView| s.0).push(
            fv[i as int].0,
        ));
        i = i + 1;
    }
    assert(fv.take(fv.len() as int) =~= fv);
    let sorted = sort_distinct(all_names);
    let ghost sn = texts(sorted@);
    let mut items: Vec<Item> = Vec::new();
    let mut k: usize = 0;
    while k < sorted.len()
        invariant
            k <= sorted@.len(),
            sn == texts(sorted@),
            sn == sorted_distinct(fv.map_values(|s: SiteView| s.0)),
            fv == found@.map_values(|s: &ConfigSite| crate::bazelrc::index::site_view(*s)),
            fv == applicable_sites(view.declaration_sites(), command@),
            items_view(items@) == sn.take(k as int).map_values(
                |n: Seq<char>| config_item(n, sorted_distinct(commands_named(fv, n))),
            ),
        decreases sorted.len() - k,
    {
        let name = &sorted[k];
        let mut commands: Vec<String> = Vec::new();
        let mut j: usize = 0;
        assert(fv.take(0) =~= Seq::<SiteView>::empty());
        while j < found.len()
            invariant
                j <= found@.len(),
                fv == found@.map_values(|s: &ConfigSite| crate::bazelrc::index::site_view(*s)),
                texts(commands@) == commands_named(fv.take(j as int), name@),
            decreases found.len() - j,
        {
            assert(fv.take(j + 1).drop_last() =~= fv.take(j as int));
            assert(fv.take(j + 1).last() == fv[j as int]);
            if str_eq(found[j].name.as_str(), name.as_str()) {
                commands.push(found[j].command.clone());
                assert(texts(commands@) =~= commands_named(fv.take(j + 1), name@));
            }
            j = j + 1;
        }
        assert(fv.take(fv.len() as int) =~= fv);
        let distinct = sort_distinct(commands);
        let joined_commands = join_all(distinct.as_slice());
        let mut detail = "Bazelrc config (".to_owned();
        append(&mut detail, joined_commands.as_str());
        append(&mut detail, ")");
        let item = Item {
            label: name.clone(),
            kind: ItemKind::Reference,
            detail,
            documentation: None,
            insert_text: None,
            deprecated: false,
        };
        let ghost before = items_view(items@);
        items.push(item);
        assert(items_view(items@) =~= before.push(item_view(item)));
        assert(sn.take(k + 1) =~= sn.take(k as int).push(sn[k as int]));
        k = k + 1;
    }
    assert(sn.take(sn.len() as int) =~= sn);
    items
}

/// The first of the options from position `i` on whose range holds
/// `offset`.
pub open spec fn option_at(options: Seq<Token>, offset: int, i: int) -> Option<int>
    decreases options.len() - i,
{
    if i < 0 || i >= options.len() {
        None
    } else if span_holds(options[i].range, offset) {
        Some(i)
    } else {
        option_at(options, offset, i + 1)
    }
}

/// Some option use carries `token` as its separate value.
pub open spec fn is_a_value(found: Seq<OptionUse>, token: Token) -> bool {
    exists|k: int| 0 <= k < found.len() && ((#[trigger] found[k]).2 matches Some(v) && v.range == token.range)
}

/// Bytes `a..b` of the text as characters, where they are cut at character
/// boundaries.
pub open spec fn slice_of(bs: Seq<u8>, a: int, b: int) -> Option<Seq<char>> {
    if 0 <= a <= b <= bs.len() && is_char_boundary(bs, b) && is_char_boundary(bs.subrange(0, b), a) {
        Some(decode_utf8(bs.subrange(a, b)))
    } else {
        None
    }
}

/// An option token names a build setting or is no option at all.
pub open spec fn not_a_native_flag(text: Seq<char>) -> bool {
    !starts_with(text, "-"@) || starts_with(text, "--//"@) || starts_with(text, "--@"@) || starts_with(
        text,
        "--no//"@,
    ) || starts_with(text, "--no@"@)
}

/// Whether `offset` is where a native flag's name is being written: on no
/// option, or on an option (not a separate value) that may be a native
/// flag, before its `=` when the token is written as it was read.
pub open spec fn spec_completing_native_flag(bs: Seq<u8>, line: Line, found: Seq<OptionUse>, offset: int) -> bool {
    let options = line_options(line);
    match option_at(options, offset, 0) {
        None => true,
        Some(k) => {
            let current = options[k];
            let text = current.text@;
            if is_a_value(found, current) || not_a_native_flag(text) {
                false
            } else {
                match first_index_of(text, '=') {
                    None => true,
                    Some(e) => slice_of(bs, current.range.start as int, current.range.end as int) == Some(text)
                        && offset <= current.range.start + str_len(text.take(e)),
                }
            }
        },
    }
}

/// Bytes `a..b` of `text`, where they are cut at character boundaries.
fn slice(text: &str, a: usize, b: usize) -> (s: Option<&str>)
    requires
        text.spec_bytes().len() <= usize::MAX,
    ensures
        (match slice_of(text.spec_bytes(), a as int, b as int) {
            Some(t) => s matches Some(x) && x@ == t,
            None => s is None,
        }),
{
    if a > b || b > text.len() {
        return None;
    }
    if !text.is_char_boundary(b) {
        return None;
    }
    let (head, _) = text.split_at(b);
    if !head.is_char_boundary(a) {
        return None;
    }
    let (_, middle) = head.split_at(a);
    proof {
        assert(middle.spec_bytes() =~= text.spec_bytes().subrange(a as int, b as int));
        vstd::utf8::encode_utf8_decode_utf8(middle@);
    }
    Some(middle)
}

/// Whether `offset` is where a native flag's name is being written.
fn completing_native_flag(text: &str, line: &Line, catalog: &FlagCatalog, offset: usize) -> (b: bool)
    requires
        text.spec_bytes().len() <= usize::MAX,
    ensures
        b == spec_completing_native_flag(
            text.spec_bytes(),
            *line,
            option_uses(catalog.flag_list(), line_options(*line), 0),
            offset as int,
        ),
{
    let options = line.options();
    let mut k: usize = 0;
    while k < options.len() && !(options[k].range.start <= offset && offset <= options[k].range.end)
        invariant
            k <= options@.len(),
            options@ == line_options(*line),
            option_at(options@, offset as int, 0) == option_at(options@, offset as int, k as int),
        decreases options.len() - k,
    {
        k = k + 1;
    }
    if k >= options.len() {
        return true;
    }
    let current = &options[k];
    let found = uses(line, catalog);
    let ghost spec_found = option_uses(catalog.flag_list(), line_options(*line), 0);
    let mut j: usize = 0;
    while j < found.len()
        invariant
            options@ == line_options(*line),
            k < options@.len(),
            *current == options@[k as int],
            option_at(options@, offset as int, 0) == Some(k as int),
            spec_found == option_uses(catalog.flag_list(), line_options(*line), 0),
            j <= found@.len(),
            found@.len() == spec_found.len(),
            forall|i: int| 0 <= i < found@.len() ==> crate::bazelrc::native_options::use_view(#[trigger] found@[i]) == spec_found[i],
            forall|i: int| 0 <= i < j ==> !(((#[trigger] spec_found[i]).2 matches Some(v) && v.range == current.range)),
        decreases found.len() - j,
    {
        assert(crate::bazelrc::native_options::use_view(found@[j as int]) == spec_found[j as int]);
        match found[j].value {
            Some(value) => {
                if value.range.start == current.range.start && value.range.end == current.range.end {
                    return false;
                }
            },
            None => {},
        }
        j = j + 1;
    }
    let t = current.text.as_str();
    if !str_starts_with(t, "-") || str_starts_with(t, "--//") || str_starts_with(t, "--@") || str_starts_with(
        t,
        "--no//",
    ) || str_starts_with(t, "--no@") {
        return false;
    }
    let cs = chars_of(t);
    let e = match find_char(&cs, '=') {
        Some(e) => e,
        None => {
            return true;
        },
    };
    let before = string_of_range(&cs, 0, e);
    assert(before@ =~= cs@.take(e as int));
    let equals = before.as_str().len();
    let same = match slice(text, current.range.start, current.range.end) {
        Some(s) => str_eq(s, t),
        None => false,
    };
    same && (offset < current.range.start || offset - current.range.start <= equals)
}

/// Whether `offset` is where an enumerated value of the flag the first use
/// from position `i` on names is being written.
pub open spec fn spec_enum_context(
    catalog: Map<Seq<char>, Flag>,
    found: Seq<OptionUse>,
    line: Line,
    command: Seq<char>,
    offset: int,
    i: int,
) -> bool
    decreases found.len() - i,
{
    if i < 0 || i >= found.len() {
        false
    } else {
        let u = found[i];
        match u.1 {
            None => spec_enum_context(catalog, found, line, command, offset, i + 1),
            Some((flag, spelling)) => if flag.enum_values@.len() == 0 || !scope_supports(catalog, flag, command)
                || spelling == FlagSpelling::Negative || spelling == FlagSpelling::NegativeOldName {
                spec_enum_context(catalog, found, line, command, offset, i + 1)
            } else {
                let text = u.0.text@;
                match first_index_of(text, '=') {
                    Some(e) => {
                        let at = str_len(text.take(e)) as int;
                        match spec_decoded_span(u.0.origins@, at, at + 1) {
                            None => false,
                            Some(span) => if span.1 <= offset <= u.0.range.end {
                                true
                            } else {
                                spec_enum_context(catalog, found, line, command, offset, i + 1)
                            },
                        }
                    },
                    None => match u.2 {
                        Some(value) => if span_holds(value.range, offset) {
                            true
                        } else {
                            spec_enum_context(catalog, found, line, command, offset, i + 1)
                        },
                        None => if u.0.range.end < offset <= line.range.end {
                            true
                        } else {
                            spec_enum_context(catalog, found, line, command, offset, i + 1)
                        },
                    },
                }
            },
        }
    }
}

/// Whether `offset` is where an enumerated flag value is being written.
fn enum_context(line: &Line, catalog: &FlagCatalog, command: &str, offset: usize) -> (b: bool)
    ensures
        b == spec_enum_context(
            catalog.view_of(),
            option_uses(catalog.flag_list(), line_options(*line), 0),
            *line,
            command@,
            offset as int,
            0,
        ),
{
    let found = uses(line, catalog);
    let ghost spec_found = option_uses(catalog.flag_list(), line_options(*line), 0);
    let mut i: usize = 0;
    while i < found.len()
        invariant
            spec_found == option_uses(catalog.flag_list(), line_options(*line), 0),
            i <= found@.len(),
            found@.len() == spec_found.len(),
            forall|k: int| 0 <= k < found@.len() ==> crate::bazelrc::native_options::use_view(#[trigger] found@[k]) == spec_found[k],
            spec_enum_context(catalog.view_of(), spec_found, *line, command@, offset as int, 0) == spec_enum_context(
                catalog.view_of(),
                spec_found,
                *line,
                command@,
                offset as int,
                i as int,
            ),
        decreases found.len() - i,
    {
        let usage = found[i];
        assert(crate::bazelrc::native_options::use_view(found@[i as int]) == spec_found[i as int]);
        match usage.resolved {
            None => {},
            Some(resolved) => {
                let flag = resolved.flag;
                let negative = match resolved.spelling {
                    FlagSpelling::Negative => true,
                    FlagSpelling::NegativeOldName => true,
                    _ => false,
                };
                if !(flag.enum_values.len() == 0 || !catalog.supports_scope(flag, command) || negative) {
                    let cs = chars_of(usage.option.text.as_str());
                    match find_char(&cs, '=') {
                        Some(e) => {
                            let before = string_of_range(&cs, 0, e);
                            assert(before@ =~= cs@.take(e as int));
                            let at = before.as_str().len();
                            let n = usage.option.origins.len();
                            if at >= n {
                                return false;
                            }
                            match usage.option.decoded_span(at..at + 1) {
                                None => {
                                    return false;
                                },
                                Some(span) => {
                                    if span.end <= offset && offset <= usage.option.range.end {
                                        return true;
                                    }
                                },
                            }
                        },
                        None => match usage.value {
                            Some(value) => {
                                if value.range.start <= offset && offset <= value.range.end {
                                    return true;
                                }
                            },
                            None => {
                                if offset > usage.option.range.end && offset <= line.range.end {
                                    return true;
                                }
                            },
                        },
                    }
                }
            },
        }
        i = i + 1;
    }
    false
}

/// Some reference's range holds `offset`.
pub open spec fn reference_under(references: Seq<(Seq<char>, (int, int))>, offset: int) -> bool {
    exists|k: int| 0 <= k < references.len() && (#[trigger] references[k]).1.0 <= offset <= references[k].1.1
}

/// What completing at byte `offset` of an rc buffer offers. On no line, or
/// within a comment: nothing. On or before a line's key: the section keys
/// and directives. After a directive: nothing. Where a configuration name
/// is being written (a `--config=` reference, or a last bare `--config`
/// outside a configuration body): the configurations that apply, if the
/// section may use them. Otherwise, in a known section and with a catalog,
/// where a flag name is being written (and no enumerated value is): the
/// native flags the section may hold. Everywhere else, nothing.
pub open spec fn spec_completions(
    bs: Seq<u8>,
    lines: Seq<Line>,
    sites: Seq<SiteView>,
    catalog: Option<FlagCatalog>,
    offset: int,
) -> Seq<ItemView> {
    match line_at(lines, offset, 0) {
        None => Seq::empty(),
        Some(line) => if (line.comment matches Some(c) && offset >= c.start) {
            Seq::empty()
        } else if line.tokens@.len() == 0 || offset <= line.tokens@[0].range.end {
            spec_command_items()
        } else if line.statement matches Some(Statement::Directive(_)) || line.statement == Some(
            Statement::InvalidDirective,
        ) {
            Seq::empty()
        } else {
            let key = line.tokens@[0];
            let command = key_command(key.text@);
            let in_body = key.text@.contains(':');
            let options = line_options(line);
            let trailing = options.len() > 0 && options.last().text@ == "--config"@ && offset
                >= options.last().range.end;
            if in_body && trailing && offset > options.last().range.end {
                Seq::empty()
            } else if reference_under(spec_config_references(line), offset) || (!in_body && trailing) {
                if spec_accepts_config(command) {
                    spec_config_items(sites, command)
                } else {
                    Seq::empty()
                }
            } else if !command_names().contains(command) {
                Seq::empty()
            } else {
                match catalog {
                    None => Seq::empty(),
                    Some(c) => {
                        let found = option_uses(c.flag_list(), options, 0);
                        if spec_enum_context(c.view_of(), found, line, command, offset, 0) {
                            Seq::empty()
                        } else if spec_completing_native_flag(bs, line, found, offset) {
                            sort_items(flag_candidates(c.view_of(), c.flag_list(), command))
                        } else {
                            Seq::empty()
                        }
                    },
                }
            }
        },
    }
}

/// Whether `command` is a section key.
fn known_command(command: &str) -> (b: bool)
    ensures
        b == command_names().contains(command@),
{
    let all = names();
    let mut i: usize = 0;
    while i < all.len()
        invariant
            i <= all@.len(),
            all@.len() == command_names().len(),
            forall|k: int| 0 <= k < all@.len() ==> (#[trigger] all@[k])@ == command_names()[k],
            forall|k: int| 0 <= k < i ==> command_names()[k] != command@,
        decreases all.len() - i,
    {
        if str_eq(all[i], command) {
            assert(command_names()[i as int] == command@);
            return true;
        }
        i = i + 1;
    }
    false
}

/// Whether some reference under `line`'s options holds `offset`.
fn under_reference(line: &Line, offset: usize) -> (b: bool)
    ensures
        b == reference_under(spec_config_references(*line), offset as int),
{
    let references = config_references(line);
    let ghost spec = spec_config_references(*line);
    let mut k: usize = 0;
    while k < references.len()
        invariant
            k <= references@.len(),
            references@.len() == spec.len(),
            spec == spec_config_references(*line),
            forall|i: int| 0 <= i < references@.len() ==> (#[trigger] references@[i]).name@ == spec[i].0
                && super::syntax::span_view(references@[i].range) == spec[i].1,
            forall|i: int| 0 <= i < k ==> !((#[trigger] spec[i]).1.0 <= offset <= spec[i].1.1),
        decreases references.len() - k,
    {
        assert(super::syntax::span_view(references@[k as int].range) == spec[k as int].1);
        if references[k].range.start <= offset && offset <= references[k].range.end {
            return true;
        }
        k = k + 1;
    }
    false
}

/// What completing at a zero-based line and UTF-16 column of an rc buffer
/// offers; see [`spec_completions`].
pub fn completions(
    document: &Document,
    view: &ConfigurationView,
    catalog: Option<&FlagCatalog>,
    line: u32,
    character: u32,
) -> (items: Vec<Item>)
    requires
        encode_utf8(document.text_view()).len() <= isize::MAX,
    ensures
        items_view(items@) == (if document.rc() {
            spec_completions(
                encode_utf8(document.text_view()),
                document.rc_parse().lines@,
                view.declaration_sites(),
                match catalog {
                    Some(c) => Some(*c),
                    None => None::<FlagCatalog>,
                },
                text_offset(encode_utf8(document.text_view()), line, character),
            )
        } else {
            Seq::empty()
        }),
{
    let empty: Vec<Item> = Vec::new();
    assert(items_view(empty@) =~= Seq::<ItemView>::empty());
    let parsed = match document.bazelrc() {
        Some(parsed) => parsed,
        None => {
            return empty;
        },
    };
    let offset = document.offset(line, character);
    let lines = parsed.lines.as_slice();
    let mut i: usize = 0;
    while i < lines.len() && !(lines[i].range.start <= offset && offset <= lines[i].range.end)
        invariant
            i <= lines@.len(),
            line_at(lines@, offset as int, 0) == line_at(lines@, offset as int, i as int),
        decreases lines.len() - i,
    {
        i = i + 1;
    }
    if i >= lines.len() {
        return empty;
    }
    let current = &lines[i];
    match current.comment {
        Some(c) => {
            if offset >= c.start {
                return empty;
            }
        },
        None => {},
    }
    let key = match current.key() {
        Some(key) => key,
        None => {
            return command_items();
        },
    };
    if offset <= key.range.end {
        return command_items();
    }
    match &current.statement {
        Some(Statement::Directive(_)) => {
            return empty;
        },
        Some(Statement::InvalidDirective) => {
            return empty;
        },
        _ => {},
    }
    let command = command_of(key.text.as_str());
    let in_body = find_char(&chars_of(key.text.as_str()), ':').is_some();
    proof {
        if key.text@.contains(':') {
            let k = choose|k: int| 0 <= k < key.text@.len() && key.text@[k] == ':';
            assert(key.text@[k] == ':');
        }
    }
    let options = current.options();
    let n = options.len();
    let trailing = n > 0 && str_eq(options[n - 1].text.as_str(), "--config") && offset >= options[n - 1].range.end;
    if in_body && trailing && offset > options[n - 1].range.end {
        return empty;
    }
    if under_reference(current, offset) || (!in_body && trailing) {
        if accepts_config(command.as_str()) {
            return config_items(view, command.as_str());
        }
        return empty;
    }
    if !known_command(command.as_str()) {
        return empty;
    }
    let catalog = match catalog {
        Some(catalog) => catalog,
        None => {
            return empty;
        },
    };
    if enum_context(current, catalog, command.as_str(), offset) {
        return empty;
    }
    if completing_native_flag(document.text(), current, catalog, offset) {
        return flag_items(catalog, command.as_str());
    }
    empty
}

} // verus!
