//! Flag metadata reported by the configured Bazel 8.7 executable, and how an
//! rc option token names one of its flags.

use vstd::prelude::*;
use base64::Engine;
use crate::text::{opt_chars, byte_width, lemma_byte_width_split, lemma_byte_width_single, 
    chars_of, find_char, has_prefix, has_suffix, same_chars, starts_with, str_len, sub_vec,
    string_of,
};

verus! {

/// One option accepted by the configured Bazel executable.
#[derive(Debug, Clone, Default, PartialEq, Eq)]
pub struct Flag {
    pub name: String,
    pub has_negative_flag: bool,
    pub documentation: Option<String>,
    pub commands: Vec<String>,
    pub abbreviation: Option<String>,
    pub allows_multiple: bool,
    pub effect_tags: Vec<String>,
    pub metadata_tags: Vec<String>,
    pub documentation_category: Option<String>,
    pub requires_value: bool,
    pub default_value: Option<String>,
    pub old_name: Option<String>,
    pub deprecation_warning: Option<String>,
    pub option_expansions: Vec<String>,
    pub type_converter: Option<String>,
    pub enum_values: Vec<String>,
}

/// How an option token names its canonical flag.
#[derive(Debug, Clone, Copy, PartialEq, Eq)]
pub enum FlagSpelling {
    Canonical,
    Negative,
    Abbreviation,
    NegativeAbbreviation,
    OldName,
    NegativeOldName,
}

/// A flag an option token names, and how it names it.
#[derive(Debug, Clone, Copy)]
pub struct ResolvedFlag<'a> {
    pub flag: &'a Flag,
    pub spelling: FlagSpelling,
}

/// `flag` lists `command` among its commands.
pub open spec fn spec_supports(flag: Flag, command: Seq<char>) -> bool {
    exists|i: int| 0 <= i < flag.commands@.len() && (#[trigger] flag.commands@[i])@ == command
}

/// Whether `values` holds `s`.
fn holds(values: &Vec<String>, s: &[char]) -> (b: bool)
    ensures
        b == exists|i: int| 0 <= i < values@.len() && (#[trigger] values@[i])@ == s@,
{
    let mut i: usize = 0;
    while i < values.len()
        invariant
            i <= values@.len(),
            forall|j: int| 0 <= j < i ==> (#[trigger] values@[j])@ != s@,
        decreases values@.len() - i,
    {
        if same_chars(&chars_of(values[i].as_str()), s) {
            return true;
        }
        i = i + 1;
    }
    false
}

impl Flag {
    /// Whether this flag is legal in an rc section for `command`.
    pub fn supports(&self, command: &str) -> (b: bool)
        ensures
            b == spec_supports(*self, command@),
    {
        holds(&self.commands, &chars_of(command))
    }
}

/// The flags a list names, later entries replacing earlier ones of the same
/// name.
pub open spec fn flags_map(flags: Seq<Flag>) -> Map<Seq<char>, Flag>
    decreases flags.len(),
{
    if flags.len() == 0 {
        Map::empty()
    } else {
        flags_map(flags.drop_last()).insert(flags.last().name@, flags.last())
    }
}

/// No two flags share a name.
pub open spec fn distinct_names(flags: Seq<Flag>) -> bool {
    forall|i: int, j: int|
        0 <= i < j < flags.len() ==> (#[trigger] flags[i]).name@ != (#[trigger] flags[j]).name@
}

/// The complete `help flags-as-proto` answer from one Bazel 8.7 executable.
#[derive(Debug)]
pub struct FlagCatalog {
    reported: String,
    flags: Vec<Flag>,
}

impl FlagCatalog {
    /// The flags, by name.
    pub closed spec fn view_of(&self) -> Map<Seq<char>, Flag> {
        flags_map(self.flags@)
    }

    /// The line Bazel reported its version with.
    pub closed spec fn reported_view(&self) -> Seq<char> {
        self.reported@
    }

    /// The flags are stored once each.
    #[verifier::type_invariant]
    pub closed spec fn wf(&self) -> bool {
        distinct_names(self.flags@) && forall|i: int|
            0 <= i < self.flags@.len() ==> flags_map(self.flags@).contains_key(
                (#[trigger] self.flags@[i]).name@,
            ) && flags_map(self.flags@)[self.flags@[i].name@] == self.flags@[i]
    }

    /// A catalog of `flags`, a later flag replacing an earlier one of the
    /// same name.
    pub fn from_flags(reported: &str, flags: Vec<Flag>) -> (catalog: Self)
        ensures
            catalog.wf(),
            catalog.view_of() == flags_map(flags@),
            catalog.reported_view() == reported@,
    {
        let ghost all = flags@;
        let total = flags.len();
        assert(all.len() == total);
        let mut rest = flags;
        let mut kept: Vec<Flag> = Vec::new();
        let mut i: usize = 0;
        assert(all.take(0) =~= Seq::<Flag>::empty());
        assert(flags_map(kept@) =~= flags_map(all.take(0)));
        while rest.len() > 0
            invariant
                i <= all.len() <= usize::MAX,
                rest@ == all.skip(i as int),
                distinct_names(kept@),
                flags_map(kept@) == flags_map(all.take(i as int)),
                forall|k: int|
                    0 <= k < kept@.len() ==> flags_map(kept@).contains_key(
                        (#[trigger] kept@[k]).name@,
                    ) && flags_map(kept@)[kept@[k].name@] == kept@[k],
            decreases rest@.len(),
        {
            let flag = rest.remove(0);
            assert(flag == all[i as int]);
            let name = chars_of(flag.name.as_str());
            let mut j: usize = 0;
            let mut found = false;
            while j < kept.len() && !found
                invariant
                    j <= kept@.len(),
                    found ==> j < kept@.len() && kept@[j as int].name@ == name@,
                    !found ==> forall|k: int| 0 <= k < j ==> (#[trigger] kept@[k]).name@ != name@,
                decreases kept@.len() - j, if found { 0int } else { 1int },
            {
                if same_chars(&chars_of(kept[j].name.as_str()), &name) {
                    found = true;
                } else {
                    j = j + 1;
                }
            }
            assert(all.take(i + 1).drop_last() =~= all.take(i as int));
            assert(all.take(i + 1).last() == all[i as int]);
            let ghost before = kept@;
            if found {
                proof {
                    lemma_flags_map_replace(before, j as int, flag);
                }
                kept.set(j, flag);
                assert(kept@ == before.update(j as int, flag));
            } else {
                proof {
                    lemma_flags_map_push(before, flag);
                }
                kept.push(flag);
            }
            i = i + 1;
            assert(rest@ =~= all.skip(i as int));
        }
        assert(all.take(all.len() as int) =~= all);
        FlagCatalog { reported: reported.to_owned(), flags: kept }
    }
}

/// A list of distinct flags maps each to itself.
pub open spec fn maps_itself(flags: Seq<Flag>) -> bool {
    forall|k: int|
        0 <= k < flags.len() ==> flags_map(flags).contains_key((#[trigger] flags[k]).name@)
            && flags_map(flags)[flags[k].name@] == flags[k]
}

/// The keys of the map are the names of the flags.
pub proof fn lemma_flags_map_keys(flags: Seq<Flag>, name: Seq<char>)
    ensures
        flags_map(flags).contains_key(name) <==> exists|k: int|
            0 <= k < flags.len() && (#[trigger] flags[k]).name@ == name,
    decreases flags.len(),
{
    if flags.len() > 0 {
        lemma_flags_map_keys(flags.drop_last(), name);
        if flags_map(flags.drop_last()).contains_key(name) {
            let k = choose|k: int| 0 <= k < flags.drop_last().len() && (#[trigger] flags.drop_last()[k]).name@ == name;
            assert(flags[k] == flags.drop_last()[k]);
        }
        if exists|k: int| 0 <= k < flags.len() && (#[trigger] flags[k]).name@ == name {
            let k = choose|k: int| 0 <= k < flags.len() && (#[trigger] flags[k]).name@ == name;
            if k < flags.len() - 1 {
                assert(flags.drop_last()[k] == flags[k]);
            }
        }
    }
}

/// Appending a flag of a new name adds it.
pub proof fn lemma_flags_map_push(kept: Seq<Flag>, flag: Flag)
    requires
        distinct_names(kept),
        maps_itself(kept),
        forall|k: int| 0 <= k < kept.len() ==> (#[trigger] kept[k]).name@ != flag.name@,
    ensures
        distinct_names(kept.push(flag)),
        maps_itself(kept.push(flag)),
        flags_map(kept.push(flag)) == flags_map(kept).insert(flag.name@, flag),
{
    assert(kept.push(flag).drop_last() =~= kept);
    assert forall|k: int| 0 <= k < kept.push(flag).len() implies flags_map(kept.push(flag)).contains_key(
        (#[trigger] kept.push(flag)[k]).name@,
    ) && flags_map(kept.push(flag))[kept.push(flag)[k].name@] == kept.push(flag)[k] by {
        if k < kept.len() {
            assert(kept.push(flag)[k] == kept[k]);
        }
    }
}

/// The map after a replacement, entry by entry.
proof fn lemma_flags_map_replace_value(kept: Seq<Flag>, j: int, flag: Flag)
    requires
        0 <= j < kept.len(),
        kept[j].name@ == flag.name@,
        distinct_names(kept),
        maps_itself(kept),
    ensures
        maps_itself(kept.update(j, flag)),
{
    let updated = kept.update(j, flag);
    lemma_flags_map_replace_map(kept, j, flag);
    assert forall|k: int| 0 <= k < updated.len() implies flags_map(updated).contains_key(
        (#[trigger] updated[k]).name@,
    ) && flags_map(updated)[updated[k].name@] == updated[k] by {
        if k != j {
            assert(updated[k] == kept[k]);
            assert(kept[k].name@ != kept[j].name@);
        }
    }
}

/// Replacing a flag by one of the same name replaces it in the map.
proof fn lemma_flags_map_replace_map(kept: Seq<Flag>, j: int, flag: Flag)
    requires
        0 <= j < kept.len(),
        kept[j].name@ == flag.name@,
        distinct_names(kept),
    ensures
        flags_map(kept.update(j, flag)) == flags_map(kept).insert(flag.name@, flag),
    decreases kept.len(),
{
    let updated = kept.update(j, flag);
    if j == kept.len() - 1 {
        assert(updated.drop_last() =~= kept.drop_last());
        assert(flags_map(updated) =~= flags_map(kept).insert(flag.name@, flag));
    } else {
        let shorter = kept.drop_last();
        assert(distinct_names(shorter)) by {
            assert forall|a: int, b: int| 0 <= a < b < shorter.len() implies (#[trigger] shorter[a]).name@
                != (#[trigger] shorter[b]).name@ by {
                assert(shorter[a] == kept[a]);
                assert(shorter[b] == kept[b]);
            }
        }
        lemma_flags_map_replace_map(shorter, j, flag);
        assert(updated.drop_last() =~= shorter.update(j, flag));
        assert(kept.last().name@ != flag.name@) by {
            assert(kept[j].name@ != kept[kept.len() - 1].name@);
        }
        assert(flags_map(updated) =~= flags_map(kept).insert(flag.name@, flag));
    }
}

/// Replacing a flag by one of the same name replaces it in the map.
pub proof fn lemma_flags_map_replace(kept: Seq<Flag>, j: int, flag: Flag)
    requires
        0 <= j < kept.len(),
        kept[j].name@ == flag.name@,
        distinct_names(kept),
        maps_itself(kept),
    ensures
        distinct_names(kept.update(j, flag)),
        maps_itself(kept.update(j, flag)),
        flags_map(kept.update(j, flag)) == flags_map(kept).insert(flag.name@, flag),
{
    let updated = kept.update(j, flag);
    assert forall|a: int, b: int| 0 <= a < b < updated.len() implies (#[trigger] updated[a]).name@
        != (#[trigger] updated[b]).name@ by {
        assert(kept[a].name@ != kept[b].name@);
    }
    lemma_flags_map_replace_map(kept, j, flag);
    lemma_flags_map_replace_value(kept, j, flag);
}

} // verus!

verus! {

impl Default for FlagCatalog {
    fn default() -> (catalog: Self)
        ensures
            catalog.view_of() == Map::<Seq<char>, Flag>::empty(),
            catalog.reported_view() == Seq::<char>::empty(),
    {
        let catalog = FlagCatalog { reported: String::new(), flags: Vec::new() };
        assert(flags_map(catalog.flags@) =~= Map::<Seq<char>, Flag>::empty());
        catalog
    }
}

/// `flag` is one of the catalog's flags.
pub open spec fn in_catalog(catalog: Map<Seq<char>, Flag>, flag: Flag) -> bool {
    catalog.contains_key(flag.name@) && catalog[flag.name@] == flag
}

/// Whether `flag` was once called `name` (and has a negative form, when
/// `negative`).
pub open spec fn old_name_matches(flag: Flag, name: Seq<char>, negative: bool) -> bool {
    opt_chars(flag.old_name) == Some(name) && (!negative || flag.has_negative_flag)
}

/// Whether `flag` abbreviates to `abbreviation` (and has a negative form,
/// when `negative`).
pub open spec fn abbreviation_matches(flag: Flag, abbreviation: Seq<char>, negative: bool) -> bool {
    opt_chars(flag.abbreviation) == Some(abbreviation) && (!negative || flag.has_negative_flag)
}

/// The first flag, in catalog order, that was once called `name`.
pub open spec fn first_old_name(flags: Seq<Flag>, name: Seq<char>, negative: bool) -> Option<Flag>
    decreases flags.len(),
{
    if flags.len() == 0 {
        None
    } else if old_name_matches(flags[0], name, negative) {
        Some(flags[0])
    } else {
        first_old_name(flags.drop_first(), name, negative)
    }
}

/// The first flag, in catalog order, that abbreviates to `abbreviation`.
pub open spec fn first_abbreviation(flags: Seq<Flag>, abbreviation: Seq<char>, negative: bool) -> Option<Flag>
    decreases flags.len(),
{
    if flags.len() == 0 {
        None
    } else if abbreviation_matches(flags[0], abbreviation, negative) {
        Some(flags[0])
    } else {
        first_abbreviation(flags.drop_first(), abbreviation, negative)
    }
}

/// An option naming a Starlark build setting rather than a native flag.
pub open spec fn is_build_setting(option: Seq<char>) -> bool {
    starts_with(option, "--//"@) || starts_with(option, "--@"@) || starts_with(option, "--no//"@)
        || starts_with(option, "--no@"@)
}

/// The name part of a long option: what follows `--`, up to the first `=`.
pub open spec fn long_name(option: Seq<char>) -> Seq<char> {
    let long = option.skip(2);
    match crate::text::first_index_of(long, '=') {
        Some(i) => long.take(i),
        None => long,
    }
}

/// The flag an option token names in a catalog whose flags, in order, are
/// `flags`, and how it names it: `--name`, an old name, `--noname` or a
/// negated old name for a flag with a negative form, `-a` or `-a-` for an
/// abbreviation. Where several flags share an old name or an abbreviation,
/// the first in catalog order is the one named.
pub open spec fn spec_resolve(flags: Seq<Flag>, option: Seq<char>) -> Option<(Flag, FlagSpelling)> {
    let catalog = flags_map(flags);
    if is_build_setting(option) {
        None
    } else if starts_with(option, "--"@) {
        let name = long_name(option);
        if catalog.contains_key(name) {
            Some((catalog[name], FlagSpelling::Canonical))
        } else if first_old_name(flags, name, false) is Some {
            Some((first_old_name(flags, name, false).unwrap(), FlagSpelling::OldName))
        } else if starts_with(name, "no"@) && catalog.contains_key(name.skip(2))
            && catalog[name.skip(2)].has_negative_flag {
            Some((catalog[name.skip(2)], FlagSpelling::Negative))
        } else if starts_with(name, "no"@) && first_old_name(flags, name.skip(2), true) is Some {
            Some((first_old_name(flags, name.skip(2), true).unwrap(), FlagSpelling::NegativeOldName))
        } else {
            None
        }
    } else if starts_with(option, "-"@) {
        let short = option.skip(1);
        let negative = crate::text::ends_with(short, "-"@);
        let abbreviation = if negative {
            short.drop_last()
        } else {
            short
        };
        if byte_width(abbreviation) != 1 {
            None
        } else {
            match first_abbreviation(flags, abbreviation, negative) {
                None => None,
                Some(flag) => Some(
                    (
                        flag,
                        if negative {
                            FlagSpelling::NegativeAbbreviation
                        } else {
                            FlagSpelling::Abbreviation
                        },
                    ),
                ),
            }
        }
    } else {
        None
    }
}

/// A sequence is one byte wide exactly when it is one ASCII character.
proof fn lemma_width_one(s: Seq<char>)
    ensures
        byte_width(s) == 1 <==> (s.len() == 1 && (s[0] as u32) < 0x80),
{
    if s.len() == 0 {
        assert(vstd::utf8::encode_utf8(s) =~= Seq::<u8>::empty());
    } else {
        lemma_byte_width_split(s, 1);
        assert(s.take(1) =~= seq![s[0]]);
        lemma_byte_width_single(s[0]);
        if s.len() > 1 {
            lemma_byte_width_split(s.skip(1), 1);
            assert(s.skip(1).take(1) =~= seq![s[1]]);
            lemma_byte_width_single(s[1]);
        } else {
            assert(s.skip(1) =~= Seq::<char>::empty());
            assert(vstd::utf8::encode_utf8(s.skip(1)) =~= Seq::<u8>::empty());
        }
    }
}

/// Whether `flag` is safe in an rc section for `command`, given the whole
/// catalog: `common` needs a command other than `startup`; `always` needs
/// every command any flag is legal for (but `startup`); anything else, that
/// command.
pub open spec fn scope_supports(catalog: Map<Seq<char>, Flag>, flag: Flag, command: Seq<char>) -> bool {
    if command == "common"@ {
        exists|i: int| 0 <= i < flag.commands@.len() && (#[trigger] flag.commands@[i])@ != "startup"@
    } else if command == "always"@ {
        forall|key: Seq<char>, i: int|
            #![trigger catalog[key].commands@[i]]
            catalog.contains_key(key) && 0 <= i < catalog[key].commands@.len()
                && catalog[key].commands@[i]@ != "startup"@ ==> spec_supports(
                flag,
                catalog[key].commands@[i]@,
            )
    } else {
        spec_supports(flag, command)
    }
}

/// Whether `option` names a build setting.
pub(crate) fn build_setting(option: &[char]) -> (b: bool)
    ensures
        b == is_build_setting(option@),
{
    has_prefix(option, &chars_of("--//")) || has_prefix(option, &chars_of("--@")) || has_prefix(
        option,
        &chars_of("--no//"),
    ) || has_prefix(option, &chars_of("--no@"))
}

impl FlagCatalog {
    /// The line Bazel reported its version with.
    pub fn reported(&self) -> (reported: &str)
        ensures
            reported@ == self.reported_view(),
    {
        self.reported.as_str()
    }

    /// The flags, each once.
    pub fn flags(&self) -> (flags: &[Flag])
        ensures
            flags@ == self.flag_list(),
            distinct_names(flags@),
            flags_map(flags@) == self.view_of(),
            forall|k: int| 0 <= k < flags@.len() ==> in_catalog(self.view_of(), #[trigger] flags@[k]),
    {
        proof {
            use_type_invariant(self);
        }
        self.flags.as_slice()
    }

    /// Where in the list the flag named `name` stands.
    fn position(&self, name: &[char]) -> (at: Option<usize>)
        ensures
            (match at {
                Some(k) => k < self.flags@.len() && self.flags@[k as int].name@ == name@
                    && self.view_of().contains_key(name@) && self.view_of()[name@]
                    == self.flags@[k as int],
                None => !self.view_of().contains_key(name@),
            }),
    {
        proof {
            use_type_invariant(self);
        }
        let mut k: usize = 0;
        while k < self.flags.len()
            invariant
                k <= self.flags@.len(),
                self.wf(),
                forall|j: int| 0 <= j < k ==> (#[trigger] self.flags@[j]).name@ != name@,
            decreases self.flags@.len() - k,
        {
            if same_chars(&chars_of(self.flags[k].name.as_str()), name) {
                return Some(k);
            }
            k = k + 1;
        }
        proof {
            lemma_flags_map_keys(self.flags@, name@);
        }
        None
    }

    /// The flag named `name`.
    pub fn get(&self, name: &str) -> (flag: Option<&Flag>)
        ensures
            (match flag {
                Some(f) => self.view_of().contains_key(name@) && *f == self.view_of()[name@],
                None => !self.view_of().contains_key(name@),
            }),
    {
        match self.position(&chars_of(name)) {
            Some(k) => Some(&self.flags[k]),
            None => None,
        }
    }

    /// The flags in catalog order.
    pub closed spec fn flag_list(&self) -> Seq<Flag> {
        self.flags@
    }

    /// The first flag once called `name` (with a negative form, when
    /// `negative`).
    fn find_old_name(&self, name: &[char], negative: bool) -> (found: Option<&Flag>)
        ensures
            (match found {
                Some(f) => first_old_name(self.flag_list(), name@, negative) == Some(*f),
                None => first_old_name(self.flag_list(), name@, negative) is None,
            }),
    {
        let ghost all = self.flags@;
        let mut k: usize = 0;
        assert(all.skip(0) =~= all);
        while k < self.flags.len()
            invariant
                all == self.flags@,
                k <= all.len(),
                first_old_name(all, name@, negative) == first_old_name(all.skip(k as int), name@, negative),
            decreases all.len() - k,
        {
            let flag = &self.flags[k];
            let matches = match &flag.old_name {
                Some(old) => same_chars(&chars_of(old.as_str()), name),
                None => false,
            };
            assert(all.skip(k as int)[0] == all[k as int]);
            if matches && (!negative || flag.has_negative_flag) {
                return Some(flag);
            }
            assert(all.skip(k as int).drop_first() =~= all.skip(k + 1));
            k = k + 1;
        }
        None
    }

    /// The first flag abbreviated `abbreviation` (with a negative form, when
    /// `negative`).
    fn find_abbreviation(&self, abbreviation: &[char], negative: bool) -> (found: Option<&Flag>)
        ensures
            (match found {
                Some(f) => first_abbreviation(self.flag_list(), abbreviation@, negative) == Some(*f),
                None => first_abbreviation(self.flag_list(), abbreviation@, negative) is None,
            }),
    {
        let ghost all = self.flags@;
        let mut k: usize = 0;
        assert(all.skip(0) =~= all);
        while k < self.flags.len()
            invariant
                all == self.flags@,
                k <= all.len(),
                first_abbreviation(all, abbreviation@, negative) == first_abbreviation(
                    all.skip(k as int),
                    abbreviation@,
                    negative,
                ),
            decreases all.len() - k,
        {
            let flag = &self.flags[k];
            let matches = match &flag.abbreviation {
                Some(a) => same_chars(&chars_of(a.as_str()), abbreviation),
                None => false,
            };
            assert(all.skip(k as int)[0] == all[k as int]);
            if matches && (!negative || flag.has_negative_flag) {
                return Some(flag);
            }
            assert(all.skip(k as int).drop_first() =~= all.skip(k + 1));
            k = k + 1;
        }
        None
    }

    /// Resolve one complete native option spelling, excluding its value:
    /// `--name`, `--noname`, an old name of either, `-a` or `-a-`. Options
    /// that name Starlark build settings are never claimed.
    pub fn resolve_option(&self, option: &str) -> (resolved: Option<ResolvedFlag<'_>>)
        ensures
            (match spec_resolve(self.flag_list(), option@) {
                None => resolved is None,
                Some((flag, spelling)) => resolved matches Some(r) && r.spelling == spelling
                    && *r.flag == flag,
            }),
    {
        proof {
            use_type_invariant(self);
        }
        let o = chars_of(option);
        if build_setting(&o) {
            return None;
        }
        let dashes = chars_of("--");
        if has_prefix(&o, &dashes) {
            proof {
                reveal_strlit("--");
            }
            let n = o.len();
            let long = sub_vec(&o, 2, n);
            assert(long@ =~= o@.skip(2));
            let name = match find_char(&long, '=') {
                Some(i) => sub_vec(&long, 0, i),
                None => long,
            };
            assert(name@ =~= long_name(option@));
            match self.position(&name) {
                Some(k) => {
                    return Some(ResolvedFlag { flag: &self.flags[k], spelling: FlagSpelling::Canonical });
                },
                None => {},
            }
            match self.find_old_name(&name, false) {
                Some(flag) => {
                    return Some(ResolvedFlag { flag, spelling: FlagSpelling::OldName });
                },
                None => {},
            }
            if has_prefix(&name, &chars_of("no")) {
                proof {
                    reveal_strlit("no");
                }
                let m = name.len();
                let positive = sub_vec(&name, 2, m);
                assert(positive@ =~= name@.skip(2));
                match self.position(&positive) {
                    Some(k) => {
                        if self.flags[k].has_negative_flag {
                            return Some(
                                ResolvedFlag { flag: &self.flags[k], spelling: FlagSpelling::Negative },
                            );
                        }
                    },
                    None => {},
                }
                match self.find_old_name(&positive, true) {
                    Some(flag) => {
                        return Some(ResolvedFlag { flag, spelling: FlagSpelling::NegativeOldName });
                    },
                    None => {},
                }
            }
            return None;
        }
        if !has_prefix(&o, &chars_of("-")) {
            return None;
        }
        proof {
            reveal_strlit("-");
        }
        let n = o.len();
        let short = sub_vec(&o, 1, n);
        assert(short@ =~= option@.skip(1));
        let negative = has_suffix(&short, &chars_of("-"));
        let abbreviation = if negative {
            sub_vec(&short, 0, short.len() - 1)
        } else {
            short
        };
        assert(abbreviation@ =~= (if negative {
            option@.skip(1).drop_last()
        } else {
            option@.skip(1)
        }));
        if abbreviation.len() != 1 || abbreviation[0] as u32 >= 0x80 {
            proof {
                lemma_width_one(abbreviation@);
            }
            return None;
        }
        proof {
            lemma_width_one(abbreviation@);
        }
        match self.find_abbreviation(&abbreviation, negative) {
            Some(flag) => Some(
                ResolvedFlag {
                    flag,
                    spelling: if negative {
                        FlagSpelling::NegativeAbbreviation
                    } else {
                        FlagSpelling::Abbreviation
                    },
                },
            ),
            None => None,
        }
    }

    /// Whether `flag` is safe in this exact rc scope: `common` needs a
    /// command other than `startup`; `always` needs every command any flag
    /// is legal for (but `startup`); anything else, that command.
    pub fn supports_scope(&self, flag: &Flag, command: &str) -> (b: bool)
        ensures
            b == scope_supports(self.view_of(), *flag, command@),
    {
        proof {
            use_type_invariant(self);
        }
        let startup = chars_of("startup");
        proof {
            reveal_strlit("always");
            reveal_strlit("common");
        }
        if crate::text::str_eq(command, "common") {
            let mut i: usize = 0;
            while i < flag.commands.len()
                invariant
                    command@ == "common"@,
                    i <= flag.commands@.len(),
                    startup@ == "startup"@,
                    forall|j: int| 0 <= j < i ==> (#[trigger] flag.commands@[j])@ == "startup"@,
                decreases flag.commands@.len() - i,
            {
                if !same_chars(&chars_of(flag.commands[i].as_str()), &startup) {
                    assert(flag.commands@[i as int]@ != "startup"@);
                    return true;
                }
                i = i + 1;
            }
            return false;
        }
        if crate::text::str_eq(command, "always") {
            let mut k: usize = 0;
            while k < self.flags.len()
                invariant
                    command@ == "always"@,
                    "always"@ != "common"@,
                    k <= self.flags@.len(),
                    startup@ == "startup"@,
                    maps_itself(self.flags@),
                    forall|j: int, i: int|
                        #![trigger self.flags@[j].commands@[i]]
                        0 <= j < k && 0 <= i < self.flags@[j].commands@.len()
                            && self.flags@[j].commands@[i]@ != "startup"@ ==> spec_supports(
                            *flag,
                            self.flags@[j].commands@[i]@,
                        ),
                decreases self.flags@.len() - k,
            {
                let candidate = &self.flags[k];
                let mut i: usize = 0;
                while i < candidate.commands.len()
                    invariant
                        command@ == "always"@,
                        "always"@ != "common"@,
                        k < self.flags@.len(),
                        *candidate == self.flags@[k as int],
                        maps_itself(self.flags@),
                        i <= candidate.commands@.len(),
                        startup@ == "startup"@,
                        forall|j: int, c: int|
                            #![trigger self.flags@[j].commands@[c]]
                            0 <= j < k && 0 <= c < self.flags@[j].commands@.len()
                                && self.flags@[j].commands@[c]@ != "startup"@ ==> spec_supports(
                                *flag,
                                self.flags@[j].commands@[c]@,
                            ),
                        forall|c: int|
                            #![trigger candidate.commands@[c]]
                            0 <= c < i && candidate.commands@[c]@ != "startup"@ ==> spec_supports(
                                *flag,
                                candidate.commands@[c]@,
                            ),
                    decreases candidate.commands@.len() - i,
                {
                    let c = candidate.commands[i].as_str();
                    if !same_chars(&chars_of(c), &startup) && !flag.supports(c) {
                        proof {
                            lemma_flags_map_keys(self.flags@, candidate.name@);
                            assert(self.view_of()[candidate.name@] == self.flags@[k as int]);
                            assert(self.view_of()[candidate.name@].commands@[i as int]@ == c@);
                        }
                        return false;
                    }
                    i = i + 1;
                }
                k = k + 1;
            }
            proof {
                let m = self.view_of();
                assert forall|key: Seq<char>, i: int|
                    #![trigger m[key].commands@[i]]
                    m.contains_key(key) && 0 <= i < m[key].commands@.len() && m[key].commands@[i]@
                        != "startup"@ implies spec_supports(*flag, m[key].commands@[i]@) by {
                    lemma_flags_map_keys(self.flags@, key);
                    let j = choose|j: int| 0 <= j < self.flags@.len() && (#[trigger] self.flags@[j]).name@ == key;
                    assert(m[key] == self.flags@[j]);
                    assert(self.flags@[j].commands@[i] == m[key].commands@[i]);
                }
            }
            return true;
        }
        flag.supports(command)
    }
}

} // verus!

verus! {

/// Whether a byte is ASCII whitespace: space, tab, line feed, form feed or
/// carriage return.
pub open spec fn is_ascii_whitespace_byte(b: u8) -> bool {
    b == 0x20 || b == 0x09 || b == 0x0A || b == 0x0C || b == 0x0D
}

/// The bytes of `s` that are not ASCII whitespace, in order.
pub open spec fn without_whitespace(s: Seq<u8>) -> Seq<u8>
    decreases s.len(),
{
    if s.len() == 0 {
        s
    } else if is_ascii_whitespace_byte(s.last()) {
        without_whitespace(s.drop_last())
    } else {
        without_whitespace(s.drop_last()).push(s.last())
    }
}

/// What the standard base64 alphabet, with padding, decodes a byte string
/// to: the encoded bytes, or nothing for input that is not base64.
pub uninterp spec fn standard_base64(encoded: Seq<u8>) -> Option<Seq<u8>>;

/// `base64::engine::general_purpose::STANDARD.decode`: the bytes a standard,
/// padded base64 text encodes, or nothing when it is malformed. The
/// decoding itself is named, not restated.
#[verifier::external_body]
fn base64_decode(encoded: &[u8]) -> (decoded: Option<Vec<u8>>)
    ensures
        (match decoded {
            Some(bytes) => standard_base64(encoded@) == Some(bytes@),
            None => standard_base64(encoded@) is None,
        }),
{
    match base64::engine::general_purpose::STANDARD.decode(encoded) {
        Ok(bytes) => Some(bytes),
        Err(_) => None,
    }
}

/// The protobuf payload of `bazel help flags-as-proto`: its output with the
/// ASCII whitespace removed, decoded as standard base64. `None` when that is
/// not base64.
pub fn flag_catalog_payload(encoded: &[u8]) -> (payload: Option<Vec<u8>>)
    ensures
        (match payload {
            Some(bytes) => standard_base64(without_whitespace(encoded@)) == Some(bytes@),
            None => standard_base64(without_whitespace(encoded@)) is None,
        }),
{
    let mut kept: Vec<u8> = Vec::new();
    let mut i: usize = 0;
    while i < encoded.len()
        invariant
            i <= encoded@.len(),
            kept@ == without_whitespace(encoded@.take(i as int)),
        decreases encoded@.len() - i,
    {
        let b = encoded[i];
        assert(encoded@.take(i + 1).drop_last() =~= encoded@.take(i as int));
        assert(encoded@.take(i + 1).last() == b);
        if !(b == 0x20 || b == 0x09 || b == 0x0A || b == 0x0C || b == 0x0D) {
            kept.push(b);
        }
        i = i + 1;
    }
    assert(encoded@.take(encoded@.len() as int) =~= encoded@);
    base64_decode(kept.as_slice())
}

} // verus!
