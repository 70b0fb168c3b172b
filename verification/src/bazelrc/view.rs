//! The named configurations a request sees: the saved graph, with every
//! open buffer's own sites in place of what the disk says about that file.

use vstd::prelude::*;
use super::commands::{applies, spec_applies};
use super::index::{
    collect_line, line_declaration, line_references, site_view, sites_view, ConfigSite,
    ConfigurationSnapshot, SiteView,
};
use super::syntax::{Line, Parse, Statement};
use crate::text::str_eq;

verus! {

/// An open buffer: its path, and its rc parse when it is an rc file.
#[derive(Clone, Copy)]
pub struct OpenBuffer<'a> {
    pub path: &'a str,
    pub bazelrc: Option<&'a Parse>,
}

/// The declarations the entry lines of `file` make, in order.
pub open spec fn entry_declarations(file: Seq<char>, lines: Seq<Line>) -> Seq<SiteView>
    decreases lines.len(),
{
    if lines.len() == 0 {
        Seq::empty()
    } else {
        let rest = entry_declarations(file, lines.drop_last());
        let line = lines.last();
        if line.statement == Some(Statement::Entry) {
            match line_declaration(file, line) {
                Some(d) => rest.push(d),
                None => rest,
            }
        } else {
            rest
        }
    }
}

/// The references the entry lines of `file` make, in order.
pub open spec fn entry_references(file: Seq<char>, lines: Seq<Line>) -> Seq<SiteView>
    decreases lines.len(),
{
    if lines.len() == 0 {
        Seq::empty()
    } else {
        let rest = entry_references(file, lines.drop_last());
        let line = lines.last();
        if line.statement == Some(Statement::Entry) {
            rest + line_references(file, line)
        } else {
            rest
        }
    }
}

/// The declarations the open rc buffers make, buffer by buffer.
pub open spec fn open_declarations(open: Seq<OpenBuffer>) -> Seq<SiteView>
    decreases open.len(),
{
    if open.len() == 0 {
        Seq::empty()
    } else {
        let rest = open_declarations(open.drop_last());
        match open.last().bazelrc {
            Some(parsed) => rest + entry_declarations(open.last().path@, parsed.lines@),
            None => rest,
        }
    }
}

/// The references the open rc buffers make, buffer by buffer.
pub open spec fn open_references(open: Seq<OpenBuffer>) -> Seq<SiteView>
    decreases open.len(),
{
    if open.len() == 0 {
        Seq::empty()
    } else {
        let rest = open_references(open.drop_last());
        match open.last().bazelrc {
            Some(parsed) => rest + entry_references(open.last().path@, parsed.lines@),
            None => rest,
        }
    }
}

/// Whether some open buffer is the file `path`.
pub open spec fn is_open(open: Seq<OpenBuffer>, path: Seq<char>) -> bool {
    exists|i: int| 0 <= i < open.len() && (#[trigger] open[i]).path@ == path
}

/// The saved sites of files that are not open.
pub open spec fn saved_sites(sites: Seq<SiteView>, open: Seq<OpenBuffer>) -> Seq<SiteView> {
    sites.filter(|s: SiteView| !is_open(open, s.2))
}

/// Sites of the configuration `name`, and of a section that takes part in
/// `command` when one is given.
pub open spec fn site_named(name: Seq<char>, command: Option<Seq<char>>) -> spec_fn(SiteView) -> bool {
    |s: SiteView| s.0 == name && match command {
        Some(c) => spec_applies(c, s.1),
        None => true,
    }
}

/// Request-local configuration sites with open buffers overlaid on disk.
pub struct ConfigurationView {
    ready: bool,
    declarations: Vec<ConfigSite>,
    references: Vec<ConfigSite>,
}

/// Whether some open buffer is the file `path`.
fn opened(open: &[OpenBuffer], path: &str) -> (b: bool)
    ensures
        b == is_open(open@, path@),
{
    let mut i: usize = 0;
    while i < open.len()
        invariant
            i <= open@.len(),
            forall|j: int| 0 <= j < i ==> (#[trigger] open@[j]).path@ != path@,
        decreases open@.len() - i,
    {
        if str_eq(open[i].path, path) {
            return true;
        }
        i = i + 1;
    }
    false
}

/// The saved sites whose files are not open.
fn keep_saved(sites: &Vec<ConfigSite>, open: &[OpenBuffer]) -> (kept: Vec<ConfigSite>)
    ensures
        sites_view(kept@) == saved_sites(sites_view(sites@), open@),
{
    let ghost all = sites_view(sites@);
    let mut kept: Vec<ConfigSite> = Vec::new();
    let mut k: usize = 0;
    assert(sites_view(kept@) =~= saved_sites(all.take(0), open@)) by {
        reveal(Seq::filter);
    }
    while k < sites.len()
        invariant
            k <= sites@.len(),
            all == sites_view(sites@),
            sites_view(kept@) == saved_sites(all.take(k as int), open@),
        decreases sites@.len() - k,
    {
        proof {
            reveal(Seq::filter);
            assert(all.take(k + 1).drop_last() =~= all.take(k as int));
            assert(all.take(k + 1).last() == site_view(sites@[k as int]));
        }
        if !opened(open, sites[k].file.as_str()) {
            let ghost before = kept@;
            let site = ConfigSite {
                name: sites[k].name.clone(),
                command: sites[k].command.clone(),
                file: sites[k].file.clone(),
                range: sites[k].range,
                line: sites[k].line,
                owner: match &sites[k].owner {
                    Some(o) => Some(o.clone()),
                    None => None,
                },
            };
            kept.push(site);
            assert(sites_view(kept@) =~= sites_view(before).push(site_view(sites@[k as int])));
        }
        k = k + 1;
    }
    assert(all.take(sites@.len() as int) =~= all);
    kept
}

/// Record the sites the entry lines of one open rc buffer make.
fn collect(
    file: &str,
    parsed: &Parse,
    declarations: &mut Vec<ConfigSite>,
    references: &mut Vec<ConfigSite>,
)
    ensures
        sites_view(final(declarations)@) == sites_view(old(declarations)@) + entry_declarations(
            file@,
            parsed.lines@,
        ),
        sites_view(final(references)@) == sites_view(old(references)@) + entry_references(
            file@,
            parsed.lines@,
        ),
{
    let ghost d0 = sites_view(declarations@);
    let ghost r0 = sites_view(references@);
    let ghost lines = parsed.lines@;
    let mut i: usize = 0;
    assert(lines.take(0) =~= Seq::<Line>::empty());
    assert(d0 + entry_declarations(file@, lines.take(0)) =~= d0);
    assert(r0 + entry_references(file@, lines.take(0)) =~= r0);
    while i < parsed.lines.len()
        invariant
            i <= lines.len(),
            lines == parsed.lines@,
            sites_view(declarations@) == d0 + entry_declarations(file@, lines.take(i as int)),
            sites_view(references@) == r0 + entry_references(file@, lines.take(i as int)),
        decreases lines.len() - i,
    {
        let line = &parsed.lines[i];
        proof {
            assert(lines.take(i + 1).drop_last() =~= lines.take(i as int));
            assert(lines.take(i + 1).last() == lines[i as int]);
        }
        let entry = match &line.statement {
            Some(Statement::Entry) => true,
            _ => false,
        };
        if entry {
            let ghost dn = sites_view(declarations@);
            let ghost rn = sites_view(references@);
            collect_line(file, line, declarations, references);
            proof {
                let extra = match line_declaration(file@, *line) {
                    Some(d) => seq![d],
                    None => Seq::<SiteView>::empty(),
                };
                assert(d0 + entry_declarations(file@, lines.take(i + 1)) =~= dn + extra);
                assert(r0 + entry_references(file@, lines.take(i + 1)) =~= rn + line_references(
                    file@,
                    *line,
                ));
            }
        }
        i = i + 1;
    }
    assert(lines.take(lines.len() as int) =~= lines);
}

impl ConfigurationView {
    /// Whether the saved graph belongs to a workspace at all.
    pub closed spec fn is_ready(&self) -> bool {
        self.ready
    }

    /// Every declaration the request sees.
    pub closed spec fn declaration_sites(&self) -> Seq<SiteView> {
        sites_view(self.declarations@)
    }

    /// Every reference the request sees.
    pub closed spec fn reference_sites(&self) -> Seq<SiteView> {
        sites_view(self.references@)
    }

    /// The saved graph's sites for files that are not open, then the sites
    /// each open rc buffer makes, buffer by buffer.
    pub fn new(snapshot: &ConfigurationSnapshot, open: &[OpenBuffer]) -> (view: Self)
        ensures
            view.is_ready() == snapshot.root is Some,
            view.declaration_sites() == saved_sites(sites_view(snapshot.declarations@), open@)
                + open_declarations(open@),
            view.reference_sites() == saved_sites(sites_view(snapshot.references@), open@)
                + open_references(open@),
    {
        let mut declarations = keep_saved(&snapshot.declarations, open);
        let mut references = keep_saved(&snapshot.references, open);
        let ghost d0 = sites_view(declarations@);
        let ghost r0 = sites_view(references@);
        let mut i: usize = 0;
        assert(open@.take(0) =~= Seq::<OpenBuffer>::empty());
        assert(d0 + open_declarations(open@.take(0)) =~= d0);
        assert(r0 + open_references(open@.take(0)) =~= r0);
        while i < open.len()
            invariant
                i <= open@.len(),
                sites_view(declarations@) == d0 + open_declarations(open@.take(i as int)),
                sites_view(references@) == r0 + open_references(open@.take(i as int)),
            decreases open@.len() - i,
        {
            proof {
                assert(open@.take(i + 1).drop_last() =~= open@.take(i as int));
                assert(open@.take(i + 1).last() == open@[i as int]);
            }
            match open[i].bazelrc {
                Some(parsed) => {
                    let ghost dn = sites_view(declarations@);
                    let ghost rn = sites_view(references@);
                    collect(open[i].path, parsed, &mut declarations, &mut references);
                    assert(d0 + open_declarations(open@.take(i + 1)) =~= dn + entry_declarations(
                        open@[i as int].path@,
                        parsed.lines@,
                    ));
                    assert(r0 + open_references(open@.take(i + 1)) =~= rn + entry_references(
                        open@[i as int].path@,
                        parsed.lines@,
                    ));
                },
                None => {},
            }
            i = i + 1;
        }
        assert(open@.take(open@.len() as int) =~= open@);
        ConfigurationView { ready: snapshot.root.is_some(), declarations, references }
    }

    /// Whether the saved graph belongs to a workspace at all.
    pub fn ready(&self) -> (b: bool)
        ensures
            b == self.is_ready(),
    {
        self.ready
    }

    /// Every declaration the request sees.
    pub fn declarations(&self) -> (sites: &[ConfigSite])
        ensures
            sites_view(sites@) == self.declaration_sites(),
    {
        self.declarations.as_slice()
    }

    /// Every reference the request sees.
    pub fn references(&self) -> (sites: &[ConfigSite])
        ensures
            sites_view(sites@) == self.reference_sites(),
    {
        self.references.as_slice()
    }

    /// The declarations of the configuration `name`.
    pub fn declarations_named(&self, name: &str) -> (found: Vec<&ConfigSite>)
        ensures
            found@.map_values(|s: &ConfigSite| site_view(*s)) == self.declaration_sites().filter(
                site_named(name@, None),
            ),
    {
        self.applicable(None, name)
    }

    /// The declarations of `name` that take part in `command`.
    pub fn applicable_declarations(&self, command: &str, name: &str) -> (found: Vec<&ConfigSite>)
        ensures
            found@.map_values(|s: &ConfigSite| site_view(*s)) == self.declaration_sites().filter(
                site_named(name@, Some(command@)),
            ),
    {
        self.applicable(Some(command), name)
    }

    /// The declarations of `name`, and that take part in `command` when one
    /// is given.
    fn applicable(&self, command: Option<&str>, name: &str) -> (found: Vec<&ConfigSite>)
        ensures
            found@.map_values(|s: &ConfigSite| site_view(*s)) == self.declaration_sites().filter(
                site_named(
                    name@,
                    match command {
                        Some(c) => Some(c@),
                        None => None,
                    },
                ),
            ),
    {
        let ghost all = sites_view(self.declarations@);
        let ghost keep = site_named(
            name@,
            match command {
                Some(c) => Some(c@),
                None => None,
            },
        );
        let mut found: Vec<&ConfigSite> = Vec::new();
        let mut k: usize = 0;
        assert(found@.map_values(|s: &ConfigSite| site_view(*s)) =~= all.take(0).filter(keep)) by {
            reveal(Seq::filter);
        }
        while k < self.declarations.len()
            invariant
                k <= self.declarations@.len(),
                all == sites_view(self.declarations@),
                keep == site_named(
                    name@,
                    match command {
                        Some(c) => Some(c@),
                        None => None,
                    },
                ),
                found@.map_values(|s: &ConfigSite| site_view(*s)) == all.take(k as int).filter(keep),
            decreases self.declarations@.len() - k,
        {
            let ghost before = found@;
            proof {
                reveal(Seq::filter);
                assert(all.take(k + 1).drop_last() =~= all.take(k as int));
                assert(all.take(k + 1).last() == site_view(self.declarations@[k as int]));
            }
            let site = &self.declarations[k];
            let wanted = str_eq(site.name.as_str(), name) && match command {
                Some(c) => applies(c, site.command.as_str()),
                None => true,
            };
            if wanted {
                found.push(site);
                assert(found@.map_values(|s: &ConfigSite| site_view(*s)) =~= before.map_values(
                    |s: &ConfigSite| site_view(*s),
                ).push(site_view(*site)));
            }
            k = k + 1;
        }
        assert(all.take(self.declarations@.len() as int) =~= all);
        found
    }
}

/// Each open buffer as the view reads it: its path, and its rc parse when
/// it is an rc file.
pub fn open_buffers(documents: &crate::document::Documents) -> (open: Vec<OpenBuffer<'_>>)
    ensures
        open@.len() == documents.buffers_view().len(),
        forall|k: int|
            0 <= k < open@.len() ==> (#[trigger] open@[k]).path@ == documents.buffers_view()[k].1.path_view()
                && (match open@[k].bazelrc {
                Some(p) => documents.buffers_view()[k].1.rc() && *p == documents.buffers_view()[k].1.rc_parse(),
                None => !documents.buffers_view()[k].1.rc(),
            }),
{
    let buffers = documents.iter();
    let mut open: Vec<OpenBuffer<'_>> = Vec::new();
    let mut i: usize = 0;
    while i < buffers.len()
        invariant
            i <= buffers@.len(),
            buffers@ == documents.buffers_view(),
            open@.len() == i,
            forall|k: int|
                0 <= k < i ==> (#[trigger] open@[k]).path@ == documents.buffers_view()[k].1.path_view()
                    && (match open@[k].bazelrc {
                    Some(p) => documents.buffers_view()[k].1.rc() && *p == documents.buffers_view()[k].1.rc_parse(),
                    None => !documents.buffers_view()[k].1.rc(),
                }),
        decreases buffers.len() - i,
    {
        let document = &buffers[i].1;
        open.push(OpenBuffer { path: document.path(), bazelrc: document.bazelrc() });
        i = i + 1;
    }
    open
}

} // verus!
