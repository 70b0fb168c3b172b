//! Following imports and named configurations: where an import path leads,
//! and where the configuration a `--config` names is declared.

use vstd::prelude::*;
use vstd::utf8::encode_utf8;
use super::commands::{accepts_config, applies, spec_accepts_config, spec_applies};
use super::index::{
    command_of, key_command, opt_text, resolve_import, spec_resolve_import, ConfigurationSnapshot,
    ImportSite,
};
use super::syntax::{
    config_references, span_view, spec_config_references, Directive, Line, Span, Statement, Token,
};
use super::index::ConfigSite;
use super::provider::saved_text;
use super::syntax::{config_declaration, spec_config_declaration};
use crate::document::{Document, Documents};
use crate::line_index::LineIndex;
use crate::text::{chars_of, chars_less, text_less};
use crate::line_index::text_position;
use crate::text::str_eq;
use crate::uri::{checked_file_uri, file_uri_ok, spec_file_uri};

verus! {

/// A range of a text, as the zero-based line and UTF-16 column of each end.
pub type Place = ((u32, u32), (u32, u32));

/// The range of bytes `span` of a text whose bytes are `bs`.
pub open spec fn place_of(bs: Seq<u8>, span: Span) -> Place {
    (text_position(bs, span.start as int), text_position(bs, span.end as int))
}

/// The path token of an import directive: the one after the directive, or
/// after its version condition.
pub open spec fn import_token_of(line: Line) -> Option<Token> {
    match line.statement {
        Some(Statement::Directive(Directive::ConditionalImport(_))) => if line.tokens@.len() > 2 {
            Some(line.tokens@[2])
        } else {
            None
        },
        Some(Statement::Directive(_)) => if line.tokens@.len() > 1 {
            Some(line.tokens@[1])
        } else {
            None
        },
        _ => None,
    }
}

/// The path tokens of every import of a file, in order.
pub open spec fn import_tokens_of(lines: Seq<Line>) -> Seq<Token>
    decreases lines.len(),
{
    if lines.len() == 0 {
        Seq::empty()
    } else {
        let rest = import_tokens_of(lines.drop_last());
        match import_token_of(lines.last()) {
            Some(t) => rest.push(t),
            None => rest,
        }
    }
}

/// The path token of an import directive.
pub fn import_token(line: &Line) -> (token: Option<&Token>)
    ensures
        (match import_token_of(*line) {
            Some(t) => token matches Some(k) && *k == t,
            None => token is None,
        }),
{
    match &line.statement {
        Some(Statement::Directive(Directive::ConditionalImport(_))) => if line.tokens.len() > 2 {
            Some(&line.tokens[2])
        } else {
            None
        },
        Some(Statement::Directive(_)) => if line.tokens.len() > 1 {
            Some(&line.tokens[1])
        } else {
            None
        },
        _ => None,
    }
}

/// The path tokens of every import of a parsed file, in order.
pub fn import_tokens(lines: &[Line]) -> (tokens: Vec<&Token>)
    ensures
        tokens@.len() == import_tokens_of(lines@).len(),
        forall|k: int| 0 <= k < tokens@.len() ==> *(#[trigger] tokens@[k]) == import_tokens_of(lines@)[k],
{
    let mut tokens: Vec<&Token> = Vec::new();
    let mut i: usize = 0;
    while i < lines.len()
        invariant
            i <= lines@.len(),
            tokens@.len() == import_tokens_of(lines@.take(i as int)).len(),
            forall|k: int| 0 <= k < tokens@.len() ==> *(#[trigger] tokens@[k]) == import_tokens_of(lines@.take(i as int))[k],
        decreases lines.len() - i,
    {
        assert(lines@.take(i + 1).drop_last() =~= lines@.take(i as int));
        assert(lines@.take(i + 1).last() == lines@[i as int]);
        match import_token(&lines[i]) {
            Some(t) => tokens.push(t),
            None => {},
        }
        i = i + 1;
    }
    assert(lines@.take(lines@.len() as int) =~= lines@);
    tokens
}

/// The first import of `file` at `range` that resolved to `target`, from
/// position `i` on.
pub open spec fn exact_import(imports: Seq<ImportSite>, file: Seq<char>, range: Span, target: Seq<char>, i: int) -> Option<ImportSite>
    decreases imports.len() - i,
{
    if i < 0 || i >= imports.len() {
        None
    } else if imports[i].file@ == file && imports[i].range == range && imports[i].target@ == target {
        Some(imports[i])
    } else {
        exact_import(imports, file, range, target, i + 1)
    }
}

/// The first active import, anywhere, that resolved to `target`, from
/// position `i` on.
pub open spec fn active_import(imports: Seq<ImportSite>, target: Seq<char>, i: int) -> Option<ImportSite>
    decreases imports.len() - i,
{
    if i < 0 || i >= imports.len() {
        None
    } else if imports[i].active && imports[i].target@ == target {
        Some(imports[i])
    } else {
        active_import(imports, target, i + 1)
    }
}

/// The file an import token of `file` loaded. The graph's record of this
/// very import decides: an inactive one loaded nothing. An import the graph
/// never reached (the buffer has edits) borrows what an active import of
/// the same target loaded.
pub open spec fn spec_imported(imports: Seq<ImportSite>, file: Seq<char>, root: Seq<char>, token: Token) -> Option<Seq<char>> {
    let target = spec_resolve_import(root, token.text@);
    match exact_import(imports, file, token.range, target, 0) {
        Some(site) => if site.active {
            opt_text(site.loaded)
        } else {
            None
        },
        None => match active_import(imports, target, 0) {
            Some(site) => opt_text(site.loaded),
            None => None,
        },
    }
}

/// A copy of an optional text.
fn copy_text(text: &Option<String>) -> (copy: Option<String>)
    ensures
        opt_text(copy) == opt_text(*text),
{
    match text {
        Some(t) => Some(t.clone()),
        None => None,
    }
}

/// The file an import token of `file` loaded.
pub fn imported(configuration: &ConfigurationSnapshot, file: &str, root: &str, token: &Token) -> (loaded: Option<String>)
    ensures
        opt_text(loaded) == spec_imported(configuration.imports@, file@, root@, *token),
{
    let target = resolve_import(root, token.text.as_str());
    let imports = &configuration.imports;
    let mut i: usize = 0;
    while i < imports.len()
        invariant
            i <= imports@.len(),
            imports@ == configuration.imports@,
            target@ == spec_resolve_import(root@, token.text@),
            exact_import(imports@, file@, token.range, target@, 0) == exact_import(imports@, file@, token.range, target@, i as int),
        decreases imports.len() - i,
    {
        let site = &imports[i];
        if str_eq(site.file.as_str(), file) && site.range.start == token.range.start
            && site.range.end == token.range.end && str_eq(site.target.as_str(), target.as_str()) {
            if site.active {
                return copy_text(&site.loaded);
            }
            return None;
        }
        i = i + 1;
    }
    let mut j: usize = 0;
    while j < imports.len()
        invariant
            j <= imports@.len(),
            imports@ == configuration.imports@,
            target@ == spec_resolve_import(root@, token.text@),
            exact_import(imports@, file@, token.range, target@, 0) is None,
            active_import(imports@, target@, 0) == active_import(imports@, target@, j as int),
        decreases imports.len() - j,
    {
        let site = &imports[j];
        if site.active && str_eq(site.target.as_str(), target.as_str()) {
            return copy_text(&site.loaded);
        }
        j = j + 1;
    }
    None
}

/// An import path made a link: where it stands, the URI of the file it
/// loaded, and that file's path.
#[derive(Debug, PartialEq, Eq)]
pub struct ImportLink {
    pub range: Place,
    pub target_uri: String,
    pub tooltip: String,
}

/// The links of the imports from position `i` on: each import that
/// loaded a file with a file URI.
pub open spec fn spec_import_links(
    bs: Seq<u8>,
    tokens: Seq<Token>,
    imports: Seq<ImportSite>,
    file: Seq<char>,
    root: Seq<char>,
) -> Seq<(Place, Seq<char>, Seq<char>)>
    decreases tokens.len(),
{
    if tokens.len() == 0 {
        Seq::empty()
    } else {
        let rest = spec_import_links(bs, tokens.drop_last(), imports, file, root);
        let token = tokens.last();
        match spec_imported(imports, file, root, token) {
            Some(target) => if file_uri_ok(target) {
                rest.push((place_of(bs, token.range), spec_file_uri(target), target))
            } else {
                rest
            },
            None => rest,
        }
    }
}

pub open spec fn import_link_view(l: ImportLink) -> (Place, Seq<char>, Seq<char>) {
    (l.range, l.target_uri@, l.tooltip@)
}

/// A link for every import of an rc buffer that loaded a file. None
/// without a workspace root, which relative imports need.
pub fn document_links(document: &Document, configuration: &ConfigurationSnapshot, root: Option<&str>) -> (links: Vec<ImportLink>)
    requires
        encode_utf8(document.text_view()).len() <= isize::MAX,
    ensures
        links@.map_values(|l: ImportLink| import_link_view(l)) == (match root {
            None => Seq::empty(),
            Some(r) => if document.rc() {
                spec_import_links(
                    encode_utf8(document.text_view()),
                    import_tokens_of(document.rc_parse().lines@),
                    configuration.imports@,
                    document.path_view(),
                    r@,
                )
            } else {
                Seq::empty()
            },
        }),
{
    let mut links: Vec<ImportLink> = Vec::new();
    let root = match root {
        Some(root) => root,
        None => {
            assert(links@.map_values(|l: ImportLink| import_link_view(l)) =~= Seq::<(Place, Seq<char>, Seq<char>)>::empty());
            return links;
        },
    };
    let parsed = match document.bazelrc() {
        Some(parsed) => parsed,
        None => {
            assert(links@.map_values(|l: ImportLink| import_link_view(l)) =~= Seq::<(Place, Seq<char>, Seq<char>)>::empty());
            return links;
        },
    };
    let tokens = import_tokens(parsed.lines.as_slice());
    let ghost all = import_tokens_of(parsed.lines@);
    let ghost bs = encode_utf8(document.text_view());
    let mut i: usize = 0;
    assert(all.take(0) =~= Seq::<Token>::empty());
    assert(links@.map_values(|l: ImportLink| import_link_view(l)) =~= Seq::<(Place, Seq<char>, Seq<char>)>::empty());
    while i < tokens.len()
        invariant
            i <= tokens@.len(),
            tokens@.len() == all.len(),
            forall|k: int| 0 <= k < tokens@.len() ==> *(#[trigger] tokens@[k]) == all[k],
            bs == encode_utf8(document.text_view()),
            bs.len() <= isize::MAX,
            links@.map_values(|l: ImportLink| import_link_view(l)) == spec_import_links(
                bs,
                all.take(i as int),
                configuration.imports@,
                document.path_view(),
                root@,
            ),
        decreases tokens.len() - i,
    {
        let token = tokens[i];
        assert(*token == all[i as int]);
        assert(all.take(i + 1).drop_last() =~= all.take(i as int));
        let ghost before = links@.map_values(|l: ImportLink| import_link_view(l));
        match imported(configuration, document.path(), root, token) {
            Some(target) => {
                match checked_file_uri(target.as_str()) {
                    Some(uri) => {
                        let link = ImportLink {
                            range: (document.position(token.range.start), document.position(token.range.end)),
                            target_uri: uri,
                            tooltip: target,
                        };
                        let ghost v = import_link_view(link);
                        links.push(link);
                        assert(links@.map_values(|l: ImportLink| import_link_view(l)) =~= before.push(v));
                    },
                    None => {},
                }
            },
            None => {},
        }
        i = i + 1;
    }
    assert(all.take(all.len() as int) =~= all);
    links
}

/// Whether `offset` lies within `span`, either end included.
pub open spec fn span_holds(span: Span, offset: int) -> bool {
    span.start <= offset <= span.end
}

/// The first reference under `offset` among the references of lines from
/// position `i` on whose sections use named configurations: its section's
/// command, the name, and the name's range.
pub open spec fn reference_at(lines: Seq<Line>, offset: int, i: int) -> Option<(Seq<char>, Seq<char>, (int, int))>
    decreases lines.len() - i,
{
    if i < 0 || i >= lines.len() {
        None
    } else {
        let line = lines[i];
        if line.tokens@.len() > 0 && spec_accepts_config(key_command(line.tokens@[0].text@)) {
            match first_reference_at(spec_config_references(line), offset, 0) {
                Some((name, range)) => Some((key_command(line.tokens@[0].text@), name, range)),
                None => reference_at(lines, offset, i + 1),
            }
        } else {
            reference_at(lines, offset, i + 1)
        }
    }
}

/// The first of the references from position `j` on whose range holds
/// `offset`.
pub open spec fn first_reference_at(references: Seq<(Seq<char>, (int, int))>, offset: int, j: int) -> Option<(Seq<char>, (int, int))>
    decreases references.len() - j,
{
    if j < 0 || j >= references.len() {
        None
    } else if references[j].1.0 <= offset <= references[j].1.1 {
        Some(references[j])
    } else {
        first_reference_at(references, offset, j + 1)
    }
}

/// The named configuration reference under `offset`: its section's
/// command, the name, and the name's range.
pub fn config_reference_at(lines: &[Line], offset: usize) -> (found: Option<(String, String, Span)>)
    ensures
        (match reference_at(lines@, offset as int, 0) {
            Some((command, name, range)) => found matches Some(f) && f.0@ == command && f.1@ == name
                && span_view(f.2) == range,
            None => found is None,
        }),
{
    let mut i: usize = 0;
    while i < lines.len()
        invariant
            i <= lines@.len(),
            reference_at(lines@, offset as int, 0) == reference_at(lines@, offset as int, i as int),
        decreases lines.len() - i,
    {
        let line = &lines[i];
        match line.key() {
            Some(key) => {
                let command = command_of(key.text.as_str());
                if accepts_config(command.as_str()) {
                    let references = config_references(line);
                    let ghost spec = spec_config_references(*line);
                    let mut j: usize = 0;
                    while j < references.len()
                        invariant
                            i < lines@.len(),
                            *line == lines@[i as int],
                            line.tokens@.len() > 0,
                            command@ == key_command(line.tokens@[0].text@),
                            spec_accepts_config(command@),
                            reference_at(lines@, offset as int, 0) == reference_at(lines@, offset as int, i as int),
                            spec == spec_config_references(*line),
                            j <= references@.len(),
                            references@.len() == spec.len(),
                            forall|k: int| 0 <= k < references@.len() ==> (#[trigger] references@[k]).name@ == spec[k].0
                                && span_view(references@[k].range) == spec[k].1,
                            first_reference_at(spec, offset as int, 0) == first_reference_at(spec, offset as int, j as int),
                        decreases references.len() - j,
                    {
                        let reference = &references[j];
                        assert(span_view(references@[j as int].range) == spec[j as int].1);
                        if reference.range.start <= offset && offset <= reference.range.end {
                            return Some((command, reference.name.clone(), reference.range));
                        }
                        j = j + 1;
                    }
                }
            },
            None => {},
        }
        i = i + 1;
    }
    None
}

/// A definition: from `origin` in the buffer to `target` in the file at
/// `target_uri`.
#[derive(Debug, PartialEq, Eq)]
pub struct Link {
    pub origin: Place,
    pub target_uri: String,
    pub target: Place,
}

/// A link as its origin, target URI and target range.
pub type LinkView = (Place, Seq<char>, Place);

pub open spec fn link_view(l: Link) -> LinkView {
    (l.origin, l.target_uri@, l.target)
}

pub open spec fn links_view(ls: Seq<Link>) -> Seq<LinkView> {
    ls.map_values(|l: Link| link_view(l))
}

/// Links sort by target URI, then by where their target starts.
pub open spec fn link_less(a: LinkView, b: LinkView) -> bool {
    text_less(a.1, b.1) || (a.1 == b.1 && (a.2.0.0 < b.2.0.0 || (a.2.0.0 == b.2.0.0 && a.2.0.1 < b.2.0.1)))
}

/// `x` placed into sorted links after every link that does not sort after
/// it.
pub open spec fn insert_link(s: Seq<LinkView>, x: LinkView) -> Seq<LinkView>
    decreases s.len(),
{
    if s.len() == 0 {
        seq![x]
    } else if link_less(x, s.last()) {
        insert_link(s.drop_last(), x).push(s.last())
    } else {
        s.push(x)
    }
}

/// Links in sorted order, links that sort alike kept in the order given.
pub open spec fn sort_links(s: Seq<LinkView>) -> Seq<LinkView>
    decreases s.len(),
{
    if s.len() == 0 {
        s
    } else {
        insert_link(sort_links(s.drop_last()), s.last())
    }
}

/// Whether two links lead to the same range of the same file.
pub open spec fn same_target(a: LinkView, b: LinkView) -> bool {
    a.1 == b.1 && a.2 == b.2
}

/// Links with each run that leads to the same place cut to its first.
pub open spec fn dedup_links(s: Seq<LinkView>) -> Seq<LinkView>
    decreases s.len(),
{
    if s.len() == 0 {
        s
    } else {
        let rest = dedup_links(s.drop_last());
        if rest.len() > 0 && same_target(rest.last(), s.last()) {
            rest
        } else {
            rest.push(s.last())
        }
    }
}

/// The declarations of `name` for `command` in the lines of an open
/// buffer at `uri`, each a link to the whole key that declares it.
pub open spec fn line_declaration_links(
    bs: Seq<u8>,
    lines: Seq<Line>,
    uri: Seq<char>,
    command: Seq<char>,
    name: Seq<char>,
    origin: Place,
) -> Seq<LinkView>
    decreases lines.len(),
{
    if lines.len() == 0 {
        Seq::empty()
    } else {
        let rest = line_declaration_links(bs, lines.drop_last(), uri, command, name, origin);
        let line = lines.last();
        match spec_config_declaration(line) {
            Some((defined_command, defined_name, _)) => if spec_accepts_config(defined_command)
                && defined_name == name && spec_applies(command, defined_command) {
                rest.push((origin, uri, place_of(bs, line.tokens@[0].range)))
            } else {
                rest
            },
            None => rest,
        }
    }
}

/// The declarations of `name` for `command` in every open rc buffer, in
/// the buffers' text, which may be ahead of the disk.
pub open spec fn open_declaration_links(
    buffers: Seq<(String, Document)>,
    command: Seq<char>,
    name: Seq<char>,
    origin: Place,
) -> Seq<LinkView>
    decreases buffers.len(),
{
    if buffers.len() == 0 {
        Seq::empty()
    } else {
        let rest = open_declaration_links(buffers.drop_last(), command, name, origin);
        let (uri, document) = buffers.last();
        if document.rc() {
            rest + line_declaration_links(
                encode_utf8(document.text_view()),
                document.rc_parse().lines@,
                uri@,
                command,
                name,
                origin,
            )
        } else {
            rest
        }
    }
}

/// Whether a buffer is open on `path`.
pub open spec fn is_open(buffers: Seq<(String, Document)>, path: Seq<char>) -> bool {
    exists|i: int| 0 <= i < buffers.len() && (#[trigger] buffers[i]).1.path_view() == path
}

/// The declarations of `name` for `command` the configuration read from
/// disk, in files no buffer is open on, each a link to its name.
pub open spec fn saved_declaration_links(
    sites: Seq<ConfigSite>,
    buffers: Seq<(String, Document)>,
    files: Seq<super::index::ConfigurationFile>,
    command: Seq<char>,
    name: Seq<char>,
    origin: Place,
) -> Seq<LinkView>
    decreases sites.len(),
{
    if sites.len() == 0 {
        Seq::empty()
    } else {
        let rest = saved_declaration_links(sites.drop_last(), buffers, files, command, name, origin);
        let site = sites.last();
        if site.name@ == name && spec_applies(command, site.command@) && !is_open(buffers, site.file@) {
            match saved_text(files, site.file@) {
                Some(text) => if file_uri_ok(site.file@) {
                    rest.push((origin, spec_file_uri(site.file@), place_of(encode_utf8(text), site.range)))
                } else {
                    rest
                },
                None => rest,
            }
        } else {
            rest
        }
    }
}

/// The first import path token whose range holds `offset`.
pub open spec fn import_at(tokens: Seq<Token>, offset: int, i: int) -> Option<Token>
    decreases tokens.len() - i,
{
    if i < 0 || i >= tokens.len() {
        None
    } else if span_holds(tokens[i].range, offset) {
        Some(tokens[i])
    } else {
        import_at(tokens, offset, i + 1)
    }
}

/// Where the thing under `offset` of an rc buffer is defined. An import
/// path leads to the start of the file it loaded. Otherwise a named
/// configuration leads to every declaration that applies to the command
/// of the section it is used in: those in open buffers as they stand, and
/// those on disk in files no buffer is open on; sorted by target, each
/// place once.
pub open spec fn spec_definitions(
    bs: Seq<u8>,
    lines: Seq<Line>,
    path: Seq<char>,
    buffers: Seq<(String, Document)>,
    configuration: ConfigurationSnapshot,
    root: Option<Seq<char>>,
    offset: int,
) -> Seq<LinkView> {
    match import_definition(bs, lines, path, configuration.imports@, root, offset) {
        Some(link) => seq![link],
        None => reference_definitions(bs, lines, buffers, configuration, offset),
    }
}

/// The link an import path under `offset` makes to the start of the file
/// it loaded, when it loaded one with a file URI.
pub open spec fn import_definition(
    bs: Seq<u8>,
    lines: Seq<Line>,
    path: Seq<char>,
    imports: Seq<ImportSite>,
    root: Option<Seq<char>>,
    offset: int,
) -> Option<LinkView> {
    match root {
        Some(r) => match import_at(import_tokens_of(lines), offset, 0) {
            Some(token) => match spec_imported(imports, path, r, token) {
                Some(target) => if file_uri_ok(target) {
                    Some((place_of(bs, token.range), spec_file_uri(target), ((0u32, 0u32), (0u32, 0u32))))
                } else {
                    None
                },
                None => None,
            },
            None => None,
        },
        None => None,
    }
}

/// The declarations of the named configuration under `offset`.
pub open spec fn reference_definitions(
    bs: Seq<u8>,
    lines: Seq<Line>,
    buffers: Seq<(String, Document)>,
    configuration: ConfigurationSnapshot,
    offset: int,
) -> Seq<LinkView> {
    match reference_at(lines, offset, 0) {
        None => Seq::empty(),
        Some((command, name, range)) => {
            let origin = (text_position(bs, range.0), text_position(bs, range.1));
            dedup_links(
                sort_links(
                    open_declaration_links(buffers, command, name, origin)
                        + saved_declaration_links(
                        configuration.declarations@,
                        buffers,
                        configuration.files@,
                        command,
                        name,
                        origin,
                    ),
                ),
            )
        },
    }
}

/// Whether link `a` sorts before link `b`.
fn link_before(a: &Link, b: &Link) -> (r: bool)
    ensures
        r == link_less(link_view(*a), link_view(*b)),
{
    let au = chars_of(a.target_uri.as_str());
    let bu = chars_of(b.target_uri.as_str());
    if chars_less(&au, &bu) {
        return true;
    }
    if !crate::text::str_eq(a.target_uri.as_str(), b.target_uri.as_str()) {
        return false;
    }
    a.target.0.0 < b.target.0.0 || (a.target.0.0 == b.target.0.0 && a.target.0.1 < b.target.0.1)
}

/// Place `x` into sorted links after every link that does not sort after
/// it.
fn insert_sorted(links: &mut Vec<Link>, x: Link)
    ensures
        links_view(final(links)@) == insert_link(links_view(old(links)@), link_view(x)),
{
    let ghost s = links_view(links@);
    let ghost xv = link_view(x);
    let mut j: usize = links.len();
    assert(s.take(j as int) =~= s);
    assert(s.skip(j as int) =~= Seq::<LinkView>::empty());
    while j > 0 && link_before(&x, &links[j - 1])
        invariant
            j <= links@.len(),
            s == links_view(links@),
            xv == link_view(x),
            insert_link(s, xv) == insert_link(s.take(j as int), xv) + s.skip(j as int),
        decreases j,
    {
        proof {
            let t = s.take(j as int);
            assert(t.last() == s[j - 1]);
            assert(t.drop_last() =~= s.take(j - 1));
            assert(s.skip(j - 1) =~= seq![s[j - 1]] + s.skip(j as int));
            assert(insert_link(t, xv) == insert_link(s.take(j - 1), xv).push(s[j - 1]));
            assert(insert_link(s.take(j - 1), xv).push(s[j - 1]) + s.skip(j as int) =~= insert_link(s.take(j - 1), xv) + s.skip(j - 1));
        }
        j = j - 1;
    }
    proof {
        let t = s.take(j as int);
        if j > 0 {
            assert(t.last() == s[j - 1]);
            assert(insert_link(t, xv) == t.push(xv));
        } else {
            assert(t.len() == 0);
        }
    }
    links.insert(j, x);
    assert(links_view(links@) =~= s.take(j as int).push(xv) + s.skip(j as int));
}

/// Links with each run that leads to the same place cut to its first.
fn dedup(links: Vec<Link>) -> (kept: Vec<Link>)
    ensures
        links_view(kept@) == dedup_links(links_view(links@)),
{
    let ghost s = links_view(links@);
    let mut kept: Vec<Link> = Vec::new();
    let mut rest = links;
    let total = rest.len();
    let mut k: usize = 0;
    assert(s.take(0) =~= Seq::<LinkView>::empty());
    assert(links_view(kept@) =~= Seq::<LinkView>::empty());
    while rest.len() > 0
        invariant
            k <= s.len(),
            total == s.len(),
            links_view(rest@) == s.skip(k as int),
            links_view(kept@) == dedup_links(s.take(k as int)),
        decreases rest@.len(),
    {
        let ghost r0 = rest@;
        assert(links_view(r0).len() == r0.len());
        assert(links_view(r0)[0] == link_view(r0[0]));
        assert(s.skip(k as int)[0] == s[k as int]);
        let x = rest.remove(0);
        assert(links_view(rest@) =~= s.skip(k + 1)) by {
            assert(rest@ =~= r0.skip(1));
            assert(links_view(rest@) =~= links_view(r0).skip(1));
            assert(s.skip(k as int).skip(1) =~= s.skip(k + 1));
        }
        assert(s.take(k + 1).drop_last() =~= s.take(k as int));
        assert(s.take(k + 1).last() == s[k as int]);
        let n = kept.len();
        let duplicate = if n > 0 {
            let last = &kept[n - 1];
            crate::text::str_eq(last.target_uri.as_str(), x.target_uri.as_str()) && last.target.0.0 == x.target.0.0
                && last.target.0.1 == x.target.0.1 && last.target.1.0 == x.target.1.0 && last.target.1.1
                == x.target.1.1
        } else {
            false
        };
        proof {
            if n > 0 {
                assert(links_view(kept@).last() == link_view(kept@[n - 1]));
            }
        }
        if !duplicate {
            let ghost before = links_view(kept@);
            let ghost v = link_view(x);
            kept.push(x);
            assert(links_view(kept@) =~= before.push(v));
        }
        k = k + 1;
    }
    assert(s.take(k as int) =~= s);
    kept
}

/// Every buffer's text fits the offsets positions are counted in.
pub open spec fn buffers_fit(buffers: Seq<(String, Document)>) -> bool {
    forall|i: int| 0 <= i < buffers.len() ==> encode_utf8((#[trigger] buffers[i]).1.text_view()).len() <= isize::MAX
}

/// Every file's text fits the offsets positions are counted in.
pub open spec fn files_fit(files: Seq<super::index::ConfigurationFile>) -> bool {
    forall|i: int| 0 <= i < files.len() ==> encode_utf8((#[trigger] files[i]).text@).len() <= isize::MAX
}

/// Add the declarations of `name` for `command` in an open rc buffer.
fn line_declarations(
    document: &Document,
    uri: &str,
    command: &str,
    name: &str,
    origin: Place,
    links: &mut Vec<Link>,
)
    requires
        document.rc(),
        encode_utf8(document.text_view()).len() <= isize::MAX,
    ensures
        links_view(final(links)@) == links_view(old(links)@) + line_declaration_links(
            encode_utf8(document.text_view()),
            document.rc_parse().lines@,
            uri@,
            command@,
            name@,
            origin,
        ),
{
    let parsed = match document.bazelrc() {
        Some(parsed) => parsed,
        None => vstd::pervasive::unreached(),
    };
    let ghost lines = parsed.lines@;
    let ghost bs = encode_utf8(document.text_view());
    let ghost start = links_view(links@);
    let mut i: usize = 0;
    assert(lines.take(0) =~= Seq::<Line>::empty());
    assert(start + Seq::<LinkView>::empty() =~= start);
    while i < parsed.lines.len()
        invariant
            i <= lines.len(),
            lines == parsed.lines@,
            bs == encode_utf8(document.text_view()),
            bs.len() <= isize::MAX,
            links_view(links@) == start + line_declaration_links(bs, lines.take(i as int), uri@, command@, name@, origin),
        decreases parsed.lines.len() - i,
    {
        let line = &parsed.lines[i];
        assert(lines.take(i + 1).drop_last() =~= lines.take(i as int));
        assert(lines.take(i + 1).last() == lines[i as int]);
        match config_declaration(line) {
            Some(declaration) => {
                if accepts_config(declaration.command.as_str()) && str_eq(declaration.name.as_str(), name)
                    && applies(command, declaration.command.as_str()) {
                    let key = &line.tokens[0];
                    let link = Link {
                        origin,
                        target_uri: uri.to_owned(),
                        target: (document.position(key.range.start), document.position(key.range.end)),
                    };
                    let ghost before = links_view(links@);
                    let ghost v = link_view(link);
                    links.push(link);
                    assert(links_view(links@) =~= before.push(v));
                }
            },
            None => {},
        }
        i = i + 1;
    }
    assert(lines.take(lines.len() as int) =~= lines);
}

/// The declarations of `name` for `command` in every open rc buffer.
fn open_declarations(documents: &Documents, command: &str, name: &str, origin: Place) -> (links: Vec<Link>)
    requires
        buffers_fit(documents.buffers_view()),
    ensures
        links_view(links@) == open_declaration_links(documents.buffers_view(), command@, name@, origin),
{
    let buffers = documents.iter();
    let ghost all = buffers@;
    let mut links: Vec<Link> = Vec::new();
    let mut i: usize = 0;
    assert(all.take(0) =~= Seq::<(String, Document)>::empty());
    assert(links_view(links@) =~= Seq::<LinkView>::empty());
    while i < buffers.len()
        invariant
            i <= all.len(),
            all == buffers@,
            all == documents.buffers_view(),
            buffers_fit(all),
            links_view(links@) == open_declaration_links(all.take(i as int), command@, name@, origin),
        decreases buffers.len() - i,
    {
        let (uri, document) = &buffers[i];
        assert(all.take(i + 1).drop_last() =~= all.take(i as int));
        assert(all.take(i + 1).last() == all[i as int]);
        if document.is_bazelrc() {
            assert(encode_utf8(all[i as int].1.text_view()).len() <= isize::MAX);
            line_declarations(document, uri.as_str(), command, name, origin, &mut links);
        }
        i = i + 1;
    }
    assert(all.take(all.len() as int) =~= all);
    links
}

/// Whether a buffer is open on `path`.
fn open_on(documents: &Documents, path: &str) -> (b: bool)
    ensures
        b == is_open(documents.buffers_view(), path@),
{
    let buffers = documents.iter();
    let mut i: usize = 0;
    while i < buffers.len()
        invariant
            i <= buffers@.len(),
            buffers@ == documents.buffers_view(),
            forall|j: int| 0 <= j < i ==> (#[trigger] buffers@[j]).1.path_view() != path@,
        decreases buffers.len() - i,
    {
        if str_eq(buffers[i].1.path(), path) {
            return true;
        }
        i = i + 1;
    }
    false
}

/// The text the configuration read for `path`.
fn saved_file<'a>(configuration: &'a ConfigurationSnapshot, path: &str) -> (text: Option<&'a str>)
    ensures
        (match saved_text(configuration.files@, path@) {
            Some(t) => text matches Some(s) && s@ == t && exists|k: int|
                0 <= k < configuration.files@.len() && (#[trigger] configuration.files@[k]).text@ == t,
            None => text is None,
        }),
{
    let files = &configuration.files;
    let mut i: usize = 0;
    assert(files@.skip(0) =~= files@);
    while i < files.len()
        invariant
            i <= files@.len(),
            files@ == configuration.files@,
            saved_text(files@, path@) == saved_text(files@.skip(i as int), path@),
        decreases files.len() - i,
    {
        assert(files@.skip(i as int).drop_first() =~= files@.skip(i + 1));
        assert(files@.skip(i as int)[0] == files@[i as int]);
        if str_eq(files[i].path.as_str(), path) {
            return Some(files[i].text.as_str());
        }
        i = i + 1;
    }
    None
}

/// Add the declarations of `name` for `command` the configuration read
/// from disk, in files no buffer is open on.
fn saved_declarations(
    configuration: &ConfigurationSnapshot,
    documents: &Documents,
    command: &str,
    name: &str,
    origin: Place,
    links: &mut Vec<Link>,
)
    requires
        files_fit(configuration.files@),
    ensures
        links_view(final(links)@) == links_view(old(links)@) + saved_declaration_links(
            configuration.declarations@,
            documents.buffers_view(),
            configuration.files@,
            command@,
            name@,
            origin,
        ),
{
    let sites = &configuration.declarations;
    let ghost all = sites@;
    let ghost start = links_view(links@);
    let mut i: usize = 0;
    assert(all.take(0) =~= Seq::<ConfigSite>::empty());
    assert(start + Seq::<LinkView>::empty() =~= start);
    while i < sites.len()
        invariant
            i <= all.len(),
            all == sites@,
            all == configuration.declarations@,
            files_fit(configuration.files@),
            links_view(links@) == start + saved_declaration_links(
                all.take(i as int),
                documents.buffers_view(),
                configuration.files@,
                command@,
                name@,
                origin,
            ),
        decreases sites.len() - i,
    {
        let site = &sites[i];
        assert(all.take(i + 1).drop_last() =~= all.take(i as int));
        assert(all.take(i + 1).last() == all[i as int]);
        if str_eq(site.name.as_str(), name) && applies(command, site.command.as_str())
            && !open_on(documents, site.file.as_str()) {
            match saved_file(configuration, site.file.as_str()) {
                Some(text) => {
                    match checked_file_uri(site.file.as_str()) {
                        Some(uri) => {
                            let index = LineIndex::new(text);
                            let link = Link {
                                origin,
                                target_uri: uri,
                                target: (index.position(text, site.range.start), index.position(text, site.range.end)),
                            };
                            let ghost before = links_view(links@);
                            let ghost v = link_view(link);
                            links.push(link);
                            assert(links_view(links@) =~= before.push(v));
                        },
                        None => {},
                    }
                },
                None => {},
            }
        }
        i = i + 1;
    }
    assert(all.take(all.len() as int) =~= all);
}

/// Where the thing at a zero-based line and UTF-16 column of an rc buffer
/// is defined; see [`spec_definitions`].
pub fn definitions(
    document: &Document,
    documents: &Documents,
    configuration: &ConfigurationSnapshot,
    root: Option<&str>,
    line: u32,
    character: u32,
) -> (links: Vec<Link>)
    requires
        encode_utf8(document.text_view()).len() <= isize::MAX,
        buffers_fit(documents.buffers_view()),
        files_fit(configuration.files@),
    ensures
        links_view(links@) == spec_definitions(
            encode_utf8(document.text_view()),
            if document.rc() { document.rc_parse().lines@ } else { Seq::empty() },
            document.path_view(),
            documents.buffers_view(),
            *configuration,
            match root {
                Some(r) => Some(r@),
                None => None::<Seq<char>>,
            },
            crate::line_index::text_offset(encode_utf8(document.text_view()), line, character),
        ),
{
    let offset = document.offset(line, character);
    let empty: Vec<Line> = Vec::new();
    let lines: &[Line] = match document.bazelrc() {
        Some(parsed) => parsed.lines.as_slice(),
        None => empty.as_slice(),
    };
    assert(lines@ == (if document.rc() { document.rc_parse().lines@ } else { Seq::<Line>::empty() }));
    match import_link(document, lines, configuration, root, offset) {
        Some(link) => {
            let mut found: Vec<Link> = Vec::new();
            found.push(link);
            assert(links_view(found@) =~= seq![links_view(found@)[0]]);
            found
        },
        None => declaration_links(document, lines, documents, configuration, offset),
    }
}

/// The link an import path under `offset` makes; see [`import_definition`].
fn import_link(
    document: &Document,
    lines: &[Line],
    configuration: &ConfigurationSnapshot,
    root: Option<&str>,
    offset: usize,
) -> (link: Option<Link>)
    requires
        encode_utf8(document.text_view()).len() <= isize::MAX,
    ensures
        (match import_definition(
            encode_utf8(document.text_view()),
            lines@,
            document.path_view(),
            configuration.imports@,
            match root {
                Some(r) => Some(r@),
                None => None::<Seq<char>>,
            },
            offset as int,
        ) {
            Some(v) => link matches Some(l) && link_view(l) == v,
            None => link is None,
        }),
{
    let dir = match root {
        Some(dir) => dir,
        None => {
            return None;
        },
    };
    let tokens = import_tokens(lines);
    let ghost all = import_tokens_of(lines@);
    let mut i: usize = 0;
    while i < tokens.len()
        invariant
            root == Some(dir),
            all == import_tokens_of(lines@),
            encode_utf8(document.text_view()).len() <= isize::MAX,
            i <= tokens@.len(),
            tokens@.len() == all.len(),
            forall|k: int| 0 <= k < tokens@.len() ==> *(#[trigger] tokens@[k]) == all[k],
            import_at(all, offset as int, 0) == import_at(all, offset as int, i as int),
        decreases tokens.len() - i,
    {
        let token = tokens[i];
        assert(*token == all[i as int]);
        if token.range.start <= offset && offset <= token.range.end {
            let target = match imported(configuration, document.path(), dir, token) {
                Some(target) => target,
                None => {
                    return None;
                },
            };
            let uri = match checked_file_uri(target.as_str()) {
                Some(uri) => uri,
                None => {
                    return None;
                },
            };
            return Some(Link {
                origin: (document.position(token.range.start), document.position(token.range.end)),
                target_uri: uri,
                target: ((0, 0), (0, 0)),
            });
        }
        i = i + 1;
    }
    None
}

/// The declarations of the named configuration under `offset`; see
/// [`reference_definitions`].
fn declaration_links(
    document: &Document,
    lines: &[Line],
    documents: &Documents,
    configuration: &ConfigurationSnapshot,
    offset: usize,
) -> (links: Vec<Link>)
    requires
        encode_utf8(document.text_view()).len() <= isize::MAX,
        buffers_fit(documents.buffers_view()),
        files_fit(configuration.files@),
    ensures
        links_view(links@) == reference_definitions(
            encode_utf8(document.text_view()),
            lines@,
            documents.buffers_view(),
            *configuration,
            offset as int,
        ),
{
    let (command, name, span) = match config_reference_at(lines, offset) {
        Some(found) => found,
        None => {
            let none: Vec<Link> = Vec::new();
            assert(links_view(none@) =~= Seq::<LinkView>::empty());
            return none;
        },
    };
    let origin = (document.position(span.start), document.position(span.end));
    let mut candidates = open_declarations(documents, command.as_str(), name.as_str(), origin);
    saved_declarations(configuration, documents, command.as_str(), name.as_str(), origin, &mut candidates);
    let ghost all = links_view(candidates@);
    let mut sorted: Vec<Link> = Vec::new();
    let mut rest = candidates;
    let mut k: usize = 0;
    let total = rest.len();
    assert(all.take(0) =~= Seq::<LinkView>::empty());
    assert(links_view(sorted@) =~= Seq::<LinkView>::empty());
    while rest.len() > 0
        invariant
            k <= all.len(),
            total == all.len(),
            links_view(rest@) == all.skip(k as int),
            links_view(sorted@) == sort_links(all.take(k as int)),
        decreases rest@.len(),
    {
        let ghost r0 = rest@;
        assert(links_view(r0).len() == r0.len());
        assert(links_view(r0)[0] == link_view(r0[0]));
        assert(all.skip(k as int)[0] == all[k as int]);
        let x = rest.remove(0);
        assert(links_view(rest@) =~= all.skip(k + 1)) by {
            assert(rest@ =~= r0.skip(1));
            assert(links_view(rest@) =~= links_view(r0).skip(1));
            assert(all.skip(k as int).skip(1) =~= all.skip(k + 1));
        }
        assert(all.take(k + 1).drop_last() =~= all.take(k as int));
        assert(all.take(k + 1).last() == all[k as int]);
        insert_sorted(&mut sorted, x);
        k = k + 1;
    }
    assert(all.take(k as int) =~= all);
    dedup(sorted)
}

/// Whether every open buffer and every file the configuration read fits
/// the offsets positions are counted in: what [`definitions`] needs.
pub fn positions_fit(documents: &Documents, configuration: &ConfigurationSnapshot) -> (b: bool)
    ensures
        b == (buffers_fit(documents.buffers_view()) && files_fit(configuration.files@)),
{
    let buffers = documents.iter();
    let mut i: usize = 0;
    while i < buffers.len()
        invariant
            i <= buffers@.len(),
            buffers@ == documents.buffers_view(),
            forall|k: int| 0 <= k < i ==> encode_utf8((#[trigger] buffers@[k]).1.text_view()).len() <= isize::MAX,
        decreases buffers.len() - i,
    {
        if buffers[i].1.text().as_bytes().len() > (isize::MAX as usize) {
            return false;
        }
        i = i + 1;
    }
    let files = &configuration.files;
    let mut j: usize = 0;
    while j < files.len()
        invariant
            j <= files@.len(),
            files@ == configuration.files@,
            buffers_fit(documents.buffers_view()),
            forall|k: int| 0 <= k < j ==> encode_utf8((#[trigger] files@[k]).text@).len() <= isize::MAX,
        decreases files.len() - j,
    {
        if files[j].text.as_str().as_bytes().len() > (isize::MAX as usize) {
            return false;
        }
        j = j + 1;
    }
    true
}

} // verus!
