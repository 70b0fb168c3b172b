//! Bazel 8.7 named-configuration expansion findings: cycles, a
//! configuration expanded more than once, and chains ten deep.
//!
//! For each command, the configurations whose sections take part in it form
//! a graph: a reference in the body of `owner` is an edge from `owner` to
//! the name it references, followed only when that name is declared; a
//! reference outside any body is a root.

use vstd::prelude::*;
use super::commands::{applies, spec_applies};
use super::index::{site_view, sites_view, ConfigSite, SiteView};
use super::view::ConfigurationView;
use crate::text::{append, str_eq};

verus! {

/// How much an expansion finding matters.
#[derive(Debug, Clone, Copy, PartialEq, Eq, Structural)]
pub enum Severity {
    Error,
    Warning,
}

/// One expansion finding, at the reference it concerns.
#[derive(Debug)]
pub struct Finding {
    pub site: ConfigSite,
    pub severity: Severity,
    pub message: String,
}

/// What an expansion finding is about: a cycle, a configuration expanded
/// again, a deep chain.
#[derive(Debug, Clone, Copy, PartialEq, Eq, Structural)]
pub enum Kind {
    Cycle,
    Repeated,
    Deep,
}

/// The chain of configurations this deep draws a warning.
pub const DEEP_CHAIN: usize = 10;

/// The configurations of a command's graph: declarations of `name` in a
/// section that takes part in `command`.
pub open spec fn defined(declarations: Seq<SiteView>, command: Seq<char>, name: Seq<char>) -> bool {
    exists|i: int|
        0 <= i < declarations.len() && (#[trigger] declarations[i]).0 == name && spec_applies(
            command,
            declarations[i].1,
        )
}

/// The references in the body of `owner`, in a section that takes part in
/// `command`, in order.
pub open spec fn out_edges(references: Seq<SiteView>, command: Seq<char>, owner: Seq<char>) -> Seq<SiteView> {
    references.filter(|r: SiteView| spec_applies(command, r.1) && r.5 == Some(owner))
}

/// The references outside any body, in a section that takes part in
/// `command`, in order.
pub open spec fn roots(references: Seq<SiteView>, command: Seq<char>) -> Seq<SiteView> {
    references.filter(|r: SiteView| spec_applies(command, r.1) && r.5 is None)
}

/// Every reference inside a body, in a section that takes part in
/// `command`, in order.
pub open spec fn body_edges(references: Seq<SiteView>, command: Seq<char>) -> Seq<SiteView> {
    references.filter(|r: SiteView| spec_applies(command, r.1) && r.5 is Some)
}

/// Names as a message shows a chain of them: each quoted, joined by
/// arrows.
pub open spec fn chain(names: Seq<Seq<char>>) -> Seq<char>
    decreases names.len(),
{
    if names.len() == 0 {
        Seq::empty()
    } else if names.len() == 1 {
        "`"@ + names[0] + "`"@
    } else {
        chain(names.drop_last()) + " → "@ + "`"@ + names.last() + "`"@
    }
}

/// Names as a message shows a chain of them.
fn display_chain(names: &Vec<String>) -> (text: String)
    ensures
        text@ == chain(crate::paths::texts(names@)),
{
    let ghost all = crate::paths::texts(names@);
    let mut text = String::new();
    let mut i: usize = 0;
    assert(all.take(0) =~= Seq::<Seq<char>>::empty());
    while i < names.len()
        invariant
            i <= names@.len(),
            all == crate::paths::texts(names@),
            text@ == chain(all.take(i as int)),
        decreases names@.len() - i,
    {
        proof {
            assert(all.take(i + 1).drop_last() =~= all.take(i as int));
            assert(all.take(i + 1).last() == names@[i as int]@);
        }
        if i > 0 {
            append(&mut text, " → ");
        } else {
            assert(text@ =~= Seq::<char>::empty());
        }
        append(&mut text, "`");
        append(&mut text, names[i].as_str());
        append(&mut text, "`");
        proof {
            if i == 0 {
                assert(text@ =~= "`"@ + all[0] + "`"@);
                assert(all.take(1)[0] == all[0]);
            } else {
                assert(text@ =~= chain(all.take(i as int)) + " → "@ + "`"@ + all[i as int] + "`"@);
            }
        }
        i = i + 1;
    }
    assert(all.take(names@.len() as int) =~= all);
    text
}

/// The decimal digits of `n`.
pub open spec fn decimal(n: nat) -> Seq<char>
    decreases n,
{
    if n < 10 {
        seq![digit(n)]
    } else {
        decimal(n / 10) + seq![digit(n % 10)]
    }
}

/// The digit for `d`, below ten.
pub open spec fn digit(d: nat) -> char {
    if d == 0 {
        '0'
    } else if d == 1 {
        '1'
    } else if d == 2 {
        '2'
    } else if d == 3 {
        '3'
    } else if d == 4 {
        '4'
    } else if d == 5 {
        '5'
    } else if d == 6 {
        '6'
    } else if d == 7 {
        '7'
    } else if d == 8 {
        '8'
    } else {
        '9'
    }
}

fn digit_char(d: usize) -> (c: char)
    requires
        d < 10,
    ensures
        c == digit(d as nat),
{
    if d == 0 {
        '0'
    } else if d == 1 {
        '1'
    } else if d == 2 {
        '2'
    } else if d == 3 {
        '3'
    } else if d == 4 {
        '4'
    } else if d == 5 {
        '5'
    } else if d == 6 {
        '6'
    } else if d == 7 {
        '7'
    } else if d == 8 {
        '8'
    } else {
        '9'
    }
}

/// `n` in decimal.
pub fn decimal_string(n: usize) -> (text: Vec<char>)
    ensures
        text@ == decimal(n as nat),
    decreases n,
{
    if n < 10 {
        let mut v: Vec<char> = Vec::new();
        v.push(digit_char(n));
        assert(v@ =~= seq![digit(n as nat)]);
        v
    } else {
        let mut v = decimal_string(n / 10);
        v.push(digit_char(n % 10));
        v
    }
}

/// Whether `name` is a configuration of `command`'s graph.
fn is_defined(declarations: &[ConfigSite], command: &str, name: &str) -> (b: bool)
    ensures
        b == defined(sites_view(declarations@), command@, name@),
{
    let ghost d = sites_view(declarations@);
    let mut i: usize = 0;
    while i < declarations.len()
        invariant
            i <= declarations@.len(),
            d == sites_view(declarations@),
            forall|j: int| 0 <= j < i ==> !((#[trigger] d[j]).0 == name@ && spec_applies(command@, d[j].1)),
        decreases declarations@.len() - i,
    {
        if str_eq(declarations[i].name.as_str(), name) && applies(command, declarations[i].command.as_str()) {
            assert(d[i as int].0 == name@ && spec_applies(command@, d[i as int].1));
            return true;
        }
        i = i + 1;
    }
    false
}

/// The references matching `keep`, in order: those in the body of `owner`
/// (`Some`), or outside any body (`None`).
fn edges_of<'a>(references: &'a [ConfigSite], command: &str, owner: Option<&str>) -> (edges: Vec<&'a ConfigSite>)
    ensures
        edges@.map_values(|s: &ConfigSite| site_view(*s)) == (match owner {
            Some(o) => out_edges(sites_view(references@), command@, o@),
            None => roots(sites_view(references@), command@),
        }),
{
    let ghost all = sites_view(references@);
    let ghost keep = match owner {
        Some(o) => |r: SiteView| spec_applies(command@, r.1) && r.5 == Some(o@),
        None => |r: SiteView| spec_applies(command@, r.1) && r.5 is None,
    };
    let mut edges: Vec<&ConfigSite> = Vec::new();
    let mut k: usize = 0;
    assert(edges@.map_values(|s: &ConfigSite| site_view(*s)) =~= all.take(0).filter(keep)) by {
        reveal(Seq::filter);
    }
    while k < references.len()
        invariant
            k <= references@.len(),
            all == sites_view(references@),
            keep == match owner {
                Some(o) => |r: SiteView| spec_applies(command@, r.1) && r.5 == Some(o@),
                None => |r: SiteView| spec_applies(command@, r.1) && r.5 is None,
            },
            edges@.map_values(|s: &ConfigSite| site_view(*s)) == all.take(k as int).filter(keep),
        decreases references@.len() - k,
    {
        let ghost before = edges@;
        proof {
            reveal(Seq::filter);
            assert(all.take(k + 1).drop_last() =~= all.take(k as int));
            assert(all.take(k + 1).last() == site_view(references@[k as int]));
        }
        let site = &references[k];
        let owned = match (&site.owner, owner) {
            (Some(a), Some(b)) => str_eq(a.as_str(), b),
            (None, None) => true,
            _ => false,
        };
        if owned && applies(command, site.command.as_str()) {
            edges.push(site);
            assert(edges@.map_values(|s: &ConfigSite| site_view(*s)) =~= before.map_values(
                |s: &ConfigSite| site_view(*s),
            ).push(site_view(*site)));
        }
        k = k + 1;
    }
    assert(all.take(references@.len() as int) =~= all);
    edges
}

/// Names on the stack are distinct configurations of the graph, which
/// bounds how deep the stack can grow.
pub open spec fn fits(stack: Seq<Seq<char>>, declarations: Seq<SiteView>) -> bool {
    stack.no_duplicates() && forall|i: int|
        0 <= i < stack.len() ==> exists|k: int|
            0 <= k < declarations.len() && (#[trigger] declarations[k]).0 == #[trigger] stack[i]
}

proof fn lemma_fits(stack: Seq<Seq<char>>, declarations: Seq<SiteView>)
    requires
        fits(stack, declarations),
    ensures
        stack.len() <= declarations.len(),
{
    broadcast use vstd::seq_lib::seq_to_set_is_finite;
    let names = declarations.map_values(|d: SiteView| d.0);
    stack.unique_seq_to_set();
    names.lemma_cardinality_of_set();
    assert forall|x: Seq<char>| stack.to_set().contains(x) implies names.to_set().contains(x) by {
        let i = choose|i: int| 0 <= i < stack.len() && stack[i] == x;
        let k = choose|k: int| 0 <= k < declarations.len() && (#[trigger] declarations[k]).0 == stack[i];
        assert(names[k] == x);
    }
    vstd::set_lib::lemma_len_subset(stack.to_set(), names.to_set());
}

proof fn lemma_fits_push(stack: Seq<Seq<char>>, declarations: Seq<SiteView>, command: Seq<char>, name: Seq<char>)
    requires
        fits(stack, declarations),
        defined(declarations, command, name),
        !stack.contains(name),
    ensures
        fits(stack.push(name), declarations),
        stack.len() + 1 <= declarations.len(),
{
    let pushed = stack.push(name);
    assert forall|i: int| 0 <= i < pushed.len() implies exists|k: int|
        0 <= k < declarations.len() && (#[trigger] declarations[k]).0 == #[trigger] pushed[i] by {
        if i < stack.len() {
            assert(pushed[i] == stack[i]);
        } else {
            let k = choose|k: int|
                0 <= k < declarations.len() && (#[trigger] declarations[k]).0 == name && spec_applies(
                    command,
                    declarations[k].1,
                );
            assert(declarations[k].0 == pushed[i]);
        }
    }
    assert forall|a: int, b: int| 0 <= a < pushed.len() && 0 <= b < pushed.len() && a != b implies pushed[a]
        != pushed[b] by {
        if a < stack.len() && b < stack.len() {
        } else if a < stack.len() {
            assert(stack.contains(pushed[a]));
        } else if b < stack.len() {
            assert(stack.contains(pushed[b]));
        }
    }
    lemma_fits(pushed, declarations);
}

} // verus!

verus! {

/// One command's graph: the declarations and references a request sees,
/// and the command.
pub type Graph = (Seq<SiteView>, Seq<SiteView>, Seq<char>);

/// A path of configurations from `from` to `target` found by depth-first
/// search, following edges in order and never re-entering a configuration
/// in `visited`; and the configurations visited by then.
pub open spec fn path_from(
    g: Graph,
    from: Seq<char>,
    target: Seq<char>,
    visited: Seq<Seq<char>>,
    fuel: nat,
) -> (Option<Seq<Seq<char>>>, Seq<Seq<char>>)
    decreases fuel, 1int, 0int,
{
    if fuel == 0 {
        (None, visited)
    } else if from == target {
        (Some(seq![from]), visited)
    } else if visited.contains(from) {
        (None, visited)
    } else {
        let found = path_through(g, out_edges(g.1, g.2, from), 0, target, visited.push(from), fuel);
        (
            match found.0 {
                Some(p) => Some(seq![from] + p),
                None => None,
            },
            found.1,
        )
    }
}

/// The search through edges `i` on, in order.
pub open spec fn path_through(
    g: Graph,
    edges: Seq<SiteView>,
    i: int,
    target: Seq<char>,
    visited: Seq<Seq<char>>,
    fuel: nat,
) -> (Option<Seq<Seq<char>>>, Seq<Seq<char>>)
    decreases fuel, 0int, edges.len() - i,
{
    if i < 0 || i >= edges.len() || fuel == 0 {
        (None, visited)
    } else if !defined(g.0, g.2, edges[i].0) {
        path_through(g, edges, i + 1, target, visited, fuel)
    } else {
        let found = path_from(g, edges[i].0, target, visited, (fuel - 1) as nat);
        if found.0 is Some {
            found
        } else {
            path_through(g, edges, i + 1, target, found.1, fuel)
        }
    }
}

/// A finding before duplicates are dropped: the site, what it is about,
/// how much it matters and its message.
pub type Candidate = (SiteView, Kind, Severity, Seq<char>);

/// Enough search depth for any graph of these declarations.
pub open spec fn depth(g: Graph) -> nat {
    (g.0.len() + 1) as nat
}

/// Each declared edge on a cycle back to its owner, in order.
pub open spec fn cycle_candidates(g: Graph, edges: Seq<SiteView>) -> Seq<Candidate>
    decreases edges.len(),
{
    if edges.len() == 0 {
        Seq::empty()
    } else {
        let rest = cycle_candidates(g, edges.drop_last());
        let e = edges.last();
        let owner = match e.5 {
            Some(o) => o,
            None => Seq::empty(),
        };
        if !defined(g.0, g.2, e.0) {
            rest
        } else {
            match path_from(g, e.0, owner, Seq::empty(), depth(g)).0 {
                Some(p) => rest.push(
                    (e, Kind::Cycle, Severity::Error, "configuration expansion cycle: "@ + chain(seq![owner] + p)),
                ),
                None => rest,
            }
        }
    }
}

/// A finding before duplicates are dropped.
pub struct Pending<'a> {
    pub site: &'a ConfigSite,
    pub kind: Kind,
    pub severity: Severity,
    pub message: String,
}

pub open spec fn pending_view(p: Pending) -> Candidate {
    (site_view(*p.site), p.kind, p.severity, p.message@)
}

pub open spec fn pendings_view(s: Seq<Pending>) -> Seq<Candidate> {
    s.map_values(|p: Pending| pending_view(p))
}

/// The graph the request sees for `command`.
pub open spec fn graph_of(declarations: &[ConfigSite], references: &[ConfigSite], command: &str) -> Graph {
    (sites_view(declarations@), sites_view(references@), command@)
}

/// Search for a path from `from` to `target`.
fn path(
    declarations: &[ConfigSite],
    references: &[ConfigSite],
    command: &str,
    from: &str,
    target: &str,
    visited: &mut Vec<String>,
    Ghost(fuel): Ghost<nat>,
) -> (found: Option<Vec<String>>)
    requires
        fits(crate::paths::texts(old(visited)@), sites_view(declarations@)),
        fuel + old(visited)@.len() > declarations@.len(),
        defined(sites_view(declarations@), command@, from@),
    ensures
        (match found {
            Some(p) => Some(crate::paths::texts(p@)),
            None => None,
        }, crate::paths::texts(final(visited)@)) == path_from(
            graph_of(declarations, references, command),
            from@,
            target@,
            crate::paths::texts(old(visited)@),
            fuel,
        ),
        fits(crate::paths::texts(final(visited)@), sites_view(declarations@)),
        final(visited)@.len() >= old(visited)@.len(),
    decreases fuel,
{
    let ghost g = graph_of(declarations, references, command);
    proof {
        lemma_fits(crate::paths::texts(visited@), sites_view(declarations@));
    }
    if str_eq(from, target) {
        let mut p: Vec<String> = Vec::new();
        p.push(from.to_owned());
        assert(crate::paths::texts(p@) =~= seq![from@]);
        return Some(p);
    }
    if crate::bazelrc::index::holds_text(visited, from) {
        return None;
    }
    let ghost start = crate::paths::texts(visited@);
    proof {
        lemma_fits_push(start, sites_view(declarations@), command@, from@);
    }
    visited.push(from.to_owned());
    assert(crate::paths::texts(visited@) =~= start.push(from@));
    let ghost pushed = crate::paths::texts(visited@);
    let edges = edges_of(references, command, Some(from));
    let ghost es = out_edges(g.1, g.2, from@);
    let mut i: usize = 0;
    while i < edges.len()
        invariant
            i <= edges@.len(),
            edges@.map_values(|s: &ConfigSite| site_view(*s)) == es,
            es == out_edges(g.1, g.2, from@),
            g == graph_of(declarations, references, command),
            fuel >= 1,
            fits(crate::paths::texts(visited@), sites_view(declarations@)),
            visited@.len() >= pushed.len(),
            pushed.len() == start.len() + 1,
            pushed == start.push(from@),
            start == crate::paths::texts(old(visited)@),
            start.len() == old(visited)@.len(),
            from@ != target@,
            !start.contains(from@),
            fuel + start.len() > declarations@.len(),
            path_through(g, es, 0, target@, pushed, fuel) == path_through(
                g,
                es,
                i as int,
                target@,
                crate::paths::texts(visited@),
                fuel,
            ),
        decreases edges@.len() - i,
    {
        let e = edges[i];
        assert(site_view(*e) == es[i as int]);
        if is_defined(declarations, command, e.name.as_str()) {
            let found = path(declarations, references, command, e.name.as_str(), target, visited, Ghost((fuel - 1) as nat));
            match found {
                Some(rest) => {
                    let mut p: Vec<String> = Vec::new();
                    p.push(from.to_owned());
                    let mut more = rest;
                    let ghost tail = crate::paths::texts(more@);
                    p.append(&mut more);
                    assert(crate::paths::texts(p@) =~= seq![from@] + tail);
                    return Some(p);
                },
                None => {},
            }
        }
        i = i + 1;
    }
    None
}

/// Each declared edge in a body that lies on a cycle back to its owner.
fn cycles<'a>(
    declarations: &'a [ConfigSite],
    references: &'a [ConfigSite],
    command: &str,
    found: &mut Vec<Pending<'a>>,
)
    ensures
        pendings_view(final(found)@) == pendings_view(old(found)@) + cycle_candidates(
            graph_of(declarations, references, command),
            body_edges(sites_view(references@), command@),
        ),
{
    let ghost g = graph_of(declarations, references, command);
    let ghost base = pendings_view(found@);
    let ghost all = sites_view(references@);
    let ghost keep = |r: SiteView| spec_applies(command@, r.1) && r.5 is Some;
    let mut k: usize = 0;
    assert(all.take(0).filter(keep) =~= Seq::<SiteView>::empty()) by {
        reveal(Seq::filter);
    }
    assert(pendings_view(found@) =~= base + cycle_candidates(g, all.take(0).filter(keep)));
    while k < references.len()
        invariant
            k <= references@.len(),
            all == sites_view(references@),
            g == graph_of(declarations, references, command),
            keep == (|r: SiteView| spec_applies(command@, r.1) && r.5 is Some),
            pendings_view(found@) == base + cycle_candidates(g, all.take(k as int).filter(keep)),
        decreases references@.len() - k,
    {
        let ghost before = pendings_view(found@);
        let e = &references[k];
        proof {
            reveal(Seq::filter);
            assert(all.take(k + 1).drop_last() =~= all.take(k as int));
            assert(all.take(k + 1).last() == site_view(*e));
        }
        match &e.owner {
            Some(owner) => {
                if applies(command, e.command.as_str()) {
                    assert(all.take(k + 1).filter(keep) == all.take(k as int).filter(keep).push(site_view(*e)));
                    assert(all.take(k + 1).filter(keep).drop_last() =~= all.take(k as int).filter(keep));
                    if is_defined(declarations, command, e.name.as_str()) {
                        let mut visited: Vec<String> = Vec::new();
                        assert(crate::paths::texts(visited@) =~= Seq::<Seq<char>>::empty());
                        let result = path(
                            declarations,
                            references,
                            command,
                            e.name.as_str(),
                            owner.as_str(),
                            &mut visited,
                            Ghost((declarations@.len() + 1) as nat),
                        );
                        match result {
                            Some(p) => {
                                let mut names: Vec<String> = Vec::new();
                                names.push(owner.clone());
                                let mut rest = p;
                                let ghost tail = crate::paths::texts(rest@);
                                names.append(&mut rest);
                                assert(crate::paths::texts(names@) =~= seq![owner@] + tail);
                                let mut message = "configuration expansion cycle: ".to_owned();
                                append(&mut message, display_chain(&names).as_str());
                                let pending = Pending { site: e, kind: Kind::Cycle, severity: Severity::Error, message };
                                found.push(pending);
                                assert(pendings_view(found@) =~= before.push(pending_view(pending)));
                            },
                            None => {},
                        }
                    }
                }
            },
            None => {},
        }
        k = k + 1;
    }
    assert(all.take(references@.len() as int) =~= all);
}

} // verus!

verus! {

/// The warning for a configuration expanded again.
pub open spec fn repeated_message(name: Seq<char>) -> Seq<char> {
    "configuration `"@ + name + "` is expanded more than once; repeatable flags are applied each time"@
}

/// Expanding the configuration an edge names, within the expansions on
/// `active`: a name expanded before in this command draws a warning each
/// time; the configurations expanded so far, and the warnings.
pub open spec fn expand(
    g: Graph,
    edge: SiteView,
    active: Seq<Seq<char>>,
    expanded: Seq<Seq<char>>,
    fuel: nat,
) -> (Seq<Seq<char>>, Seq<Candidate>)
    decreases fuel, 1int, 0int,
{
    if fuel == 0 || !defined(g.0, g.2, edge.0) || active.contains(edge.0) {
        (expanded, Seq::empty())
    } else {
        let again = expanded.contains(edge.0);
        let expanded1 = if again {
            expanded
        } else {
            expanded.push(edge.0)
        };
        let here = if again {
            seq![(edge, Kind::Repeated, Severity::Warning, repeated_message(edge.0))]
        } else {
            Seq::empty()
        };
        let below = expand_children(g, out_edges(g.1, g.2, edge.0), 0, active.push(edge.0), expanded1, fuel);
        (below.0, here + below.1)
    }
}

/// Expanding the children from `i` on, in order.
pub open spec fn expand_children(
    g: Graph,
    children: Seq<SiteView>,
    i: int,
    active: Seq<Seq<char>>,
    expanded: Seq<Seq<char>>,
    fuel: nat,
) -> (Seq<Seq<char>>, Seq<Candidate>)
    decreases fuel, 0int, children.len() - i,
{
    if i < 0 || i >= children.len() || fuel == 0 {
        (expanded, Seq::empty())
    } else {
        let first = expand(g, children[i], active, expanded, (fuel - 1) as nat);
        let rest = expand_children(g, children, i + 1, active, first.0, fuel);
        (rest.0, first.1 + rest.1)
    }
}

/// Expanding each root from `i` on, in order, sharing what has been
/// expanded.
pub open spec fn expand_roots(g: Graph, roots: Seq<SiteView>, i: int, expanded: Seq<Seq<char>>) -> (
    Seq<Seq<char>>,
    Seq<Candidate>,
)
    decreases roots.len() - i,
{
    if i < 0 || i >= roots.len() {
        (expanded, Seq::empty())
    } else {
        let first = expand(g, roots[i], Seq::empty(), expanded, depth(g));
        let rest = expand_roots(g, roots, i + 1, first.0);
        (rest.0, first.1 + rest.1)
    }
}

fn expand_edge<'a>(
    declarations: &'a [ConfigSite],
    references: &'a [ConfigSite],
    command: &str,
    edge: &'a ConfigSite,
    active: &mut Vec<String>,
    expanded: &mut Vec<String>,
    found: &mut Vec<Pending<'a>>,
    Ghost(fuel): Ghost<nat>,
)
    requires
        fits(crate::paths::texts(old(active)@), sites_view(declarations@)),
        fuel + old(active)@.len() > declarations@.len(),
    ensures
        crate::paths::texts(final(active)@) == crate::paths::texts(old(active)@),
        crate::paths::texts(final(expanded)@) == expand(
            graph_of(declarations, references, command),
            site_view(*edge),
            crate::paths::texts(old(active)@),
            crate::paths::texts(old(expanded)@),
            fuel,
        ).0,
        pendings_view(final(found)@) == pendings_view(old(found)@) + expand(
            graph_of(declarations, references, command),
            site_view(*edge),
            crate::paths::texts(old(active)@),
            crate::paths::texts(old(expanded)@),
            fuel,
        ).1,
    decreases fuel,
{
    let ghost g = graph_of(declarations, references, command);
    let ghost a0 = crate::paths::texts(active@);
    let ghost e0 = crate::paths::texts(expanded@);
    let ghost f0 = pendings_view(found@);
    proof {
        lemma_fits(a0, sites_view(declarations@));
    }
    let name = edge.name.as_str();
    if !is_defined(declarations, command, name) || crate::bazelrc::index::holds_text(active, name) {
        assert(pendings_view(found@) =~= f0 + Seq::<Candidate>::empty());
        return;
    }
    let again = crate::bazelrc::index::holds_text(expanded, name);
    if again {
        let mut message = "configuration `".to_owned();
        append(&mut message, name);
        append(&mut message, "` is expanded more than once; repeatable flags are applied each time");
        let pending = Pending { site: edge, kind: Kind::Repeated, severity: Severity::Warning, message };
        found.push(pending);
        assert(pendings_view(found@) =~= f0.push(pending_view(pending)));
    } else {
        expanded.push(edge.name.clone());
        assert(crate::paths::texts(expanded@) =~= e0.push(name@));
        assert(pendings_view(found@) =~= f0 + Seq::<Candidate>::empty());
    }
    let ghost f1 = pendings_view(found@);
    let ghost e1 = crate::paths::texts(expanded@);
    proof {
        lemma_fits_push(a0, sites_view(declarations@), command@, name@);
    }
    active.push(edge.name.clone());
    assert(crate::paths::texts(active@) =~= a0.push(name@));
    let ghost a1 = crate::paths::texts(active@);
    let children = edges_of(references, command, Some(name));
    let ghost cs = out_edges(g.1, g.2, name@);
    let ghost mut acc: Seq<Candidate> = Seq::empty();
    let mut i: usize = 0;
    assert(pendings_view(found@) =~= f1 + acc);
    while i < children.len()
        invariant
            i <= children@.len(),
            children@.map_values(|s: &ConfigSite| site_view(*s)) == cs,
            g == graph_of(declarations, references, command),
            crate::paths::texts(active@) == a1,
            a1 == a0.push(name@),
            fits(a1, sites_view(declarations@)),
            fuel >= 1,
            fuel - 1 + a1.len() > declarations@.len(),
            pendings_view(found@) == f1 + acc,
            expand_children(g, cs, 0, a1, e1, fuel) == ({
                let rest = expand_children(g, cs, i as int, a1, crate::paths::texts(expanded@), fuel);
                (rest.0, acc + rest.1)
            }),
        decreases children@.len() - i,
    {
        let child = children[i];
        assert(site_view(*child) == cs[i as int]);
        let ghost eb = crate::paths::texts(expanded@);
        let ghost fb = pendings_view(found@);
        expand_edge(declarations, references, command, child, active, expanded, found, Ghost((fuel - 1) as nat));
        proof {
            let first = expand(g, cs[i as int], a1, eb, (fuel - 1) as nat);
            let rest = expand_children(g, cs, i + 1, a1, first.0, fuel);
            assert(expand_children(g, cs, i as int, a1, eb, fuel) == (rest.0, first.1 + rest.1));
            assert(acc + (first.1 + rest.1) =~= (acc + first.1) + rest.1);
            acc = acc + first.1;
            assert(pendings_view(found@) =~= f1 + acc);
        }
        i = i + 1;
    }
    proof {
        assert(acc + Seq::<Candidate>::empty() =~= acc);
        let here = if again {
            seq![(site_view(*edge), Kind::Repeated, Severity::Warning, repeated_message(name@))]
        } else {
            Seq::<Candidate>::empty()
        };
        assert(f1 =~= f0 + here);
        assert(pendings_view(found@) =~= f0 + (here + acc));
    }
    let ghost before_pop = active@;
    let _ = active.pop();
    assert(active@ =~= before_pop.drop_last());
    assert(crate::paths::texts(before_pop.drop_last()) =~= crate::paths::texts(before_pop).drop_last());
    assert(a1.drop_last() =~= a0);
    assert(crate::paths::texts(active@) =~= a0);
}

} // verus!

verus! {

/// Expand every root of `command`'s graph, warning at each configuration
/// expanded again.
fn repetitions<'a>(
    declarations: &'a [ConfigSite],
    references: &'a [ConfigSite],
    command: &str,
    found: &mut Vec<Pending<'a>>,
)
    ensures
        pendings_view(final(found)@) == pendings_view(old(found)@) + expand_roots(
            graph_of(declarations, references, command),
            roots(sites_view(references@), command@),
            0,
            Seq::empty(),
        ).1,
{
    let ghost g = graph_of(declarations, references, command);
    let ghost f0 = pendings_view(found@);
    let starts = edges_of(references, command, None);
    let ghost rs = roots(sites_view(references@), command@);
    let mut expanded: Vec<String> = Vec::new();
    let ghost mut acc: Seq<Candidate> = Seq::empty();
    assert(crate::paths::texts(expanded@) =~= Seq::<Seq<char>>::empty());
    assert(pendings_view(found@) =~= f0 + acc);
    let mut i: usize = 0;
    while i < starts.len()
        invariant
            i <= starts@.len(),
            starts@.map_values(|s: &ConfigSite| site_view(*s)) == rs,
            g == graph_of(declarations, references, command),
            pendings_view(found@) == f0 + acc,
            expand_roots(g, rs, 0, Seq::empty()).1 == acc + expand_roots(
                g,
                rs,
                i as int,
                crate::paths::texts(expanded@),
            ).1,
        decreases starts@.len() - i,
    {
        let root = starts[i];
        assert(site_view(*root) == rs[i as int]);
        let ghost eb = crate::paths::texts(expanded@);
        let mut active: Vec<String> = Vec::new();
        assert(crate::paths::texts(active@) =~= Seq::<Seq<char>>::empty());
        expand_edge(declarations, references, command, root, &mut active, &mut expanded, found, Ghost(depth(g)));
        proof {
            let first = expand(g, rs[i as int], Seq::empty(), eb, depth(g));
            let rest = expand_roots(g, rs, i + 1, first.0);
            assert(acc + (first.1 + rest.1) =~= (acc + first.1) + rest.1);
            acc = acc + first.1;
            assert(pendings_view(found@) =~= f0 + acc);
        }
        i = i + 1;
    }
    assert(acc + Seq::<Candidate>::empty() =~= acc);
}

/// The path memorised for `name`.
pub open spec fn memo_of(memo: Seq<(Seq<char>, Seq<SiteView>)>, name: Seq<char>) -> Option<Seq<SiteView>>
    decreases memo.len(),
{
    if memo.len() == 0 {
        None
    } else if memo[0].0 == name {
        Some(memo[0].1)
    } else {
        memo_of(memo.drop_first(), name)
    }
}

/// The longest chain of edges below `name`, the first of the longest where
/// edges tie, or nothing when a cycle through `active` is reachable; and
/// the chains memorised by then.
pub open spec fn longest(
    g: Graph,
    name: Seq<char>,
    active: Seq<Seq<char>>,
    memo: Seq<(Seq<char>, Seq<SiteView>)>,
    fuel: nat,
) -> (Option<Seq<SiteView>>, Seq<(Seq<char>, Seq<SiteView>)>)
    decreases fuel, 1int, 0int,
{
    if fuel == 0 || active.contains(name) {
        (None, memo)
    } else {
        match memo_of(memo, name) {
            Some(p) => (Some(p), memo),
            None => {
                let r = longest_through(g, out_edges(g.1, g.2, name), 0, active.push(name), memo, Seq::empty(), fuel);
                match r.0 {
                    None => (None, r.1),
                    Some(best) => (Some(best), r.1.push((name, best))),
                }
            },
        }
    }
}

/// The longest chain through edges `i` on, against the best so far.
pub open spec fn longest_through(
    g: Graph,
    edges: Seq<SiteView>,
    i: int,
    active: Seq<Seq<char>>,
    memo: Seq<(Seq<char>, Seq<SiteView>)>,
    best: Seq<SiteView>,
    fuel: nat,
) -> (Option<Seq<SiteView>>, Seq<(Seq<char>, Seq<SiteView>)>)
    decreases fuel, 0int, edges.len() - i,
{
    if i < 0 || i >= edges.len() || fuel == 0 {
        (Some(best), memo)
    } else if !defined(g.0, g.2, edges[i].0) {
        longest_through(g, edges, i + 1, active, memo, best, fuel)
    } else {
        let sub = longest(g, edges[i].0, active, memo, (fuel - 1) as nat);
        match sub.0 {
            None => (None, sub.1),
            Some(p) => {
                let candidate = seq![edges[i]] + p;
                longest_through(
                    g,
                    edges,
                    i + 1,
                    active,
                    sub.1,
                    if candidate.len() > best.len() {
                        candidate
                    } else {
                        best
                    },
                    fuel,
                )
            },
        }
    }
}

/// A memo as the names and chains it holds.
pub open spec fn memo_view(memo: Seq<(String, Vec<&ConfigSite>)>) -> Seq<(Seq<char>, Seq<SiteView>)> {
    memo.map_values(|m: (String, Vec<&ConfigSite>)| (m.0@, m.1@.map_values(|s: &ConfigSite| site_view(*s))))
}

/// A copy of a chain.
fn copy_chain<'a>(chain: &Vec<&'a ConfigSite>) -> (copy: Vec<&'a ConfigSite>)
    ensures
        copy@ == chain@,
{
    let mut copy: Vec<&'a ConfigSite> = Vec::new();
    let mut i: usize = 0;
    while i < chain.len()
        invariant
            i <= chain@.len(),
            copy@ == chain@.take(i as int),
        decreases chain@.len() - i,
    {
        copy.push(chain[i]);
        i = i + 1;
        assert(copy@ =~= chain@.take(i as int));
    }
    assert(chain@.take(chain@.len() as int) =~= chain@);
    copy
}

/// The chain memorised for `name`.
fn recall<'a>(memo: &Vec<(String, Vec<&'a ConfigSite>)>, name: &str) -> (found: Option<Vec<&'a ConfigSite>>)
    ensures
        (match (found, memo_of(memo_view(memo@), name@)) {
            (Some(p), Some(q)) => p@.map_values(|s: &ConfigSite| site_view(*s)) == q,
            (None, None) => true,
            _ => false,
        }),
{
    let ghost m = memo_view(memo@);
    let mut i: usize = 0;
    assert(m.skip(0) =~= m);
    while i < memo.len()
        invariant
            i <= memo@.len(),
            m == memo_view(memo@),
            memo_of(m, name@) == memo_of(m.skip(i as int), name@),
        decreases memo@.len() - i,
    {
        assert(m.skip(i as int)[0] == m[i as int]);
        if str_eq(memo[i].0.as_str(), name) {
            return Some(copy_chain(&memo[i].1));
        }
        assert(m.skip(i as int).drop_first() =~= m.skip(i + 1));
        i = i + 1;
    }
    None
}

fn longest_chain<'a>(
    declarations: &'a [ConfigSite],
    references: &'a [ConfigSite],
    command: &str,
    name: &str,
    active: &mut Vec<String>,
    memo: &mut Vec<(String, Vec<&'a ConfigSite>)>,
    Ghost(fuel): Ghost<nat>,
) -> (found: Option<Vec<&'a ConfigSite>>)
    requires
        fits(crate::paths::texts(old(active)@), sites_view(declarations@)),
        fuel + old(active)@.len() > declarations@.len(),
        defined(sites_view(declarations@), command@, name@),
    ensures
        crate::paths::texts(final(active)@) == crate::paths::texts(old(active)@),
        (match found {
            Some(p) => Some(p@.map_values(|s: &ConfigSite| site_view(*s))),
            None => None,
        }, memo_view(final(memo)@)) == longest(
            graph_of(declarations, references, command),
            name@,
            crate::paths::texts(old(active)@),
            memo_view(old(memo)@),
            fuel,
        ),
    decreases fuel,
{
    let ghost g = graph_of(declarations, references, command);
    let ghost a0 = crate::paths::texts(active@);
    let ghost m0 = memo_view(memo@);
    proof {
        lemma_fits(a0, sites_view(declarations@));
    }
    if crate::bazelrc::index::holds_text(active, name) {
        return None;
    }
    match recall(memo, name) {
        Some(p) => {
            return Some(p);
        },
        None => {},
    }
    proof {
        lemma_fits_push(a0, sites_view(declarations@), command@, name@);
    }
    active.push(name.to_owned());
    assert(crate::paths::texts(active@) =~= a0.push(name@));
    let ghost a1 = crate::paths::texts(active@);
    let edges = edges_of(references, command, Some(name));
    let ghost es = out_edges(g.1, g.2, name@);
    let mut best: Vec<&'a ConfigSite> = Vec::new();
    let mut i: usize = 0;
    assert(best@.map_values(|s: &ConfigSite| site_view(*s)) =~= Seq::<SiteView>::empty());
    while i < edges.len()
        invariant
            i <= edges@.len(),
            edges@.map_values(|s: &ConfigSite| site_view(*s)) == es,
            es == out_edges(g.1, g.2, name@),
            g == graph_of(declarations, references, command),
            crate::paths::texts(active@) == a1,
            a1 == a0.push(name@),
            fits(a1, sites_view(declarations@)),
            fuel >= 1,
            fuel - 1 + a1.len() > declarations@.len(),
            a0 == crate::paths::texts(old(active)@),
            m0 == memo_view(old(memo)@),
            !a0.contains(name@),
            memo_of(m0, name@) is None,
            longest_through(g, es, 0, a1, m0, Seq::empty(), fuel) == longest_through(
                g,
                es,
                i as int,
                a1,
                memo_view(memo@),
                best@.map_values(|s: &ConfigSite| site_view(*s)),
                fuel,
            ),
        decreases edges@.len() - i,
    {
        let e = edges[i];
        assert(site_view(*e) == es[i as int]);
        let ghost mb = memo_view(memo@);
        let ghost bv = best@.map_values(|s: &ConfigSite| site_view(*s));
        if is_defined(declarations, command, e.name.as_str()) {
            let sub = longest_chain(declarations, references, command, e.name.as_str(), active, memo, Ghost((fuel - 1) as nat));
            match sub {
                None => {
                    proof {
                        assert(longest(g, es[i as int].0, a1, mb, (fuel - 1) as nat).0 is None);
                        assert(longest_through(g, es, i as int, a1, mb, bv, fuel) == (
                            None::<Seq<SiteView>>,
                            memo_view(memo@),
                        ));
                        assert(longest_through(g, out_edges(g.1, g.2, name@), 0, a0.push(name@), m0, Seq::<SiteView>::empty(), fuel) == (
                            None::<Seq<SiteView>>,
                            memo_view(memo@),
                        ));
                        assert(!a0.contains(name@));
                        assert(memo_of(m0, name@) is None);
                        assert(fuel != 0);
                        assert(longest(g, name@, a0, m0, fuel) == (None::<Seq<SiteView>>, memo_view(memo@)));
                    }
                    let ghost before_pop = active@;
                    let _ = active.pop();
                    assert(active@ =~= before_pop.drop_last());
                    assert(crate::paths::texts(before_pop.drop_last()) =~= crate::paths::texts(before_pop).drop_last());
                    assert(a1.drop_last() =~= a0);
                    return None;
                },
                Some(p) => {
                    if p.len() >= best.len() {
                        let mut candidate: Vec<&'a ConfigSite> = Vec::new();
                        candidate.push(e);
                        let mut rest = p;
                        let ghost tail = rest@;
                        candidate.append(&mut rest);
                        assert(candidate@.map_values(|s: &ConfigSite| site_view(*s)) =~= seq![es[i as int]]
                            + tail.map_values(|s: &ConfigSite| site_view(*s)));
                        best = candidate;
                    } else {
                        assert((seq![es[i as int]] + p@.map_values(|s: &ConfigSite| site_view(*s))).len() == p@.len() + 1);
                    }
                },
            }
        }
        i = i + 1;
    }
    let ghost before_pop = active@;
    let _ = active.pop();
    assert(active@ =~= before_pop.drop_last());
    assert(crate::paths::texts(before_pop.drop_last()) =~= crate::paths::texts(before_pop).drop_last());
    assert(a1.drop_last() =~= a0);
    let ghost mb = memo_view(memo@);
    let kept = copy_chain(&best);
    let entry = (name.to_owned(), kept);
    memo.push(entry);
    assert(memo_view(memo@) =~= mb.push((name@, best@.map_values(|s: &ConfigSite| site_view(*s)))));
    Some(best)
}

} // verus!

verus! {

/// The warning for a chain of configurations.
pub open spec fn deep_message(names: Seq<Seq<char>>) -> Seq<char> {
    "configuration expansion chain has "@ + decimal(names.len()) + " configs: "@ + chain(names)
}

/// The names of the configurations a chain of edges expands.
pub open spec fn chain_names(root: SiteView, p: Seq<SiteView>) -> Seq<Seq<char>> {
    seq![root.0] + p.map_values(|s: SiteView| s.0)
}

/// For each root from `i` on, a warning when the longest chain below it
/// expands [`DEEP_CHAIN`] configurations or more, at the chain's last edge;
/// roots below which a cycle lies draw none. The memo is shared.
pub open spec fn deep_roots(
    g: Graph,
    roots: Seq<SiteView>,
    i: int,
    memo: Seq<(Seq<char>, Seq<SiteView>)>,
) -> (Seq<(Seq<char>, Seq<SiteView>)>, Seq<Candidate>)
    decreases roots.len() - i,
{
    if i < 0 || i >= roots.len() {
        (memo, Seq::empty())
    } else {
        let root = roots[i];
        if !defined(g.0, g.2, root.0) {
            deep_roots(g, roots, i + 1, memo)
        } else {
            let r = longest(g, root.0, Seq::empty(), memo, depth(g));
            let rest = deep_roots(g, roots, i + 1, r.1);
            match r.0 {
                None => rest,
                Some(p) => if p.len() + 1 < DEEP_CHAIN {
                    rest
                } else {
                    let site = if p.len() > 0 {
                        p.last()
                    } else {
                        root
                    };
                    (
                        rest.0,
                        seq![(site, Kind::Deep, Severity::Warning, deep_message(chain_names(root, p)))] + rest.1,
                    )
                },
            }
        }
    }
}

/// Warn at each chain ten configurations deep.
fn deep_chains<'a>(
    declarations: &'a [ConfigSite],
    references: &'a [ConfigSite],
    command: &str,
    found: &mut Vec<Pending<'a>>,
)
    ensures
        pendings_view(final(found)@) == pendings_view(old(found)@) + deep_roots(
            graph_of(declarations, references, command),
            roots(sites_view(references@), command@),
            0,
            Seq::empty(),
        ).1,
{
    let ghost g = graph_of(declarations, references, command);
    let ghost f0 = pendings_view(found@);
    let starts = edges_of(references, command, None);
    let ghost rs = roots(sites_view(references@), command@);
    let mut memo: Vec<(String, Vec<&'a ConfigSite>)> = Vec::new();
    let ghost mut acc: Seq<Candidate> = Seq::empty();
    assert(memo_view(memo@) =~= Seq::<(Seq<char>, Seq<SiteView>)>::empty());
    assert(pendings_view(found@) =~= f0 + acc);
    let mut i: usize = 0;
    while i < starts.len()
        invariant
            i <= starts@.len(),
            starts@.map_values(|s: &ConfigSite| site_view(*s)) == rs,
            g == graph_of(declarations, references, command),
            pendings_view(found@) == f0 + acc,
            deep_roots(g, rs, 0, Seq::empty()).1 == acc + deep_roots(g, rs, i as int, memo_view(memo@)).1,
        decreases starts@.len() - i,
    {
        let root = starts[i];
        assert(site_view(*root) == rs[i as int]);
        let ghost mb = memo_view(memo@);
        if is_defined(declarations, command, root.name.as_str()) {
            let mut active: Vec<String> = Vec::new();
            assert(crate::paths::texts(active@) =~= Seq::<Seq<char>>::empty());
            let r = longest_chain(declarations, references, command, root.name.as_str(), &mut active, &mut memo, Ghost(depth(g)));
            match r {
                None => {},
                Some(p) => {
                    let ghost pv = p@.map_values(|s: &ConfigSite| site_view(*s));
                    if p.len() >= DEEP_CHAIN - 1 {
                        let site = if p.len() > 0 {
                            p[p.len() - 1]
                        } else {
                            root
                        };
                        let mut names: Vec<String> = Vec::new();
                        names.push(root.name.clone());
                        let mut k: usize = 0;
                        while k < p.len()
                            invariant
                                k <= p@.len(),
                                pv == p@.map_values(|s: &ConfigSite| site_view(*s)),
                                crate::paths::texts(names@) == seq![root.name@] + pv.take(k as int).map_values(
                                    |s: SiteView| s.0,
                                ),
                            decreases p@.len() - k,
                        {
                            let ghost before = crate::paths::texts(names@);
                            assert(pv[k as int] == site_view(*p@[k as int]));
                            names.push(p[k].name.clone());
                            assert(crate::paths::texts(names@) =~= before.push(pv[k as int].0));
                            assert(pv.take(k + 1).map_values(|s: SiteView| s.0) =~= pv.take(k as int).map_values(
                                |s: SiteView| s.0,
                            ).push(pv[k as int].0));
                            k = k + 1;
                            assert(crate::paths::texts(names@) =~= seq![root.name@] + pv.take(k as int).map_values(
                                |s: SiteView| s.0,
                            ));
                        }
                        assert(pv.take(p@.len() as int) =~= pv);
                        let count = names.len();
                        let mut message = "configuration expansion chain has ".to_owned();
                        append(&mut message, crate::text::string_of(&decimal_string(count)).as_str());
                        append(&mut message, " configs: ");
                        append(&mut message, display_chain(&names).as_str());
                        let pending = Pending { site, kind: Kind::Deep, severity: Severity::Warning, message };
                        let ghost fb = pendings_view(found@);
                        found.push(pending);
                        proof {
                            if p@.len() > 0 {
                                assert(site_view(*site) == pv.last());
                            }
                            assert(pendings_view(found@) =~= fb.push(pending_view(pending)));
                            acc = acc + seq![pending_view(pending)];
                        }
                    }
                },
            }
        }
        i = i + 1;
    }
    assert(acc + Seq::<Candidate>::empty() =~= acc);
}

} // verus!

verus! {

/// Everything one command's graph is found to hold: its cycles, its
/// repeated expansions, its deep chains.
pub open spec fn command_candidates(g: Graph) -> Seq<Candidate> {
    cycle_candidates(g, body_edges(g.1, g.2)) + expand_roots(g, roots(g.1, g.2), 0, Seq::empty()).1
        + deep_roots(g, roots(g.1, g.2), 0, Seq::empty()).1
}

/// The commands whose graphs are searched: every command, but not the
/// `always`, `common` and `startup` scopes, which are no command.
pub open spec fn searched_commands() -> Seq<Seq<char>> {
    super::commands::command_names().skip(3)
}

/// The candidates of each command in turn.
pub open spec fn all_candidates(
    declarations: Seq<SiteView>,
    references: Seq<SiteView>,
    commands: Seq<Seq<char>>,
) -> Seq<Candidate>
    decreases commands.len(),
{
    if commands.len() == 0 {
        Seq::empty()
    } else {
        all_candidates(declarations, references, commands.drop_last()) + command_candidates(
            (declarations, references, commands.last()),
        )
    }
}

/// What makes two findings the same: the file, the range and the kind.
pub open spec fn candidate_key(c: Candidate) -> (Seq<char>, (int, int), Kind) {
    (c.0.2, c.0.3, c.1)
}

/// The candidates with each finding kept once: where two share file,
/// range and kind, the first stays.
pub open spec fn deduped(s: Seq<Candidate>) -> Seq<Candidate>
    decreases s.len(),
{
    if s.len() == 0 {
        s
    } else {
        let rest = deduped(s.drop_last());
        if exists|j: int| 0 <= j < s.len() - 1 && candidate_key(#[trigger] s[j]) == candidate_key(s.last()) {
            rest
        } else {
            rest.push(s.last())
        }
    }
}

/// Whether the texts `a` sort before the texts `b`, element by element.
pub open spec fn texts_less(a: Seq<Seq<char>>, b: Seq<Seq<char>>) -> bool
    decreases a.len(),
{
    if a.len() == 0 {
        b.len() > 0
    } else if b.len() == 0 {
        false
    } else if a[0] != b[0] {
        crate::text::text_less(a[0], b[0])
    } else {
        texts_less(a.drop_first(), b.drop_first())
    }
}

/// Findings are ordered by file (component by component), then the start
/// of their range, then their message.
pub open spec fn finding_less(a: Candidate, b: Candidate) -> bool {
    let fa = crate::paths::components_of(a.0.2);
    let fb = crate::paths::components_of(b.0.2);
    texts_less(fa, fb) || (fa == fb && (a.0.3.0 < b.0.3.0 || (a.0.3.0 == b.0.3.0
        && crate::text::text_less(a.3, b.3))))
}

/// `x` inserted before the first candidate it sorts before.
pub open spec fn insert_finding(r: Seq<Candidate>, x: Candidate) -> Seq<Candidate>
    decreases r.len(),
{
    if r.len() == 0 {
        seq![x]
    } else if finding_less(x, r[0]) {
        seq![x] + r
    } else {
        seq![r[0]] + insert_finding(r.drop_first(), x)
    }
}

/// The candidates in order, equal ones as they came.
pub open spec fn sorted_candidates(s: Seq<Candidate>) -> Seq<Candidate>
    decreases s.len(),
{
    if s.len() == 0 {
        s
    } else {
        insert_finding(sorted_candidates(s.drop_last()), s.last())
    }
}

/// A finding as its site, severity and message.
pub open spec fn finding_view(f: Finding) -> (SiteView, Severity, Seq<char>) {
    (site_view(f.site), f.severity, f.message@)
}

/// The expansion findings a request's view holds: none until the graph
/// belongs to a workspace; otherwise every command's, each once, in order.
pub open spec fn spec_findings(
    ready: bool,
    declarations: Seq<SiteView>,
    references: Seq<SiteView>,
) -> Seq<(SiteView, Severity, Seq<char>)> {
    if !ready {
        Seq::empty()
    } else {
        sorted_candidates(deduped(all_candidates(declarations, references, searched_commands()))).map_values(
            |c: Candidate| (c.0, c.2, c.3),
        )
    }
}

/// Whether the texts `a` sort before the texts `b`.
fn components_less(a: &Vec<String>, b: &Vec<String>) -> (r: bool)
    ensures
        r == texts_less(crate::paths::texts(a@), crate::paths::texts(b@)),
{
    let ghost ta = crate::paths::texts(a@);
    let ghost tb = crate::paths::texts(b@);
    let mut i: usize = 0;
    assert(ta.skip(0) =~= ta);
    assert(tb.skip(0) =~= tb);
    while i < a.len() && i < b.len()
        invariant
            i <= a@.len(),
            i <= b@.len(),
            ta == crate::paths::texts(a@),
            tb == crate::paths::texts(b@),
            texts_less(ta, tb) == texts_less(ta.skip(i as int), tb.skip(i as int)),
        decreases a@.len() - i,
    {
        assert(ta.skip(i as int)[0] == ta[i as int]);
        assert(tb.skip(i as int)[0] == tb[i as int]);
        if !str_eq(a[i].as_str(), b[i].as_str()) {
            return crate::text::chars_less(&crate::text::chars_of(a[i].as_str()), &crate::text::chars_of(b[i].as_str()));
        }
        assert(ta.skip(i as int).drop_first() =~= ta.skip(i + 1));
        assert(tb.skip(i as int).drop_first() =~= tb.skip(i + 1));
        i = i + 1;
    }
    a.len() < b.len()
}

/// A pending finding with the components of its file.
struct Keyed<'a> {
    pending: Pending<'a>,
    components: Vec<String>,
}

spec fn keyed_ok(k: Keyed) -> bool {
    crate::paths::texts(k.components@) == crate::paths::components_of(k.pending.site.file@)
}

fn keyed_less(a: &Keyed, b: &Keyed) -> (r: bool)
    requires
        keyed_ok(*a),
        keyed_ok(*b),
    ensures
        r == finding_less(pending_view(a.pending), pending_view(b.pending)),
{
    if components_less(&a.components, &b.components) {
        return true;
    }
    let same = same_components(&a.components, &b.components);
    if !same {
        return false;
    }
    let sa = a.pending.site.range.start;
    let sb = b.pending.site.range.start;
    sa < sb || (sa == sb && crate::text::chars_less(
        &crate::text::chars_of(a.pending.message.as_str()),
        &crate::text::chars_of(b.pending.message.as_str()),
    ))
}

/// Whether two component lists are equal.
fn same_components(a: &Vec<String>, b: &Vec<String>) -> (r: bool)
    ensures
        r == (crate::paths::texts(a@) == crate::paths::texts(b@)),
{
    if a.len() != b.len() {
        return false;
    }
    let mut i: usize = 0;
    while i < a.len()
        invariant
            a@.len() == b@.len(),
            i <= a@.len(),
            forall|j: int| 0 <= j < i ==> a@[j]@ == b@[j]@,
        decreases a@.len() - i,
    {
        if !str_eq(a[i].as_str(), b[i].as_str()) {
            assert(crate::paths::texts(a@)[i as int] != crate::paths::texts(b@)[i as int]);
            return false;
        }
        i = i + 1;
    }
    assert(crate::paths::texts(a@) =~= crate::paths::texts(b@));
    true
}

} // verus!

verus! {

proof fn lemma_insert_finding_at(r: Seq<Candidate>, x: Candidate, p: int)
    requires
        0 <= p <= r.len(),
        forall|j: int| 0 <= j < p ==> !finding_less(x, #[trigger] r[j]),
        p < r.len() ==> finding_less(x, r[p]),
    ensures
        insert_finding(r, x) == r.take(p) + seq![x] + r.skip(p),
    decreases p,
{
    if p == 0 {
        if r.len() > 0 {
            assert(r.skip(0) =~= r);
            assert(r.take(0) + seq![x] + r.skip(0) =~= seq![x] + r);
        } else {
            assert(r.take(0) + seq![x] + r.skip(0) =~= seq![x]);
        }
    } else {
        assert forall|j: int| 0 <= j < p - 1 implies !finding_less(x, #[trigger] r.drop_first()[j]) by {
            assert(r.drop_first()[j] == r[j + 1]);
        }
        if p < r.len() {
            assert(r.drop_first()[p - 1] == r[p]);
        }
        assert(!finding_less(x, r[0]));
        lemma_insert_finding_at(r.drop_first(), x, p - 1);
        assert(seq![r[0]] + (r.drop_first().take(p - 1) + seq![x] + r.drop_first().skip(p - 1)) =~= r.take(p)
            + seq![x] + r.skip(p));
    }
}

spec fn keyed_view(s: Seq<Keyed>) -> Seq<Candidate> {
    s.map_values(|k: Keyed| pending_view(k.pending))
}

/// A copy of a site.
fn copy_site(site: &ConfigSite) -> (copy: ConfigSite)
    ensures
        site_view(copy) == site_view(*site),
{
    ConfigSite {
        name: site.name.clone(),
        command: site.command.clone(),
        file: site.file.clone(),
        range: site.range,
        line: site.line,
        owner: match &site.owner {
            Some(o) => Some(o.clone()),
            None => None,
        },
    }
}

/// Every command's candidates, in command order.
fn collect_candidates<'a>(declarations: &'a [ConfigSite], references: &'a [ConfigSite]) -> (pending: Vec<Pending<'a>>)
    ensures
        pendings_view(pending@) == all_candidates(sites_view(declarations@), sites_view(references@), searched_commands()),
{
    let ghost d = sites_view(declarations@);
    let ghost r = sites_view(references@);
    let commands = super::commands::names();
    let ghost cs = searched_commands();
    let mut pending: Vec<Pending> = Vec::new();
    let mut c: usize = 3;
    assert(cs.take(0) =~= Seq::<Seq<char>>::empty());
    assert(pendings_view(pending@) =~= all_candidates(d, r, cs.take(0)));
    while c < commands.len()
        invariant
            3 <= c <= commands@.len(),
            commands@.len() == super::commands::command_names().len(),
            forall|j: int| 0 <= j < commands@.len() ==> (#[trigger] commands@[j])@ == super::commands::command_names()[j],
            cs == searched_commands(),
            d == sites_view(declarations@),
            r == sites_view(references@),
            pendings_view(pending@) == all_candidates(d, r, cs.take(c - 3)),
        decreases commands@.len() - c,
    {
        let command = commands[c];
        proof {
            assert(cs.take(c - 3 + 1).drop_last() =~= cs.take(c - 3));
            assert(cs.take(c - 3 + 1).last() == command@);
        }
        let ghost before = pendings_view(pending@);
        cycles(declarations, references, command, &mut pending);
        repetitions(declarations, references, command, &mut pending);
        deep_chains(declarations, references, command, &mut pending);
        assert(pendings_view(pending@) =~= before + command_candidates((d, r, command@)));
        c = c + 1;
    }
    assert(cs.take(commands@.len() - 3) =~= cs);
    pending
}

/// The keys of the candidates seen so far.
spec fn keys_are(seen: Seq<(String, usize, usize, Kind)>, all: Seq<Candidate>) -> bool {
    forall|j: int|
        0 <= j < seen.len() ==> (#[trigger] seen[j]).0@ == candidate_key(all[j]).0 && (seen[j].1 as int,
        seen[j].2 as int) == candidate_key(all[j]).1 && seen[j].3 == candidate_key(all[j]).2
}

/// Whether a candidate seen before has the key of `x`.
fn seen_before(seen: &Vec<(String, usize, usize, Kind)>, x: &Pending, Ghost(all): Ghost<Seq<Candidate>>) -> (dup: bool)
    requires
        seen@.len() <= all.len(),
        keys_are(seen@, all),
    ensures
        dup == exists|i: int| 0 <= i < seen@.len() && candidate_key(#[trigger] all[i]) == candidate_key(pending_view(*x)),
{
    let file = x.site.file.as_str();
    let start = x.site.range.start;
    let end = x.site.range.end;
    let kind = x.kind;
    let mut j: usize = 0;
    while j < seen.len()
        invariant
            j <= seen@.len(),
            seen@.len() <= all.len(),
            keys_are(seen@, all),
            file@ == x.site.file@,
            start == x.site.range.start,
            end == x.site.range.end,
            kind == x.kind,
            forall|i: int| 0 <= i < j ==> candidate_key(#[trigger] all[i]) != candidate_key(pending_view(*x)),
        decreases seen@.len() - j,
    {
        let s = &seen[j];
        assert(seen@[j as int] == *s);
        assert(s.0@ == candidate_key(all[j as int]).0);
        assert((s.1 as int, s.2 as int) == candidate_key(all[j as int]).1);
        assert(s.3 == candidate_key(all[j as int]).2);
        if str_eq(s.0.as_str(), file) && s.1 == start && s.2 == end && s.3 == kind {
            assert(candidate_key(all[j as int]) == candidate_key(pending_view(*x)));
            return true;
        }
        assert(candidate_key(all[j as int]) != candidate_key(pending_view(*x)));
        j = j + 1;
    }
    false
}

/// `item` in its place among the ordered candidates.
fn place<'a>(kept: &mut Vec<Keyed<'a>>, item: Keyed<'a>)
    requires
        keyed_ok(item),
        forall|i: int| 0 <= i < old(kept)@.len() ==> keyed_ok(#[trigger] old(kept)@[i]),
    ensures
        keyed_view(final(kept)@) == insert_finding(keyed_view(old(kept)@), pending_view(item.pending)),
        forall|i: int| 0 <= i < final(kept)@.len() ==> keyed_ok(#[trigger] final(kept)@[i]),
{
    let ghost sorted = keyed_view(kept@);
    let mut p: usize = 0;
    while p < kept.len() && !keyed_less(&item, &kept[p])
        invariant
            p <= kept@.len(),
            keyed_ok(item),
            sorted == keyed_view(kept@),
            forall|i: int| 0 <= i < kept@.len() ==> keyed_ok(#[trigger] kept@[i]),
            forall|i: int| 0 <= i < p ==> !finding_less(pending_view(item.pending), #[trigger] sorted[i]),
        decreases kept@.len() - p,
    {
        p = p + 1;
    }
    proof {
        lemma_insert_finding_at(sorted, pending_view(item.pending), p as int);
    }
    let ghost before = kept@;
    let ghost x = pending_view(item.pending);
    kept.insert(p, item);
    assert(kept@ =~= before.insert(p as int, item));
    assert(keyed_view(kept@) =~= sorted.take(p as int) + seq![x] + sorted.skip(p as int));
    assert forall|i: int| 0 <= i < kept@.len() implies keyed_ok(#[trigger] kept@[i]) by {
        if i < p {
            assert(kept@[i] == before[i]);
        } else if i > p {
            assert(kept@[i] == before[i - 1]);
        }
    }
}

/// The candidates, each finding once, in order.
fn order<'a>(pending: Vec<Pending<'a>>) -> (kept: Vec<Keyed<'a>>)
    ensures
        keyed_view(kept@) == sorted_candidates(deduped(pendings_view(pending@))),
{
    let ghost all = pendings_view(pending@);
    let mut seen: Vec<(String, usize, usize, Kind)> = Vec::new();
    let mut kept: Vec<Keyed> = Vec::new();
    let mut rest = pending;
    let total = rest.len();
    let mut k: usize = 0;
    assert(all.take(0) =~= Seq::<Candidate>::empty());
    assert(keyed_view(kept@) =~= sorted_candidates(deduped(all.take(0))));
    while rest.len() > 0
        invariant
            k <= all.len(),
            all.len() == total,
            pendings_view(rest@) == all.skip(k as int),
            seen@.len() == k,
            keys_are(seen@, all),
            forall|j: int| 0 <= j < kept@.len() ==> keyed_ok(#[trigger] kept@[j]),
            keyed_view(kept@) == sorted_candidates(deduped(all.take(k as int))),
        decreases rest@.len(),
    {
        let ghost r0 = rest@;
        assert(r0.len() > 0);
        assert(pendings_view(r0).len() == r0.len());
        assert(k < all.len());
        assert(pendings_view(r0)[0] == pending_view(r0[0]));
        assert(all.skip(k as int)[0] == all[k as int]);
        let x = rest.remove(0);
        assert(pending_view(x) == all[k as int]);
        proof {
            assert(all.take(k + 1).drop_last() =~= all.take(k as int));
            assert(all.take(k + 1).last() == all[k as int]);
            assert forall|i: int| 0 <= i < k implies #[trigger] all.take(k + 1)[i] == all[i] by {}
        }
        let dup = seen_before(&seen, &x, Ghost(all));
        let ghost s0 = seen@;
        seen.push((x.site.file.clone(), x.site.range.start, x.site.range.end, x.kind));
        assert(keys_are(seen@, all)) by {
            assert forall|j: int| 0 <= j < seen@.len() implies (#[trigger] seen@[j]).0@ == candidate_key(all[j]).0
                && (seen@[j].1 as int, seen@[j].2 as int) == candidate_key(all[j]).1 && seen@[j].3 == candidate_key(
                all[j],
            ).2 by {
                if j < k {
                    assert(seen@[j] == s0[j]);
                }
            }
        }
        let ghost dk = deduped(all.take(k as int));
        proof {
            assert(dk.push(all[k as int]).drop_last() =~= dk);
            assert(rest@ =~= r0.subrange(1, r0.len() as int));
            assert(pendings_view(rest@) =~= pendings_view(r0).skip(1));
        }
        if !dup {
            let components = crate::paths::path_components(x.site.file.as_str());
            let item = Keyed { pending: x, components };
            place(&mut kept, item);
            assert(deduped(all.take(k + 1)) == dk.push(all[k as int]));
        } else {
            proof {
                let i = choose|i: int| 0 <= i < s0.len() && candidate_key(#[trigger] all[i]) == candidate_key(pending_view(x));
                let t = all.take(k + 1);
                assert(t[i] == all[i]);
                assert(t.last() == all[k as int]);
                assert(candidate_key(t[i]) == candidate_key(t.last()));
                assert(t.drop_last() =~= all.take(k as int));
            }
            assert(deduped(all.take(k + 1)) == dk);
        }
        k = k + 1;
        assert(pendings_view(rest@) =~= all.skip(k as int));
    }
    assert(all.take(total as int) =~= all);
    kept
}

/// The ordered candidates as findings.
fn to_findings(kept: Vec<Keyed>) -> (found: Vec<Finding>)
    ensures
        found@.map_values(|f: Finding| finding_view(f)) == keyed_view(kept@).map_values(
            |c: Candidate| (c.0, c.2, c.3),
        ),
{
    let ghost ordered = keyed_view(kept@);
    let mut found: Vec<Finding> = Vec::new();
    let mut i: usize = 0;
    assert(found@.map_values(|f: Finding| finding_view(f)) =~= ordered.take(0).map_values(
        |c: Candidate| (c.0, c.2, c.3),
    ));
    while i < kept.len()
        invariant
            i <= kept@.len(),
            ordered == keyed_view(kept@),
            found@.map_values(|f: Finding| finding_view(f)) == ordered.take(i as int).map_values(
                |c: Candidate| (c.0, c.2, c.3),
            ),
        decreases kept@.len() - i,
    {
        let item = &kept[i];
        let f = Finding {
            site: copy_site(item.pending.site),
            severity: item.pending.severity,
            message: item.pending.message.clone(),
        };
        let ghost before = found@;
        assert(keyed_view(kept@)[i as int] == pending_view(kept@[i as int].pending));
        assert(finding_view(f) == (ordered[i as int].0, ordered[i as int].2, ordered[i as int].3));
        found.push(f);
        assert(ordered.take(i + 1) =~= ordered.take(i as int).push(ordered[i as int]));
        assert(found@.map_values(|f: Finding| finding_view(f)) =~= before.map_values(|f: Finding| finding_view(f)).push(
            finding_view(f),
        ));
        assert(ordered.take(i + 1).map_values(|c: Candidate| (c.0, c.2, c.3)) =~= ordered.take(i as int).map_values(
            |c: Candidate| (c.0, c.2, c.3),
        ).push((ordered[i as int].0, ordered[i as int].2, ordered[i as int].3)));
        i = i + 1;
    }
    assert(ordered.take(kept@.len() as int) =~= ordered);
    found
}

/// Bazel 8.7 named-configuration expansion findings in what a request
/// sees, for every command: each reference on a cycle back to its owner (an
/// error), each configuration expanded more than once (its repeatable flags
/// apply each time), and each chain of ten configurations or more; each
/// finding once, ordered by file, position and message. Nothing until the
/// graph belongs to a workspace.
pub fn findings(view: &ConfigurationView) -> (found: Vec<Finding>)
    ensures
        found@.map_values(|f: Finding| finding_view(f)) == spec_findings(
            view.is_ready(),
            view.declaration_sites(),
            view.reference_sites(),
        ),
{
    if !view.ready() {
        let none: Vec<Finding> = Vec::new();
        assert(none@.map_values(|f: Finding| finding_view(f)) =~= Seq::<(SiteView, Severity, Seq<char>)>::empty());
        return none;
    }
    let pending = collect_candidates(view.declarations(), view.references());
    let kept = order(pending);
    to_findings(kept)
}

} // verus!

verus! {

/// Component-wise text order is a strict order: never both ways, and
/// nothing sorts before itself.
proof fn lemma_texts_less_asymmetric(a: Seq<Seq<char>>, b: Seq<Seq<char>>)
    ensures
        !(texts_less(a, b) && texts_less(b, a)),
        !texts_less(a, a),
    decreases a.len(),
{
    if a.len() > 0 && b.len() > 0 {
        crate::text::lemma_text_less_total(a[0], b[0]);
        lemma_texts_less_asymmetric(a.drop_first(), b.drop_first());
        lemma_texts_less_asymmetric(a.drop_first(), a.drop_first());
    } else if a.len() > 0 {
        lemma_texts_less_asymmetric(a.drop_first(), a.drop_first());
    }
}

/// Finding order never runs both ways.
proof fn lemma_finding_less_asymmetric(a: Candidate, b: Candidate)
    ensures
        !(finding_less(a, b) && finding_less(b, a)),
{
    let fa = crate::paths::components_of(a.0.2);
    let fb = crate::paths::components_of(b.0.2);
    lemma_texts_less_asymmetric(fa, fb);
    lemma_texts_less_asymmetric(fa, fa);
    crate::text::lemma_text_less_total(a.3, b.3);
}

/// No two candidates share a key.
pub open spec fn keys_distinct(s: Seq<Candidate>) -> bool {
    forall|i: int, k: int| 0 <= i < k < s.len() ==> candidate_key(#[trigger] s[i]) != candidate_key(#[trigger] s[k])
}

/// No candidate sorts before the one in front of it.
pub open spec fn in_finding_order(s: Seq<Candidate>) -> bool {
    forall|i: int, k: int| 0 <= i && i + 1 == k && k < s.len() ==> !finding_less(#[trigger] s[k], #[trigger] s[i])
}

/// Inserting keeps the order, adds `x`, and adds nothing else.
proof fn lemma_insert_finding(r: Seq<Candidate>, x: Candidate)
    requires
        in_finding_order(r),
    ensures
        in_finding_order(insert_finding(r, x)),
        insert_finding(r, x).len() == r.len() + 1,
        forall|j: int|
            0 <= j < insert_finding(r, x).len() ==> #[trigger] insert_finding(r, x)[j] == x || r.contains(
                insert_finding(r, x)[j],
            ),
        insert_finding(r, x).len() > 0,
        insert_finding(r, x)[0] == x || (r.len() > 0 && insert_finding(r, x)[0] == r[0]),
        keys_distinct(r) && (forall|j: int| 0 <= j < r.len() ==> candidate_key(#[trigger] r[j]) != candidate_key(x))
            ==> keys_distinct(insert_finding(r, x)),
    decreases r.len(),
{
    let out = insert_finding(r, x);
    if r.len() == 0 {
    } else if finding_less(x, r[0]) {
        lemma_finding_less_asymmetric(x, r[0]);
        assert(out == seq![x] + r);
        assert forall|i: int, k: int| 0 <= i && i + 1 == k && k < out.len() implies !finding_less(#[trigger] out[k], #[trigger] out[i]) by {
            if i > 0 {
                assert(out[k] == r[i] && out[i] == r[i - 1]);
            }
        }
        assert forall|j: int| 0 <= j < out.len() implies #[trigger] out[j] == x || r.contains(out[j]) by {
            if j > 0 {
                assert(out[j] == r[j - 1]);
            }
        }
    } else {
        let rest = r.drop_first();
        assert forall|i: int, k: int| 0 <= i && i + 1 == k && k < rest.len() implies !finding_less(#[trigger] rest[k], #[trigger] rest[i]) by {
            assert(rest[k] == r[k + 1] && rest[i] == r[i + 1]);
        }
        lemma_insert_finding(rest, x);
        let tail = insert_finding(rest, x);
        assert(out == seq![r[0]] + tail);
        assert forall|i: int, k: int| 0 <= i && i + 1 == k && k < out.len() implies !finding_less(#[trigger] out[k], #[trigger] out[i]) by {
            if i == 0 {
                assert(out[1] == tail[0]);
                if tail[0] != x {
                    assert(tail[0] == rest[0] && rest[0] == r[1]);
                }
            } else {
                assert(out[k] == tail[i] && out[i] == tail[i - 1]);
            }
        }
        assert forall|j: int| 0 <= j < out.len() implies #[trigger] out[j] == x || r.contains(out[j]) by {
            if j > 0 {
                assert(out[j] == tail[j - 1]);
                if tail[j - 1] != x {
                    let m = choose|m: int| 0 <= m < rest.len() && rest[m] == tail[j - 1];
                    assert(r[m + 1] == rest[m]);
                }
            } else {
                assert(r[0] == out[0]);
            }
        }
        if keys_distinct(r) && (forall|j: int| 0 <= j < r.len() ==> candidate_key(#[trigger] r[j]) != candidate_key(x)) {
            assert forall|i: int, k: int| 0 <= i < k < rest.len() implies candidate_key(#[trigger] rest[i]) != candidate_key(#[trigger] rest[k]) by {
                assert(rest[i] == r[i + 1] && rest[k] == r[k + 1]);
            }
            assert forall|j: int| 0 <= j < rest.len() implies candidate_key(#[trigger] rest[j]) != candidate_key(x) by {
                assert(rest[j] == r[j + 1]);
            }
            assert forall|i: int, k: int| 0 <= i < k < out.len() implies candidate_key(#[trigger] out[i]) != candidate_key(#[trigger] out[k]) by {
                assert(out[k] == tail[k - 1]);
                if i > 0 {
                    assert(out[i] == tail[i - 1]);
                } else {
                    assert(out[0] == r[0]);
                    if tail[k - 1] != x {
                        let m = choose|m: int| 0 <= m < rest.len() && rest[m] == tail[k - 1];
                        assert(r[m + 1] == rest[m]);
                    }
                }
            }
        }
    }
}

/// Sorting puts the candidates in order, keeps their number, takes nothing
/// from outside them, and keeps distinct keys distinct.
proof fn lemma_sorted_candidates(s: Seq<Candidate>)
    ensures
        in_finding_order(sorted_candidates(s)),
        sorted_candidates(s).len() == s.len(),
        forall|j: int| 0 <= j < sorted_candidates(s).len() ==> s.contains(#[trigger] sorted_candidates(s)[j]),
        keys_distinct(s) ==> keys_distinct(sorted_candidates(s)),
    decreases s.len(),
{
    if s.len() > 0 {
        let front = s.drop_last();
        let x = s.last();
        lemma_sorted_candidates(front);
        let r = sorted_candidates(front);
        lemma_insert_finding(r, x);
        let out = sorted_candidates(s);
        assert(out == insert_finding(r, x));
        assert forall|j: int| 0 <= j < out.len() implies s.contains(#[trigger] out[j]) by {
            if out[j] == x {
                assert(s[s.len() - 1] == x);
            } else {
                let m = choose|m: int| 0 <= m < r.len() && r[m] == out[j];
                assert(front.contains(r[m]));
                let n = choose|n: int| 0 <= n < front.len() && front[n] == r[m];
                assert(s[n] == front[n]);
            }
        }
        if keys_distinct(s) {
            assert forall|i: int, k: int| 0 <= i < k < front.len() implies candidate_key(#[trigger] front[i]) != candidate_key(#[trigger] front[k]) by {
                assert(front[i] == s[i] && front[k] == s[k]);
            }
            assert forall|j: int| 0 <= j < r.len() implies candidate_key(#[trigger] r[j]) != candidate_key(x) by {
                assert(front.contains(r[j]));
                let n = choose|n: int| 0 <= n < front.len() && front[n] == r[j];
                assert(s[n] == front[n]);
            }
        }
    }
}

/// Keeping the first of each key leaves distinct keys, all from `s`.
proof fn lemma_deduped(s: Seq<Candidate>)
    ensures
        keys_distinct(deduped(s)),
        forall|j: int| 0 <= j < deduped(s).len() ==> s.drop_last().contains(#[trigger] deduped(s)[j]) || deduped(s)[j] == s.last(),
    decreases s.len(),
{
    if s.len() > 0 {
        let front = s.drop_last();
        lemma_deduped(front);
        let rest = deduped(front);
        let x = s.last();
        assert forall|j: int| 0 <= j < rest.len() implies front.contains(#[trigger] rest[j]) by {
            if !front.drop_last().contains(rest[j]) {
                assert(rest[j] == front.last());
                assert(front[front.len() - 1] == rest[j]);
            } else {
                let n = choose|n: int| 0 <= n < front.drop_last().len() && front.drop_last()[n] == rest[j];
                assert(front[n] == front.drop_last()[n]);
            }
        }
        if !(exists|j: int| 0 <= j < s.len() - 1 && candidate_key(#[trigger] s[j]) == candidate_key(s.last())) {
            let out = rest.push(x);
            assert forall|i: int, k: int| 0 <= i < k < out.len() implies candidate_key(#[trigger] out[i]) != candidate_key(#[trigger] out[k]) by {
                assert(out[i] == rest[i]);
                if k < rest.len() {
                    assert(out[k] == rest[k]);
                } else {
                    let n = choose|n: int| 0 <= n < front.len() && front[n] == rest[i];
                    assert(s[n] == front[n]);
                }
            }
            assert forall|j: int| 0 <= j < out.len() implies front.contains(#[trigger] out[j]) || out[j] == x by {
                if j < rest.len() {
                    assert(out[j] == rest[j]);
                }
            }
        }
    }
}

/// Expansion findings come each once and in order: no two share a file,
/// range and kind, and none sorts before the one in front of it (by file,
/// then start of range, then message).
pub proof fn each_finding_once_in_order(ready: bool, declarations: Seq<SiteView>, references: Seq<SiteView>)
    ensures
        ({
            let c = sorted_candidates(deduped(all_candidates(declarations, references, searched_commands())));
            &&& keys_distinct(c)
            &&& in_finding_order(c)
            &&& spec_findings(ready, declarations, references) == if ready {
                c.map_values(|x: Candidate| (x.0, x.2, x.3))
            } else {
                Seq::empty()
            }
        }),
{
    let d = deduped(all_candidates(declarations, references, searched_commands()));
    lemma_deduped(all_candidates(declarations, references, searched_commands()));
    lemma_sorted_candidates(d);
}

} // verus!
