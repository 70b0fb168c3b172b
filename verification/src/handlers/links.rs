//! Every label of a Starlark file as something to click, and the package a
//! shorthand label leaves out, as a hint in front of it.
//!
//! Each string is read as the cursor would read it one byte into its token,
//! so a link goes exactly where a jump from that string would.

use vstd::prelude::*;
use crate::bazel::{join_path, spec_join};
use crate::document::Document;
use crate::handlers::cursor::{enclosing_package, found_among, possible_package, spec_string_at, string_at, StringSite};
use crate::index::Index;
use crate::label::{parse_label, spec_key, spec_label_path, spec_parse_label};
use crate::line_index::{text_offset, text_position};
use crate::paths::path_is_file;
use crate::text::{append, starts_with, str_starts_with};
use crate::uri::{checked_file_uri, file_uri_ok, spec_file_uri};
use vstd::utf8::encode_utf8;

verus! {

/// A link over a label: its range, the URI of the file it leads to, and
/// the label resolved, as a tooltip.
#[derive(Debug, PartialEq, Eq)]
pub struct Link {
    pub start: (u32, u32),
    pub end: (u32, u32),
    pub target_uri: String,
    pub tooltip: String,
}

/// A link as its range, target URI and tooltip.
pub type LinkView = ((u32, u32), (u32, u32), Seq<char>, Seq<char>);

pub open spec fn link_view(l: Link) -> LinkView {
    (l.start, l.end, l.target_uri@, l.tooltip@)
}

/// The offset a string is read at: one byte into its token.
pub open spec fn probe(site: StringSite) -> Option<int> {
    if site.token_start < u32::MAX {
        Some(site.token_start + 1)
    } else {
        None
    }
}

/// The source file whose existence decides the link of the string at site
/// `i`: where the label it reads as would sit under `root`.
pub open spec fn spec_link_candidate(
    sites: Seq<StringSite>,
    i: int,
    build_file: bool,
    package: Option<Seq<char>>,
    root: Seq<char>,
) -> Option<Seq<char>> {
    match probe(sites[i]) {
        None => None,
        Some(offset) => match spec_string_at(sites, offset, build_file) {
            None => None,
            Some(found) => match spec_parse_label(found.value, package) {
                None => None,
                Some((p, n)) => Some(spec_join(root, spec_label_path(p, n))),
            },
        },
    }
}

/// The link of the string at site `i`, given whether its candidate source
/// file exists: to the file declaring the target its label names, or else
/// to the source file; nothing where neither, or where the URI does not
/// parse.
pub open spec fn spec_link(
    bs: Seq<u8>,
    sites: Seq<StringSite>,
    i: int,
    build_file: bool,
    package: Option<Seq<char>>,
    root: Seq<char>,
    index: &Index,
    exists: bool,
) -> Option<LinkView> {
    match probe(sites[i]) {
        None => None,
        Some(offset) => match spec_string_at(sites, offset, build_file) {
            None => None,
            Some(found) => match spec_parse_label(found.value, package) {
                None => None,
                Some((p, n)) => {
                    let file = match index.resolved(spec_key(p, n)) {
                        Some(t) => Some(t.file@),
                        None => if exists {
                            Some(spec_join(root, spec_label_path(p, n)))
                        } else {
                            None
                        },
                    };
                    match file {
                        None => None,
                        Some(f) => if file_uri_ok(f) {
                            Some(
                                (
                                    text_position(bs, found.start),
                                    text_position(bs, found.end),
                                    spec_file_uri(f),
                                    spec_key(p, n),
                                ),
                            )
                        } else {
                            None
                        },
                    }
                },
            },
        },
    }
}

/// The links of the first `k` sites, in order.
pub open spec fn links_upto(
    bs: Seq<u8>,
    sites: Seq<StringSite>,
    k: int,
    build_file: bool,
    package: Option<Seq<char>>,
    root: Seq<char>,
    index: &Index,
    exists: Seq<bool>,
) -> Seq<LinkView>
    decreases k,
{
    if k <= 0 {
        Seq::empty()
    } else {
        let rest = links_upto(bs, sites, k - 1, build_file, package, root, index, exists);
        match spec_link(bs, sites, k - 1, build_file, package, root, index, exists[k - 1]) {
            Some(l) => rest.push(l),
            None => rest,
        }
    }
}

/// Links order by where they start.
pub open spec fn starts_before(a: LinkView, b: LinkView) -> bool {
    a.0.0 < b.0.0 || (a.0.0 == b.0.0 && a.0.1 < b.0.1)
}

/// `x` placed into sorted links after every link that does not start after
/// it.
pub open spec fn insert_by_start(s: Seq<LinkView>, x: LinkView) -> Seq<LinkView>
    decreases s.len(),
{
    if s.len() == 0 {
        seq![x]
    } else if starts_before(x, s.last()) {
        insert_by_start(s.drop_last(), x).push(s.last())
    } else {
        s.push(x)
    }
}

/// Links sorted by where they start, links starting alike in the order
/// given.
pub open spec fn sort_by_start(s: Seq<LinkView>) -> Seq<LinkView>
    decreases s.len(),
{
    if s.len() == 0 {
        s
    } else {
        insert_by_start(sort_by_start(s.drop_last()), s.last())
    }
}

/// Links with each run starting at the same place cut to its first.
pub open spec fn dedup_by_start(s: Seq<LinkView>) -> Seq<LinkView>
    decreases s.len(),
{
    if s.len() == 0 {
        s
    } else {
        let rest = dedup_by_start(s.drop_last());
        if rest.len() > 0 && rest.last().0 == s.last().0 {
            rest
        } else {
            rest.push(s.last())
        }
    }
}

/// The links of a buffer's strings, given the package and, for each
/// string, whether its candidate source file exists: sorted by where they
/// start, one per start.
pub open spec fn spec_links(
    bs: Seq<u8>,
    sites: Seq<StringSite>,
    build_file: bool,
    package: Option<Seq<char>>,
    root: Seq<char>,
    index: &Index,
    exists: Seq<bool>,
) -> Seq<LinkView> {
    dedup_by_start(sort_by_start(links_upto(bs, sites, sites.len() as int, build_file, package, root, index, exists)))
}

/// The source file whose existence decides the link of the string at site
/// `i`.
pub fn link_candidate(
    sites: &[StringSite],
    i: usize,
    build_file: bool,
    package: Option<&str>,
    root: &str,
) -> (file: Option<String>)
    requires
        i < sites@.len(),
    ensures
        (match spec_link_candidate(sites@, i as int, build_file, crate::label::opt_view(package), root@) {
            Some(f) => file matches Some(s) && s@ == f,
            None => file is None,
        }),
{
    let start = sites[i].token_start;
    if start == u32::MAX {
        return None;
    }
    match string_at(sites, start + 1, build_file) {
        None => None,
        Some(found) => match parse_label(found.value.as_str(), package) {
            None => None,
            Some(label) => Some(join_path(root, label.path().as_str())),
        },
    }
}

/// Place `x` into links sorted by start, after every link that does not
/// start after it.
fn insert_link(links: &mut Vec<Link>, x: Link)
    ensures
        final(links)@.map_values(|l: Link| link_view(l)) == insert_by_start(
            old(links)@.map_values(|l: Link| link_view(l)),
            link_view(x),
        ),
{
    let ghost s = links@.map_values(|l: Link| link_view(l));
    let ghost xv = link_view(x);
    let mut j: usize = links.len();
    assert(s.take(j as int) =~= s);
    assert(s.skip(j as int) =~= Seq::<LinkView>::empty());
    while j > 0 && (x.start.0 < links[j - 1].start.0 || (x.start.0 == links[j - 1].start.0 && x.start.1
        < links[j - 1].start.1))
        invariant
            j <= links@.len(),
            s == links@.map_values(|l: Link| link_view(l)),
            xv == link_view(x),
            insert_by_start(s, xv) == insert_by_start(s.take(j as int), xv) + s.skip(j as int),
        decreases j,
    {
        proof {
            let t = s.take(j as int);
            assert(t.last() == s[j - 1]);
            assert(t.drop_last() =~= s.take(j - 1));
            assert(s.skip(j - 1) =~= seq![s[j - 1]] + s.skip(j as int));
            assert(insert_by_start(t, xv) == insert_by_start(s.take(j - 1), xv).push(s[j - 1]));
            assert(insert_by_start(s.take(j - 1), xv).push(s[j - 1]) + s.skip(j as int) =~= insert_by_start(
                s.take(j - 1),
                xv,
            ) + s.skip(j - 1));
        }
        j = j - 1;
    }
    proof {
        let t = s.take(j as int);
        if j > 0 {
            assert(t.last() == s[j - 1]);
            assert(insert_by_start(t, xv) == t.push(xv));
        } else {
            assert(t.len() == 0);
        }
    }
    links.insert(j, x);
    assert(links@.map_values(|l: Link| link_view(l)) =~= s.take(j as int).push(xv) + s.skip(j as int));
}

/// The links of a Starlark buffer's strings, given for each string whether
/// its candidate source file exists: every string whose label resolves,
/// over the label alone, sorted by where it starts, one per start.
pub fn links_at(
    document: &Document,
    sites: &[StringSite],
    build_file: bool,
    package: Option<&str>,
    root: &str,
    index: &Index,
    exists: &[bool],
) -> (links: Vec<Link>)
    requires
        encode_utf8(document.text_view()).len() <= isize::MAX,
        exists@.len() == sites@.len(),
    ensures
        links@.map_values(|l: Link| link_view(l)) == spec_links(
            encode_utf8(document.text_view()),
            sites@,
            build_file,
            crate::label::opt_view(package),
            root@,
            index,
            exists@,
        ),
{
    let ghost bs = encode_utf8(document.text_view());
    let ghost pk = crate::label::opt_view(package);
    let mut sorted: Vec<Link> = Vec::new();
    let mut i: usize = 0;
    assert(sorted@.map_values(|l: Link| link_view(l)) =~= Seq::<LinkView>::empty());
    while i < sites.len()
        invariant
            i <= sites@.len(),
            exists@.len() == sites@.len(),
            bs == encode_utf8(document.text_view()),
            bs.len() <= isize::MAX,
            pk == crate::label::opt_view(package),
            sorted@.map_values(|l: Link| link_view(l)) == sort_by_start(
                links_upto(bs, sites@, i as int, build_file, pk, root@, index, exists@),
            ),
        decreases sites.len() - i,
    {
        let ghost before = links_upto(bs, sites@, i as int, build_file, pk, root@, index, exists@);
        let start = sites[i].token_start;
        let mut made: Option<Link> = None;
        if start < u32::MAX {
            match string_at(sites, start + 1, build_file) {
                None => {},
                Some(found) => match parse_label(found.value.as_str(), package) {
                    None => {},
                    Some(label) => {
                        let key = label.key();
                        let file = match index.target(key.as_str()) {
                            Some(t) => Some(t.file.clone()),
                            None => if exists[i] {
                                Some(join_path(root, label.path().as_str()))
                            } else {
                                None
                            },
                        };
                        match file {
                            None => {},
                            Some(f) => match checked_file_uri(f.as_str()) {
                                None => {},
                                Some(uri) => {
                                    made = Some(
                                        Link {
                                            start: document.position(found.start as usize),
                                            end: document.position(found.end as usize),
                                            target_uri: uri,
                                            tooltip: key,
                                        },
                                    );
                                },
                            },
                        }
                    },
                },
            }
        }
        proof {
            let after = links_upto(bs, sites@, i + 1, build_file, pk, root@, index, exists@);
            if made is Some {
                let l = made->0;
                assert(spec_link(bs, sites@, i as int, build_file, pk, root@, index, exists@[i as int])
                    == Some(link_view(l)));
                assert(after == before.push(link_view(l)));
                assert(after.drop_last() =~= before);
            } else {
                assert(spec_link(bs, sites@, i as int, build_file, pk, root@, index, exists@[i as int])
                    is None);
                assert(after == before);
            }
        }
        match made {
            Some(l) => insert_link(&mut sorted, l),
            None => {},
        }
        i = i + 1;
    }
    let ghost s = sorted@.map_values(|l: Link| link_view(l));
    let mut kept: Vec<Link> = Vec::new();
    let mut rest = sorted;
    let mut k: usize = 0;
    assert(s.take(0) =~= Seq::<LinkView>::empty());
    assert(kept@.map_values(|l: Link| link_view(l)) =~= Seq::<LinkView>::empty());
    assert(rest@.map_values(|l: Link| link_view(l)) =~= s.skip(0));
    assert(rest@.len() == s.len());
    let total = rest.len();
    while rest.len() > 0
        invariant
            total == s.len(),
            k <= s.len(),
            k + rest@.len() == s.len(),
            rest@.map_values(|l: Link| link_view(l)) == s.skip(k as int),
            kept@.map_values(|l: Link| link_view(l)) == dedup_by_start(s.take(k as int)),
        decreases rest@.len(),
    {
        let ghost r0 = rest@;
        assert(r0.map_values(|l: Link| link_view(l))[0] == link_view(r0[0]));
        let x = rest.remove(0);
        assert(rest@.map_values(|l: Link| link_view(l)) =~= s.skip(k + 1)) by {
            assert(rest@ =~= r0.skip(1));
            assert(s.skip(k as int).skip(1) =~= s.skip(k + 1));
        }
        assert(s.take(k + 1).drop_last() =~= s.take(k as int));
        assert(s.take(k + 1).last() == s[k as int]);
        assert(s[k as int] == link_view(x));
        let n = kept.len();
        let duplicate = n > 0 && kept[n - 1].start.0 == x.start.0 && kept[n - 1].start.1 == x.start.1;
        proof {
            if n > 0 {
                assert(kept@.map_values(|l: Link| link_view(l)).last() == link_view(kept@[n - 1]));
            }
        }
        if !duplicate {
            let ghost before = kept@.map_values(|l: Link| link_view(l));
            let ghost v = link_view(x);
            kept.push(x);
            assert(kept@.map_values(|l: Link| link_view(l)) =~= before.push(v));
        }
        k = k + 1;
    }
    assert(s.take(k as int) =~= s);
    kept
}

/// The links of a Starlark buffer, given its string literals and whether it
/// is a BUILD file: what [`links_at`] makes of them, with the package and
/// the existence of each candidate source file read from the disk: the
/// package is none or one of the buffer's candidate packages.
pub fn document_links(
    document: &Document,
    sites: &[StringSite],
    build_file: bool,
    root: &str,
    index: &Index,
) -> (links: Vec<Link>)
    requires
        encode_utf8(document.text_view()).len() <= isize::MAX,
    ensures
        exists|package: Option<Seq<char>>, exists: Seq<bool>|
            exists.len() == sites@.len() && possible_package(root@, document.path_view(), package)
                && links@.map_values(|l: Link| link_view(l)) == #[trigger] spec_links(
                encode_utf8(document.text_view()),
                sites@,
                build_file,
                package,
                root@,
                index,
                exists,
            ),
{
    let package = enclosing_package(root, document.path());
    let package = match &package {
        Some(p) => Some(p.as_str()),
        None => None,
    };
    let mut exists: Vec<bool> = Vec::new();
    let mut i: usize = 0;
    while i < sites.len()
        invariant
            i <= sites@.len(),
            exists@.len() == i,
        decreases sites.len() - i,
    {
        let found = match link_candidate(sites, i, build_file, package, root) {
            Some(file) => path_is_file(file.as_str()),
            None => false,
        };
        exists.push(found);
        i = i + 1;
    }
    let links = links_at(document, sites, build_file, package, root, index, &exists);
    assert(possible_package(root@, document.path_view(), crate::label::opt_view(package)));
    links
}

/// A hint: the package in front of a relative label.
#[derive(Debug, PartialEq, Eq)]
pub struct Hint {
    pub position: (u32, u32),
    pub label: String,
}

/// The hint for the string at site `i`, where its token starts within
/// `from..=to`, it is a relative label resolving in `package` to a target
/// the index declares.
pub open spec fn spec_hint(
    bs: Seq<u8>,
    sites: Seq<StringSite>,
    i: int,
    build_file: bool,
    package: Seq<char>,
    index: &Index,
    from: int,
    to: int,
) -> Option<((u32, u32), Seq<char>)> {
    let site = sites[i];
    if site.token_start < from || site.token_start > to {
        None
    } else {
        match probe(site) {
            None => None,
            Some(offset) => match spec_string_at(sites, offset, build_file) {
                None => None,
                Some(found) => if starts_with(found.value, seq!['/', '/']) || starts_with(
                    found.value,
                    seq!['@'],
                ) {
                    None
                } else {
                    match spec_parse_label(found.value, Some(package)) {
                        None => None,
                        Some((p, n)) => if index.resolved(spec_key(p, n)) is None {
                            None
                        } else {
                            Some((text_position(bs, found.start), seq!['/', '/'] + package))
                        },
                    }
                },
            },
        }
    }
}

/// The hints of the first `k` sites, in order.
pub open spec fn hints_upto(
    bs: Seq<u8>,
    sites: Seq<StringSite>,
    k: int,
    build_file: bool,
    package: Seq<char>,
    index: &Index,
    from: int,
    to: int,
) -> Seq<((u32, u32), Seq<char>)>
    decreases k,
{
    if k <= 0 {
        Seq::empty()
    } else {
        let rest = hints_upto(bs, sites, k - 1, build_file, package, index, from, to);
        match spec_hint(bs, sites, k - 1, build_file, package, index, from, to) {
            Some(h) => rest.push(h),
            None => rest,
        }
    }
}

/// The hints over the strings whose tokens start within `from..=to`, for a
/// buffer in `package`: one in front of each relative label naming a
/// declared target, saying `//package`.
pub fn hints_at(
    document: &Document,
    sites: &[StringSite],
    build_file: bool,
    package: &str,
    index: &Index,
    from: usize,
    to: usize,
) -> (hints: Vec<Hint>)
    requires
        encode_utf8(document.text_view()).len() <= isize::MAX,
    ensures
        hints@.map_values(|h: Hint| (h.position, h.label@)) == hints_upto(
            encode_utf8(document.text_view()),
            sites@,
            sites@.len() as int,
            build_file,
            package@,
            index,
            from as int,
            to as int,
        ),
{
    let ghost bs = encode_utf8(document.text_view());
    let mut label = String::new();
    append(&mut label, "//");
    append(&mut label, package);
    proof {
        reveal_strlit("//");
        assert(label@ =~= seq!['/', '/'] + package@);
    }
    let mut hints: Vec<Hint> = Vec::new();
    let mut i: usize = 0;
    assert(hints@.map_values(|h: Hint| (h.position, h.label@)) =~= Seq::<((u32, u32), Seq<char>)>::empty());
    while i < sites.len()
        invariant
            i <= sites@.len(),
            bs == encode_utf8(document.text_view()),
            bs.len() <= isize::MAX,
            label@ == seq!['/', '/'] + package@,
            hints@.map_values(|h: Hint| (h.position, h.label@)) == hints_upto(
                bs,
                sites@,
                i as int,
                build_file,
                package@,
                index,
                from as int,
                to as int,
            ),
        decreases sites.len() - i,
    {
        let ghost before = hints_upto(bs, sites@, i as int, build_file, package@, index, from as int, to as int);
        let start = sites[i].token_start;
        let mut made: Option<Hint> = None;
        if (start as usize) >= from && (start as usize) <= to && start < u32::MAX {
            match string_at(sites, start + 1, build_file) {
                None => {},
                Some(found) => {
                    proof {
                        reveal_strlit("//");
                        reveal_strlit("@");
                    }
                    if !str_starts_with(found.value.as_str(), "//") && !str_starts_with(found.value.as_str(), "@") {
                        assert("//"@ =~= seq!['/', '/']);
                        assert("@"@ =~= seq!['@']);
                        match parse_label(found.value.as_str(), Some(package)) {
                            None => {},
                            Some(l) => {
                                if index.target(l.key().as_str()).is_some() {
                                    made = Some(Hint { position: document.position(found.start as usize), label: label.clone() });
                                }
                            },
                        }
                    } else {
                        assert("//"@ =~= seq!['/', '/']);
                        assert("@"@ =~= seq!['@']);
                    }
                },
            }
        }
        proof {
            let after = hints_upto(bs, sites@, i + 1, build_file, package@, index, from as int, to as int);
            if made is Some {
                let h = made->0;
                assert(spec_hint(bs, sites@, i as int, build_file, package@, index, from as int, to as int)
                    == Some((h.position, h.label@)));
                assert(after == before.push((h.position, h.label@)));
            } else {
                assert(spec_hint(bs, sites@, i as int, build_file, package@, index, from as int, to as int)
                    is None);
                assert(after == before);
            }
        }
        match made {
            Some(h) => {
                let ghost prev = hints@.map_values(|h: Hint| (h.position, h.label@));
                let ghost v = (h.position, h.label@);
                hints.push(h);
                assert(hints@.map_values(|h: Hint| (h.position, h.label@)) =~= prev.push(v));
            },
            None => {},
        }
        i = i + 1;
    }
    hints
}

/// The package hints between two zero-based positions of a Starlark
/// buffer, given its string literals and whether it is a BUILD file: what
/// [`hints_at`] gives for the buffer's package, read from the disk, which is
/// one of its candidate packages. Nothing for a file in no package.
pub fn inlay_hints(
    document: &Document,
    sites: &[StringSite],
    build_file: bool,
    root: &str,
    index: &Index,
    start: (u32, u32),
    end: (u32, u32),
) -> (hints: Vec<Hint>)
    requires
        encode_utf8(document.text_view()).len() <= isize::MAX,
    ensures
        hints@.len() == 0 || exists|package: Seq<char>|
            found_among(root@, document.path_view(), package) && hints@.map_values(
                |h: Hint| (h.position, h.label@),
            ) == #[trigger] hints_upto(
                encode_utf8(document.text_view()),
                sites@,
                sites@.len() as int,
                build_file,
                package,
                index,
                text_offset(encode_utf8(document.text_view()), start.0, start.1),
                text_offset(encode_utf8(document.text_view()), end.0, end.1),
            ),
{
    let package = match enclosing_package(root, document.path()) {
        Some(p) => p,
        None => {
            return Vec::new();
        },
    };
    let from = document.offset(start.0, start.1);
    let to = document.offset(end.0, end.1);
    let hints = hints_at(document, sites, build_file, package.as_str(), index, from, to);
    assert(found_among(root@, document.path_view(), package@));
    hints
}

} // verus!
