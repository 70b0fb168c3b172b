//! What a reader can collapse in a Starlark file, and how a selection
//! widens along its syntax tree.
//!
//! Both are read off the tree's nodes, which the syntax tree hands over as
//! byte ranges in document order, outer nodes before the nodes they hold.

use vstd::prelude::*;
use crate::bazelrc::structural::{
    comment_folds, comment_runs, fold_if, insert_sorted_fold, push_fold, sort_folds, Fold,
};
use crate::document::Document;
use crate::line_index::{text_offset, text_position};
use vstd::utf8::encode_utf8;

verus! {

/// The folds of the foldable nodes, each spanning the lines of its range.
pub open spec fn node_folds(bs: Seq<u8>, regions: Seq<(u32, u32)>) -> Seq<Fold>
    decreases regions.len(),
{
    if regions.len() == 0 {
        Seq::empty()
    } else {
        let r = regions.last();
        node_folds(bs, regions.drop_last()) + fold_if(
            text_position(bs, r.0 as int).0,
            text_position(bs, r.1 as int).0,
            false,
        )
    }
}

/// The lines of comment tokens, in order.
pub open spec fn comment_token_lines(bs: Seq<u8>, comments: Seq<u32>) -> Seq<u32> {
    comments.map_values(|c: u32| text_position(bs, c as int).0)
}

/// Folds with each run that spans the same lines cut to its first.
pub open spec fn dedup_folds(s: Seq<Fold>) -> Seq<Fold>
    decreases s.len(),
{
    if s.len() == 0 {
        s
    } else {
        let rest = dedup_folds(s.drop_last());
        if rest.len() > 0 && rest.last().start_line == s.last().start_line && rest.last().end_line
            == s.last().end_line {
            rest
        } else {
            rest.push(s.last())
        }
    }
}

/// The folds of a Starlark buffer: each foldable node over several lines,
/// and each run of comments on consecutive lines; sorted by first line,
/// then last, each span once.
pub open spec fn spec_starlark_folds(bs: Seq<u8>, regions: Seq<(u32, u32)>, comments: Seq<u32>) -> Seq<
    Fold,
> {
    dedup_folds(
        sort_folds(node_folds(bs, regions) + comment_runs(comment_token_lines(bs, comments), None)),
    )
}

/// The foldable regions of a Starlark buffer, given the byte ranges of its
/// foldable nodes (calls, collections, comprehensions, `def` bodies and
/// `load()` statements) and the byte offsets of its comments, both in
/// document order. A region on a single line is dropped.
pub fn folding_ranges(document: &Document, regions: &[(u32, u32)], comments: &[u32]) -> (folds: Vec<Fold>)
    requires
        encode_utf8(document.text_view()).len() <= isize::MAX,
    ensures
        folds@ == spec_starlark_folds(encode_utf8(document.text_view()), regions@, comments@),
{
    let ghost bs = encode_utf8(document.text_view());
    let mut all: Vec<Fold> = Vec::new();
    let mut i: usize = 0;
    assert(regions@.take(0) =~= Seq::<(u32, u32)>::empty());
    while i < regions.len()
        invariant
            i <= regions@.len(),
            bs == encode_utf8(document.text_view()),
            bs.len() <= isize::MAX,
            all@ == node_folds(bs, regions@.take(i as int)),
        decreases regions.len() - i,
    {
        assert(regions@.take(i + 1).drop_last() =~= regions@.take(i as int));
        assert(regions@.take(i + 1).last() == regions@[i as int]);
        let (s, e) = regions[i];
        let start = document.position(s as usize).0;
        let end = document.position(e as usize).0;
        push_fold(&mut all, start, end, false);
        i = i + 1;
    }
    assert(regions@.take(i as int) =~= regions@);
    let mut lines: Vec<u32> = Vec::new();
    let mut k: usize = 0;
    while k < comments.len()
        invariant
            k <= comments@.len(),
            bs == encode_utf8(document.text_view()),
            bs.len() <= isize::MAX,
            lines@ == comment_token_lines(bs, comments@.take(k as int)),
        decreases comments.len() - k,
    {
        lines.push(document.position(comments[k] as usize).0);
        k = k + 1;
        assert(comment_token_lines(bs, comments@.take(k as int)) =~= comment_token_lines(
            bs,
            comments@.take(k - 1),
        ).push(text_position(bs, comments@[k - 1] as int).0));
    }
    assert(comments@.take(k as int) =~= comments@);
    comment_folds(&lines, &mut all);
    let ghost unsorted = all@;
    let mut sorted: Vec<Fold> = Vec::new();
    let mut j: usize = 0;
    assert(unsorted.take(0) =~= Seq::<Fold>::empty());
    while j < all.len()
        invariant
            j <= all@.len(),
            all@ == unsorted,
            sorted@ == sort_folds(unsorted.take(j as int)),
        decreases all.len() - j,
    {
        assert(unsorted.take(j + 1).drop_last() =~= unsorted.take(j as int));
        assert(unsorted.take(j + 1).last() == unsorted[j as int]);
        insert_sorted_fold(&mut sorted, all[j]);
        j = j + 1;
    }
    assert(unsorted.take(j as int) =~= unsorted);
    let ghost s = sorted@;
    let mut kept: Vec<Fold> = Vec::new();
    let mut m: usize = 0;
    assert(s.take(0) =~= Seq::<Fold>::empty());
    while m < sorted.len()
        invariant
            m <= s.len(),
            sorted@ == s,
            kept@ == dedup_folds(s.take(m as int)),
        decreases sorted.len() - m,
    {
        assert(s.take(m + 1).drop_last() =~= s.take(m as int));
        assert(s.take(m + 1).last() == s[m as int]);
        let f = sorted[m];
        let n = kept.len();
        if !(n > 0 && kept[n - 1].start_line == f.start_line && kept[n - 1].end_line == f.end_line) {
            kept.push(f);
        }
        m = m + 1;
    }
    assert(s.take(m as int) =~= s);
    kept
}

/// A range of a document, as the positions of its ends.
pub type Span = ((u32, u32), (u32, u32));

/// The ranges of the nodes holding `offset`, outermost first.
pub open spec fn holding(bs: Seq<u8>, nodes: Seq<(u32, u32)>, offset: int) -> Seq<Span>
    decreases nodes.len(),
{
    if nodes.len() == 0 {
        Seq::empty()
    } else {
        let n = nodes.last();
        let rest = holding(bs, nodes.drop_last(), offset);
        if n.0 <= offset <= n.1 {
            rest.push((text_position(bs, n.0 as int), text_position(bs, n.1 as int)))
        } else {
            rest
        }
    }
}

/// Ranges with each one equal to the range kept before it dropped.
pub open spec fn distinct_steps(s: Seq<Span>) -> Seq<Span>
    decreases s.len(),
{
    if s.len() == 0 {
        s
    } else {
        let rest = distinct_steps(s.drop_last());
        if rest.len() > 0 && rest.last() == s.last() {
            rest
        } else {
            rest.push(s.last())
        }
    }
}

/// The chain of ranges around `offset`, innermost first: each node holding
/// it, a node with the same range as the one inside it counted once; the
/// whole file where no node holds it.
pub open spec fn spec_chain(bs: Seq<u8>, nodes: Seq<(u32, u32)>, offset: int) -> Seq<Span> {
    let steps = distinct_steps(holding(bs, nodes, offset));
    if steps.len() == 0 {
        seq![((0u32, 0u32), text_position(bs, bs.len() as int))]
    } else {
        steps.reverse()
    }
}

/// For each requested position, the chain of ranges enclosing it, from the
/// node under the cursor out to the file, given the byte ranges of the
/// buffer's nodes in document order.
pub fn selection_ranges(document: &Document, nodes: &[(u32, u32)], positions: &[(u32, u32)]) -> (chains: Vec<
    Vec<Span>,
>)
    requires
        encode_utf8(document.text_view()).len() <= isize::MAX,
    ensures
        chains@.len() == positions@.len(),
        forall|i: int|
            0 <= i < positions@.len() ==> (#[trigger] chains@[i])@ == spec_chain(
                encode_utf8(document.text_view()),
                nodes@,
                text_offset(encode_utf8(document.text_view()), positions@[i].0, positions@[i].1),
            ),
{
    let ghost bs = encode_utf8(document.text_view());
    let mut chains: Vec<Vec<Span>> = Vec::new();
    let mut p: usize = 0;
    while p < positions.len()
        invariant
            p <= positions@.len(),
            bs == encode_utf8(document.text_view()),
            bs.len() <= isize::MAX,
            chains@.len() == p,
            forall|i: int|
                0 <= i < p ==> (#[trigger] chains@[i])@ == spec_chain(
                    bs,
                    nodes@,
                    text_offset(bs, positions@[i].0, positions@[i].1),
                ),
        decreases positions.len() - p,
    {
        let (line, character) = positions[p];
        let offset = document.offset(line, character);
        let mut steps: Vec<Span> = Vec::new();
        let mut i: usize = 0;
        assert(nodes@.take(0) =~= Seq::<(u32, u32)>::empty());
        while i < nodes.len()
            invariant
                i <= nodes@.len(),
                bs == encode_utf8(document.text_view()),
                bs.len() <= isize::MAX,
                offset == text_offset(bs, line, character),
                steps@ == distinct_steps(holding(bs, nodes@.take(i as int), offset as int)),
            decreases nodes.len() - i,
        {
            assert(nodes@.take(i + 1).drop_last() =~= nodes@.take(i as int));
            assert(nodes@.take(i + 1).last() == nodes@[i as int]);
            let (s, e) = nodes[i];
            let ghost h0 = holding(bs, nodes@.take(i as int), offset as int);
            let ghost h1 = holding(bs, nodes@.take(i + 1), offset as int);
            if s as usize <= offset && offset <= e as usize {
                let range = (document.position(s as usize), document.position(e as usize));
                assert(h1 == h0.push(range));
                assert(h1.drop_last() =~= h0);
                let n = steps.len();
                if !(n > 0 && steps[n - 1].0.0 == range.0.0 && steps[n - 1].0.1 == range.0.1
                    && steps[n - 1].1.0 == range.1.0 && steps[n - 1].1.1 == range.1.1) {
                    steps.push(range);
                }
            }
            i = i + 1;
        }
        assert(nodes@.take(i as int) =~= nodes@);
        let chain = if steps.len() == 0 {
            let mut whole: Vec<Span> = Vec::new();
            let end = document.position(document.text().len());
            whole.push(((0u32, 0u32), end));
            whole
        } else {
            let mut reversed: Vec<Span> = Vec::new();
            let mut k: usize = steps.len();
            while k > 0
                invariant
                    k <= steps@.len(),
                    reversed@ == steps@.skip(k as int).reverse(),
                decreases k,
            {
                k = k - 1;
                reversed.push(steps[k]);
                assert(steps@.skip(k as int) =~= seq![steps@[k as int]] + steps@.skip(k + 1));
                assert(steps@.skip(k as int).reverse() =~= steps@.skip(k + 1).reverse().push(steps@[k as int]));
            }
            assert(steps@.skip(0) =~= steps@);
            reversed
        };
        chains.push(chain);
        p = p + 1;
    }
    chains
}

} // verus!
