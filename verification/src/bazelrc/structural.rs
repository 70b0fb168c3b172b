//! The structure of an rc buffer as an editor shows it, needing no flag
//! catalog: its colouring, its folds and the ranges a selection grows
//! through.

use vstd::prelude::*;
use vstd::string::StringSliceAdditionalSpecFns;
use vstd::utf8::encode_utf8;
use super::navigation::{place_of, span_holds, Place};
use super::syntax::{Directive, Line, Span, Statement};
use crate::document::Document;
use crate::handlers::semantic::{
    encode, lemma_sort_sorted, sort_absolute, sorted_tokens, spec_encode, Absolute, SemanticToken,
};
use crate::line_index::{is_boundary, lemma_one_line, text_offset, text_position, LineIndex};
use crate::text::{chars_of, trim, trim_chars};
use vstd::utf8::{decode_utf8, is_char_boundary};

verus! {

/// An import path.
pub const NAMESPACE: u32 = 2;
/// A command, section key or directive.
pub const KEYWORD: u32 = 4;
/// An option.
pub const PROPERTY: u32 = 5;
/// A comment.
pub const COMMENT: u32 = 6;
/// A version condition.
pub const OPERATOR: u32 = 7;

/// The first newline in bytes `from..end`, or `end`.
pub open spec fn first_newline(bs: Seq<u8>, from: int, end: int) -> int
    decreases end - from,
{
    if from >= end {
        end
    } else if bs[from] == 10 {
        from
    } else {
        first_newline(bs, from + 1, end)
    }
}

/// The first newline lies within the range searched.
pub proof fn lemma_first_newline(bs: Seq<u8>, from: int, end: int)
    requires
        from <= end,
    ensures
        from <= first_newline(bs, from, end) <= end,
    decreases end - from,
{
    if from < end && bs[from] != 10 {
        lemma_first_newline(bs, from + 1, end);
    }
}

/// The tokens a span makes from byte `from` on: one per physical line it
/// crosses, each ending before its line's newline and carriage return, and
/// none where that leaves nothing.
pub open spec fn span_pieces(bs: Seq<u8>, from: int, end: int, token_type: u32) -> Seq<Absolute>
    decreases end - from,
{
    if from >= end {
        Seq::empty()
    } else {
        let stop = first_newline(bs, from, end);
        let e = if stop > from && bs[stop - 1] == 13 {
            stop - 1
        } else {
            stop
        };
        let here: Seq<Absolute> = if e > from {
            let at = text_position(bs, from);
            seq![(at.0, at.1, (text_position(bs, e).1 - at.1) as u32, token_type)]
        } else {
            Seq::empty()
        };
        let next = if stop < end {
            stop + 1
        } else {
            end
        };
        proof {
            lemma_first_newline(bs, from, end);
        }
        here + span_pieces(bs, next, end, token_type)
    }
}

/// The token at place `k` of a line, if it has one, with a type.
pub open spec fn typed_token(line: Line, k: int, token_type: u32) -> Seq<(Span, u32)> {
    if k < line.tokens@.len() {
        seq![(line.tokens@[k].range, token_type)]
    } else {
        Seq::empty()
    }
}

/// The spans a line colours: a directive's keyword, condition and path; an
/// entry's key and each of its options; then its comment.
pub open spec fn line_spans(line: Line) -> Seq<(Span, u32)> {
    let body: Seq<(Span, u32)> = match line.statement {
        Some(Statement::Directive(Directive::ConditionalImport(_))) => typed_token(line, 0, KEYWORD)
            + typed_token(line, 1, OPERATOR) + typed_token(line, 2, NAMESPACE),
        Some(Statement::Directive(_)) => typed_token(line, 0, KEYWORD) + typed_token(line, 1, NAMESPACE),
        Some(Statement::Entry) => typed_token(line, 0, KEYWORD) + (if line.tokens@.len() > 0 {
            line.tokens@.skip(1).map_values(|t: super::syntax::Token| (t.range, PROPERTY))
        } else {
            Seq::empty()
        }),
        _ => Seq::empty(),
    };
    match line.comment {
        Some(c) => body.push((c, COMMENT)),
        None => body,
    }
}

/// The tokens of a run of spans.
pub open spec fn spans_pieces(bs: Seq<u8>, spans: Seq<(Span, u32)>) -> Seq<Absolute>
    decreases spans.len(),
{
    if spans.len() == 0 {
        Seq::empty()
    } else {
        spans_pieces(bs, spans.drop_last()) + span_pieces(
            bs,
            spans.last().0.start as int,
            spans.last().0.end as int,
            spans.last().1,
        )
    }
}

/// The tokens of every line, in line order.
pub open spec fn lines_pieces(bs: Seq<u8>, lines: Seq<Line>) -> Seq<Absolute>
    decreases lines.len(),
{
    if lines.len() == 0 {
        Seq::empty()
    } else {
        lines_pieces(bs, lines.drop_last()) + spans_pieces(bs, line_spans(lines.last()))
    }
}

/// A span lies within the text and ends where a character does.
pub open spec fn span_fits(bs: Seq<u8>, span: Span) -> bool {
    span.start <= span.end <= bs.len() && is_boundary(bs, span.end as int)
}

/// Every span the lines colour fits the text.
pub open spec fn spans_fit(bs: Seq<u8>, lines: Seq<Line>) -> bool {
    forall|i: int, j: int|
        0 <= i < lines.len() && 0 <= j < line_spans(lines[i]).len() ==> span_fits(
            bs,
            #[trigger] line_spans(lines[i])[j].0,
        )
}

/// The first newline in `bytes[from..end]`, or `end`.
fn find_newline(bytes: &[u8], from: usize, end: usize) -> (at: usize)
    requires
        from <= end <= bytes@.len(),
    ensures
        at == first_newline(bytes@, from as int, end as int),
        from <= at <= end,
        forall|i: int| from <= i < at ==> bytes@[i] != 10,
        at < end ==> bytes@[at as int] == 10,
{
    let mut i = from;
    while i < end && bytes[i] != 10
        invariant
            from <= i <= end <= bytes@.len(),
            first_newline(bytes@, from as int, end as int) == first_newline(bytes@, i as int, end as int),
            forall|k: int| from <= k < i ==> bytes@[k] != 10,
        decreases end - i,
    {
        i = i + 1;
    }
    i
}

/// Add the tokens a span makes.
fn push_span(text: &str, lines: &LineIndex, span: Span, token_type: u32, out: &mut Vec<Absolute>)
    requires
        lines.indexes(text),
        text.spec_bytes().len() <= u32::MAX,
        span_fits(text.spec_bytes(), span),
    ensures
        final(out)@ == old(out)@ + span_pieces(text.spec_bytes(), span.start as int, span.end as int, token_type),
{
    let bytes = text.as_bytes();
    let ghost bs = bytes@;
    let ghost start_out = old(out)@;
    let mut start = span.start;
    assert(start_out + span_pieces(bs, span.start as int, span.end as int, token_type) =~= out@ + span_pieces(
        bs,
        start as int,
        span.end as int,
        token_type,
    ));
    while start < span.end
        invariant
            span.start <= start <= span.end <= bs.len(),
            bs == bytes@,
            bs == text.spec_bytes(),
            lines.indexes(text),
            bs.len() <= u32::MAX,
            is_boundary(bs, span.end as int),
            start_out + span_pieces(bs, span.start as int, span.end as int, token_type) == out@ + span_pieces(
                bs,
                start as int,
                span.end as int,
                token_type,
            ),
        decreases span.end - start,
    {
        let stop = find_newline(bytes, start, span.end);
        let end = if stop > start && bytes[stop - 1] == 13 {
            stop - 1
        } else {
            stop
        };
        let ghost before = out@;
        if end > start {
            proof {
                assert(is_boundary(bs, end as int)) by {
                    if end < stop {
                        assert(bs[end as int] == 13);
                    } else if stop < span.end {
                        assert(bs[stop as int] == 10);
                    }
                }
                vstd::utf8::encode_utf8_valid_utf8(text@);
                lemma_one_line(bs, start as int, end as int);
            }
            let at = lines.position(text, start);
            let after = lines.position(text, end);
            out.push((at.0, at.1, after.1 - at.1, token_type));
        }
        let next = if stop < span.end {
            stop + 1
        } else {
            span.end
        };
        assert(out@ + span_pieces(bs, next as int, span.end as int, token_type) =~= before + span_pieces(
            bs,
            start as int,
            span.end as int,
            token_type,
        ));
        start = next;
    }
    assert(span_pieces(bs, start as int, span.end as int, token_type) =~= Seq::<Absolute>::empty());
}

/// The spans a line colours.
fn line_token_spans(line: &Line) -> (spans: Vec<(Span, u32)>)
    ensures
        spans@ == line_spans(*line),
{
    let mut spans: Vec<(Span, u32)> = Vec::new();
    let n = line.tokens.len();
    match &line.statement {
        Some(Statement::Directive(Directive::ConditionalImport(_))) => {
            if n > 0 {
                spans.push((line.tokens[0].range, KEYWORD));
            }
            if n > 1 {
                spans.push((line.tokens[1].range, OPERATOR));
            }
            if n > 2 {
                spans.push((line.tokens[2].range, NAMESPACE));
            }
        },
        Some(Statement::Directive(_)) => {
            if n > 0 {
                spans.push((line.tokens[0].range, KEYWORD));
            }
            if n > 1 {
                spans.push((line.tokens[1].range, NAMESPACE));
            }
        },
        Some(Statement::Entry) => {
            if n > 0 {
                spans.push((line.tokens[0].range, KEYWORD));
                let mut k: usize = 1;
                while k < n
                    invariant
                        1 <= k <= n,
                        n == line.tokens@.len(),
                        spans@ == typed_token(*line, 0, KEYWORD) + line.tokens@.skip(1).take(k - 1).map_values(
                            |t: super::syntax::Token| (t.range, PROPERTY),
                        ),
                    decreases n - k,
                {
                    spans.push((line.tokens[k].range, PROPERTY));
                    assert(line.tokens@.skip(1).take(k as int) =~= line.tokens@.skip(1).take(k - 1).push(
                        line.tokens@[k as int],
                    ));
                    k = k + 1;
                }
                assert(line.tokens@.skip(1).take(n - 1) =~= line.tokens@.skip(1));
            } else {
                assert(spans@ =~= typed_token(*line, 0, KEYWORD) + Seq::<(Span, u32)>::empty());
            }
        },
        _ => {},
    }
    match line.comment {
        Some(c) => spans.push((c, COMMENT)),
        None => {},
    }
    proof {
        let body = line_spans(*line);
        assert(spans@ =~= body);
    }
    spans
}

/// The colouring of an rc buffer: every directive's keyword, condition and
/// path, every entry's key and options, and every comment; a span across
/// physical lines colours each of its lines. Sorted, and each token
/// written relative to the one before.
pub fn semantic_tokens(document: &Document) -> (tokens: Vec<SemanticToken>)
    requires
        encode_utf8(document.text_view()).len() <= u32::MAX,
        document.rc() ==> spans_fit(encode_utf8(document.text_view()), document.rc_parse().lines@),
    ensures
        tokens@ == (if document.rc() {
            spec_encode(sort_absolute(lines_pieces(encode_utf8(document.text_view()), document.rc_parse().lines@)))
        } else {
            Seq::empty()
        }),
{
    let parsed = match document.bazelrc() {
        Some(parsed) => parsed,
        None => {
            return Vec::new();
        },
    };
    let text = document.text();
    let lines = document.line_index();
    let ghost bs = text.spec_bytes();
    let ghost all = parsed.lines@;
    let mut absolute: Vec<Absolute> = Vec::new();
    let mut i: usize = 0;
    assert(all.take(0) =~= Seq::<Line>::empty());
    while i < parsed.lines.len()
        invariant
            i <= all.len(),
            all == parsed.lines@,
            bs == text.spec_bytes(),
            bs == encode_utf8(document.text_view()),
            lines.indexes(text),
            bs.len() <= u32::MAX,
            spans_fit(bs, all),
            absolute@ == lines_pieces(bs, all.take(i as int)),
        decreases parsed.lines.len() - i,
    {
        let spans = line_token_spans(&parsed.lines[i]);
        let ghost start = absolute@;
        let mut j: usize = 0;
        assert(spans@.take(0) =~= Seq::<(Span, u32)>::empty());
        assert(start + Seq::<Absolute>::empty() =~= start);
        while j < spans.len()
            invariant
                i < all.len(),
                spans@ == line_spans(all[i as int]),
                bs == text.spec_bytes(),
                lines.indexes(text),
                bs.len() <= u32::MAX,
                spans_fit(bs, all),
                j <= spans@.len(),
                absolute@ == start + spans_pieces(bs, spans@.take(j as int)),
            decreases spans.len() - j,
        {
            assert(span_fits(bs, line_spans(all[i as int])[j as int].0));
            let (span, token_type) = spans[j];
            assert(spans@.take(j + 1).drop_last() =~= spans@.take(j as int));
            assert(spans@.take(j + 1).last() == spans@[j as int]);
            let ghost before = absolute@;
            push_span(text, lines, span, token_type, &mut absolute);
            assert(absolute@ =~= start + spans_pieces(bs, spans@.take(j + 1)));
            j = j + 1;
        }
        assert(spans@.take(spans@.len() as int) =~= spans@);
        assert(all.take(i + 1).drop_last() =~= all.take(i as int));
        assert(all.take(i + 1).last() == all[i as int]);
        i = i + 1;
    }
    assert(all.take(all.len() as int) =~= all);
    let sorted = sorted_tokens(absolute.as_slice());
    proof {
        lemma_sort_sorted(absolute@);
    }
    encode(sorted.as_slice())
}

/// A range of lines an editor may fold: a logical line that spans several
/// physical ones, or a run of comment lines.
#[derive(Debug, Clone, Copy, PartialEq, Eq)]
pub struct Fold {
    pub start_line: u32,
    pub end_line: u32,
    pub comment: bool,
}

/// A fold, where it spans more than one line.
pub open spec fn fold_if(start: u32, end: u32, comment: bool) -> Seq<Fold> {
    if end > start {
        seq![Fold { start_line: start, end_line: end, comment }]
    } else {
        Seq::empty()
    }
}

/// The folds of logical lines that cross physical ones.
pub open spec fn line_folds(bs: Seq<u8>, lines: Seq<Line>) -> Seq<Fold>
    decreases lines.len(),
{
    if lines.len() == 0 {
        Seq::empty()
    } else {
        let l = lines.last();
        line_folds(bs, lines.drop_last()) + fold_if(
            text_position(bs, l.range.start as int).0,
            text_position(bs, l.range.end as int).0,
            false,
        )
    }
}

/// Bytes `a..b` hold only whitespace, cut at character boundaries.
pub open spec fn blank_between(bs: Seq<u8>, a: int, b: int) -> bool {
    &&& a <= b <= bs.len()
    &&& is_char_boundary(bs, b)
    &&& is_char_boundary(bs.subrange(0, b), a)
    &&& trim(decode_utf8(bs.subrange(a, b))).len() == 0
}

/// The lines of comments that stand alone on their line, in line order.
pub open spec fn comment_lines(bs: Seq<u8>, lines: Seq<Line>) -> Seq<u32>
    decreases lines.len(),
{
    if lines.len() == 0 {
        Seq::empty()
    } else {
        let l = lines.last();
        let rest = comment_lines(bs, lines.drop_last());
        match l.comment {
            Some(c) => if blank_between(bs, l.range.start as int, c.start as int) {
                rest.push(text_position(bs, c.start as int).0)
            } else {
                rest
            },
            None => rest,
        }
    }
}

/// `x` placed into sorted numbers after every one not above it.
pub open spec fn insert_number(s: Seq<u32>, x: u32) -> Seq<u32>
    decreases s.len(),
{
    if s.len() == 0 {
        seq![x]
    } else if x < s.last() {
        insert_number(s.drop_last(), x).push(s.last())
    } else {
        s.push(x)
    }
}

/// Numbers in ascending order.
pub open spec fn sort_numbers(s: Seq<u32>) -> Seq<u32>
    decreases s.len(),
{
    if s.len() == 0 {
        s
    } else {
        insert_number(sort_numbers(s.drop_last()), s.last())
    }
}

/// The folds of runs of consecutive comment lines, the run so far being
/// `run`.
pub open spec fn comment_runs(ls: Seq<u32>, run: Option<(u32, u32)>) -> Seq<Fold>
    decreases ls.len(),
{
    if ls.len() == 0 {
        match run {
            Some((start, last)) => fold_if(start, last, true),
            None => Seq::empty(),
        }
    } else {
        let l = ls[0];
        match run {
            Some((start, last)) => if l == last + 1 {
                comment_runs(ls.drop_first(), Some((start, l)))
            } else {
                fold_if(start, last, true) + comment_runs(ls.drop_first(), Some((l, l)))
            },
            None => comment_runs(ls.drop_first(), Some((l, l))),
        }
    }
}

/// Folds order by first line, then last.
pub open spec fn fold_less(a: Fold, b: Fold) -> bool {
    a.start_line < b.start_line || (a.start_line == b.start_line && a.end_line < b.end_line)
}

/// `x` placed into sorted folds after every fold that does not sort after
/// it.
pub open spec fn insert_fold(s: Seq<Fold>, x: Fold) -> Seq<Fold>
    decreases s.len(),
{
    if s.len() == 0 {
        seq![x]
    } else if fold_less(x, s.last()) {
        insert_fold(s.drop_last(), x).push(s.last())
    } else {
        s.push(x)
    }
}

/// Folds in order, folds that sort alike kept in the order given.
pub open spec fn sort_folds(s: Seq<Fold>) -> Seq<Fold>
    decreases s.len(),
{
    if s.len() == 0 {
        s
    } else {
        insert_fold(sort_folds(s.drop_last()), s.last())
    }
}

/// The folds of an rc buffer: each logical line over several physical
/// ones, and each run of consecutive lines holding only a comment; sorted
/// by first line, then last.
pub open spec fn spec_folds(bs: Seq<u8>, lines: Seq<Line>) -> Seq<Fold> {
    sort_folds(line_folds(bs, lines) + comment_runs(sort_numbers(comment_lines(bs, lines)), None))
}

/// Whether bytes `a..b` of `text` hold only whitespace.
fn blank(text: &str, a: usize, b: usize) -> (r: bool)
    requires
        text.spec_bytes().len() <= u32::MAX,
    ensures
        r == blank_between(text.spec_bytes(), a as int, b as int),
{
    if a > b || b > text.len() {
        return false;
    }
    if !text.is_char_boundary(b) {
        return false;
    }
    let (head, _) = text.split_at(b);
    if !head.is_char_boundary(a) {
        return false;
    }
    let (_, middle) = head.split_at(a);
    proof {
        let bs = text.spec_bytes();
        assert(middle.spec_bytes() =~= bs.subrange(a as int, b as int));
        vstd::utf8::encode_utf8_decode_utf8(middle@);
    }
    trim_chars(&chars_of(middle)).len() == 0
}

/// Place `x` into sorted numbers after every one not above it.
fn insert_line(numbers: &mut Vec<u32>, x: u32)
    ensures
        final(numbers)@ == insert_number(old(numbers)@, x),
{
    let ghost s = numbers@;
    let mut j: usize = numbers.len();
    assert(s.take(j as int) =~= s);
    assert(s.skip(j as int) =~= Seq::<u32>::empty());
    while j > 0 && x < numbers[j - 1]
        invariant
            j <= numbers@.len(),
            s == numbers@,
            insert_number(s, x) == insert_number(s.take(j as int), x) + s.skip(j as int),
        decreases j,
    {
        proof {
            let t = s.take(j as int);
            assert(t.last() == s[j - 1]);
            assert(t.drop_last() =~= s.take(j - 1));
            assert(s.skip(j - 1) =~= seq![s[j - 1]] + s.skip(j as int));
            assert(insert_number(s.take(j - 1), x).push(s[j - 1]) + s.skip(j as int) =~= insert_number(
                s.take(j - 1),
                x,
            ) + s.skip(j - 1));
        }
        j = j - 1;
    }
    proof {
        if j > 0 {
            assert(s.take(j as int).last() == s[j - 1]);
        }
    }
    numbers.insert(j, x);
    assert(numbers@ =~= s.take(j as int).push(x) + s.skip(j as int));
}

/// Place `x` into sorted folds after every fold that does not sort after it.
pub(crate) fn insert_sorted_fold(folds: &mut Vec<Fold>, x: Fold)
    ensures
        final(folds)@ == insert_fold(old(folds)@, x),
{
    let ghost s = folds@;
    let mut j: usize = folds.len();
    assert(s.take(j as int) =~= s);
    assert(s.skip(j as int) =~= Seq::<Fold>::empty());
    while j > 0 && (x.start_line < folds[j - 1].start_line || (x.start_line == folds[j - 1].start_line
        && x.end_line < folds[j - 1].end_line))
        invariant
            j <= folds@.len(),
            s == folds@,
            insert_fold(s, x) == insert_fold(s.take(j as int), x) + s.skip(j as int),
        decreases j,
    {
        proof {
            let t = s.take(j as int);
            assert(t.last() == s[j - 1]);
            assert(t.drop_last() =~= s.take(j - 1));
            assert(s.skip(j - 1) =~= seq![s[j - 1]] + s.skip(j as int));
            assert(insert_fold(s.take(j - 1), x).push(s[j - 1]) + s.skip(j as int) =~= insert_fold(
                s.take(j - 1),
                x,
            ) + s.skip(j - 1));
        }
        j = j - 1;
    }
    proof {
        if j > 0 {
            assert(s.take(j as int).last() == s[j - 1]);
        }
    }
    folds.insert(j, x);
    assert(folds@ =~= s.take(j as int).push(x) + s.skip(j as int));
}

/// Add a fold where it spans more than one line.
pub(crate) fn push_fold(folds: &mut Vec<Fold>, start: u32, end: u32, comment: bool)
    ensures
        final(folds)@ == old(folds)@ + fold_if(start, end, comment),
{
    if end > start {
        folds.push(Fold { start_line: start, end_line: end, comment });
    } else {
        assert(old(folds)@ + Seq::<Fold>::empty() =~= old(folds)@);
    }
}

/// The folds of runs of consecutive comment lines, from sorted lines.
pub(crate) fn comment_folds(ls: &[u32], folds: &mut Vec<Fold>)
    ensures
        final(folds)@ == old(folds)@ + comment_runs(ls@, None),
{
    let ghost start_folds = old(folds)@;
    let mut run: Option<(u32, u32)> = None;
    let mut i: usize = 0;
    assert(ls@.skip(0) =~= ls@);
    assert(start_folds + Seq::<Fold>::empty() =~= start_folds);
    while i < ls.len()
        invariant
            i <= ls@.len(),
            start_folds + comment_runs(ls@, None) == folds@ + comment_runs(ls@.skip(i as int), run),
        decreases ls.len() - i,
    {
        let l = ls[i];
        let ghost rest = ls@.skip(i as int);
        assert(rest[0] == l);
        assert(rest.drop_first() =~= ls@.skip(i + 1));
        let ghost before = folds@;
        match run {
            Some((start, last)) => {
                if l > 0 && l - 1 == last {
                    run = Some((start, l));
                } else {
                    push_fold(folds, start, last, true);
                    run = Some((l, l));
                    assert(before + (fold_if(start, last, true) + comment_runs(ls@.skip(i + 1), run)) =~= folds@
                        + comment_runs(ls@.skip(i + 1), run));
                }
            },
            None => {
                run = Some((l, l));
            },
        }
        i = i + 1;
    }
    assert(ls@.skip(i as int) =~= Seq::<u32>::empty());
    match run {
        Some((start, last)) => push_fold(folds, start, last, true),
        None => {
            assert(folds@ + Seq::<Fold>::empty() =~= folds@);
        },
    }
}

/// The folds of an rc buffer; see [`spec_folds`].
pub fn folding_ranges(document: &Document) -> (folds: Vec<Fold>)
    requires
        encode_utf8(document.text_view()).len() <= u32::MAX,
    ensures
        folds@ == (if document.rc() {
            spec_folds(encode_utf8(document.text_view()), document.rc_parse().lines@)
        } else {
            Seq::empty()
        }),
{
    let parsed = match document.bazelrc() {
        Some(parsed) => parsed,
        None => {
            return Vec::new();
        },
    };
    let text = document.text();
    let index = document.line_index();
    let ghost bs = text.spec_bytes();
    let ghost all = parsed.lines@;
    let mut ranges: Vec<Fold> = Vec::new();
    let mut comments: Vec<u32> = Vec::new();
    let mut i: usize = 0;
    assert(all.take(0) =~= Seq::<Line>::empty());
    while i < parsed.lines.len()
        invariant
            i <= all.len(),
            all == parsed.lines@,
            bs == text.spec_bytes(),
            bs == encode_utf8(document.text_view()),
            index.indexes(text),
            bs.len() <= u32::MAX,
            ranges@ == line_folds(bs, all.take(i as int)),
            comments@ == sort_numbers(comment_lines(bs, all.take(i as int))),
        decreases parsed.lines.len() - i,
    {
        let line = &parsed.lines[i];
        assert(all.take(i + 1).drop_last() =~= all.take(i as int));
        assert(all.take(i + 1).last() == all[i as int]);
        let start = index.position(text, line.range.start).0;
        let end = index.position(text, line.range.end).0;
        push_fold(&mut ranges, start, end, false);
        match line.comment {
            Some(c) => {
                if blank(text, line.range.start, c.start) {
                    let at = index.position(text, c.start).0;
                    insert_line(&mut comments, at);
                    proof {
                        let cl = comment_lines(bs, all.take(i as int));
                        assert(comment_lines(bs, all.take(i + 1)) == cl.push(at));
                        assert(cl.push(at).drop_last() =~= cl);
                    }
                }
            },
            None => {},
        }
        i = i + 1;
    }
    assert(all.take(all.len() as int) =~= all);
    let mut folds = ranges;
    comment_folds(comments.as_slice(), &mut folds);
    let ghost unsorted = folds@;
    let mut sorted: Vec<Fold> = Vec::new();
    let mut k: usize = 0;
    assert(unsorted.take(0) =~= Seq::<Fold>::empty());
    while k < folds.len()
        invariant
            k <= unsorted.len(),
            unsorted == folds@,
            sorted@ == sort_folds(unsorted.take(k as int)),
        decreases folds.len() - k,
    {
        assert(unsorted.take(k + 1).drop_last() =~= unsorted.take(k as int));
        assert(unsorted.take(k + 1).last() == unsorted[k as int]);
        insert_sorted_fold(&mut sorted, folds[k]);
        k = k + 1;
    }
    assert(unsorted.take(unsorted.len() as int) =~= unsorted);
    sorted
}

/// The first line from position `i` on whose range holds `offset`.
pub open spec fn line_at(lines: Seq<Line>, offset: int, i: int) -> Option<Line>
    decreases lines.len() - i,
{
    if i < 0 || i >= lines.len() {
        None
    } else if span_holds(lines[i].range, offset) {
        Some(lines[i])
    } else {
        line_at(lines, offset, i + 1)
    }
}

/// A line's token ranges, then its comment's.
pub open spec fn piece_ranges(line: Line) -> Seq<Span> {
    let tokens = line.tokens@.map_values(|t: super::syntax::Token| t.range);
    match line.comment {
        Some(c) => tokens.push(c),
        None => tokens,
    }
}

/// The first range from position `i` on that holds `offset`.
pub open spec fn span_at(spans: Seq<Span>, offset: int, i: int) -> Option<Span>
    decreases spans.len() - i,
{
    if i < 0 || i >= spans.len() {
        None
    } else if span_holds(spans[i], offset) {
        Some(spans[i])
    } else {
        span_at(spans, offset, i + 1)
    }
}

/// The ranges a selection at byte `offset` grows through, innermost first:
/// the token or comment under it, its logical line, the whole buffer; a
/// range equal to the one around it is given once.
pub open spec fn selection_at(bs: Seq<u8>, lines: Seq<Line>, offset: int) -> Seq<Place> {
    let file: Place = ((0u32, 0u32), text_position(bs, bs.len() as int));
    let line = line_at(lines, offset, 0);
    let line_range = match line {
        Some(l) => place_of(bs, l.range),
        None => file,
    };
    let chain: Seq<Place> = if line_range != file {
        seq![line_range, file]
    } else {
        seq![file]
    };
    match line {
        None => chain,
        Some(l) => match span_at(piece_ranges(l), offset, 0) {
            None => chain,
            Some(span) => if place_of(bs, span) == chain[0] {
                chain
            } else {
                seq![place_of(bs, span)] + chain
            },
        },
    }
}

/// Whether two ranges are the same.
fn same_place(a: Place, b: Place) -> (r: bool)
    ensures
        r == (a == b),
{
    a.0.0 == b.0.0 && a.0.1 == b.0.1 && a.1.0 == b.1.0 && a.1.1 == b.1.1
}

/// The ranges a selection grows through at one offset.
fn selection(text: &str, index: &LineIndex, lines: &[Line], offset: usize) -> (chain: Vec<Place>)
    requires
        index.indexes(text),
        text.spec_bytes().len() <= isize::MAX,
    ensures
        chain@ == selection_at(text.spec_bytes(), lines@, offset as int),
{
    let ghost bs = text.spec_bytes();
    let file: Place = ((0, 0), index.position(text, text.len()));
    let mut i: usize = 0;
    while i < lines.len() && !(lines[i].range.start <= offset && offset <= lines[i].range.end)
        invariant
            i <= lines@.len(),
            line_at(lines@, offset as int, 0) == line_at(lines@, offset as int, i as int),
        decreases lines.len() - i,
    {
        i = i + 1;
    }
    let line_range: Place = if i < lines.len() {
        (index.position(text, lines[i].range.start), index.position(text, lines[i].range.end))
    } else {
        file
    };
    let mut chain: Vec<Place> = Vec::new();
    if !same_place(line_range, file) {
        chain.push(line_range);
    }
    chain.push(file);
    if i >= lines.len() {
        return chain;
    }
    let line = &lines[i];
    let ghost pieces = piece_ranges(*line);
    let n = line.tokens.len();
    let mut k: usize = 0;
    while k < n && !(line.tokens[k].range.start <= offset && offset <= line.tokens[k].range.end)
        invariant
            k <= n,
            n == line.tokens@.len(),
            pieces == piece_ranges(*line),
            span_at(pieces, offset as int, 0) == span_at(pieces, offset as int, k as int),
        decreases n - k,
    {
        assert(pieces[k as int] == line.tokens@[k as int].range);
        k = k + 1;
    }
    let found: Option<Span> = if k < n {
        assert(pieces[k as int] == line.tokens@[k as int].range);
        Some(line.tokens[k].range)
    } else {
        match line.comment {
            Some(c) => {
                assert(pieces[n as int] == c);
                if c.start <= offset && offset <= c.end {
                    Some(c)
                } else {
                    assert(span_at(pieces, offset as int, n + 1) is None);
                    None
                }
            },
            None => {
                assert(span_at(pieces, offset as int, n as int) is None);
                None
            },
        }
    };
    match found {
        Some(span) => {
            let token: Place = (index.position(text, span.start), index.position(text, span.end));
            if same_place(token, chain[0]) {
                chain
            } else {
                let mut grown: Vec<Place> = Vec::new();
                grown.push(token);
                let mut j: usize = 0;
                while j < chain.len()
                    invariant
                        j <= chain@.len(),
                        grown@ == seq![token] + chain@.take(j as int),
                    decreases chain.len() - j,
                {
                    grown.push(chain[j]);
                    assert(chain@.take(j + 1) =~= chain@.take(j as int).push(chain@[j as int]));
                    j = j + 1;
                }
                assert(chain@.take(chain@.len() as int) =~= chain@);
                grown
            }
        },
        None => chain,
    }
}

/// The ranges a selection grows through at each zero-based line and UTF-16
/// column, innermost first; see [`selection_at`].
pub fn selection_ranges(document: &Document, positions: &[(u32, u32)]) -> (ranges: Vec<Vec<Place>>)
    requires
        encode_utf8(document.text_view()).len() <= isize::MAX,
    ensures
        document.rc() ==> ranges@.len() == positions@.len(),
        !document.rc() ==> ranges@.len() == 0,
        forall|k: int|
            0 <= k < ranges@.len() ==> (#[trigger] ranges@[k])@ == selection_at(
                encode_utf8(document.text_view()),
                document.rc_parse().lines@,
                text_offset(encode_utf8(document.text_view()), positions@[k].0, positions@[k].1),
            ),
{
    let parsed = match document.bazelrc() {
        Some(parsed) => parsed,
        None => {
            return Vec::new();
        },
    };
    let text = document.text();
    let index = document.line_index();
    let mut ranges: Vec<Vec<Place>> = Vec::new();
    let mut k: usize = 0;
    while k < positions.len()
        invariant
            k <= positions@.len(),
            ranges@.len() == k,
            document.rc(),
            *parsed == document.rc_parse(),
            index.indexes(text),
            text@ == document.text_view(),
            text.spec_bytes().len() <= isize::MAX,
            forall|j: int|
                0 <= j < k ==> (#[trigger] ranges@[j])@ == selection_at(
                    encode_utf8(document.text_view()),
                    document.rc_parse().lines@,
                    text_offset(encode_utf8(document.text_view()), positions@[j].0, positions@[j].1),
                ),
        decreases positions.len() - k,
    {
        let (line, character) = positions[k];
        let offset = index.offset(text, line, character);
        let chain = selection(text, index, parsed.lines.as_slice(), offset);
        ranges.push(chain);
        k = k + 1;
    }
    ranges
}

/// Whether a buffer is short enough for its columns and, as an rc file,
/// every span it colours fits it: what [`semantic_tokens`] needs.
pub fn colours_fit(document: &Document) -> (b: bool)
    ensures
        b == (encode_utf8(document.text_view()).len() <= u32::MAX && (document.rc() ==> spans_fit(
            encode_utf8(document.text_view()),
            document.rc_parse().lines@,
        ))),
{
    let bytes = document.text().as_bytes();
    if bytes.len() > 4294967295 {
        return false;
    }
    let parsed = match document.bazelrc() {
        Some(parsed) => parsed,
        None => {
            return true;
        },
    };
    let ghost all = parsed.lines@;
    let mut i: usize = 0;
    while i < parsed.lines.len()
        invariant
            i <= all.len(),
            all == parsed.lines@,
            document.rc(),
            *parsed == document.rc_parse(),
            bytes@ == encode_utf8(document.text_view()),
            bytes@.len() <= u32::MAX,
            forall|a: int, j: int|
                0 <= a < i && 0 <= j < line_spans(all[a]).len() ==> span_fits(bytes@, #[trigger] line_spans(all[a])[j].0),
        decreases parsed.lines.len() - i,
    {
        let spans = line_token_spans(&parsed.lines[i]);
        let mut j: usize = 0;
        while j < spans.len()
            invariant
                i < all.len(),
                all == parsed.lines@,
                document.rc(),
                *parsed == document.rc_parse(),
                spans@ == line_spans(all[i as int]),
                j <= spans@.len(),
                bytes@ == encode_utf8(document.text_view()),
                forall|k: int| 0 <= k < j ==> span_fits(bytes@, #[trigger] spans@[k].0),
            decreases spans.len() - j,
        {
            let span = spans[j].0;
            if !(span.start <= span.end && span.end <= bytes.len()) || !crate::handlers::semantic::boundary(bytes, span.end) {
                assert(!span_fits(bytes@, line_spans(all[i as int])[j as int].0));
                return false;
            }
            j = j + 1;
        }
        i = i + 1;
    }
    true
}

} // verus!
