//! Lossless Bazel 8.7 rc tokenization.
//!
//! Bazel's native client reads these files before the Java server starts, so
//! the grammar is the C++ tokenizer's: backslash-newline continuations are
//! deleted first, then each logical line splits on spaces, tabs and carriage
//! returns, with single and double quotes grouping, a backslash escaping the
//! next byte, and `#` outside quotes opening a comment.

use vstd::prelude::*;
use vstd::string::StringSliceAdditionalSpecFns;
use vstd::utf8::{decode_utf8, valid_utf8};
use crate::bazel::{from_utf8_lossy, lossy_utf8};
use super::semver::{SpecCondition, VersionCondition, spec_parse_condition};

verus! {

/// A contiguous range in the physical UTF-8 source.
#[derive(Debug, Clone, Copy, PartialEq, Eq)]
pub struct Span {
    pub start: usize,
    pub end: usize,
}

impl Span {
    pub fn new(start: usize, end: usize) -> (span: Self)
        ensures
            span.start == start && span.end == end,
    {
        Self { start, end }
    }
}

/// A span as a pair of integers.
pub open spec fn span_view(s: Span) -> (int, int) {
    (s.start as int, s.end as int)
}

/// How many bytes a continuation at `at` removes: a backslash followed by a
/// newline, or by a carriage return and a newline.
pub open spec fn removed_at(src: Seq<u8>, at: int) -> int {
    if src[at] == 92 && at + 1 < src.len() && src[at + 1] == 10 {
        2
    } else if src[at] == 92 && at + 2 < src.len() && src[at + 1] == 13 && src[at + 2] == 10 {
        3
    } else {
        0
    }
}

/// The logical text of `src[at..]`, continuing `bytes`, with the physical
/// offset at each boundary between retained bytes continuing `bounds`: a
/// deleted continuation moves the boundary it follows.
pub open spec fn logical_run(src: Seq<u8>, at: int, bytes: Seq<u8>, bounds: Seq<int>) -> (
    Seq<u8>,
    Seq<int>,
)
    decreases src.len() - at,
{
    if at < 0 || at >= src.len() || bounds.len() == 0 {
        (bytes, bounds)
    } else if removed_at(src, at) != 0 {
        let next = at + removed_at(src, at);
        logical_run(src, next, bytes, bounds.update(bounds.len() - 1, next))
    } else {
        logical_run(src, at + 1, bytes.push(src[at]), bounds.push(at + 1))
    }
}

/// The logical text of `src` and its physical boundaries.
pub open spec fn spec_logical(src: Seq<u8>) -> (Seq<u8>, Seq<int>) {
    logical_run(src, 0, Seq::empty(), seq![0])
}

/// The logical text: continuations deleted, and where each boundary lies in
/// the physical source.
struct Logical {
    bytes: Vec<u8>,
    /// Physical source offset at each boundary between retained bytes.
    boundaries: Vec<usize>,
}

/// Boundaries rise with the retained bytes and stay in the source.
pub open spec fn bounds_ok(src: Seq<u8>, bytes: Seq<u8>, bounds: Seq<int>, at: int) -> bool {
    &&& bounds.len() == bytes.len() + 1
    &&& forall|k: int| 0 <= k < bounds.len() ==> 0 <= #[trigger] bounds[k] <= at
    &&& forall|i: int, j: int| 0 <= i < j < bounds.len() ==> bounds[i] < bounds[j]
    &&& bounds[bounds.len() - 1] == at
}

/// The logical run keeps its boundaries well ordered.
pub proof fn lemma_logical_run(src: Seq<u8>, at: int, bytes: Seq<u8>, bounds: Seq<int>)
    requires
        0 <= at <= src.len(),
        bounds_ok(src, bytes, bounds, at),
    ensures
        bounds_ok(
            src,
            logical_run(src, at, bytes, bounds).0,
            logical_run(src, at, bytes, bounds).1,
            src.len() as int,
        ),
    decreases src.len() - at,
{
    if at < src.len() {
        if removed_at(src, at) != 0 {
            let next = at + removed_at(src, at);
            let nb = bounds.update(bounds.len() - 1, next);
            assert(bounds_ok(src, bytes, nb, next));
            lemma_logical_run(src, next, bytes, nb);
        } else {
            let nb = bounds.push(at + 1);
            assert(bounds_ok(src, bytes.push(src[at]), nb, at + 1));
            lemma_logical_run(src, at + 1, bytes.push(src[at]), nb);
        }
    }
}

impl Logical {
    spec fn view_of(&self) -> (Seq<u8>, Seq<int>) {
        (self.bytes@, self.boundaries@.map_values(|b: usize| b as int))
    }

    fn new(text: &str) -> (logical: Self)
        ensures
            logical.view_of() == spec_logical(text.spec_bytes()),
            bounds_ok(
                text.spec_bytes(),
                logical.view_of().0,
                logical.view_of().1,
                text.spec_bytes().len() as int,
            ),
    {
        let source = text.as_bytes();
        let ghost src = source@;
        let mut bytes: Vec<u8> = Vec::new();
        let mut boundaries: Vec<usize> = Vec::new();
        boundaries.push(0);
        let mut at: usize = 0;
        assert(boundaries@.map_values(|b: usize| b as int) =~= seq![0int]);
        proof {
            lemma_logical_run(src, 0, Seq::empty(), seq![0]);
        }
        while at < source.len()
            invariant
                src == source@,
                at <= src.len(),
                boundaries@.len() == bytes@.len() + 1,
                logical_run(src, at as int, bytes@, boundaries@.map_values(|b: usize| b as int))
                    == spec_logical(src),
                bounds_ok(src, bytes@, boundaries@.map_values(|b: usize| b as int), at as int),
            decreases src.len() - at,
        {
            let ghost bv = boundaries@.map_values(|b: usize| b as int);
            let removed: usize = if source[at] == 92 && at + 1 < source.len() && source[at + 1]
                == 10 {
                2
            } else if source[at] == 92 && source.len() - at > 2 && source[at + 1] == 13
                && source[at + 2] == 10 {
                3
            } else {
                0
            };
            assert(removed == removed_at(src, at as int));
            if removed != 0 {
                at = at + removed;
                let last = boundaries.len() - 1;
                boundaries.set(last, at);
                assert(boundaries@.map_values(|b: usize| b as int) =~= bv.update(
                    bv.len() - 1,
                    at as int,
                ));
            } else {
                bytes.push(source[at]);
                at = at + 1;
                boundaries.push(at);
                assert(boundaries@.map_values(|b: usize| b as int) =~= bv.push(at as int));
            }
        }
        Self { bytes, boundaries }
    }

    fn span(&self, start: usize, end: usize) -> (span: Span)
        requires
            start < self.boundaries@.len(),
            end < self.boundaries@.len(),
        ensures
            span_view(span) == (self.view_of().1[start as int], self.view_of().1[end as int]),
    {
        Span::new(self.boundaries[start], self.boundaries[end])
    }
}

} // verus!

verus! {

/// Spaces, tabs, carriage returns and newlines separate tokens.
pub open spec fn is_delimiter(b: u8) -> bool {
    b == 32 || b == 9 || b == 13 || b == 10
}

/// A token as its decoded bytes, its physical range, and the physical
/// source of each decoded byte.
pub type SpecToken = (Seq<u8>, (int, int), Seq<(int, int)>);

/// A token being read: where it opened, its bytes and their sources so far,
/// the quote it is inside, and whether it holds anything yet (`''` does not).
pub type Partial = (int, Seq<u8>, Seq<(int, int)>, Option<u8>, bool);

/// The physical span of logical bytes `[a, b)`.
pub open spec fn phys(bounds: Seq<int>, a: int, b: int) -> (int, int) {
    (bounds[a], bounds[b])
}

/// `tokens` with the token being read appended if it holds anything.
pub open spec fn finish(bounds: Seq<int>, tokens: Seq<SpecToken>, p: Partial, at: int) -> Seq<
    SpecToken,
> {
    if p.4 {
        tokens.push((p.1, phys(bounds, p.0, at), p.2))
    } else {
        tokens
    }
}

/// The token being read, one more byte `lb[from]` decoded from `[from, to)`.
pub open spec fn take_byte(bounds: Seq<int>, p: Partial, b: u8, from: int, to: int) -> Partial {
    (p.0, p.1.push(b), p.2.push(phys(bounds, from, to)), p.3, true)
}

/// The native tokenizer as a machine over the logical bytes `lb[at..end]`:
/// the tokens read and the comment that ends the line, if any.
pub open spec fn tok_run(
    lb: Seq<u8>,
    bounds: Seq<int>,
    end: int,
    at: int,
    tokens: Seq<SpecToken>,
    cur: Option<Partial>,
) -> (Seq<SpecToken>, Option<(int, int)>)
    decreases (end - at) * 2 + if cur is None {
        1int
    } else {
        0int
    },
{
    if at < 0 || end > lb.len() || at > end {
        (tokens, None)
    } else {
        match cur {
            None => {
                if at == end {
                    (tokens, None)
                } else if is_delimiter(lb[at]) {
                    tok_run(lb, bounds, end, at + 1, tokens, None)
                } else if lb[at] == 35 {
                    (tokens, Some(phys(bounds, at, end)))
                } else {
                    tok_run(lb, bounds, end, at, tokens, Some((at, Seq::empty(), Seq::empty(), None, false)))
                }
            },
            Some(p) => {
                if at == end {
                    (finish(bounds, tokens, p, at), None)
                } else {
                    let b = lb[at];
                    match p.3 {
                        Some(q) => {
                            if b == q {
                                tok_run(lb, bounds, end, at + 1, tokens, Some((p.0, p.1, p.2, None, p.4)))
                            } else if b == 92 {
                                if at + 1 < end {
                                    tok_run(lb, bounds, end, at + 2, tokens, Some(take_byte(bounds, p, lb[at + 1], at, at + 2)))
                                } else {
                                    tok_run(lb, bounds, end, at + 1, tokens, Some(p))
                                }
                            } else {
                                tok_run(lb, bounds, end, at + 1, tokens, Some(take_byte(bounds, p, b, at, at + 1)))
                            }
                        },
                        None => {
                            if is_delimiter(b) {
                                tok_run(lb, bounds, end, at + 1, finish(bounds, tokens, p, at), None)
                            } else if b == 35 {
                                (finish(bounds, tokens, p, at), Some(phys(bounds, at, end)))
                            } else if b == 39 || b == 34 {
                                tok_run(lb, bounds, end, at + 1, tokens, Some((p.0, p.1, p.2, Some(b), p.4)))
                            } else if b == 92 {
                                if at + 1 < end {
                                    tok_run(lb, bounds, end, at + 2, tokens, Some(take_byte(bounds, p, lb[at + 1], at, at + 2)))
                                } else {
                                    tok_run(lb, bounds, end, at + 1, tokens, Some(p))
                                }
                            } else {
                                tok_run(lb, bounds, end, at + 1, tokens, Some(take_byte(bounds, p, b, at, at + 1)))
                            }
                        },
                    }
                }
            },
        }
    }
}

/// The tokens of logical line `lb[start..end]` and its comment.
pub open spec fn spec_tokenize(lb: Seq<u8>, bounds: Seq<int>, start: int, end: int) -> (Seq<SpecToken>, Option<(int, int)>) {
    tok_run(lb, bounds, end, start, Seq::empty(), None)
}

/// One token after Bazel's quote and escape processing.
#[derive(Debug, Clone, PartialEq, Eq)]
pub struct Token {
    pub text: String,
    pub range: Span,
    /// The physical source of each decoded byte.
    pub origins: Vec<Span>,
}

/// The token `t` is: its text is its decoded bytes as text (exactly those
/// bytes where they are valid UTF-8), and its range and origins are the
/// spans it was read from.
pub open spec fn token_is(token: Token, t: SpecToken) -> bool {
    &&& token.text@ == lossy_utf8(t.0)
    &&& (valid_utf8(t.0) ==> token.text@ == decode_utf8(t.0))
    &&& span_view(token.range) == t.1
    &&& token.origins().len() == t.2.len()
    &&& forall|i: int| 0 <= i < t.2.len() ==> span_view(#[trigger] token.origins()[i]) == t.2[i]
}

impl Token {
    /// The physical source of each decoded byte.
    pub open spec fn origins(&self) -> Seq<Span> {
        self.origins@
    }

    /// The physical source covering a nonempty range of decoded token bytes:
    /// from the start of the first byte's source to the end of the last's.
    pub fn decoded_span(&self, range: std::ops::Range<usize>) -> (span: Option<Span>)
        ensures
            (if range.start < range.end && range.end <= self.origins().len() {
                span matches Some(s) && s.start == self.origins()[range.start as int].start
                    && s.end == self.origins()[range.end - 1].end
            } else {
                span is None
            }),
    {
        if range.start >= range.end || range.end > self.origins.len() {
            return None;
        }
        Some(Span::new(self.origins[range.start].start, self.origins[range.end - 1].end))
    }
}

fn token(value: Vec<u8>, origins: Vec<Span>, range: Span) -> (t: Token)
    ensures
        t.text@ == lossy_utf8(value@),
        valid_utf8(value@) ==> t.text@ == decode_utf8(value@),
        t.range == range,
        t.origins() == origins@,
{
    Token { text: from_utf8_lossy(value.as_slice()), range, origins }
}

fn delimiter(byte: u8) -> (d: bool)
    ensures
        d == is_delimiter(byte),
{
    byte == 32 || byte == 9 || byte == 13 || byte == 10
}

} // verus!

verus! {

/// The exec tokens are the spec tokens.
pub open spec fn tokens_are(tokens: Seq<Token>, spec: Seq<SpecToken>) -> bool {
    tokens.len() == spec.len() && forall|i: int|
        0 <= i < tokens.len() ==> token_is(#[trigger] tokens[i], spec[i])
}

/// An optional span as integers.
pub open spec fn opt_span_view(s: Option<Span>) -> Option<(int, int)> {
    match s {
        Some(s) => Some(span_view(s)),
        None => None,
    }
}

/// The token being read, as exec values.
struct Reading {
    start: usize,
    value: Vec<u8>,
    origins: Vec<Span>,
    quote: Option<u8>,
    has_value: bool,
}

spec fn reading_view(r: Reading) -> Partial {
    (r.start as int, r.value@, r.origins@.map_values(|s: Span| span_view(s)), r.quote, r.has_value)
}

spec fn opt_reading_view(r: Option<Reading>) -> Option<Partial> {
    match r {
        Some(r) => Some(reading_view(r)),
        None => None,
    }
}

/// Append the token being read to `tokens` if it holds anything.
fn finish_token(logical: &Logical, tokens: &mut Vec<Token>, r: Reading, at: usize, Ghost(
    spec,
): Ghost<Seq<SpecToken>>)
    requires
        r.start < logical.boundaries@.len(),
        at < logical.boundaries@.len(),
        tokens_are(old(tokens)@, spec),
    ensures
        tokens_are(final(tokens)@, finish(logical.view_of().1, spec, reading_view(r), at as int)),
{
    if r.has_value {
        let range = logical.span(r.start, at);
        let t = token(r.value, r.origins, range);
        assert(t.origins() == r.origins@);
        tokens.push(t);
        assert(forall|i: int| 0 <= i < spec.len() ==> tokens@[i] == old(tokens)@[i]);
    }
}

/// The tokens of logical bytes `[start, end)` and the comment closing them.
fn tokenize(logical: &Logical, start: usize, end: usize) -> (result: (Vec<Token>, Option<Span>))
    requires
        start <= end <= logical.bytes@.len(),
        logical.boundaries@.len() == logical.bytes@.len() + 1,
    ensures
        tokens_are(
            result.0@,
            spec_tokenize(logical.view_of().0, logical.view_of().1, start as int, end as int).0,
        ),
        opt_span_view(result.1) == spec_tokenize(
            logical.view_of().0,
            logical.view_of().1,
            start as int,
            end as int,
        ).1,
{
    let ghost lb = logical.view_of().0;
    let ghost bd = logical.view_of().1;
    let ghost target = spec_tokenize(lb, bd, start as int, end as int);
    let mut tokens: Vec<Token> = Vec::new();
    let ghost mut spec_tokens: Seq<SpecToken> = Seq::empty();
    let mut cur: Option<Reading> = None;
    let mut at: usize = start;
    loop
        invariant
            start <= at <= end <= lb.len(),
            target == spec_tokenize(lb, bd, start as int, end as int),
            lb == logical.bytes@,
            lb == logical.view_of().0,
            bd == logical.view_of().1,
            bd.len() == lb.len() + 1,
            logical.boundaries@.len() == lb.len() + 1,
            tokens_are(tokens@, spec_tokens),
            tok_run(lb, bd, end as int, at as int, spec_tokens, opt_reading_view(cur)) == target,
            cur matches Some(r) ==> r.start <= at && r.origins@.len() == r.value@.len(),
        decreases (end - at) * 2 + if cur is None {
            1int
        } else {
            0int
        },
    {
        match cur {
            None => {
                if at == end {
                    assert(target == (spec_tokens, None::<(int, int)>));
                    return (tokens, None);
                }
                let b = logical.bytes[at];
                if delimiter(b) {
                    at = at + 1;
                } else if b == 35 {
                    assert(target == (spec_tokens, Some(phys(bd, at as int, end as int))));
                    return (tokens, Some(logical.span(at, end)));
                } else {
                    cur = Some(
                        Reading {
                            start: at,
                            value: Vec::new(),
                            origins: Vec::new(),
                            quote: None,
                            has_value: false,
                        },
                    );
                    assert(opt_reading_view(cur) == Some(
                        (at as int, Seq::<u8>::empty(), Seq::<(int, int)>::empty(), None::<u8>, false),
                    )) by {
                        let r = cur.unwrap();
                        assert(r.origins@.map_values(|s: Span| span_view(s)) =~= Seq::<
                            (int, int),
                        >::empty());
                    }
                }
            },
            Some(mut r) => {
                let ghost p = reading_view(r);
                if at == end {
                    proof {
                        assert(tok_run(lb, bd, end as int, at as int, spec_tokens, Some(p)) == (
                            finish(bd, spec_tokens, p, at as int),
                            None::<(int, int)>,
                        ));
                    }
                    let ghost before = spec_tokens;
                    finish_token(logical, &mut tokens, r, at, Ghost(before));
                    return (tokens, None);
                }
                let b = logical.bytes[at];
                let ghost rv_before = r.origins@.map_values(|s: Span| span_view(s));
                match r.quote {
                    Some(q) => {
                        if b == q {
                            r.quote = None;
                            at = at + 1;
                            cur = Some(r);
                        } else if b == 92 {
                            if at + 1 < end {
                                let sp = logical.span(at, at + 2);
                                r.value.push(logical.bytes[at + 1]);
                                r.origins.push(sp);
                                r.has_value = true;
                                assert(r.origins@.map_values(|s: Span| span_view(s)) =~= rv_before.push(
                                    span_view(sp),
                                ));
                                at = at + 2;
                            } else {
                                at = at + 1;
                            }
                            cur = Some(r);
                        } else {
                            let sp = logical.span(at, at + 1);
                            r.value.push(b);
                            r.origins.push(sp);
                            r.has_value = true;
                            assert(r.origins@.map_values(|s: Span| span_view(s)) =~= rv_before.push(
                                span_view(sp),
                            ));
                            at = at + 1;
                            cur = Some(r);
                        }
                    },
                    None => {
                        if delimiter(b) {
                            let ghost before = spec_tokens;
                            finish_token(logical, &mut tokens, r, at, Ghost(before));
                            proof {
                                spec_tokens = finish(bd, before, p, at as int);
                            }
                            at = at + 1;
                            cur = None;
                        } else if b == 35 {
                            let ghost before = spec_tokens;
                            let comment = logical.span(at, end);
                            finish_token(logical, &mut tokens, r, at, Ghost(before));
                            return (tokens, Some(comment));
                        } else if b == 39 || b == 34 {
                            r.quote = Some(b);
                            at = at + 1;
                            cur = Some(r);
                        } else if b == 92 {
                            if at + 1 < end {
                                let sp = logical.span(at, at + 2);
                                r.value.push(logical.bytes[at + 1]);
                                r.origins.push(sp);
                                r.has_value = true;
                                assert(r.origins@.map_values(|s: Span| span_view(s)) =~= rv_before.push(
                                    span_view(sp),
                                ));
                                at = at + 2;
                            } else {
                                at = at + 1;
                            }
                            cur = Some(r);
                        } else {
                            let sp = logical.span(at, at + 1);
                            r.value.push(b);
                            r.origins.push(sp);
                            r.has_value = true;
                            assert(r.origins@.map_values(|s: Span| span_view(s)) =~= rv_before.push(
                                span_view(sp),
                            ));
                            at = at + 1;
                            cur = Some(r);
                        }
                    },
                }
            },
        }
    }
}

} // verus!

verus! {

/// A directive recognized on a logical line.
#[derive(Debug, Clone, PartialEq, Eq)]
pub enum Directive {
    Import,
    TryImport,
    ConditionalImport(VersionCondition),
}

/// What Bazel reads from a nonempty logical line.
#[derive(Debug, Clone, PartialEq, Eq)]
pub enum Statement {
    Entry,
    Directive(Directive),
    InvalidDirective,
}

/// A statement as its kind — entry 0, import 1, try-import 2, conditional
/// import 3, invalid directive 4 — and a conditional import's condition.
pub type SpecStatement = (int, Option<SpecCondition>);

pub open spec fn statement_view(s: Statement) -> SpecStatement {
    match s {
        Statement::Entry => (0, None),
        Statement::Directive(Directive::Import) => (1, None),
        Statement::Directive(Directive::TryImport) => (2, None),
        Statement::Directive(Directive::ConditionalImport(c)) => (3, Some(c.view_of())),
        Statement::InvalidDirective => (4, None),
    }
}

pub open spec fn opt_statement_view(s: Option<Statement>) -> Option<SpecStatement> {
    match s {
        Some(s) => Some(statement_view(s)),
        None => None,
    }
}

/// One structural error Bazel would reject before interpreting flags.
#[derive(Debug, Clone, PartialEq, Eq)]
pub struct Error {
    pub range: Span,
    pub message: String,
}

/// An error as its span and message.
pub type SpecError = ((int, int), Seq<char>);

pub open spec fn error_view(e: Error) -> SpecError {
    (span_view(e.range), e.message@)
}

/// The text of a token.
pub open spec fn token_text(t: SpecToken) -> Seq<char> {
    lossy_utf8(t.0)
}

/// The arity error of a directive written with the wrong number of
/// arguments.
pub open spec fn arity_message(key: Seq<char>, arguments: char) -> Seq<char> {
    seq!['`'] + key + "` expects "@ + seq![arguments] + " argument(s)"@
}

/// What a line's tokens make, and the errors that raises: `import` and
/// `try-import` take one argument, `try-import-if-bazel-version` a
/// condition and a path; anything else with an option is an entry.
pub open spec fn spec_statement(tokens: Seq<SpecToken>, range: (int, int)) -> (
    Option<SpecStatement>,
    Seq<SpecError>,
) {
    if tokens.len() == 0 {
        (None, Seq::empty())
    } else {
        let key = token_text(tokens[0]);
        if (key == "import"@ || key == "try-import"@) && tokens.len() != 2 {
            (Some((4, None)), seq![(range, arity_message(key, '1'))])
        } else if key == "try-import-if-bazel-version"@ && tokens.len() != 3 {
            (Some((4, None)), seq![(range, arity_message(key, '2'))])
        } else if key == "import"@ {
            (Some((1, None)), Seq::empty())
        } else if key == "try-import"@ {
            (Some((2, None)), Seq::empty())
        } else if key == "try-import-if-bazel-version"@ {
            match spec_parse_condition(token_text(tokens[1])) {
                Some(c) => (Some((3, Some(c))), Seq::empty()),
                None => (
                    Some((4, None)),
                    seq![(tokens[1].1, "invalid Bazel version condition"@)],
                ),
            }
        } else if tokens.len() >= 2 {
            (Some((0, None)), Seq::empty())
        } else {
            (None, Seq::empty())
        }
    }
}

/// The statement `tokens` make, appending what it raises to `errors`.
fn statement(tokens: &Vec<Token>, range: Span, errors: &mut Vec<Error>, Ghost(spec): Ghost<
    Seq<SpecToken>,
>) -> (s: Option<Statement>)
    requires
        tokens_are(tokens@, spec),
    ensures
        opt_statement_view(s) == spec_statement(spec, span_view(range)).0,
        final(errors)@.map_values(|e: Error| error_view(e)) == old(errors)@.map_values(
            |e: Error| error_view(e),
        ) + spec_statement(spec, span_view(range)).1,
{
    let ghost before = errors@.map_values(|e: Error| error_view(e));
    if tokens.len() == 0 {
        assert(before + Seq::<SpecError>::empty() =~= before);
        return None;
    }
    proof {
        reveal_strlit("import");
        reveal_strlit("try-import");
        reveal_strlit("try-import-if-bazel-version");
    }
    assert(token_is(tokens@[0], spec[0]));
    let key = crate::text::chars_of(tokens[0].text.as_str());
    let is_import = crate::text::same_chars(&key, &crate::text::chars_of("import"));
    let is_try = crate::text::same_chars(&key, &crate::text::chars_of("try-import"));
    let is_conditional = crate::text::same_chars(
        &key,
        &crate::text::chars_of("try-import-if-bazel-version"),
    );
    if (is_import || is_try) && tokens.len() != 2 || is_conditional && tokens.len() != 3 {
        let mut message = "`".to_owned();
        crate::text::append(&mut message, tokens[0].text.as_str());
        crate::text::append(&mut message, "` expects ");
        let arguments = if is_conditional {
            "2"
        } else {
            "1"
        };
        crate::text::append(&mut message, arguments);
        crate::text::append(&mut message, " argument(s)");
        proof {
            reveal_strlit("`");
            reveal_strlit("1");
            reveal_strlit("2");
            let digit = if is_conditional {
                '2'
            } else {
                '1'
            };
            assert(message@ =~= arity_message(key@, digit));
        }
        errors.push(Error { range, message });
        assert(errors@.map_values(|e: Error| error_view(e)) =~= before + spec_statement(
            spec,
            span_view(range),
        ).1);
        return Some(Statement::InvalidDirective);
    }
    if is_import {
        assert(before + Seq::<SpecError>::empty() =~= before);
        return Some(Statement::Directive(Directive::Import));
    }
    if is_try {
        assert(before + Seq::<SpecError>::empty() =~= before);
        return Some(Statement::Directive(Directive::TryImport));
    }
    if is_conditional {
        assert(token_is(tokens@[1], spec[1]));
        match VersionCondition::parse(tokens[1].text.as_str()) {
            Some(condition) => {
                assert(before + Seq::<SpecError>::empty() =~= before);
                return Some(Statement::Directive(Directive::ConditionalImport(condition)));
            },
            None => {
                errors.push(
                    Error {
                        range: tokens[1].range,
                        message: "invalid Bazel version condition".to_owned(),
                    },
                );
                assert(errors@.map_values(|e: Error| error_view(e)) =~= before + spec_statement(
                    spec,
                    span_view(range),
                ).1);
                return Some(Statement::InvalidDirective);
            },
        }
    }
    assert(before + Seq::<SpecError>::empty() =~= before);
    if tokens.len() >= 2 {
        Some(Statement::Entry)
    } else {
        None
    }
}

} // verus!

verus! {

/// One logical line, retaining its tokens and trailing comment.
#[derive(Debug, Clone, PartialEq, Eq)]
pub struct Line {
    pub range: Span,
    pub tokens: Vec<Token>,
    pub comment: Option<Span>,
    pub statement: Option<Statement>,
}

/// A lossless-enough view for editor operations: every meaningful byte keeps
/// its physical range, including a token joined across a continuation.
#[derive(Debug, Clone, PartialEq, Eq)]
pub struct Parse {
    pub lines: Vec<Line>,
    pub errors: Vec<Error>,
}

/// A line as its physical range, tokens, comment and statement.
pub type SpecLine = ((int, int), Seq<SpecToken>, Option<(int, int)>, Option<SpecStatement>);

/// The line is the spec line.
pub open spec fn line_is(line: Line, spec: SpecLine) -> bool {
    &&& span_view(line.range) == spec.0
    &&& tokens_are(line.tokens@, spec.1)
    &&& opt_span_view(line.comment) == spec.2
    &&& opt_statement_view(line.statement) == spec.3
}

/// `i` is the first newline at or after `start`.
pub open spec fn is_next_newline(lb: Seq<u8>, start: int, i: int) -> bool {
    start <= i < lb.len() && lb[i] == 10 && forall|j: int| start <= j < i ==> lb[j] != 10
}

/// Where the logical line opening at `start` ends.
pub open spec fn line_end(lb: Seq<u8>, start: int) -> int {
    if exists|i: int| #[trigger] is_next_newline(lb, start, i) {
        choose|i: int| is_next_newline(lb, start, i)
    } else {
        lb.len() as int
    }
}

/// The line of logical bytes `[start, end)` and the errors its statement
/// raises.
pub open spec fn spec_line(lb: Seq<u8>, bounds: Seq<int>, start: int, end: int) -> (
    SpecLine,
    Seq<SpecError>,
) {
    let (tokens, comment) = spec_tokenize(lb, bounds, start, end);
    let range = phys(bounds, start, end);
    let (statement, errors) = spec_statement(tokens, range);
    ((range, tokens, comment, statement), errors)
}

/// Every logical line from `start` on, and their errors in order.
pub open spec fn spec_lines_from(lb: Seq<u8>, bounds: Seq<int>, start: int) -> (
    Seq<SpecLine>,
    Seq<SpecError>,
)
    decreases lb.len() - start,
{
    if start < 0 || start > lb.len() {
        (Seq::empty(), Seq::empty())
    } else {
        let end = line_end(lb, start);
        let (line, errors) = spec_line(lb, bounds, start, end);
        if end >= lb.len() || end < start {
            (seq![line], errors)
        } else {
            let (rest, more) = spec_lines_from(lb, bounds, end + 1);
            (seq![line] + rest, errors + more)
        }
    }
}

/// The lines of an rc buffer and the errors Bazel would report, read off
/// its logical text.
pub open spec fn spec_parse(src: Seq<u8>) -> (Seq<SpecLine>, Seq<SpecError>) {
    let (lb, bounds) = spec_logical(src);
    spec_lines_from(lb, bounds, 0)
}

/// The exec lines are the spec lines.
pub open spec fn lines_are(lines: Seq<Line>, spec: Seq<SpecLine>) -> bool {
    lines.len() == spec.len() && forall|i: int|
        0 <= i < lines.len() ==> line_is(#[trigger] lines[i], spec[i])
}

fn parse_line(logical: &Logical, start: usize, end: usize, errors: &mut Vec<Error>) -> (line: Line)
    requires
        start <= end <= logical.bytes@.len(),
        logical.boundaries@.len() == logical.bytes@.len() + 1,
    ensures
        line_is(line, spec_line(logical.view_of().0, logical.view_of().1, start as int, end as int).0),
        final(errors)@.map_values(|e: Error| error_view(e)) == old(errors)@.map_values(
            |e: Error| error_view(e),
        ) + spec_line(logical.view_of().0, logical.view_of().1, start as int, end as int).1,
{
    let (tokens, comment) = tokenize(logical, start, end);
    let ghost spec = spec_tokenize(logical.view_of().0, logical.view_of().1, start as int, end as int);
    let range = logical.span(start, end);
    let statement = statement(&tokens, range, errors, Ghost(spec.0));
    Line { range, tokens, comment, statement }
}

/// Parse one Bazel 8.7 rc buffer.
pub fn parse(text: &str) -> (parsed: Parse)
    ensures
        lines_are(parsed.lines@, spec_parse(text.spec_bytes()).0),
        parsed.errors@.map_values(|e: Error| error_view(e)) == spec_parse(text.spec_bytes()).1,
{
    let logical = Logical::new(text);
    let ghost lb = logical.view_of().0;
    let ghost bd = logical.view_of().1;
    let mut lines: Vec<Line> = Vec::new();
    let mut errors: Vec<Error> = Vec::new();
    let mut start: usize = 0;
    assert(lines@ =~= Seq::<Line>::empty());
    assert(errors@.map_values(|e: Error| error_view(e)) =~= Seq::<SpecError>::empty());
    loop
        invariant
            start <= logical.bytes@.len(),
            lb == logical.view_of().0,
            bd == logical.view_of().1,
            (lb, bd) == spec_logical(text.spec_bytes()),
            logical.boundaries@.len() == logical.bytes@.len() + 1,
            ({
                let (rest, more) = spec_lines_from(lb, bd, start as int);
                let (all, every) = spec_lines_from(lb, bd, 0);
                &&& lines@.len() + rest.len() == all.len()
                &&& forall|i: int| 0 <= i < lines@.len() ==> line_is(#[trigger] lines@[i], all[i])
                &&& forall|i: int| 0 <= i < rest.len() ==> #[trigger] all[lines@.len() + i] == rest[i]
                &&& errors@.map_values(|e: Error| error_view(e)) + more == every
            }),
        decreases logical.bytes@.len() - start,
    {
        let mut end = start;
        while end < logical.bytes.len() && logical.bytes[end] != 10
            invariant
                start <= end <= logical.bytes@.len(),
                forall|j: int| start <= j < end ==> logical.bytes@[j] != 10,
            decreases logical.bytes@.len() - end,
        {
            end = end + 1;
        }
        proof {
            if end < lb.len() {
                assert(is_next_newline(lb, start as int, end as int));
                let k = choose|k: int| is_next_newline(lb, start as int, k);
                assert(is_next_newline(lb, start as int, k));
                if k < end {
                    assert(lb[k] != 10);
                } else if k > end {
                    assert(lb[end as int] == 10);
                }
            } else {
                assert(!exists|k: int| is_next_newline(lb, start as int, k));
            }
            assert(line_end(lb, start as int) == end);
        }
        let ghost errors_before = errors@.map_values(|e: Error| error_view(e));
        let ghost lines_before = lines@;
        let line = parse_line(&logical, start, end, &mut errors);
        lines.push(line);
        let ghost (rest, more) = spec_lines_from(lb, bd, start as int);
        let ghost (this_line, this_errors) = spec_line(lb, bd, start as int, end as int);
        if end == logical.bytes.len() {
            proof {
                assert(rest == seq![this_line]);
                assert(more == this_errors);
                assert(errors@.map_values(|e: Error| error_view(e)) =~= errors_before + this_errors);
                let (all, every) = spec_lines_from(lb, bd, 0);
                assert(lines@.len() == all.len());
                assert forall|i: int| 0 <= i < lines@.len() implies line_is(#[trigger] lines@[i], all[i]) by {
                    if i < lines_before.len() {
                        assert(lines@[i] == lines_before[i]);
                    } else {
                        assert(all[lines_before.len() + 0int] == rest[0int]);
                    }
                }
            }
            return Parse { lines, errors };
        }
        proof {
            let (rest2, more2) = spec_lines_from(lb, bd, end + 1);
            assert(rest == seq![this_line] + rest2);
            assert(more == this_errors + more2);
            let (all, every) = spec_lines_from(lb, bd, 0);
            assert forall|i: int| 0 <= i < lines@.len() implies line_is(#[trigger] lines@[i], all[i]) by {
                if i < lines_before.len() {
                    assert(lines@[i] == lines_before[i]);
                } else {
                    assert(all[lines_before.len() + 0int] == rest[0int]);
                }
            }
            assert forall|i: int| 0 <= i < rest2.len() implies #[trigger] all[lines@.len() + i] == rest2[i] by {
                assert(all[lines_before.len() + (i + 1)] == rest[i + 1]);
            }
            assert(errors@.map_values(|e: Error| error_view(e)) + more2 =~= errors_before + more);
        }
        start = end + 1;
    }
}

} // verus!

verus! {

/// The physical source of decoded bytes `[start, end)` of a token whose
/// bytes came from `origins`, when that range is nonempty and in bounds.
pub open spec fn spec_decoded_span(origins: Seq<Span>, start: int, end: int) -> Option<(int, int)> {
    if start < end && end <= origins.len() {
        Some((origins[start].start as int, origins[end - 1].end as int))
    } else {
        None
    }
}

/// A decoded span, or `fallback` where there is none.
pub open spec fn span_or(s: Option<(int, int)>, fallback: Span) -> (int, int) {
    match s {
        Some(s) => s,
        None => span_view(fallback),
    }
}

impl Line {
    /// The first token: the command, or the command and configuration name.
    pub fn key(&self) -> (key: Option<&Token>)
        ensures
            (if self.tokens@.len() > 0 {
                key == Some(&self.tokens@[0])
            } else {
                key is None
            }),
    {
        if self.tokens.len() > 0 {
            Some(&self.tokens[0])
        } else {
            None
        }
    }

    /// Every token after the key.
    pub fn options(&self) -> (options: &[Token])
        ensures
            options@ == (if self.tokens@.len() > 0 {
                self.tokens@.skip(1)
            } else {
                Seq::<Token>::empty()
            }),
    {
        let n = self.tokens.len();
        if n > 0 {
            let all = self.tokens.as_slice();
            let rest = &all[1..n];
            assert(rest@ =~= self.tokens@.skip(1));
            rest
        } else {
            let all = self.tokens.as_slice();
            let none = &all[0..0];
            assert(none@ =~= Seq::<Token>::empty());
            none
        }
    }
}

/// One `--config` value on an entry line.
#[derive(Debug, Clone, PartialEq, Eq)]
pub struct ConfigReference {
    pub name: String,
    pub range: Span,
}

/// One named configuration declaration and the physical range of its name.
#[derive(Debug, Clone, PartialEq, Eq)]
pub struct ConfigDeclaration {
    pub command: String,
    pub name: String,
    pub range: Span,
}

/// The declaration an entry line makes when its key is `command:name`: the
/// name's range is where its decoded bytes came from.
pub open spec fn spec_config_declaration(line: Line) -> Option<(Seq<char>, Seq<char>, (int, int))> {
    if line.statement != Some(Statement::Entry) || line.tokens@.len() == 0 {
        None
    } else {
        let key = line.tokens@[0];
        let kt = key.text@;
        match crate::text::first_index_of(kt, ':') {
            None => None,
            Some(i) => Some(
                (
                    kt.take(i),
                    kt.skip(i + 1),
                    span_or(
                        spec_decoded_span(
                            key.origins@,
                            crate::text::str_len(kt.take(i)) + 1,
                            crate::text::str_len(kt) as int,
                        ),
                        key.range,
                    ),
                ),
            ),
        }
    }
}

/// A named configuration body retained by Bazel 8.7's rc reader.
pub fn config_declaration(line: &Line) -> (declaration: Option<ConfigDeclaration>)
    ensures
        (match spec_config_declaration(*line) {
            Some((command, name, range)) => declaration matches Some(d) && d.command@ == command
                && d.name@ == name && span_view(d.range) == range,
            None => declaration is None,
        }),
{
    match line.statement {
        Some(Statement::Entry) => {},
        _ => {
            return None;
        },
    }
    let key = match line.key() {
        Some(key) => key,
        None => {
            return None;
        },
    };
    let kt = crate::text::chars_of(key.text.as_str());
    let i = match crate::text::find_char(&kt, ':') {
        Some(i) => i,
        None => {
            return None;
        },
    };
    let n = kt.len();
    let command = crate::text::string_of_range(&kt, 0, i);
    let name = crate::text::string_of_range(&kt, i + 1, n);
    assert(command@ =~= kt@.take(i as int));
    assert(name@ =~= kt@.skip(i + 1));
    let command_len = command.as_str().len();
    let range = if command_len < usize::MAX {
        match key.decoded_span(command_len + 1..key.text.as_str().len()) {
            Some(span) => span,
            None => key.range,
        }
    } else {
        key.range
    };
    Some(ConfigDeclaration { command, name, range })
}

/// The references an entry's options make from option `i` on: `--config=name`,
/// and, outside a named configuration body, `--config name`.
pub open spec fn spec_references_from(options: Seq<Token>, in_body: bool, i: int) -> Seq<
    (Seq<char>, (int, int)),
>
    decreases options.len() - i,
{
    if i < 0 || i >= options.len() {
        Seq::empty()
    } else {
        let t = options[i];
        let tt = t.text@;
        if crate::text::starts_with(tt, "--config="@) {
            seq![
                (
                    tt.skip(9),
                    span_or(spec_decoded_span(t.origins@, 9, crate::text::str_len(tt) as int), t.range),
                ),
            ] + spec_references_from(options, in_body, i + 1)
        } else if !in_body && tt == "--config"@ && i + 1 < options.len() {
            let v = options[i + 1];
            seq![
                (
                    v.text@,
                    span_or(spec_decoded_span(v.origins@, 0, crate::text::str_len(v.text@) as int), v.range),
                ),
            ] + spec_references_from(options, in_body, i + 2)
        } else {
            spec_references_from(options, in_body, i + 1)
        }
    }
}

/// The named configurations a line refers to.
pub open spec fn spec_config_references(line: Line) -> Seq<(Seq<char>, (int, int))> {
    let in_body = line.tokens@.len() > 0 && line.tokens@[0].text@.contains(':');
    let options = if line.tokens@.len() > 0 {
        line.tokens@.skip(1)
    } else {
        Seq::empty()
    };
    spec_references_from(options, in_body, 0)
}

/// Named configuration references. Bazel accepts split option/value spelling
/// only outside a named configuration body.
pub fn config_references(line: &Line) -> (found: Vec<ConfigReference>)
    ensures
        found@.len() == spec_config_references(*line).len(),
        forall|k: int|
            0 <= k < found@.len() ==> (#[trigger] found@[k]).name@ == spec_config_references(
                *line,
            )[k].0 && span_view(found@[k].range) == spec_config_references(*line)[k].1,
{
    let options = line.options();
    let in_body = match line.key() {
        Some(key) => crate::text::find_char(&crate::text::chars_of(key.text.as_str()), ':').is_some(),
        None => false,
    };
    proof {
        if line.tokens@.len() > 0 {
            let kt = line.tokens@[0].text@;
            if kt.contains(':') {
                let k = choose|k: int| 0 <= k < kt.len() && kt[k] == ':';
                assert(kt[k] == ':');
            }
        }
    }
    let ghost spec = spec_config_references(*line);
    let prefix = crate::text::chars_of("--config=");
    let bare = crate::text::chars_of("--config");
    proof {
        reveal_strlit("--config=");
    }
    let mut found: Vec<ConfigReference> = Vec::new();
    let mut i: usize = 0;
    assert(found@.len() == 0);
    loop
        invariant
            i <= options@.len(),
            prefix@ == "--config="@,
            bare@ == "--config"@,
            prefix@.len() == 9,
            spec == spec_references_from(options@, in_body, 0),
            spec == spec_config_references(*line),
            found@.len() + spec_references_from(options@, in_body, i as int).len() == spec.len(),
            forall|k: int|
                0 <= k < found@.len() ==> (#[trigger] found@[k]).name@ == spec[k].0 && span_view(
                    found@[k].range,
                ) == spec[k].1,
            forall|k: int|
                0 <= k < spec_references_from(options@, in_body, i as int).len() ==> spec[found@.len()
                    + k] == #[trigger] spec_references_from(options@, in_body, i as int)[k],
        decreases options@.len() - i,
    {
        if i >= options.len() {
            return found;
        }
        let ghost rest = spec_references_from(options@, in_body, i as int);
        let ghost before = found@;
        let option = &options[i];
        let text = crate::text::chars_of(option.text.as_str());
        let text_len = option.text.as_str().len();
        if crate::text::has_prefix(&text, &prefix) {
            let n = text.len();
            let name = crate::text::string_of_range(&text, 9, n);
            assert(name@ =~= text@.skip(9));
            let range = match option.decoded_span(9..text_len) {
                Some(span) => span,
                None => option.range,
            };
            found.push(ConfigReference { name, range });
            proof {
                let rest2 = spec_references_from(options@, in_body, i + 1);
                assert(rest[0] == spec[before.len() + 0int]);
                assert forall|k: int| 0 <= k < rest2.len() implies spec[found@.len() + k] == #[trigger] rest2[k] by {
                    assert(rest[k + 1] == rest2[k]);
                    assert(spec[before.len() + (k + 1)] == rest[k + 1]);
                }
            }
            i = i + 1;
        } else if !in_body && crate::text::same_chars(&text, &bare) && i + 1 < options.len() {
            let value = &options[i + 1];
            let name = value.text.clone();
            let range = match value.decoded_span(0..value.text.as_str().len()) {
                Some(span) => span,
                None => value.range,
            };
            found.push(ConfigReference { name, range });
            proof {
                let rest2 = spec_references_from(options@, in_body, i + 2);
                assert(rest[0] == spec[before.len() + 0int]);
                assert forall|k: int| 0 <= k < rest2.len() implies spec[found@.len() + k] == #[trigger] rest2[k] by {
                    assert(rest[k + 1] == rest2[k]);
                    assert(spec[before.len() + (k + 1)] == rest[k + 1]);
                }
            }
            i = i + 2;
        } else {
            i = i + 1;
        }
    }
}

/// How many of `lines` hold a directive Bazel refuses.
pub open spec fn invalid_directives(lines: Seq<SpecLine>) -> nat
    decreases lines.len(),
{
    if lines.len() == 0 {
        0
    } else {
        (if lines[0].3 == Some::<SpecStatement>((4, None)) { 1nat } else { 0nat }) + invalid_directives(lines.drop_first())
    }
}

/// A line raises one error when its directive is refused, and none
/// otherwise.
proof fn lemma_statement_errors(tokens: Seq<SpecToken>, range: (int, int))
    ensures
        spec_statement(tokens, range).1.len() == if spec_statement(tokens, range).0 == Some::<SpecStatement>((4, None)) {
            1nat
        } else {
            0nat
        },
{
}

proof fn lemma_lines_errors(lb: Seq<u8>, bounds: Seq<int>, start: int)
    ensures
        spec_lines_from(lb, bounds, start).1.len() == invalid_directives(spec_lines_from(lb, bounds, start).0),
    decreases lb.len() - start,
{
    if 0 <= start <= lb.len() {
        let end = line_end(lb, start);
        let (tokens, comment) = spec_tokenize(lb, bounds, start, end);
        lemma_statement_errors(tokens, phys(bounds, start, end));
        let (line, errors) = spec_line(lb, bounds, start, end);
        let st = spec_statement(tokens, phys(bounds, start, end));
        assert(line.3 == st.0);
        assert(errors == st.1);
        let here: nat = if line.3 == Some::<SpecStatement>((4, None)) { 1nat } else { 0nat };
        assert(errors.len() == here);
        if end >= lb.len() || end < start {
            assert(seq![line].drop_first() =~= Seq::<SpecLine>::empty());
            assert(seq![line][0] == line);
            assert(invalid_directives(seq![line]) == here + invalid_directives(Seq::<SpecLine>::empty()));
        } else {
            lemma_lines_errors(lb, bounds, end + 1);
            let (rest, more) = spec_lines_from(lb, bounds, end + 1);
            assert((seq![line] + rest).drop_first() =~= rest);
            assert((seq![line] + rest)[0] == line);
            assert(invalid_directives(seq![line] + rest) == here + invalid_directives(rest));
            assert((errors + more).len() == errors.len() + more.len());
        }
    }
}

/// Every refused directive raises exactly one error, and nothing else
/// raises one: a parse reports as many errors as it has refused lines.
pub proof fn one_error_per_refused_directive(src: Seq<u8>)
    ensures
        spec_parse(src).1.len() == invalid_directives(spec_parse(src).0),
{
    let (lb, bounds) = spec_logical(src);
    lemma_lines_errors(lb, bounds, 0);
}

/// Whether option `j` writes the reference `name`: as `--config=name`, or,
/// outside a named configuration body, as `--config` followed by `name`.
pub open spec fn writes_reference(options: Seq<Token>, in_body: bool, j: int, name: Seq<char>) -> bool {
    ||| crate::text::starts_with(options[j].text@, "--config="@) && name == options[j].text@.skip(9)
    ||| !in_body && options[j].text@ == "--config"@ && j + 1 < options.len() && name == options[j + 1].text@
}

/// The option that writes each reference an entry makes from option `i`
/// on, in the same order as [`spec_references_from`] lists them.
pub open spec fn reference_sources(options: Seq<Token>, in_body: bool, i: int) -> Seq<int>
    decreases options.len() - i,
{
    if i < 0 || i >= options.len() {
        Seq::empty()
    } else {
        let tt = options[i].text@;
        if crate::text::starts_with(tt, "--config="@) {
            seq![i] + reference_sources(options, in_body, i + 1)
        } else if !in_body && tt == "--config"@ && i + 1 < options.len() {
            seq![i] + reference_sources(options, in_body, i + 2)
        } else {
            reference_sources(options, in_body, i + 1)
        }
    }
}

/// Every reference an entry makes is written by one of its options, in
/// one of the two spellings, and the references follow the options'
/// order.
pub proof fn every_reference_is_written_by_an_option(options: Seq<Token>, in_body: bool, i: int)
    ensures
        reference_sources(options, in_body, i).len() == spec_references_from(options, in_body, i).len(),
        forall|k: int| #![trigger reference_sources(options, in_body, i)[k]]
            0 <= k < reference_sources(options, in_body, i).len() ==> {
                let j = reference_sources(options, in_body, i)[k];
                &&& i <= j < options.len()
                &&& writes_reference(options, in_body, j, spec_references_from(options, in_body, i)[k].0)
            },
        forall|a: int, b: int|
            0 <= a < b < reference_sources(options, in_body, i).len() ==> reference_sources(options, in_body, i)[a]
                < reference_sources(options, in_body, i)[b],
    decreases options.len() - i,
{
    if 0 <= i < options.len() {
        let tt = options[i].text@;
        let next = if crate::text::starts_with(tt, "--config="@) {
            i + 1
        } else if !in_body && tt == "--config"@ && i + 1 < options.len() {
            i + 2
        } else {
            i + 1
        };
        every_reference_is_written_by_an_option(options, in_body, next);
        let src = reference_sources(options, in_body, i);
        let refs = spec_references_from(options, in_body, i);
        let rest_src = reference_sources(options, in_body, next);
        let rest = spec_references_from(options, in_body, next);
        if crate::text::starts_with(tt, "--config="@) || (!in_body && tt == "--config"@ && i + 1 < options.len()) {
            assert(src =~= seq![i] + rest_src);
            assert forall|k: int| 0 < k < src.len() implies #[trigger] src[k] == rest_src[k - 1] && refs[k] == rest[k - 1] by {}
        } else {
            assert(src == rest_src);
            assert(refs == rest);
        }
    }
}

} // verus!

verus! {

/// A token's physical range.
pub open spec fn token_range(t: SpecToken) -> (int, int) {
    t.1
}

/// Tokens in source order: each nonempty and within `[from, to]`, each
/// ending before the next opens.
pub open spec fn tokens_in_order(tokens: Seq<SpecToken>, from: int, to: int) -> bool {
    &&& forall|j: int|
        0 <= j < tokens.len() ==> from <= (#[trigger] token_range(tokens[j])).0 && token_range(tokens[j]).0
            < token_range(tokens[j]).1 && token_range(tokens[j]).1 <= to
    &&& forall|i: int, k: int|
        0 <= i < k < tokens.len() ==> (#[trigger] token_range(tokens[i])).1 <= (#[trigger] token_range(
            tokens[k],
        )).0
}

/// Where the last of `tokens` ends; `from` when there is none.
pub open spec fn last_end(tokens: Seq<SpecToken>, from: int) -> int {
    if tokens.len() == 0 {
        from
    } else {
        token_range(tokens.last()).1
    }
}

/// Boundaries rise strictly.
pub open spec fn rising(bounds: Seq<int>) -> bool {
    forall|i: int, j: int| 0 <= i < j < bounds.len() ==> bounds[i] < bounds[j]
}

/// Appending a nonempty token that opens where the others have ended keeps
/// them in order.
proof fn lemma_push_in_order(tokens: Seq<SpecToken>, t: SpecToken, from: int, to: int)
    requires
        tokens_in_order(tokens, from, to),
        last_end(tokens, from) <= token_range(t).0,
        from <= token_range(t).0 < token_range(t).1 <= to,
    ensures
        tokens_in_order(tokens.push(t), from, to),
        last_end(tokens.push(t), from) == token_range(t).1,
{
    let all = tokens.push(t);
    assert forall|j: int| 0 <= j < all.len() implies from <= (#[trigger] token_range(all[j])).0 && token_range(all[j]).0
        < token_range(all[j]).1 && token_range(all[j]).1 <= to by {
        if j < tokens.len() {
            assert(all[j] == tokens[j]);
        }
    }
    assert forall|i: int, k: int| 0 <= i < k < all.len() implies (#[trigger] token_range(all[i])).1
        <= (#[trigger] token_range(all[k])).0 by {
        assert(all[i] == tokens[i]);
        if k < tokens.len() {
            assert(all[k] == tokens[k]);
        } else {
            let n = tokens.len() - 1;
            if i < n {
                assert(token_range(tokens[i]).1 <= token_range(tokens[n]).0);
            }
        }
    }
}

/// The tokenizer keeps tokens in source order within the line, and a
/// comment opens after the last token and runs to the line's end.
proof fn lemma_tok_run_order(
    lb: Seq<u8>,
    bounds: Seq<int>,
    end: int,
    at: int,
    tokens: Seq<SpecToken>,
    cur: Option<Partial>,
    lo: int,
)
    requires
        rising(bounds),
        bounds.len() == lb.len() + 1,
        0 <= lo <= at <= end <= lb.len(),
        tokens_in_order(tokens, bounds[lo], bounds[at]),
        last_end(tokens, bounds[lo]) <= bounds[at],
        cur matches Some(p) ==> lo <= p.0 <= at && last_end(tokens, bounds[lo]) <= bounds[p.0] && (p.4 ==> p.0 < at),
    ensures
        tokens_in_order(tok_run(lb, bounds, end, at, tokens, cur).0, bounds[lo], bounds[end]),
        tok_run(lb, bounds, end, at, tokens, cur).1 matches Some(c) ==> bounds[lo] <= last_end(
            tok_run(lb, bounds, end, at, tokens, cur).0,
            bounds[lo],
        ) <= c.0 && c.0 < c.1 && c.1 == bounds[end],
    decreases (end - at) * 2 + if cur is None {
        1int
    } else {
        0int
    },
{
    assert(tokens_in_order(tokens, bounds[lo], bounds[end])) by {
        if at < end {
            assert(bounds[at] < bounds[end]);
        }
    }
    if at + 1 <= end {
        assert(bounds[at] < bounds[at + 1]);
    }
    if at + 2 <= end {
        assert(bounds[at + 1] < bounds[at + 2]);
    }
    if lo < at {
        assert(bounds[lo] < bounds[at]);
    }
    if tokens.len() > 0 {
        assert(bounds[lo] <= token_range(tokens[tokens.len() - 1]).0);
    }
    match cur {
        None => {
            if at == end {
            } else if is_delimiter(lb[at]) {
                lemma_tok_run_order(lb, bounds, end, at + 1, tokens, None, lo);
            } else if lb[at] == 35 {
            } else {
                lemma_tok_run_order(lb, bounds, end, at, tokens, Some((at, Seq::empty(), Seq::empty(), None, false)), lo);
            }
        },
        Some(p) => {
            if p.4 {
                if p.0 < end {
                    assert(bounds[p.0] < bounds[end]);
                }
                if p.0 < at {
                    assert(bounds[p.0] < bounds[at]);
                }
                if lo < p.0 {
                    assert(bounds[lo] < bounds[p.0]);
                }
            }
            if at == end {
                if p.4 {
                    lemma_push_in_order(tokens, (p.1, phys(bounds, p.0, at), p.2), bounds[lo], bounds[end]);
                }
            } else {
                let b = lb[at];
                match p.3 {
                    Some(q) => {
                        if b == q {
                            lemma_tok_run_order(lb, bounds, end, at + 1, tokens, Some((p.0, p.1, p.2, None, p.4)), lo);
                        } else if b == 92 {
                            if at + 1 < end {
                                lemma_tok_run_order(lb, bounds, end, at + 2, tokens, Some(take_byte(bounds, p, lb[at + 1], at, at + 2)), lo);
                            } else {
                                lemma_tok_run_order(lb, bounds, end, at + 1, tokens, Some(p), lo);
                            }
                        } else {
                            lemma_tok_run_order(lb, bounds, end, at + 1, tokens, Some(take_byte(bounds, p, b, at, at + 1)), lo);
                        }
                    },
                    None => {
                        if is_delimiter(b) || b == 35 {
                            let next = finish(bounds, tokens, p, at);
                            if p.4 {
                                lemma_push_in_order(tokens, (p.1, phys(bounds, p.0, at), p.2), bounds[lo], bounds[at + 1]);
                                lemma_push_in_order(tokens, (p.1, phys(bounds, p.0, at), p.2), bounds[lo], bounds[end]);
                            }
                            if is_delimiter(b) {
                                lemma_tok_run_order(lb, bounds, end, at + 1, next, None, lo);
                            }
                        } else if b == 39 || b == 34 {
                            lemma_tok_run_order(lb, bounds, end, at + 1, tokens, Some((p.0, p.1, p.2, Some(b), p.4)), lo);
                        } else if b == 92 {
                            if at + 1 < end {
                                lemma_tok_run_order(lb, bounds, end, at + 2, tokens, Some(take_byte(bounds, p, lb[at + 1], at, at + 2)), lo);
                            } else {
                                lemma_tok_run_order(lb, bounds, end, at + 1, tokens, Some(p), lo);
                            }
                        } else {
                            lemma_tok_run_order(lb, bounds, end, at + 1, tokens, Some(take_byte(bounds, p, b, at, at + 1)), lo);
                        }
                    },
                }
            }
        },
    }
}

/// A line's physical range.
pub open spec fn line_range(line: SpecLine) -> (int, int) {
    line.0
}

/// A line's tokens.
pub open spec fn line_tokens(line: SpecLine) -> Seq<SpecToken> {
    line.1
}

/// A line's comment.
pub open spec fn line_comment(line: SpecLine) -> Option<(int, int)> {
    line.2
}

/// A line keeps its tokens and comment in source order within its range.
pub open spec fn line_in_order(line: SpecLine) -> bool {
    &&& line_range(line).0 <= line_range(line).1
    &&& tokens_in_order(line_tokens(line), line_range(line).0, line_range(line).1)
    &&& line_comment(line) matches Some(c) ==> last_end(line_tokens(line), line_range(line).0) <= c.0 && c.0
        < c.1 && c.1 == line_range(line).1
}

/// Every line from logical offset `start` on is in order and opens at or
/// after `bounds[start]`, and each line ends before the next opens.
proof fn lemma_lines_order(lb: Seq<u8>, bounds: Seq<int>, start: int)
    requires
        rising(bounds),
        bounds.len() == lb.len() + 1,
        0 <= start <= lb.len(),
    ensures
        spec_lines_from(lb, bounds, start).0.len() >= 1,
        forall|i: int|
            0 <= i < spec_lines_from(lb, bounds, start).0.len() ==> bounds[start] <= line_range(
                #[trigger] spec_lines_from(lb, bounds, start).0[i],
            ).0 && line_in_order(spec_lines_from(lb, bounds, start).0[i]) && all_sources_in_order(
                line_tokens(spec_lines_from(lb, bounds, start).0[i]),
            ),
        forall|i: int, k: int|
            0 <= i < k < spec_lines_from(lb, bounds, start).0.len() ==> line_range(
                #[trigger] spec_lines_from(lb, bounds, start).0[i],
            ).1 < line_range(#[trigger] spec_lines_from(lb, bounds, start).0[k]).0,
    decreases lb.len() - start,
{
    let end = line_end(lb, start);
    assert(start <= end <= lb.len());
    lemma_tok_run_order(lb, bounds, end, start, Seq::empty(), None, start);
    lemma_tok_run_sources(lb, bounds, end, start, Seq::empty(), None);
    let (line, errors) = spec_line(lb, bounds, start, end);
    if start < end {
        assert(bounds[start] < bounds[end]);
    }
    assert(line_in_order(line));
    let all = spec_lines_from(lb, bounds, start).0;
    if end >= lb.len() || end < start {
        assert(all =~= seq![line]);
    } else {
        lemma_lines_order(lb, bounds, end + 1);
        let rest = spec_lines_from(lb, bounds, end + 1).0;
        assert(all =~= seq![line] + rest);
        assert(bounds[end] < bounds[end + 1]);
        assert(bounds[start] <= bounds[end + 1]);
        assert forall|i: int| 0 <= i < all.len() implies bounds[start] <= line_range(#[trigger] all[i]).0
            && line_in_order(all[i]) && all_sources_in_order(line_tokens(all[i])) by {
            if i > 0 {
                assert(all[i] == rest[i - 1]);
            }
        }
        assert forall|i: int, k: int| 0 <= i < k < all.len() implies line_range(#[trigger] all[i]).1 < line_range(
            #[trigger] all[k],
        ).0 by {
            assert(all[k] == rest[k - 1]);
            if i > 0 {
                assert(all[i] == rest[i - 1]);
            }
        }
    }
}

/// A parse keeps the source order: there is always a line; each line's
/// tokens are nonempty, lie within its range, and each ends before the
/// next opens; a comment opens after the last token and runs to the end of
/// its line; and each line ends before the next one opens.
pub proof fn a_parse_keeps_source_order(src: Seq<u8>)
    ensures
        spec_parse(src).0.len() >= 1,
        forall|i: int| 0 <= i < spec_parse(src).0.len() ==> line_in_order(#[trigger] spec_parse(src).0[i]),
        forall|i: int, k: int|
            0 <= i < k < spec_parse(src).0.len() ==> line_range(#[trigger] spec_parse(src).0[i]).1 < line_range(
                #[trigger] spec_parse(src).0[k],
            ).0,
{
    assert(bounds_ok(src, Seq::empty(), seq![0int], 0));
    lemma_logical_run(src, 0, Seq::empty(), seq![0int]);
    let (lb, bounds) = spec_logical(src);
    lemma_lines_order(lb, bounds, 0);
}

/// The sources of a token's decoded bytes, in order: each nonempty and
/// within `[from, to]`, each ending before the next opens.
pub open spec fn origins_in_order(origins: Seq<(int, int)>, from: int, to: int) -> bool {
    &&& forall|j: int| 0 <= j < origins.len() ==> from <= (#[trigger] origins[j]).0 && origins[j].0 < origins[j].1 && origins[j].1 <= to
    &&& forall|i: int, k: int| 0 <= i < k < origins.len() ==> (#[trigger] origins[i]).1 <= (#[trigger] origins[k]).0
}

/// A token decodes at least one byte, one for each source, and the sources
/// lie in order within its range.
pub open spec fn token_sources_in_order(t: SpecToken) -> bool {
    &&& t.2.len() > 0
    &&& t.0.len() == t.2.len()
    &&& origins_in_order(t.2, token_range(t).0, token_range(t).1)
}

/// Every one of `tokens` has its sources in order.
pub open spec fn all_sources_in_order(tokens: Seq<SpecToken>) -> bool {
    forall|j: int| 0 <= j < tokens.len() ==> token_sources_in_order(#[trigger] tokens[j])
}

/// Where the last of `origins` ends; `from` when there is none.
pub open spec fn last_source_end(origins: Seq<(int, int)>, from: int) -> int {
    if origins.len() == 0 {
        from
    } else {
        origins.last().1
    }
}

/// A token being read has its sources in order up to `bounds[at]`.
pub open spec fn partial_in_order(bounds: Seq<int>, p: Partial, at: int) -> bool {
    &&& 0 <= p.0 <= at
    &&& p.4 == (p.2.len() > 0)
    &&& p.1.len() == p.2.len()
    &&& origins_in_order(p.2, bounds[p.0], bounds[at])
    &&& last_source_end(p.2, bounds[p.0]) <= bounds[at]
}

/// Taking one more byte from `[from, to)` keeps a token's sources in order.
proof fn lemma_take_byte_in_order(bounds: Seq<int>, p: Partial, b: u8, from: int, to: int)
    requires
        rising(bounds),
        0 <= from < to < bounds.len(),
        partial_in_order(bounds, p, from),
    ensures
        partial_in_order(bounds, take_byte(bounds, p, b, from, to), to),
{
    let o = p.2;
    let n = o.push(phys(bounds, from, to));
    assert(bounds[from] < bounds[to]);
    if p.0 < from {
        assert(bounds[p.0] < bounds[from]);
    }
    assert forall|j: int| 0 <= j < n.len() implies bounds[p.0] <= (#[trigger] n[j]).0 && n[j].0 < n[j].1 && n[j].1 <= bounds[to] by {
        if j < o.len() {
            assert(n[j] == o[j]);
        }
    }
    assert forall|i: int, k: int| 0 <= i < k < n.len() implies (#[trigger] n[i]).1 <= (#[trigger] n[k]).0 by {
        assert(n[i] == o[i]);
        if k < o.len() {
            assert(n[k] == o[k]);
        } else if i < o.len() - 1 {
            assert(o[i].1 <= o[o.len() - 1].0);
        }
    }
}

/// A token being read keeps its sources in order as reading moves on.
proof fn lemma_partial_moves_on(bounds: Seq<int>, p: Partial, at: int, to: int)
    requires
        rising(bounds),
        0 <= at <= to < bounds.len(),
        partial_in_order(bounds, p, at),
    ensures
        partial_in_order(bounds, p, to),
{
    if at < to {
        assert(bounds[at] < bounds[to]);
    }
}

/// Every token the tokenizer reads has its sources in order.
proof fn lemma_tok_run_sources(
    lb: Seq<u8>,
    bounds: Seq<int>,
    end: int,
    at: int,
    tokens: Seq<SpecToken>,
    cur: Option<Partial>,
)
    requires
        rising(bounds),
        bounds.len() == lb.len() + 1,
        0 <= at <= end <= lb.len(),
        all_sources_in_order(tokens),
        cur matches Some(p) ==> partial_in_order(bounds, p, at),
    ensures
        all_sources_in_order(tok_run(lb, bounds, end, at, tokens, cur).0),
    decreases (end - at) * 2 + if cur is None {
        1int
    } else {
        0int
    },
{
    match cur {
        None => {
            if at == end {
            } else if is_delimiter(lb[at]) {
                lemma_tok_run_sources(lb, bounds, end, at + 1, tokens, None);
            } else if lb[at] == 35 {
            } else {
                let p: Partial = (at, Seq::empty(), Seq::empty(), None, false);
                assert(partial_in_order(bounds, p, at));
                lemma_tok_run_sources(lb, bounds, end, at, tokens, Some(p));
            }
        },
        Some(p) => {
            let fin = finish(bounds, tokens, p, at);
            assert forall|j: int| 0 <= j < fin.len() implies token_sources_in_order(#[trigger] fin[j]) by {
                if j < tokens.len() {
                    assert(fin[j] == tokens[j]);
                }
            }
            assert(all_sources_in_order(fin));
            if at < end {
                let b = lb[at];
                match p.3 {
                    Some(q) => {
                        if b == q {
                            lemma_partial_moves_on(bounds, p, at, at + 1);
                            lemma_tok_run_sources(lb, bounds, end, at + 1, tokens, Some((p.0, p.1, p.2, None, p.4)));
                        } else if b == 92 {
                            if at + 1 < end {
                                lemma_take_byte_in_order(bounds, p, lb[at + 1], at, at + 2);
                                lemma_tok_run_sources(lb, bounds, end, at + 2, tokens, Some(take_byte(bounds, p, lb[at + 1], at, at + 2)));
                            } else {
                                lemma_partial_moves_on(bounds, p, at, at + 1);
                                lemma_tok_run_sources(lb, bounds, end, at + 1, tokens, Some(p));
                            }
                        } else {
                            lemma_take_byte_in_order(bounds, p, b, at, at + 1);
                            lemma_tok_run_sources(lb, bounds, end, at + 1, tokens, Some(take_byte(bounds, p, b, at, at + 1)));
                        }
                    },
                    None => {
                        if is_delimiter(b) {
                            lemma_tok_run_sources(lb, bounds, end, at + 1, fin, None);
                        } else if b == 35 {
                        } else if b == 39 || b == 34 {
                            lemma_partial_moves_on(bounds, p, at, at + 1);
                            lemma_tok_run_sources(lb, bounds, end, at + 1, tokens, Some((p.0, p.1, p.2, Some(b), p.4)));
                        } else if b == 92 {
                            if at + 1 < end {
                                lemma_take_byte_in_order(bounds, p, lb[at + 1], at, at + 2);
                                lemma_tok_run_sources(lb, bounds, end, at + 2, tokens, Some(take_byte(bounds, p, lb[at + 1], at, at + 2)));
                            } else {
                                lemma_partial_moves_on(bounds, p, at, at + 1);
                                lemma_tok_run_sources(lb, bounds, end, at + 1, tokens, Some(p));
                            }
                        } else {
                            lemma_take_byte_in_order(bounds, p, b, at, at + 1);
                            lemma_tok_run_sources(lb, bounds, end, at + 1, tokens, Some(take_byte(bounds, p, b, at, at + 1)));
                        }
                    },
                }
            }
        },
    }
}

/// Every token of a parse decodes at least one byte, and the physical
/// sources of its decoded bytes lie in order within its range.
pub proof fn decoded_bytes_come_from_their_token(src: Seq<u8>)
    ensures
        forall|i: int|
            0 <= i < spec_parse(src).0.len() ==> all_sources_in_order(line_tokens(#[trigger] spec_parse(src).0[i])),
{
    assert(bounds_ok(src, Seq::empty(), seq![0int], 0));
    lemma_logical_run(src, 0, Seq::empty(), seq![0int]);
    let (lb, bounds) = spec_logical(src);
    lemma_lines_order(lb, bounds, 0);
}

/// Decoded spans nest: where a token's sources lie in order within
/// `[from, to]`, the span of any nonempty range of its decoded bytes lies
/// there too, and the span of a range inside another lies inside the
/// other's span.
pub proof fn decoded_spans_nest(origins: Seq<Span>, from: int, to: int, a: int, b: int, c: int, d: int)
    requires
        origins_in_order(origins.map_values(|s: Span| span_view(s)), from, to),
        0 <= a <= c < d <= b <= origins.len(),
    ensures
        spec_decoded_span(origins, a, b) matches Some(outer) && spec_decoded_span(origins, c, d) matches Some(
            inner,
        ) && from <= outer.0 <= inner.0 && inner.0 < inner.1 && inner.1 <= outer.1 <= to,
{
    let o = origins.map_values(|s: Span| span_view(s));
    assert(o[a] == span_view(origins[a]));
    assert(o[c] == span_view(origins[c]));
    assert(o[d - 1] == span_view(origins[d - 1]));
    assert(o[b - 1] == span_view(origins[b - 1]));
    if a < c {
        assert(o[a].1 <= o[c].0);
    }
    if d - 1 < b - 1 {
        assert(o[d - 1].1 <= o[b - 1].0);
    }
}

/// How many newlines `lb[start..]` holds.
pub open spec fn newlines_from(lb: Seq<u8>, start: int) -> nat
    decreases lb.len() - start,
{
    if start < 0 || start >= lb.len() {
        0
    } else {
        (if lb[start] == 10 {
            1nat
        } else {
            0nat
        }) + newlines_from(lb, start + 1)
    }
}

/// A run with no newline adds none.
proof fn lemma_newlines_skip(lb: Seq<u8>, start: int, i: int)
    requires
        0 <= start <= i <= lb.len(),
        forall|j: int| start <= j < i ==> lb[j] != 10,
    ensures
        newlines_from(lb, start) == newlines_from(lb, i),
    decreases i - start,
{
    if start < i {
        lemma_newlines_skip(lb, start + 1, i);
    }
}

/// A newline at or after `start` makes a first one.
proof fn lemma_next_newline(lb: Seq<u8>, start: int, j: int)
    requires
        0 <= start <= j < lb.len(),
        lb[j] == 10,
    ensures
        exists|i: int| #[trigger] is_next_newline(lb, start, i),
    decreases j - start,
{
    if lb[start] == 10 {
        assert(is_next_newline(lb, start, start));
    } else {
        lemma_next_newline(lb, start + 1, j);
        let i = choose|i: int| #[trigger] is_next_newline(lb, start + 1, i);
        assert(is_next_newline(lb, start, i));
    }
}

/// There is one line more than the logical text has newlines.
proof fn lemma_lines_count(lb: Seq<u8>, bounds: Seq<int>, start: int)
    requires
        0 <= start <= lb.len(),
    ensures
        spec_lines_from(lb, bounds, start).0.len() == newlines_from(lb, start) + 1,
    decreases lb.len() - start,
{
    let end = line_end(lb, start);
    if exists|i: int| #[trigger] is_next_newline(lb, start, i) {
        let i = choose|i: int| #[trigger] is_next_newline(lb, start, i);
        assert(end == i);
        lemma_newlines_skip(lb, start, i);
        lemma_lines_count(lb, bounds, i + 1);
    } else {
        assert forall|j: int| start <= j < lb.len() implies lb[j] != 10 by {
            if lb[j] == 10 {
                lemma_next_newline(lb, start, j);
            }
        }
        lemma_newlines_skip(lb, start, lb.len() as int);
    }
}

/// A parse has one line more than its logical text (the text with every
/// backslash-newline continuation deleted) has newlines.
pub proof fn one_line_more_than_newlines(src: Seq<u8>)
    ensures
        spec_parse(src).0.len() == newlines_from(spec_logical(src).0, 0) + 1,
{
    let (lb, bounds) = spec_logical(src);
    lemma_lines_count(lb, bounds, 0);
}

} // verus!

verus! {

/// A tab, newline, carriage return or space: what separates words on an
/// rc line.
pub open spec fn blank(b: u8) -> bool {
    b == 9 || b == 10 || b == 13 || b == 32
}

/// A byte that belongs to a word: neither blank nor `#`.
pub open spec fn word_byte(b: u8) -> bool {
    !blank(b) && b != 35
}

/// `lb[lo..end]` holds no quote and no backslash.
pub open spec fn unquoted(lb: Seq<u8>, lo: int, end: int) -> bool {
    forall|i: int| lo <= i < end ==> #[trigger] lb[i] != 39 && lb[i] != 34 && lb[i] != 92
}

/// Every boundary is its own offset: nothing was deleted.
pub open spec fn no_deletions(bounds: Seq<int>, n: int) -> bool {
    bounds.len() == n + 1 && forall|i: int| 0 <= i <= n ==> #[trigger] bounds[i] == i
}

/// `t` is a whole word of `lb[lo..end]`: its bytes are the source bytes of
/// its range, all word bytes, with a delimiter (or the line's start) before
/// it and a delimiter, `#` or the line's end after it.
pub open spec fn whole_word(lb: Seq<u8>, lo: int, end: int, t: SpecToken) -> bool {
    let (a, b) = token_range(t);
    &&& lo <= a < b <= end
    &&& t.0 == lb.subrange(a, b)
    &&& forall|i: int| a <= i < b ==> word_byte(#[trigger] lb[i])
    &&& (a == lo || blank(lb[a - 1]))
    &&& (b == end || blank(lb[b]) || lb[b] == 35)
}

/// Byte `i` lies in one of `tokens`.
pub open spec fn covered(tokens: Seq<SpecToken>, i: int) -> bool {
    exists|j: int| 0 <= j < tokens.len() && token_range(#[trigger] tokens[j]).0 <= i < token_range(tokens[j]).1
}

/// What reading an unquoted line keeps, at `at` with `tokens` read and
/// `cur` being read.
pub open spec fn plain_state(lb: Seq<u8>, lo: int, end: int, at: int, tokens: Seq<SpecToken>, cur: Option<Partial>) -> bool {
    &&& forall|j: int| 0 <= j < tokens.len() ==> whole_word(lb, lo, end, #[trigger] tokens[j])
    &&& forall|j: int| 0 <= j < tokens.len() ==> token_range(#[trigger] tokens[j]).1 <= at
    &&& forall|i: int| lo <= i < at ==> #[trigger] lb[i] != 35
    &&& forall|i: int|
        lo <= i < at && !blank(#[trigger] lb[i]) ==> covered(tokens, i) || (cur matches Some(p) && p.0 <= i)
    &&& match cur {
        None => at == lo || blank(lb[at - 1]),
        Some(p) => {
            &&& p.3 is None
            &&& lo <= p.0 <= at
            &&& p.1 == lb.subrange(p.0, at)
            &&& p.4 == (p.0 < at)
            &&& (forall|i: int| p.0 <= i < at ==> word_byte(#[trigger] lb[i]))
            &&& (p.0 == lo || blank(lb[p.0 - 1]))
            &&& (forall|j: int| 0 <= j < tokens.len() ==> token_range(#[trigger] tokens[j]).1 <= p.0)
            &&& (p.0 < end ==> word_byte(lb[p.0]))
        },
    }
}

/// Finishing the word being read keeps the state whole.
proof fn lemma_finish_plain(lb: Seq<u8>, bounds: Seq<int>, lo: int, end: int, at: int, tokens: Seq<SpecToken>, p: Partial)
    requires
        no_deletions(bounds, lb.len() as int),
        0 <= lo <= at <= end <= lb.len(),
        plain_state(lb, lo, end, at, tokens, Some(p)),
        at == end || blank(lb[at]) || lb[at] == 35,
    ensures
        plain_state(lb, lo, end, at, finish(bounds, tokens, p, at), None::<Partial>) || !(at == lo || blank(
            lb[at - 1],
        )),
        forall|j: int|
            0 <= j < finish(bounds, tokens, p, at).len() ==> whole_word(lb, lo, end, #[trigger] finish(bounds, tokens, p, at)[j]),
        forall|j: int|
            0 <= j < finish(bounds, tokens, p, at).len() ==> token_range(#[trigger] finish(bounds, tokens, p, at)[j]).1 <= at,
        forall|i: int|
            lo <= i < at && !blank(#[trigger] lb[i]) ==> covered(finish(bounds, tokens, p, at), i),
{
    let fin = finish(bounds, tokens, p, at);
    if p.4 {
        let t = (p.1, phys(bounds, p.0, at), p.2);
        assert(fin == tokens.push(t));
        assert(bounds[p.0] == p.0 && bounds[at] == at);
        assert(token_range(t) == (p.0, at));
        assert(whole_word(lb, lo, end, t));
        assert forall|j: int| 0 <= j < fin.len() implies whole_word(lb, lo, end, #[trigger] fin[j]) && token_range(fin[j]).1 <= at by {
            if j < tokens.len() {
                assert(fin[j] == tokens[j]);
            }
        }
        assert forall|i: int| lo <= i < at && !blank(#[trigger] lb[i]) implies covered(fin, i) by {
            if covered(tokens, i) {
                let j = choose|j: int| 0 <= j < tokens.len() && token_range(#[trigger] tokens[j]).0 <= i < token_range(tokens[j]).1;
                assert(fin[j] == tokens[j]);
            } else {
                assert(fin[tokens.len() as int] == t);
            }
        }
    } else {
        assert(fin == tokens);
        assert forall|i: int| lo <= i < at && !blank(#[trigger] lb[i]) implies covered(fin, i) by {
            if !covered(tokens, i) {
                assert(p.0 <= i);
            }
        }
    }
}

/// Reading an unquoted line with nothing deleted, every token is a whole
/// word of it, and every word byte before the comment (or the line's end)
/// lies in a token.
proof fn lemma_plain_tok_run(
    lb: Seq<u8>,
    bounds: Seq<int>,
    end: int,
    at: int,
    tokens: Seq<SpecToken>,
    cur: Option<Partial>,
    lo: int,
)
    requires
        no_deletions(bounds, lb.len() as int),
        0 <= lo <= at <= end <= lb.len(),
        unquoted(lb, lo, end),
        plain_state(lb, lo, end, at, tokens, cur),
    ensures
        ({
            let (ts, c) = tok_run(lb, bounds, end, at, tokens, cur);
            let stop = match c {
                Some(r) => r.0,
                None => end,
            };
            &&& forall|j: int| 0 <= j < ts.len() ==> whole_word(lb, lo, end, #[trigger] ts[j])
            &&& c matches Some(r) ==> lo <= r.0 < end && lb[r.0] == 35 && r.1 == end
            &&& forall|i: int| lo <= i < stop ==> #[trigger] lb[i] != 35
            &&& forall|i: int| lo <= i < stop && !blank(#[trigger] lb[i]) ==> covered(ts, i)
        }),
    decreases (end - at) * 2 + if cur is None {
        1int
    } else {
        0int
    },
{
    match cur {
        None => {
            if at == end {
            } else if blank(lb[at]) {
                lemma_plain_tok_run(lb, bounds, end, at + 1, tokens, None, lo);
            } else if lb[at] == 35 {
            } else {
                let p: Partial = (at, Seq::empty(), Seq::empty(), None, false);
                assert(lb.subrange(at, at) =~= Seq::<u8>::empty());
                lemma_plain_tok_run(lb, bounds, end, at, tokens, Some(p), lo);
            }
        },
        Some(p) => {
            if at == end {
                lemma_finish_plain(lb, bounds, lo, end, at, tokens, p);
            } else {
                let b = lb[at];
                assert(b != 39 && b != 34 && b != 92);
                if blank(b) {
                    lemma_finish_plain(lb, bounds, lo, end, at, tokens, p);
                    let fin = finish(bounds, tokens, p, at);
                    assert(plain_state(lb, lo, end, at + 1, fin, None::<Partial>));
                    lemma_plain_tok_run(lb, bounds, end, at + 1, fin, None, lo);
                } else if b == 35 {
                    lemma_finish_plain(lb, bounds, lo, end, at, tokens, p);
                } else {
                    let q = take_byte(bounds, p, b, at, at + 1);
                    assert(q.1 =~= lb.subrange(p.0, at + 1));
                    assert(plain_state(lb, lo, end, at + 1, tokens, Some(q)));
                    lemma_plain_tok_run(lb, bounds, end, at + 1, tokens, Some(q), lo);
                }
            }
        },
    }
}

/// Offsets `0..=n`, each its own boundary.
pub open spec fn identity_bounds(n: int) -> Seq<int> {
    Seq::new((n + 1) as nat, |i: int| i)
}

/// Without a backslash nothing is deleted: the logical text is the source.
proof fn lemma_logical_without_backslash(src: Seq<u8>, at: int)
    requires
        0 <= at <= src.len(),
        forall|i: int| 0 <= i < src.len() ==> #[trigger] src[i] != 92,
    ensures
        logical_run(src, at, src.take(at), identity_bounds(at)) == (src, identity_bounds(src.len() as int)),
    decreases src.len() - at,
{
    if at < src.len() {
        assert(removed_at(src, at) == 0);
        assert(src.take(at).push(src[at]) =~= src.take(at + 1));
        assert(identity_bounds(at).push(at + 1) =~= identity_bounds(at + 1));
        lemma_logical_without_backslash(src, at + 1);
    } else {
        assert(src.take(at) =~= src);
    }
}

/// What an unquoted line keeps: its tokens are whole words of it, a
/// comment opens at a `#` and runs to the line's end, and every word byte
/// before the comment lies in a token.
pub open spec fn words_of_line(src: Seq<u8>, line: SpecLine) -> bool {
    let (a, b) = line_range(line);
    let tokens = line_tokens(line);
    let stop = match line_comment(line) {
        Some(c) => c.0,
        None => b,
    };
    &&& forall|j: int| 0 <= j < tokens.len() ==> whole_word(src, a, b, #[trigger] tokens[j])
    &&& line_comment(line) matches Some(c) ==> a <= c.0 < b && src[c.0] == 35 && c.1 == b
    &&& forall|i: int| a <= i < stop ==> #[trigger] src[i] != 35
    &&& forall|i: int| a <= i < stop && !blank(#[trigger] src[i]) ==> covered(tokens, i)
}

proof fn lemma_lines_words(lb: Seq<u8>, start: int)
    requires
        0 <= start <= lb.len(),
        unquoted(lb, 0, lb.len() as int),
    ensures
        forall|k: int|
            0 <= k < spec_lines_from(lb, identity_bounds(lb.len() as int), start).0.len() ==> words_of_line(
                lb,
                #[trigger] spec_lines_from(lb, identity_bounds(lb.len() as int), start).0[k],
            ),
    decreases lb.len() - start,
{
    let bounds = identity_bounds(lb.len() as int);
    let end = line_end(lb, start);
    assert(start <= end <= lb.len());
    assert(no_deletions(bounds, lb.len() as int));
    assert(plain_state(lb, start, end, start, Seq::empty(), None::<Partial>));
    lemma_plain_tok_run(lb, bounds, end, start, Seq::empty(), None, start);
    let (line, errors) = spec_line(lb, bounds, start, end);
    assert(line_range(line) == (start, end));
    assert(words_of_line(lb, line));
    let all = spec_lines_from(lb, bounds, start).0;
    if end >= lb.len() || end < start {
        assert(all =~= seq![line]);
    } else {
        lemma_lines_words(lb, end + 1);
        let rest = spec_lines_from(lb, bounds, end + 1).0;
        assert(all =~= seq![line] + rest);
        assert forall|k: int| 0 <= k < all.len() implies words_of_line(lb, #[trigger] all[k]) by {
            if k > 0 {
                assert(all[k] == rest[k - 1]);
            }
        }
    }
}

/// Unquoted rc text splits into words: where the source holds no quote and
/// no backslash, every token of every line is a whole word of the line (its
/// bytes the source bytes of its range, none a space, tab, carriage return
/// or `#`, with a delimiter or the line's start before it and a delimiter,
/// `#` or the line's end after it), a comment opens at the first `#` and
/// runs to the line's end, and every other byte before it lies in a token.
pub proof fn unquoted_lines_split_into_words(src: Seq<u8>)
    requires
        forall|i: int| 0 <= i < src.len() ==> #[trigger] src[i] != 92 && src[i] != 39 && src[i] != 34,
    ensures
        forall|k: int| 0 <= k < spec_parse(src).0.len() ==> words_of_line(src, #[trigger] spec_parse(src).0[k]),
{
    assert(src.take(0) =~= Seq::<u8>::empty());
    assert(identity_bounds(0) =~= seq![0int]);
    lemma_logical_without_backslash(src, 0);
    assert(spec_logical(src) == (src, identity_bounds(src.len() as int)));
    lemma_lines_words(src, 0);
}

/// Inside quotes every byte but the closing quote is taken as it is, and
/// the token ends at the line's end just after that quote.
proof fn lemma_quoted_run(lb: Seq<u8>, bounds: Seq<int>, end: int, at: int, tokens: Seq<SpecToken>, p: Partial, q: u8)
    requires
        0 <= at < end <= lb.len(),
        p.3 == Some(q),
        lb[end - 1] == q,
        forall|i: int| at <= i < end - 1 ==> #[trigger] lb[i] != q && lb[i] != 92,
        p.4 || at < end - 1,
    ensures
        ({
            let r = tok_run(lb, bounds, end, at, tokens, Some(p));
            &&& r.1 is None
            &&& r.0.len() == tokens.len() + 1
            &&& r.0.take(tokens.len() as int) == tokens
            &&& r.0[tokens.len() as int].0 == p.1 + lb.subrange(at, end - 1)
            &&& token_range(r.0[tokens.len() as int]) == (bounds[p.0], bounds[end])
        }),
    decreases end - at,
{
    if at < end - 1 {
        let b = lb[at];
        let next = take_byte(bounds, p, b, at, at + 1);
        lemma_quoted_run(lb, bounds, end, at + 1, tokens, next, q);
        assert(next.1 + lb.subrange(at + 1, end - 1) =~= p.1 + lb.subrange(at, end - 1));
    } else {
        let closed: Partial = (p.0, p.1, p.2, None, p.4);
        assert(lb.subrange(at, end - 1) =~= Seq::<u8>::empty());
        assert(p.1 + Seq::<u8>::empty() =~= p.1);
        let t = (p.1, phys(bounds, p.0, end), p.2);
        assert(tokens.push(t).take(tokens.len() as int) =~= tokens);
        assert(tok_run(lb, bounds, end, at, tokens, Some(p)) == tok_run(lb, bounds, end, end, tokens, Some(closed)));
    }
}

/// Quotes group: a line that is one single- or double-quoted run of bytes
/// (no quote of the same kind, backslash or newline inside, and not empty)
/// is one token whose text is what lies between the quotes, spaces and `#`
/// included, spanning the whole line, with no comment.
pub proof fn quotes_group_a_token(inside: Seq<u8>, double: bool)
    requires
        inside.len() > 0,
        forall|i: int|
            0 <= i < inside.len() ==> #[trigger] inside[i] != (if double { 34u8 } else { 39u8 }) && inside[i] != 92
                && inside[i] != 10,
    ensures
        ({
            let q: u8 = if double { 34 } else { 39 };
            let src = seq![q] + inside + seq![q];
            let lines = spec_parse(src).0;
            &&& lines.len() == 1
            &&& line_tokens(lines[0]).len() == 1
            &&& line_tokens(lines[0])[0].0 == inside
            &&& token_range(line_tokens(lines[0])[0]) == (0int, src.len() as int)
            &&& line_comment(lines[0]) is None
        }),
{
    let q: u8 = if double { 34 } else { 39 };
    let src = seq![q] + inside + seq![q];
    let n = src.len() as int;
    assert(src[0] == q && src[n - 1] == q);
    assert forall|i: int| 1 <= i < n - 1 implies #[trigger] src[i] == inside[i - 1] by {}
    assert forall|i: int| 0 <= i < n implies #[trigger] src[i] != 92 && src[i] != 10 by {
        if 1 <= i < n - 1 {
            assert(src[i] == inside[i - 1]);
        }
    }
    assert(src.take(0) =~= Seq::<u8>::empty());
    assert(identity_bounds(0) =~= seq![0int]);
    lemma_logical_without_backslash(src, 0);
    let bounds = identity_bounds(n);
    assert(spec_logical(src) == (src, bounds));
    assert(!(exists|i: int| is_next_newline(src, 0, i)));
    assert(line_end(src, 0) == n);
    let p0: Partial = (0, Seq::empty(), Seq::empty(), None, false);
    let p1: Partial = (0, Seq::empty(), Seq::empty(), Some(q), false);
    assert(tok_run(src, bounds, n, 0, Seq::empty(), None) == tok_run(src, bounds, n, 0, Seq::empty(), Some(p0)));
    assert(tok_run(src, bounds, n, 0, Seq::empty(), Some(p0)) == tok_run(src, bounds, n, 1, Seq::empty(), Some(p1)));
    assert forall|i: int| 1 <= i < n - 1 implies #[trigger] src[i] != q && src[i] != 92 by {
        assert(src[i] == inside[i - 1]);
    }
    lemma_quoted_run(src, bounds, n, 1, Seq::empty(), p1, q);
    assert(Seq::<u8>::empty() + src.subrange(1, n - 1) =~= inside);
    assert(bounds[0] == 0 && bounds[n] == n);
    let lines = spec_lines_from(src, bounds, 0).0;
    assert(lines.len() == 1);
}

/// Plain word bytes outside quotes are taken one by one.
proof fn lemma_word_run(lb: Seq<u8>, bounds: Seq<int>, end: int, at: int, stop: int, tokens: Seq<SpecToken>, p: Partial)
    requires
        0 <= at <= stop < end <= lb.len(),
        p.3 is None,
        forall|i: int| at <= i < stop ==> word_byte(#[trigger] lb[i]) && lb[i] != 39 && lb[i] != 34 && lb[i] != 92,
    ensures
        tok_run(lb, bounds, end, at, tokens, Some(p)) == tok_run(
            lb,
            bounds,
            end,
            stop,
            tokens,
            Some((p.0, p.1 + lb.subrange(at, stop), p.2 + Seq::new((stop - at) as nat, |k: int| phys(bounds, at + k, at + k + 1)), None, p.4 || at < stop)),
        ),
    decreases stop - at,
{
    if at < stop {
        let b = lb[at];
        let next = take_byte(bounds, p, b, at, at + 1);
        lemma_word_run(lb, bounds, end, at + 1, stop, tokens, next);
        assert(next.1 + lb.subrange(at + 1, stop) =~= p.1 + lb.subrange(at, stop));
        assert(next.2 + Seq::new((stop - (at + 1)) as nat, |k: int| phys(bounds, at + 1 + k, at + 1 + k + 1)) =~= p.2
            + Seq::new((stop - at) as nat, |k: int| phys(bounds, at + k, at + k + 1)));
    } else {
        assert(p.1 + lb.subrange(at, stop) =~= p.1);
        assert(p.2 + Seq::new(0nat, |k: int| phys(bounds, at + k, at + k + 1)) =~= p.2);
    }
}

/// A backslash escapes the byte after it: a line written as a word, a
/// backslash and any byte but a line break, then another word, is one
/// token of both words with that byte between them, whatever the byte is
/// (a space, a quote, `#`, another backslash), spanning the whole line.
pub proof fn a_backslash_escapes_the_next_byte(before: Seq<u8>, x: u8, after: Seq<u8>)
    requires
        x != 10 && x != 13,
        forall|i: int|
            0 <= i < before.len() ==> word_byte(#[trigger] before[i]) && before[i] != 39 && before[i] != 34 && before[i]
                != 92,
        forall|i: int|
            0 <= i < after.len() ==> word_byte(#[trigger] after[i]) && after[i] != 39 && after[i] != 34 && after[i]
                != 92,
    ensures
        ({
            let src = before + seq![92u8, x] + after;
            let lines = spec_parse(src).0;
            &&& lines.len() == 1
            &&& line_tokens(lines[0]).len() == 1
            &&& line_tokens(lines[0])[0].0 == before + seq![x] + after
            &&& token_range(line_tokens(lines[0])[0]) == (0int, src.len() as int)
            &&& line_comment(lines[0]) is None
        }),
{
    let src = before + seq![92u8, x] + after;
    let n = src.len() as int;
    let a = before.len() as int;
    assert forall|i: int| 0 <= i < a implies #[trigger] src[i] == before[i] by {}
    assert(src[a] == 92 && src[a + 1] == x);
    assert forall|i: int| a + 2 <= i < n implies #[trigger] src[i] == after[i - a - 2] by {}
    // The logical text is the source: the one backslash starts no continuation.
    assert forall|at: int| 0 <= at < n implies #[trigger] removed_at(src, at) == 0 by {
        if at == a {
            assert(src[a + 1] == x);
        } else if at < a {
            assert(src[at] == before[at]);
        } else if at > a + 1 {
            assert(src[at] == after[at - a - 2]);
        }
    }
    assert forall|i: int| 0 <= i < n implies #[trigger] src[i] != 10 by {
        if i < a {
            assert(src[i] == before[i]);
        } else if i > a + 1 {
            assert(src[i] == after[i - a - 2]);
        }
    }
    lemma_logical_kept(src, 0);
    assert(src.take(0) =~= Seq::<u8>::empty());
    assert(identity_bounds(0) =~= seq![0int]);
    let bounds = identity_bounds(n);
    assert(spec_logical(src) == (src, bounds));
    assert(!(exists|i: int| is_next_newline(src, 0, i)));
    assert(line_end(src, 0) == n);
    let p0: Partial = (0, Seq::empty(), Seq::empty(), None, false);
    if a > 0 {
        assert(src[0] == before[0]);
    }
    assert(tok_run(src, bounds, n, 0, Seq::empty(), None) == tok_run(src, bounds, n, 0, Seq::empty(), Some(p0)));
    assert forall|i: int| 0 <= i < a implies word_byte(#[trigger] src[i]) && src[i] != 39 && src[i] != 34 && src[i] != 92 by {
        assert(src[i] == before[i]);
    }
    lemma_word_run(src, bounds, n, 0, a, Seq::empty(), p0);
    let p1: Partial = (0, Seq::<u8>::empty() + src.subrange(0, a), Seq::<(int, int)>::empty() + Seq::new(a as nat, |k: int| phys(bounds, 0 + k, 0 + k + 1)), None, false || 0 < a);
    let p2 = take_byte(bounds, p1, x, a, a + 2);
    assert(tok_run(src, bounds, n, a, Seq::empty(), Some(p1)) == tok_run(src, bounds, n, a + 2, Seq::empty(), Some(p2)));
    if a + 2 < n {
        assert forall|i: int| a + 2 <= i < n implies word_byte(#[trigger] src[i]) && src[i] != 39 && src[i] != 34 && src[i] != 92 by {
            assert(src[i] == after[i - a - 2]);
        }
        lemma_word_run(src, bounds, n, a + 2, n - 1, Seq::empty(), p2);
        let p3: Partial = (0, p2.1 + src.subrange(a + 2, n - 1), p2.2 + Seq::new((n - 1 - (a + 2)) as nat, |k: int| phys(bounds, a + 2 + k, a + 2 + k + 1)), None, true);
        let p4 = take_byte(bounds, p3, src[n - 1], n - 1, n);
        assert(tok_run(src, bounds, n, n - 1, Seq::empty(), Some(p3)) == tok_run(src, bounds, n, n, Seq::empty(), Some(p4)));
        assert(p4.1 =~= before + seq![x] + after);
    } else {
        assert(p2.1 =~= before + seq![x] + after);
    }
    assert(bounds[0] == 0 && bounds[n] == n);
    let lines = spec_lines_from(src, bounds, 0).0;
    assert(lines.len() == 1);
}

/// With no continuation anywhere, the logical text is the source.
proof fn lemma_logical_kept(src: Seq<u8>, at: int)
    requires
        0 <= at <= src.len(),
        forall|i: int| 0 <= i < src.len() ==> #[trigger] removed_at(src, i) == 0,
    ensures
        logical_run(src, at, src.take(at), identity_bounds(at)) == (src, identity_bounds(src.len() as int)),
    decreases src.len() - at,
{
    if at < src.len() {
        assert(removed_at(src, at) == 0);
        assert(src.take(at).push(src[at]) =~= src.take(at + 1));
        assert(identity_bounds(at).push(at + 1) =~= identity_bounds(at + 1));
        lemma_logical_kept(src, at + 1);
    } else {
        assert(src.take(at) =~= src);
    }
}

} // verus!
