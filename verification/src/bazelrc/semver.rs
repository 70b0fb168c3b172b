//! Semantic versions as `try-import-if-bazel-version` compares them.

use vstd::prelude::*;
use crate::bazel::{digits_value, is_digit, lemma_digits_value_grows};
use crate::text::{chars_of, find_char, first_index_of, has_prefix, string_of, sub_vec, starts_with, is_first_index, lemma_first_index};

verus! {

/// A comparison in `try-import-if-bazel-version`.
#[derive(Debug, Clone, Copy, PartialEq, Eq)]
pub enum Comparison {
    Less,
    LessEqual,
    Greater,
    GreaterEqual,
    Equal,
    NotEqual,
    Compatible,
}

/// One pre-release identifier: all digits, or anything else.
#[derive(Debug, Clone, PartialEq, Eq)]
pub enum Identifier {
    Numeric(String),
    Text(String),
}

/// A version: `major.minor.patch` and its pre-release identifiers. Build
/// metadata is validated and then ignored.
#[derive(Debug, Clone, PartialEq, Eq)]
pub struct SemanticVersion {
    major: u64,
    minor: u64,
    patch: u64,
    prerelease: Vec<Identifier>,
}

/// An identifier as whether it is numeric and its characters.
pub type SpecIdentifier = (bool, Seq<char>);

/// A version as its three numbers and its identifiers.
pub type SpecVersion = (u64, u64, u64, Seq<SpecIdentifier>);

pub open spec fn identifier_view(id: Identifier) -> SpecIdentifier {
    match id {
        Identifier::Numeric(s) => (true, s@),
        Identifier::Text(s) => (false, s@),
    }
}

impl SemanticVersion {
    pub closed spec fn view_of(&self) -> SpecVersion {
        (
            self.major,
            self.minor,
            self.patch,
            self.prerelease@.map_values(|id: Identifier| identifier_view(id)),
        )
    }
}

/// Every character is an ASCII digit.
pub open spec fn all_digits(s: Seq<char>) -> bool {
    forall|i: int| 0 <= i < s.len() ==> is_digit(#[trigger] s[i])
}

/// A version number: digits without a leading zero, fitting `u64`.
pub open spec fn spec_number(s: Seq<char>) -> Option<u64> {
    if s.len() == 0 || !all_digits(s) || (s.len() > 1 && s[0] == '0') || digits_value(s)
        > u64::MAX {
        None
    } else {
        Some(digits_value(s) as u64)
    }
}

/// `s` split at every `c`, as `str::split` yields the pieces.
pub open spec fn split_on(s: Seq<char>, c: char) -> Seq<Seq<char>>
    decreases s.len(),
{
    match first_index_of(s, c) {
        Some(i) => if 0 <= i < s.len() {
            seq![s.take(i)] + split_on(s.skip(i + 1), c)
        } else {
            seq![s]
        },
        None => seq![s],
    }
}

/// A character an identifier may hold.
pub open spec fn is_identifier_char(c: char) -> bool {
    ('0' <= c && c <= '9') || ('a' <= c && c <= 'z') || ('A' <= c && c <= 'Z') || c == '-'
}

/// One identifier part, pre-release parts also refusing leading zeros.
pub open spec fn valid_part(p: Seq<char>, prerelease: bool) -> bool {
    p.len() > 0 && (forall|i: int| 0 <= i < p.len() ==> is_identifier_char(#[trigger] p[i])) && (
    !prerelease || !all_digits(p) || p == seq!['0'] || p[0] != '0')
}

/// A nonempty dot-separated run of valid parts.
pub open spec fn spec_valid_identifiers(t: Seq<char>, prerelease: bool) -> bool {
    t.len() > 0 && forall|i: int|
        0 <= i < split_on(t, '.').len() ==> valid_part(#[trigger] split_on(t, '.')[i], prerelease)
}

/// `w` split at its first `-`.
pub open spec fn split_dash(w: Seq<char>) -> (Seq<char>, Option<Seq<char>>) {
    match first_index_of(w, '-') {
        Some(j) => (w.take(j), Some(w.skip(j + 1))),
        None => (w, None),
    }
}

/// The core and pre-release of a version, after checking its build metadata.
pub open spec fn spec_split_suffixes(t: Seq<char>) -> Option<(Seq<char>, Option<Seq<char>>)> {
    match first_index_of(t, '+') {
        Some(i) => {
            let build = t.skip(i + 1);
            if !spec_valid_identifiers(build, false) || build.contains('+') {
                None
            } else {
                Some(split_dash(t.take(i)))
            }
        },
        None => Some(split_dash(t)),
    }
}

/// One pre-release part as an identifier.
pub open spec fn spec_identifier(p: Seq<char>) -> SpecIdentifier {
    (all_digits(p), p)
}

/// The pre-release identifiers, if they are valid.
pub open spec fn spec_parse_prerelease(t: Option<Seq<char>>) -> Option<Seq<SpecIdentifier>> {
    match t {
        None => Some(Seq::empty()),
        Some(t) => if !spec_valid_identifiers(t, true) {
            None
        } else {
            Some(split_on(t, '.').map_values(|p: Seq<char>| spec_identifier(p)))
        },
    }
}

/// A complete `major.minor.patch` version.
pub open spec fn spec_parse_full(t: Seq<char>) -> Option<SpecVersion> {
    match spec_split_suffixes(t) {
        None => None,
        Some((core, pre)) => {
            let fields = split_on(core, '.');
            if fields.len() != 3 {
                None
            } else {
                match (
                    spec_number(fields[0]),
                    spec_number(fields[1]),
                    spec_number(fields[2]),
                    spec_parse_prerelease(pre),
                ) {
                    (Some(a), Some(b), Some(c), Some(p)) => Some((a, b, c, p)),
                    _ => None,
                }
            }
        },
    }
}

/// A version of one to three components, missing ones zero, with how many
/// were written. Only a complete version may carry a pre-release.
pub open spec fn spec_parse_partial(t: Seq<char>) -> Option<(SpecVersion, nat)> {
    match spec_split_suffixes(t) {
        None => None,
        Some((core, pre)) => {
            let fields = split_on(core, '.');
            if fields.len() > 3 || (exists|i: int|
                0 <= i < fields.len() && (#[trigger] fields[i]).len() == 0) || (fields.len() < 3
                && pre is Some) {
                None
            } else {
                let minor = if fields.len() > 1 {
                    spec_number(fields[1])
                } else {
                    Some(0u64)
                };
                let patch = if fields.len() > 2 {
                    spec_number(fields[2])
                } else {
                    Some(0u64)
                };
                match (spec_number(fields[0]), minor, patch, spec_parse_prerelease(pre)) {
                    (Some(a), Some(b), Some(c), Some(p)) => Some(((a, b, c, p), fields.len())),
                    _ => None,
                }
            }
        },
    }
}

/// Three-way comparison of integers.
pub open spec fn order_int(a: int, b: int) -> int {
    if a < b {
        -1
    } else if a > b {
        1
    } else {
        0
    }
}

/// Lexicographic three-way comparison of character sequences.
pub open spec fn order_chars(a: Seq<char>, b: Seq<char>) -> int
    decreases a.len(),
{
    if a.len() == 0 && b.len() == 0 {
        0
    } else if a.len() == 0 {
        -1
    } else if b.len() == 0 {
        1
    } else if a[0] != b[0] {
        order_int(a[0] as int, b[0] as int)
    } else {
        order_chars(a.drop_first(), b.drop_first())
    }
}

/// Identifier precedence: numbers by length then digits, numbers before
/// text, text lexicographically.
pub open spec fn order_identifier(a: SpecIdentifier, b: SpecIdentifier) -> int {
    if a.0 && b.0 {
        if a.1.len() != b.1.len() {
            order_int(a.1.len() as int, b.1.len() as int)
        } else {
            order_chars(a.1, b.1)
        }
    } else if a.0 {
        -1
    } else if b.0 {
        1
    } else {
        order_chars(a.1, b.1)
    }
}

/// Pairwise identifier comparison, then length.
pub open spec fn order_identifiers(a: Seq<SpecIdentifier>, b: Seq<SpecIdentifier>) -> int
    decreases a.len(),
{
    if a.len() == 0 || b.len() == 0 {
        order_int(a.len() as int, b.len() as int)
    } else if order_identifier(a[0], b[0]) != 0 {
        order_identifier(a[0], b[0])
    } else {
        order_identifiers(a.drop_first(), b.drop_first())
    }
}

/// Pre-release precedence: a release outranks any of its pre-releases.
pub open spec fn order_prerelease(a: Seq<SpecIdentifier>, b: Seq<SpecIdentifier>) -> int {
    if a.len() == 0 && b.len() == 0 {
        0
    } else if a.len() == 0 {
        1
    } else if b.len() == 0 {
        -1
    } else {
        order_identifiers(a, b)
    }
}

/// Semantic-version precedence.
pub open spec fn order_version(a: SpecVersion, b: SpecVersion) -> int {
    if a.0 != b.0 {
        order_int(a.0 as int, b.0 as int)
    } else if a.1 != b.1 {
        order_int(a.1 as int, b.1 as int)
    } else if a.2 != b.2 {
        order_int(a.2 as int, b.2 as int)
    } else {
        order_prerelease(a.3, b.3)
    }
}

/// A pre-release ranks below its release: with the same numbers, the
/// version that carries pre-release identifiers comes first.
pub proof fn a_prerelease_ranks_below_its_release(major: u64, minor: u64, patch: u64, pre: Seq<SpecIdentifier>)
    requires
        pre.len() > 0,
    ensures
        order_version((major, minor, patch, pre), (major, minor, patch, Seq::empty())) < 0,
        order_version((major, minor, patch, Seq::empty()), (major, minor, patch, pre)) > 0,
{
}

} // verus!

verus! {

/// The characters of each piece.
pub open spec fn pieces_view(parts: Seq<Vec<char>>) -> Seq<Seq<char>> {
    parts.map_values(|v: Vec<char>| v@)
}

/// `cs` split at every `c`.
fn split_parts(cs: &[char], c: char) -> (parts: Vec<Vec<char>>)
    ensures
        pieces_view(parts@) == split_on(cs@, c),
        parts@.len() >= 1,
{
    let mut parts: Vec<Vec<char>> = Vec::new();
    let mut rest = sub_vec(cs, 0, cs.len());
    assert(rest@ =~= cs@);
    loop
        invariant
            pieces_view(parts@) + split_on(rest@, c) == split_on(cs@, c),
        decreases rest@.len(),
    {
        match find_char(&rest, c) {
            Some(i) => {
                let head = sub_vec(&rest, 0, i);
                let n = rest.len();
                let tail = sub_vec(&rest, i + 1, n);
                assert(head@ =~= rest@.take(i as int));
                assert(tail@ =~= rest@.skip(i + 1));
                let ghost before = parts@;
                parts.push(head);
                assert(pieces_view(parts@) =~= pieces_view(before).push(head@));
                assert(split_on(rest@, c) == seq![head@] + split_on(tail@, c));
                assert(pieces_view(parts@) + split_on(tail@, c) =~= pieces_view(before) + (seq![
                    head@,
                ] + split_on(tail@, c)));
                rest = tail;
            },
            None => {
                let ghost before = parts@;
                assert(split_on(rest@, c) == seq![rest@]);
                parts.push(rest);
                assert(pieces_view(parts@) =~= pieces_view(before) + split_on(before_rest(
                    parts@,
                ), c)) by {
                    assert(before_rest(parts@) == parts@.last()@);
                }
                return parts;
            },
        }
    }
}

/// The last piece's characters.
pub open spec fn before_rest(parts: Seq<Vec<char>>) -> Seq<char> {
    parts.last()@
}

/// Whether every character is an ASCII digit.
fn digits_only(cs: &[char]) -> (b: bool)
    ensures
        b == all_digits(cs@),
{
    let mut i: usize = 0;
    while i < cs.len()
        invariant
            i <= cs.len(),
            forall|j: int| 0 <= j < i ==> is_digit(#[trigger] cs@[j]),
        decreases cs.len() - i,
    {
        if !('0' <= cs[i] && cs[i] <= '9') {
            assert(!is_digit(cs@[i as int]));
            return false;
        }
        i = i + 1;
    }
    true
}

/// A version number: digits without a leading zero, fitting `u64`.
fn number(cs: &[char]) -> (n: Option<u64>)
    ensures
        n == spec_number(cs@),
{
    if cs.len() == 0 || !digits_only(cs) || (cs.len() > 1 && cs[0] == '0') {
        return None;
    }
    let mut value: u64 = 0;
    let mut i: usize = 0;
    assert(cs@.take(0) =~= Seq::<char>::empty());
    while i < cs.len()
        invariant
            i <= cs.len(),
            all_digits(cs@),
            value == digits_value(cs@.take(i as int)),
        decreases cs.len() - i,
    {
        assert(is_digit(cs@[i as int]));
        let digit = (cs[i] as u32 - '0' as u32) as u64;
        assert(cs@.take(i + 1).drop_last() =~= cs@.take(i as int));
        assert(cs@.take(i + 1).last() == cs@[i as int]);
        if value > (u64::MAX - digit) / 10 {
            proof {
                assert(digits_value(cs@.take(i + 1)) == value * 10 + digit);
                lemma_digits_value_grows(cs@, i + 1);
            }
            return None;
        }
        value = value * 10 + digit;
        i = i + 1;
    }
    assert(cs@.take(cs.len() as int) =~= cs@);
    Some(value)
}

/// Whether `c` may stand in an identifier.
fn identifier_char(c: char) -> (b: bool)
    ensures
        b == is_identifier_char(c),
{
    ('0' <= c && c <= '9') || ('a' <= c && c <= 'z') || ('A' <= c && c <= 'Z') || c == '-'
}

/// Whether one part is a valid identifier.
fn part_is_valid(p: &[char], prerelease: bool) -> (b: bool)
    ensures
        b == valid_part(p@, prerelease),
{
    if p.len() == 0 {
        return false;
    }
    let mut i: usize = 0;
    while i < p.len()
        invariant
            i <= p.len(),
            forall|j: int| 0 <= j < i ==> is_identifier_char(#[trigger] p@[j]),
        decreases p.len() - i,
    {
        if !identifier_char(p[i]) {
            return false;
        }
        i = i + 1;
    }
    let zero = ['0'];
    assert(zero@ =~= seq!['0']);
    !prerelease || !digits_only(p) || crate::text::same_chars(p, &zero) || p[0] != '0'
}

/// Whether `t` is a nonempty dot-separated run of valid parts.
fn valid_identifiers(t: &[char], prerelease: bool) -> (b: bool)
    ensures
        b == spec_valid_identifiers(t@, prerelease),
{
    if t.len() == 0 {
        return false;
    }
    let parts = split_parts(t, '.');
    let mut i: usize = 0;
    while i < parts.len()
        invariant
            i <= parts@.len(),
            pieces_view(parts@) == split_on(t@, '.'),
            forall|j: int| 0 <= j < i ==> valid_part(#[trigger] split_on(t@, '.')[j], prerelease),
        decreases parts@.len() - i,
    {
        assert(parts@[i as int]@ == split_on(t@, '.')[i as int]);
        if !part_is_valid(&parts[i], prerelease) {
            return false;
        }
        i = i + 1;
    }
    true
}

/// `w` split at its first `-`.
fn split_at_dash(w: &[char]) -> (parts: (Vec<char>, Option<Vec<char>>))
    ensures
        parts.0@ == split_dash(w@).0,
        (match split_dash(w@).1 {
            Some(r) => parts.1 matches Some(v) && v@ == r,
            None => parts.1 is None,
        }),
{
    match find_char(w, '-') {
        Some(j) => {
            let n = w.len();
            let before = sub_vec(w, 0, j);
            let after = sub_vec(w, j + 1, n);
            assert(before@ =~= w@.take(j as int));
            assert(after@ =~= w@.skip(j + 1));
            (before, Some(after))
        },
        None => {
            let all = sub_vec(w, 0, w.len());
            assert(all@ =~= w@);
            (all, None)
        },
    }
}

/// The core and pre-release of a version, after checking build metadata.
fn split_suffixes(t: &[char]) -> (parts: Option<(Vec<char>, Option<Vec<char>>)>)
    ensures
        (match spec_split_suffixes(t@) {
            Some((core, pre)) => parts matches Some((c, p)) && c@ == core && (match pre {
                Some(r) => p matches Some(v) && v@ == r,
                None => p is None,
            }),
            None => parts is None,
        }),
{
    match find_char(t, '+') {
        Some(i) => {
            let n = t.len();
            let build = sub_vec(t, i + 1, n);
            assert(build@ =~= t@.skip(i + 1));
            if !valid_identifiers(&build, false) || find_char(&build, '+').is_some() {
                return None;
            }
            let head = sub_vec(t, 0, i);
            assert(head@ =~= t@.take(i as int));
            Some(split_at_dash(&head))
        },
        None => Some(split_at_dash(t)),
    }
}

/// The pre-release identifiers, if they are valid.
fn parse_prerelease(t: Option<&[char]>) -> (ids: Option<Vec<Identifier>>)
    ensures
        (match spec_parse_prerelease(
            match t {
                Some(s) => Some(s@),
                None => None,
            },
        ) {
            Some(spec) => ids matches Some(v) && v@.map_values(|id: Identifier| identifier_view(id))
                == spec,
            None => ids is None,
        }),
{
    let t = match t {
        None => {
            let empty: Vec<Identifier> = Vec::new();
            assert(empty@.map_values(|id: Identifier| identifier_view(id)) =~= Seq::<
                SpecIdentifier,
            >::empty());
            return Some(empty);
        },
        Some(t) => t,
    };
    if !valid_identifiers(t, true) {
        return None;
    }
    let parts = split_parts(t, '.');
    let mut ids: Vec<Identifier> = Vec::new();
    let mut i: usize = 0;
    while i < parts.len()
        invariant
            i <= parts@.len(),
            pieces_view(parts@) == split_on(t@, '.'),
            ids@.len() == i,
            forall|j: int|
                0 <= j < i ==> identifier_view(#[trigger] ids@[j]) == spec_identifier(
                    split_on(t@, '.')[j],
                ),
        decreases parts@.len() - i,
    {
        assert(parts@[i as int]@ == split_on(t@, '.')[i as int]);
        let text = string_of(&parts[i]);
        if digits_only(&parts[i]) {
            ids.push(Identifier::Numeric(text));
        } else {
            ids.push(Identifier::Text(text));
        }
        i = i + 1;
    }
    assert(ids@.map_values(|id: Identifier| identifier_view(id)) =~= split_on(t@, '.').map_values(
        |p: Seq<char>| spec_identifier(p),
    ));
    Some(ids)
}

} // verus!

verus! {

/// The optional pre-release as a slice.
fn opt_slice(v: &Option<Vec<char>>) -> (s: Option<&[char]>)
    ensures
        (match v {
            Some(x) => s matches Some(y) && y@ == x@,
            None => s is None,
        }),
{
    match v {
        Some(x) => Some(x.as_slice()),
        None => None,
    }
}

impl SemanticVersion {
    /// A release with no pre-release identifiers.
    pub fn plain(major: u64, minor: u64, patch: u64) -> (v: Self)
        ensures
            v.view_of() == (major, minor, patch, Seq::<SpecIdentifier>::empty()),
    {
        let v = Self { major, minor, patch, prerelease: Vec::new() };
        assert(v.prerelease@.map_values(|id: Identifier| identifier_view(id)) =~= Seq::<
            SpecIdentifier,
        >::empty());
        v
    }

    /// A complete `major.minor.patch[-pre][+build]` version.
    pub fn parse_full(text: &[char]) -> (v: Option<Self>)
        ensures
            (match spec_parse_full(text@) {
                Some(spec) => v matches Some(x) && x.view_of() == spec,
                None => v is None,
            }),
    {
        let (core, pre) = match split_suffixes(text) {
            Some(parts) => parts,
            None => {
                return None;
            },
        };
        let fields = split_parts(&core, '.');
        if fields.len() != 3 {
            return None;
        }
        assert(fields@[0]@ == split_on(core@, '.')[0]);
        assert(fields@[1]@ == split_on(core@, '.')[1]);
        assert(fields@[2]@ == split_on(core@, '.')[2]);
        let major = match number(&fields[0]) {
            Some(n) => n,
            None => {
                return None;
            },
        };
        let minor = match number(&fields[1]) {
            Some(n) => n,
            None => {
                return None;
            },
        };
        let patch = match number(&fields[2]) {
            Some(n) => n,
            None => {
                return None;
            },
        };
        let prerelease = match parse_prerelease(opt_slice(&pre)) {
            Some(ids) => ids,
            None => {
                return None;
            },
        };
        Some(Self { major, minor, patch, prerelease })
    }

    /// A version of one to three components, with how many were written.
    #[verifier::loop_isolation(false)]
    pub fn parse_partial(text: &[char]) -> (v: Option<(Self, usize)>)
        ensures
            (match spec_parse_partial(text@) {
                Some((spec, n)) => v matches Some((x, m)) && x.view_of() == spec && m == n,
                None => v is None,
            }),
    {
        let (core, pre) = match split_suffixes(text) {
            Some(parts) => parts,
            None => {
                return None;
            },
        };
        let fields = split_parts(&core, '.');
        let ghost spec_fields = split_on(core@, '.');
        if fields.len() > 3 {
            return None;
        }
        let mut i: usize = 0;
        while i < fields.len()
            invariant
                i <= fields@.len(),
                pieces_view(fields@) == spec_fields,
                forall|j: int| 0 <= j < i ==> (#[trigger] spec_fields[j]).len() != 0,
            decreases fields@.len() - i,
        {
            assert(fields@[i as int]@ == spec_fields[i as int]);
            if fields[i].len() == 0 {
                return None;
            }
            i = i + 1;
        }
        if fields.len() < 3 && pre.is_some() {
            return None;
        }
        assert(fields@[0]@ == spec_fields[0]);
        let major = match number(&fields[0]) {
            Some(n) => n,
            None => {
                return None;
            },
        };
        let minor = if fields.len() > 1 {
            assert(fields@[1]@ == spec_fields[1]);
            match number(&fields[1]) {
                Some(n) => n,
                None => {
                    return None;
                },
            }
        } else {
            0
        };
        let patch = if fields.len() > 2 {
            assert(fields@[2]@ == spec_fields[2]);
            match number(&fields[2]) {
                Some(n) => n,
                None => {
                    return None;
                },
            }
        } else {
            0
        };
        let prerelease = match parse_prerelease(opt_slice(&pre)) {
            Some(ids) => ids,
            None => {
                return None;
            },
        };
        Some((Self { major, minor, patch, prerelease }, fields.len()))
    }
}

/// Three-way comparison of integers.
fn compare_u64(a: u64, b: u64) -> (c: i8)
    ensures
        c == order_int(a as int, b as int),
{
    if a < b {
        -1
    } else if a > b {
        1
    } else {
        0
    }
}

/// Lexicographic comparison of two strings' characters.
fn compare_chars(a: &[char], b: &[char]) -> (c: i8)
    ensures
        c == order_chars(a@, b@),
{
    let mut i: usize = 0;
    assert(a@.skip(0) =~= a@);
    assert(b@.skip(0) =~= b@);
    while i < a.len() && i < b.len() && a[i] == b[i]
        invariant
            i <= a.len(),
            i <= b.len(),
            order_chars(a@, b@) == order_chars(a@.skip(i as int), b@.skip(i as int)),
        decreases a.len() - i,
    {
        assert(a@.skip(i as int).drop_first() =~= a@.skip(i + 1));
        assert(b@.skip(i as int).drop_first() =~= b@.skip(i + 1));
        i = i + 1;
    }
    let ghost sa = a@.skip(i as int);
    let ghost sb = b@.skip(i as int);
    if i == a.len() && i == b.len() {
        assert(sa.len() == 0 && sb.len() == 0);
        0
    } else if i == a.len() {
        -1
    } else if i == b.len() {
        1
    } else {
        assert(sa[0] == a@[i as int]);
        assert(sb[0] == b@[i as int]);
        if a[i] < b[i] {
            -1
        } else {
            1
        }
    }
}

/// Identifier precedence.
fn compare_identifier(a: &Identifier, b: &Identifier) -> (c: i8)
    ensures
        c == order_identifier(identifier_view(*a), identifier_view(*b)),
{
    match (a, b) {
        (Identifier::Numeric(x), Identifier::Numeric(y)) => {
            let xs = chars_of(x.as_str());
            let ys = chars_of(y.as_str());
            if xs.len() != ys.len() {
                compare_u64(xs.len() as u64, ys.len() as u64)
            } else {
                compare_chars(&xs, &ys)
            }
        },
        (Identifier::Numeric(_), Identifier::Text(_)) => -1,
        (Identifier::Text(_), Identifier::Numeric(_)) => 1,
        (Identifier::Text(x), Identifier::Text(y)) => {
            let xs = chars_of(x.as_str());
            let ys = chars_of(y.as_str());
            compare_chars(&xs, &ys)
        },
    }
}

/// Pre-release precedence.
fn compare_prerelease(left: &Vec<Identifier>, right: &Vec<Identifier>) -> (c: i8)
    ensures
        c == order_prerelease(
            left@.map_values(|id: Identifier| identifier_view(id)),
            right@.map_values(|id: Identifier| identifier_view(id)),
        ),
{
    let ghost l = left@.map_values(|id: Identifier| identifier_view(id));
    let ghost r = right@.map_values(|id: Identifier| identifier_view(id));
    if left.len() == 0 && right.len() == 0 {
        return 0;
    }
    if left.len() == 0 {
        return 1;
    }
    if right.len() == 0 {
        return -1;
    }
    let mut i: usize = 0;
    assert(l.skip(0) =~= l);
    assert(r.skip(0) =~= r);
    while i < left.len() && i < right.len()
        invariant
            i <= left@.len(),
            i <= right@.len(),
            l == left@.map_values(|id: Identifier| identifier_view(id)),
            r == right@.map_values(|id: Identifier| identifier_view(id)),
            order_identifiers(l, r) == order_identifiers(l.skip(i as int), r.skip(i as int)),
        decreases left@.len() - i,
    {
        let c = compare_identifier(&left[i], &right[i]);
        assert(l.skip(i as int)[0] == identifier_view(left@[i as int]));
        assert(r.skip(i as int)[0] == identifier_view(right@[i as int]));
        if c != 0 {
            return c;
        }
        assert(l.skip(i as int).drop_first() =~= l.skip(i + 1));
        assert(r.skip(i as int).drop_first() =~= r.skip(i + 1));
        i = i + 1;
    }
    compare_u64(left.len() as u64, right.len() as u64)
}

/// Semantic-version precedence.
fn compare_versions(a: &SemanticVersion, b: &SemanticVersion) -> (c: i8)
    ensures
        c == order_version(a.view_of(), b.view_of()),
{
    if a.major != b.major {
        compare_u64(a.major, b.major)
    } else if a.minor != b.minor {
        compare_u64(a.minor, b.minor)
    } else if a.patch != b.patch {
        compare_u64(a.patch, b.patch)
    } else {
        compare_prerelease(&a.prerelease, &b.prerelease)
    }
}

} // verus!

verus! {

/// One parsed version condition.
#[derive(Debug, Clone, PartialEq, Eq)]
pub struct VersionCondition {
    comparison: Comparison,
    version: SemanticVersion,
    compatible_upper: Option<SemanticVersion>,
}

/// A condition as its comparison, its version, and the exclusive upper
/// bound of a compatibility range.
pub type SpecCondition = (Comparison, SpecVersion, Option<SpecVersion>);

/// The operator a condition opens with, tried longest first, and the rest.
pub open spec fn spec_operator(text: Seq<char>) -> Option<(Comparison, Seq<char>)> {
    if starts_with(text, seq!['<', '=']) {
        Some((Comparison::LessEqual, text.skip(2)))
    } else if starts_with(text, seq!['>', '=']) {
        Some((Comparison::GreaterEqual, text.skip(2)))
    } else if starts_with(text, seq!['=', '=']) {
        Some((Comparison::Equal, text.skip(2)))
    } else if starts_with(text, seq!['!', '=']) {
        Some((Comparison::NotEqual, text.skip(2)))
    } else if starts_with(text, seq!['<']) {
        Some((Comparison::Less, text.skip(1)))
    } else if starts_with(text, seq!['>']) {
        Some((Comparison::Greater, text.skip(1)))
    } else if starts_with(text, seq!['~']) {
        Some((Comparison::Compatible, text.skip(1)))
    } else {
        None
    }
}

/// The single condition token Bazel 8.7 accepts: an operator and a complete
/// version, or `~` and a version of one to three components whose range ends
/// before the next major (one component) or minor (otherwise) release.
pub open spec fn spec_parse_condition(text: Seq<char>) -> Option<SpecCondition> {
    match spec_operator(text) {
        None => None,
        Some((comparison, version)) => {
            if version.len() == 0 {
                None
            } else if comparison == Comparison::Compatible {
                match spec_parse_partial(version) {
                    None => None,
                    Some((v, precision)) => {
                        if precision == 1 {
                            if v.0 == u64::MAX {
                                None
                            } else {
                                Some(
                                    (
                                        comparison,
                                        v,
                                        Some(((v.0 + 1) as u64, 0u64, 0u64, Seq::empty())),
                                    ),
                                )
                            }
                        } else {
                            if v.1 == u64::MAX {
                                None
                            } else {
                                Some((comparison, v, Some((v.0, (v.1 + 1) as u64, 0u64, Seq::empty()))))
                            }
                        }
                    },
                }
            } else {
                match spec_parse_full(version) {
                    None => None,
                    Some(v) => Some((comparison, v, None)),
                }
            }
        },
    }
}

/// Whether `version` satisfies a condition.
pub open spec fn spec_condition_matches(condition: SpecCondition, version: Seq<char>) -> bool {
    match spec_parse_full(version) {
        None => false,
        Some(v) => {
            let c = order_version(v, condition.1);
            match condition.0 {
                Comparison::Less => c < 0,
                Comparison::LessEqual => c <= 0,
                Comparison::Greater => c > 0,
                Comparison::GreaterEqual => c >= 0,
                Comparison::Equal => c == 0,
                Comparison::NotEqual => c != 0,
                Comparison::Compatible => c >= 0 && match condition.2 {
                    Some(upper) => order_version(v, upper) < 0,
                    None => false,
                },
            }
        },
    }
}

impl VersionCondition {
    pub closed spec fn view_of(&self) -> SpecCondition {
        (
            self.comparison,
            self.version.view_of(),
            match self.compatible_upper {
                Some(u) => Some(u.view_of()),
                None => None,
            },
        )
    }

    /// Parse the single condition token Bazel 8.7 accepts.
    pub fn parse(text: &str) -> (condition: Option<Self>)
        ensures
            (match spec_parse_condition(text@) {
                Some(spec) => condition matches Some(c) && c.view_of() == spec,
                None => condition is None,
            }),
    {
        let cs = chars_of(text);
        let le = ['<', '='];
        let ge = ['>', '='];
        let eq = ['=', '='];
        let ne = ['!', '='];
        let lt = ['<'];
        let gt = ['>'];
        let tilde = ['~'];
        assert(le@ =~= seq!['<', '=']);
        assert(ge@ =~= seq!['>', '=']);
        assert(eq@ =~= seq!['=', '=']);
        assert(ne@ =~= seq!['!', '=']);
        assert(lt@ =~= seq!['<']);
        assert(gt@ =~= seq!['>']);
        assert(tilde@ =~= seq!['~']);
        let (comparison, skip) = if has_prefix(&cs, &le) {
            (Comparison::LessEqual, 2)
        } else if has_prefix(&cs, &ge) {
            (Comparison::GreaterEqual, 2)
        } else if has_prefix(&cs, &eq) {
            (Comparison::Equal, 2)
        } else if has_prefix(&cs, &ne) {
            (Comparison::NotEqual, 2)
        } else if has_prefix(&cs, &lt) {
            (Comparison::Less, 1)
        } else if has_prefix(&cs, &gt) {
            (Comparison::Greater, 1)
        } else if has_prefix(&cs, &tilde) {
            (Comparison::Compatible, 1)
        } else {
            return None;
        };
        let n = cs.len();
        let version = sub_vec(&cs, skip, n);
        assert(version@ =~= cs@.skip(skip as int));
        assert(spec_operator(text@) == Some((comparison, version@)));
        if version.len() == 0 {
            return None;
        }
        if matches!(comparison, Comparison::Compatible) {
            let (version, precision) = match SemanticVersion::parse_partial(&version) {
                Some(parsed) => parsed,
                None => {
                    return None;
                },
            };
            let upper = if precision == 1 {
                if version.major == u64::MAX {
                    return None;
                }
                SemanticVersion::plain(version.major + 1, 0, 0)
            } else {
                if version.minor == u64::MAX {
                    return None;
                }
                SemanticVersion::plain(version.major, version.minor + 1, 0)
            };
            Some(Self { comparison, version, compatible_upper: Some(upper) })
        } else {
            match SemanticVersion::parse_full(&version) {
                Some(version) => Some(Self { comparison, version, compatible_upper: None }),
                None => None,
            }
        }
    }

    /// Whether `version` satisfies this condition; a version that does not
    /// parse satisfies none.
    pub fn matches(&self, version: &str) -> (m: bool)
        ensures
            m == spec_condition_matches(self.view_of(), version@),
    {
        let cs = chars_of(version);
        let version = match SemanticVersion::parse_full(&cs) {
            Some(v) => v,
            None => {
                return false;
            },
        };
        let c = compare_versions(&version, &self.version);
        match self.comparison {
            Comparison::Less => c < 0,
            Comparison::LessEqual => c <= 0,
            Comparison::Greater => c > 0,
            Comparison::GreaterEqual => c >= 0,
            Comparison::Equal => c == 0,
            Comparison::NotEqual => c != 0,
            Comparison::Compatible => c >= 0 && match &self.compatible_upper {
                Some(upper) => compare_versions(&version, upper) < 0,
                None => false,
            },
        }
    }

    /// The comparison this condition makes.
    pub fn comparison(&self) -> (c: Comparison)
        ensures
            c == self.view_of().0,
    {
        self.comparison
    }
}

/// Only a complete version can satisfy a condition: one that does not
/// parse as `MAJOR.MINOR.PATCH[-PRE][+BUILD]` satisfies none.
pub proof fn only_a_complete_version_matches(condition: SpecCondition, version: Seq<char>)
    requires
        spec_parse_full(version) is None,
    ensures
        !spec_condition_matches(condition, version),
{
}

/// A `~` condition admits exactly the versions from its base up to, not
/// including, the next major release (for a base of one component) or the
/// next minor release (otherwise).
pub proof fn a_compatible_range_is_half_open(text: Seq<char>, version: Seq<char>)
    requires
        spec_parse_condition(text) matches Some(c) && c.0 == Comparison::Compatible,
    ensures
        ({
            let c = spec_parse_condition(text)->0;
            &&& c.2 is Some
            &&& spec_condition_matches(c, version) <==> (spec_parse_full(version) matches Some(v)
                && order_version(v, c.1) >= 0 && order_version(v, c.2->0) < 0)
        }),
{
}

} // verus!

verus! {

/// A character that no piece of `s` split at `c` holds, and that is not
/// `c`, does not occur in `s`.
proof fn lemma_absent_from_pieces(s: Seq<char>, c: char, x: char)
    requires
        x != c,
        forall|i: int| 0 <= i < split_on(s, c).len() ==> !(#[trigger] split_on(s, c)[i]).contains(x),
    ensures
        !s.contains(x),
    decreases s.len(),
{
    match first_index_of(s, c) {
        Some(i) => {
            lemma_first_index(s, c);
            let rest = s.skip(i + 1);
            assert(split_on(s, c)[0] == s.take(i));
            assert forall|j: int| 0 <= j < split_on(rest, c).len() implies !(#[trigger] split_on(rest, c)[j]).contains(x) by {
                assert(split_on(s, c)[j + 1] == split_on(rest, c)[j]);
            }
            lemma_absent_from_pieces(rest, c, x);
            assert forall|k: int| 0 <= k < s.len() implies s[k] != x by {
                if k < i {
                    assert(s.take(i)[k] == s[k]);
                } else if k > i {
                    assert(rest[k - i - 1] == s[k]);
                }
            }
        },
        None => {
            assert(split_on(s, c)[0] == s);
        },
    }
}

/// Build metadata is ignored: a version with a valid `+BUILD` suffix parses
/// as the version without it, and so satisfies the same conditions.
pub proof fn build_metadata_is_ignored(core: Seq<char>, build: Seq<char>)
    requires
        !core.contains('+'),
        spec_valid_identifiers(build, false),
    ensures
        spec_parse_full(core + seq!['+'] + build) == spec_parse_full(core),
        forall|condition: SpecCondition|
            #[trigger] spec_condition_matches(condition, core + seq!['+'] + build) == spec_condition_matches(
                condition,
                core,
            ),
{
    let t = core + seq!['+'] + build;
    assert(t[core.len() as int] == '+');
    lemma_first_index(t, '+');
    let i = first_index_of(t, '+')->0;
    assert(is_first_index(t, '+', i));
    if i < core.len() {
        assert(t[i] == core[i]);
    }
    assert(i == core.len());
    assert(t.skip(i + 1) =~= build);
    assert(t.take(i) =~= core);
    assert forall|k: int| 0 <= k < split_on(build, '.').len() implies !(#[trigger] split_on(build, '.')[k]).contains('+') by {
        let p = split_on(build, '.')[k];
        assert(valid_part(p, false));
        if p.contains('+') {
            let m = choose|m: int| 0 <= m < p.len() && p[m] == '+';
            assert(is_identifier_char(p[m]));
        }
    }
    lemma_absent_from_pieces(build, '.', '+');
    assert(spec_split_suffixes(t) == Some(split_dash(core)));
    assert(spec_split_suffixes(core) == Some(split_dash(core)));
}

} // verus!

verus! {

/// A complete version opens with a digit.
proof fn lemma_version_opens_with_a_digit(t: Seq<char>)
    requires
        spec_parse_full(t) is Some,
    ensures
        t.len() > 0,
        is_digit(t[0]),
{
    let (core, pre) = spec_split_suffixes(t)->0;
    let w = match first_index_of(t, '+') {
        Some(i) => t.take(i),
        None => t,
    };
    if let Some(i) = first_index_of(t, '+') {
        lemma_first_index(t, '+');
    }
    assert(core == split_dash(w).0);
    if let Some(j) = first_index_of(w, '-') {
        lemma_first_index(w, '-');
    }
    let fields = split_on(core, '.');
    if let Some(k) = first_index_of(core, '.') {
        lemma_first_index(core, '.');
    }
    let f = fields[0];
    assert(spec_number(f) is Some);
    assert(f.len() > 0 && is_digit(f[0]));
    assert(core.len() > 0 && core[0] == f[0]);
    assert(w.len() > 0 && w[0] == core[0]);
    assert(t[0] == w[0]);
}

/// How each comparison but `~` is written.
spec fn operator_text(comparison: Comparison) -> Seq<char> {
    match comparison {
        Comparison::Less => seq!['<'],
        Comparison::LessEqual => seq!['<', '='],
        Comparison::Greater => seq!['>'],
        Comparison::GreaterEqual => seq!['>', '='],
        Comparison::Equal => seq!['=', '='],
        Comparison::NotEqual => seq!['!', '='],
        Comparison::Compatible => seq!['~'],
    }
}

/// What a condition written as an operator and a complete version is: that
/// operator and that version.
proof fn lemma_condition_of(comparison: Comparison, base: Seq<char>)
    requires
        spec_parse_full(base) is Some,
        comparison != Comparison::Compatible,
    ensures
        spec_parse_condition(operator_text(comparison) + base) == Some(
            (comparison, spec_parse_full(base)->0, None::<SpecVersion>),
        ),
{
    lemma_version_opens_with_a_digit(base);
    let op = operator_text(comparison);
    let text = op + base;
    assert(text[op.len() as int] == base[0]);
    assert(text.skip(op.len() as int) =~= base);
    assert(text[0] == op[0]);
    if op.len() == 2 {
        assert(text[1] == op[1]);
        assert(text.take(2) =~= op);
    } else {
        assert(text.take(1) =~= op);
        assert(text[1] == base[0]);
    }
    if text.take(2) == seq!['<', '='] || text.take(2) == seq!['>', '='] || text.take(2) == seq!['=', '=']
        || text.take(2) == seq!['!', '='] {
        assert(text.take(2)[0] == text[0] && text.take(2)[1] == text[1]);
    }
    if text.take(1) == seq!['<'] || text.take(1) == seq!['>'] || text.take(1) == seq!['~'] {
        assert(text.take(1)[0] == text[0]);
    }
}

/// Each comparison means what it says: a condition `<`, `<=`, `>`, `>=`,
/// `==` or `!=` followed by a complete version matches a complete version
/// exactly when the version's precedence stands in that relation to the
/// condition's. So `>X` never matches `X` itself, and `>=X` always does.
#[verifier::spinoff_prover]
#[verifier::rlimit(100)]
pub proof fn a_condition_compares_by_precedence(base: Seq<char>, version: Seq<char>)
    requires
        spec_parse_full(base) is Some,
        spec_parse_full(version) is Some,
    ensures
        ({
            let b = spec_parse_full(base)->0;
            let v = spec_parse_full(version)->0;
            let o = order_version(v, b);
            &&& spec_parse_condition(seq!['>'] + base) is Some
            &&& spec_condition_matches(spec_parse_condition(seq!['>'] + base)->0, version) == (o > 0)
            &&& spec_condition_matches(spec_parse_condition(seq!['>', '='] + base)->0, version) == (o >= 0)
            &&& spec_condition_matches(spec_parse_condition(seq!['<'] + base)->0, version) == (o < 0)
            &&& spec_condition_matches(spec_parse_condition(seq!['<', '='] + base)->0, version) == (o <= 0)
            &&& spec_condition_matches(spec_parse_condition(seq!['=', '='] + base)->0, version) == (o == 0)
            &&& spec_condition_matches(spec_parse_condition(seq!['!', '='] + base)->0, version) == (o != 0)
        }),
        !spec_condition_matches(spec_parse_condition(seq!['>'] + base)->0, base),
        !spec_condition_matches(spec_parse_condition(seq!['<'] + base)->0, base),
        spec_condition_matches(spec_parse_condition(seq!['>', '='] + base)->0, base),
        spec_condition_matches(spec_parse_condition(seq!['=', '='] + base)->0, base),
{
    let b = spec_parse_full(base)->0;
    let v = spec_parse_full(version)->0;
    lemma_condition_of(Comparison::Greater, base);
    lemma_condition_of(Comparison::GreaterEqual, base);
    lemma_condition_of(Comparison::Less, base);
    lemma_condition_of(Comparison::LessEqual, base);
    lemma_condition_of(Comparison::Equal, base);
    lemma_condition_of(Comparison::NotEqual, base);
    lemma_order_version_reflexive(b);
    lemma_matches_with(Comparison::Greater, b, version);
    lemma_matches_with(Comparison::GreaterEqual, b, version);
    lemma_matches_with(Comparison::Less, b, version);
    lemma_matches_with(Comparison::LessEqual, b, version);
    lemma_matches_with(Comparison::Equal, b, version);
    lemma_matches_with(Comparison::NotEqual, b, version);
    lemma_matches_with(Comparison::Greater, b, base);
    lemma_matches_with(Comparison::GreaterEqual, b, base);
    lemma_matches_with(Comparison::Less, b, base);
    lemma_matches_with(Comparison::Equal, b, base);
}

/// How a condition without a range judges a complete version.
proof fn lemma_matches_with(comparison: Comparison, b: SpecVersion, version: Seq<char>)
    requires
        spec_parse_full(version) is Some,
    ensures
        ({
            let o = order_version(spec_parse_full(version)->0, b);
            spec_condition_matches((comparison, b, None), version) == match comparison {
                Comparison::Less => o < 0,
                Comparison::LessEqual => o <= 0,
                Comparison::Greater => o > 0,
                Comparison::GreaterEqual => o >= 0,
                Comparison::Equal => o == 0,
                Comparison::NotEqual => o != 0,
                Comparison::Compatible => false,
            }
        }),
{
}

/// Every version ranks equal to itself.
pub proof fn lemma_order_version_reflexive(v: SpecVersion)
    ensures
        order_version(v, v) == 0,
{
    lemma_order_identifiers_reflexive(v.3);
}

proof fn lemma_order_chars_reflexive(a: Seq<char>)
    ensures
        order_chars(a, a) == 0,
    decreases a.len(),
{
    if a.len() > 0 {
        lemma_order_chars_reflexive(a.drop_first());
    }
}

proof fn lemma_order_identifiers_reflexive(a: Seq<SpecIdentifier>)
    ensures
        order_identifiers(a, a) == 0,
    decreases a.len(),
{
    if a.len() > 0 {
        lemma_order_chars_reflexive(a[0].1);
        lemma_order_identifiers_reflexive(a.drop_first());
    }
}

/// Releases rank by their numbers: major first, then minor, then patch.
pub proof fn releases_rank_by_their_numbers(a: SpecVersion, b: SpecVersion)
    requires
        a.3.len() == 0,
        b.3.len() == 0,
    ensures
        order_version(a, b) < 0 <==> (a.0 < b.0 || (a.0 == b.0 && (a.1 < b.1 || (a.1 == b.1 && a.2 < b.2)))),
        order_version(a, b) == 0 <==> (a.0 == b.0 && a.1 == b.1 && a.2 == b.2),
{
}

/// Precedence runs both ways alike: comparing the other way round gives
/// the opposite answer.
pub proof fn precedence_is_antisymmetric(a: SpecVersion, b: SpecVersion)
    ensures
        order_version(a, b) == -order_version(b, a),
{
    lemma_order_identifiers_antisymmetric(a.3, b.3);
}

proof fn lemma_order_chars_antisymmetric(a: Seq<char>, b: Seq<char>)
    ensures
        order_chars(a, b) == -order_chars(b, a),
    decreases a.len(),
{
    if a.len() > 0 && b.len() > 0 && a[0] == b[0] {
        lemma_order_chars_antisymmetric(a.drop_first(), b.drop_first());
    }
}

proof fn lemma_order_identifiers_antisymmetric(a: Seq<SpecIdentifier>, b: Seq<SpecIdentifier>)
    ensures
        order_identifiers(a, b) == -order_identifiers(b, a),
    decreases a.len(),
{
    if a.len() > 0 && b.len() > 0 {
        lemma_order_chars_antisymmetric(a[0].1, b[0].1);
        lemma_order_identifiers_antisymmetric(a.drop_first(), b.drop_first());
    }
}

/// A `~` range ends before the next release of the last component but
/// one that was written: `~8` before `9.0.0`, `~8.2` and `~8.2.4` before
/// `8.3.0`; it starts at the version written.
pub proof fn a_compatible_range_ends_before_the_next_release(t: Seq<char>)
    requires
        spec_parse_condition(seq!['~'] + t) is Some,
    ensures
        spec_parse_partial(t) is Some,
        ({
            let c = spec_parse_condition(seq!['~'] + t)->0;
            let v = (spec_parse_partial(t)->0).0;
            let precision = (spec_parse_partial(t)->0).1;
            &&& c.0 == Comparison::Compatible
            &&& c.1 == v
            &&& c.2 == Some(
                if precision == 1 {
                    ((v.0 + 1) as u64, 0u64, 0u64, Seq::<SpecIdentifier>::empty())
                } else {
                    (v.0, (v.1 + 1) as u64, 0u64, Seq::<SpecIdentifier>::empty())
                },
            )
            &&& precision == 1 ==> v.0 < u64::MAX
            &&& precision != 1 ==> v.1 < u64::MAX
        }),
{
    let text = seq!['~'] + t;
    assert(text[0] == '~');
    assert(text.skip(1) =~= t);
    if text.take(2) == seq!['<', '='] || text.take(2) == seq!['>', '='] || text.take(2) == seq!['=', '=']
        || text.take(2) == seq!['!', '='] {
        assert(text.take(2)[0] == text[0]);
    }
    assert(text.take(1) =~= seq!['~']);
    if text.take(1) == seq!['<'] || text.take(1) == seq!['>'] {
        assert(text.take(1)[0] == text[0]);
    }
}

/// Whether `d` is a version number as written: digits, with no leading
/// zero, small enough for `u64`.
pub open spec fn plain_number(d: Seq<char>) -> bool {
    d.len() > 0 && (forall|i: int| 0 <= i < d.len() ==> '0' <= #[trigger] d[i] && d[i] <= '9') && (d.len() == 1
        || d[0] != '0') && crate::bazel::digits_value(d) <= u64::MAX
}

/// The pieces of `s` split at a character it does not hold: `s` alone.
proof fn lemma_split_without(s: Seq<char>, c: char)
    requires
        !s.contains(c),
    ensures
        split_on(s, c) == seq![s],
{
}

/// A release written `MAJOR.MINOR.PATCH` reads as those three numbers,
/// with no pre-release, when each is a plain number; a number with a
/// leading zero makes it no version at all.
pub proof fn a_release_reads_as_its_three_numbers(a: Seq<char>, b: Seq<char>, c: Seq<char>)
    requires
        a.len() > 0 && b.len() > 0 && c.len() > 0,
        forall|i: int| 0 <= i < a.len() ==> '0' <= #[trigger] a[i] && a[i] <= '9',
        forall|i: int| 0 <= i < b.len() ==> '0' <= #[trigger] b[i] && b[i] <= '9',
        forall|i: int| 0 <= i < c.len() ==> '0' <= #[trigger] c[i] && c[i] <= '9',
    ensures
        plain_number(a) && plain_number(b) && plain_number(c) ==> spec_parse_full(
            a + seq!['.'] + b + seq!['.'] + c,
        ) == Some(
            (
                crate::bazel::digits_value(a) as u64,
                crate::bazel::digits_value(b) as u64,
                crate::bazel::digits_value(c) as u64,
                Seq::<SpecIdentifier>::empty(),
            ),
        ),
        (a.len() > 1 && a[0] == '0') || (b.len() > 1 && b[0] == '0') || (c.len() > 1 && c[0] == '0')
            ==> spec_parse_full(a + seq!['.'] + b + seq!['.'] + c) is None,
{
    let bc = b + seq!['.'] + c;
    let t = a + seq!['.'] + bc;
    assert(t =~= a + seq!['.'] + b + seq!['.'] + c);
    assert forall|i: int| 0 <= i < t.len() implies t[i] != '+' && t[i] != '-' by {
        if i < a.len() {
            assert(t[i] == a[i]);
        } else if i > a.len() {
            if i - a.len() - 1 < b.len() {
                assert(t[i] == b[i - a.len() - 1]);
            } else if i - a.len() - 1 > b.len() {
                assert(t[i] == c[i - a.len() - 2 - b.len()]);
            }
        }
    }
    assert(!t.contains('+'));
    assert(!t.contains('-'));
    assert(spec_split_suffixes(t) == Some((t, None::<Seq<char>>)));
    assert(t[a.len() as int] == '.');
    lemma_first_index(t, '.');
    let i = first_index_of(t, '.')->0;
    assert(i == a.len()) by {
        if i < a.len() {
            assert(t[i] == a[i]);
        }
    }
    assert(t.take(i) =~= a);
    assert(t.skip(i + 1) =~= bc);
    assert(bc[b.len() as int] == '.');
    lemma_first_index(bc, '.');
    let j = first_index_of(bc, '.')->0;
    assert(j == b.len()) by {
        if j < b.len() {
            assert(bc[j] == b[j]);
        }
    }
    assert(bc.take(j) =~= b);
    assert(bc.skip(j + 1) =~= c);
    assert(!c.contains('.')) by {
        if c.contains('.') {
            let k = choose|k: int| 0 <= k < c.len() && c[k] == '.';
        }
    }
    lemma_split_without(c, '.');
    assert(split_on(bc, '.') == seq![b] + seq![c]);
    assert(split_on(t, '.') == seq![a] + (seq![b] + seq![c]));
    let fields = split_on(t, '.');
    assert(fields.len() == 3 && fields[0] == a && fields[1] == b && fields[2] == c);
    assert(all_digits(a) && all_digits(b) && all_digits(c));
}

/// Pre-release identifiers rank as semantic versioning orders them: a
/// numeric identifier below one with letters, a number with fewer digits
/// below one with more, and a longer run of identifiers above any run it
/// begins with.
pub proof fn prerelease_identifiers_rank_in_order(
    number: Seq<char>,
    word: Seq<char>,
    run: Seq<SpecIdentifier>,
    more: Seq<SpecIdentifier>,
)
    requires
        more.len() > 0,
    ensures
        order_identifier((true, number), (false, word)) < 0,
        order_identifier((false, word), (true, number)) > 0,
        order_identifiers(run, run + more) < 0,
        number.len() < word.len() ==> order_identifier((true, number), (true, word)) < 0,
    decreases run.len(),
{
    if run.len() > 0 {
        lemma_order_chars_reflexive(run[0].1);
        assert((run + more)[0] == run[0]);
        assert((run + more).drop_first() =~= run.drop_first() + more);
        prerelease_identifiers_rank_in_order(number, word, run.drop_first(), more);
    } else {
        assert(run + more =~= more);
    }
}

/// A lone number, as `~8` writes it, reads as that major release with
/// one component written when it is a plain number, and as nothing when it
/// has a leading zero or does not fit.
pub proof fn a_lone_number_reads_as_a_major_release(d: Seq<char>)
    requires
        d.len() > 0,
        forall|i: int| 0 <= i < d.len() ==> '0' <= #[trigger] d[i] && d[i] <= '9',
    ensures
        plain_number(d) ==> spec_parse_partial(d) == Some(
            ((crate::bazel::digits_value(d) as u64, 0u64, 0u64, Seq::<SpecIdentifier>::empty()), 1nat),
        ),
        !plain_number(d) ==> spec_parse_partial(d) is None,
{
    assert(!d.contains('+')) by {
        if d.contains('+') {
            let k = choose|k: int| 0 <= k < d.len() && d[k] == '+';
        }
    }
    assert(!d.contains('-')) by {
        if d.contains('-') {
            let k = choose|k: int| 0 <= k < d.len() && d[k] == '-';
        }
    }
    assert(!d.contains('.')) by {
        if d.contains('.') {
            let k = choose|k: int| 0 <= k < d.len() && d[k] == '.';
        }
    }
    lemma_split_without(d, '.');
    assert(spec_split_suffixes(d) == Some((d, None::<Seq<char>>)));
    assert(split_on(d, '.')[0] == d);
    assert(all_digits(d));
}

} // verus!
