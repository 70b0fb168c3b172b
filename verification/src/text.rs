//! Character-level helpers over `str` views, and the UTF-8 and UTF-16 widths
//! that turn character positions into the byte offsets and columns the rest
//! of the library reports.

use vstd::prelude::*;
use vstd::utf8::*;
use vstd::string::StringSliceAdditionalSpecFns;

verus! {

/// `prefix` opens `s`.
pub open spec fn starts_with(s: Seq<char>, prefix: Seq<char>) -> bool {
    prefix.len() <= s.len() && s.take(prefix.len() as int) == prefix
}

/// `suffix` closes `s`.
pub open spec fn ends_with(s: Seq<char>, suffix: Seq<char>) -> bool {
    suffix.len() <= s.len() && s.skip(s.len() - suffix.len()) == suffix
}

/// `needle` occurs in `s` starting at `at`.
pub open spec fn occurs_at(s: Seq<char>, needle: Seq<char>, at: int) -> bool {
    0 <= at && at + needle.len() <= s.len() && s.subrange(at, at + needle.len()) == needle
}

/// `needle` occurs somewhere in `s`.
pub open spec fn contains_seq(s: Seq<char>, needle: Seq<char>) -> bool {
    exists|at: int| occurs_at(s, needle, at)
}

/// `i` is the position of the first `c` in `s`.
pub open spec fn is_first_index(s: Seq<char>, c: char, i: int) -> bool {
    0 <= i < s.len() && s[i] == c && forall|j: int| 0 <= j < i ==> s[j] != c
}

/// `i` is the position of the last `c` in `s`.
pub open spec fn is_last_index(s: Seq<char>, c: char, i: int) -> bool {
    0 <= i < s.len() && s[i] == c && forall|j: int| i < j < s.len() ==> s[j] != c
}

/// Where `c` first occurs in `s`.
pub open spec fn first_index_of(s: Seq<char>, c: char) -> Option<int> {
    if s.contains(c) {
        Some(choose|i: int| is_first_index(s, c, i))
    } else {
        None
    }
}

/// Where `c` last occurs in `s`.
pub open spec fn last_index_of(s: Seq<char>, c: char) -> Option<int> {
    if s.contains(c) {
        Some(choose|i: int| is_last_index(s, c, i))
    } else {
        None
    }
}

/// A character that occurs has a first place.
pub proof fn lemma_first_index(s: Seq<char>, c: char)
    requires
        s.contains(c),
    ensures
        first_index_of(s, c) matches Some(i) && is_first_index(s, c, i),
    decreases s.len(),
{
    if s[0] == c {
        assert(is_first_index(s, c, 0));
    } else {
        let k = choose|k: int| 0 <= k < s.len() && s[k] == c;
        assert(s.drop_first()[k - 1] == c);
        lemma_first_index(s.drop_first(), c);
        let i = first_index_of(s.drop_first(), c)->0;
        assert forall|j: int| 0 <= j < i + 1 implies s[j] != c by {
            if j > 0 {
                assert(s[j] == s.drop_first()[j - 1]);
            }
        }
        assert(s[i + 1] == s.drop_first()[i]);
        assert(is_first_index(s, c, i + 1));
    }
}

/// A character that occurs has a last place.
pub proof fn lemma_last_index(s: Seq<char>, c: char)
    requires
        s.contains(c),
    ensures
        last_index_of(s, c) matches Some(i) && is_last_index(s, c, i),
    decreases s.len(),
{
    if s.last() == c {
        assert(is_last_index(s, c, s.len() - 1));
    } else {
        let k = choose|k: int| 0 <= k < s.len() && s[k] == c;
        assert(s.drop_last()[k] == c);
        lemma_last_index(s.drop_last(), c);
        let i = last_index_of(s.drop_last(), c)->0;
        assert forall|j: int| i < j < s.len() implies s[j] != c by {
            if j < s.len() - 1 {
                assert(s[j] == s.drop_last()[j]);
            }
        }
        assert(s[i] == s.drop_last()[i]);
        assert(is_last_index(s, c, i));
    }
}

/// What is left after dropping a prefix closes the text.
pub proof fn lemma_skip_ends(s: Seq<char>, k: int)
    requires
        0 <= k <= s.len(),
    ensures
        ends_with(s, s.skip(k)),
{
    assert(s.skip(s.len() - s.skip(k).len()) =~= s.skip(k));
}

/// A tail of a tail is a tail.
pub proof fn lemma_ends_with_trans(a: Seq<char>, b: Seq<char>, c: Seq<char>)
    requires
        ends_with(a, b),
        ends_with(b, c),
    ensures
        ends_with(a, c),
{
    assert(a.skip(a.len() - c.len()) =~= b.skip(b.len() - c.len()));
}

/// The White_Space property of Unicode, which is what Rust's
/// `char::is_whitespace` tests.
pub open spec fn is_whitespace(c: char) -> bool {
    let u = c as u32;
    (0x09 <= u && u <= 0x0D) || u == 0x20 || u == 0x85 || u == 0xA0 || u == 0x1680 || (0x2000
        <= u && u <= 0x200A) || u == 0x2028 || u == 0x2029 || u == 0x202F || u == 0x205F || u
        == 0x3000
}

/// Some character of `s` is whitespace.
pub open spec fn has_whitespace(s: Seq<char>) -> bool {
    exists|i: int| 0 <= i < s.len() && is_whitespace(#[trigger] s[i])
}

/// The number of bytes in the UTF-8 encoding of `c`.
pub open spec fn char_width(c: char) -> nat {
    if (c as u32) <= 0x7F {
        1
    } else if (c as u32) <= 0x7FF {
        2
    } else if (c as u32) <= 0xFFFF {
        3
    } else {
        4
    }
}

/// The number of UTF-16 code units that encode `c`.
pub open spec fn char_utf16(c: char) -> nat {
    if (c as u32) >= 0x10000 {
        2
    } else {
        1
    }
}

/// The UTF-16 width of a character sequence.
pub open spec fn utf16_width(s: Seq<char>) -> nat
    decreases s.len(),
{
    if s.len() == 0 {
        0
    } else {
        char_utf16(s[0]) + utf16_width(s.drop_first())
    }
}

/// The byte length that `len` reports for a string holding `s`.
pub open spec fn str_len(s: Seq<char>) -> usize {
    encode_utf8(s).len() as usize
}

/// The length of the UTF-8 encoding of a character sequence.
pub open spec fn byte_width(s: Seq<char>) -> nat {
    encode_utf8(s).len()
}

pub proof fn lemma_encode_scalar_len(c: char)
    ensures
        encode_scalar(c as u32).len() == char_width(c),
{
    char_is_scalar(c);
}

/// Encoding distributes over concatenation.
pub proof fn lemma_encode_utf8_add(a: Seq<char>, b: Seq<char>)
    ensures
        encode_utf8(a + b) == encode_utf8(a) + encode_utf8(b),
    decreases a.len(),
{
    if a.len() == 0 {
        assert(a + b =~= b);
        assert(encode_utf8(a) =~= Seq::<u8>::empty());
        assert(encode_utf8(a) + encode_utf8(b) =~= encode_utf8(b));
    } else {
        assert((a + b).drop_first() =~= a.drop_first() + b);
        lemma_encode_utf8_add(a.drop_first(), b);
        assert((a + b)[0] == a[0]);
        assert(encode_utf8(a + b) =~= encode_scalar(a[0] as u32) + encode_utf8(a.drop_first() + b));
        assert(encode_utf8(a + b) =~= encode_utf8(a) + encode_utf8(b));
    }
}

/// The width of a sequence one character longer.
pub proof fn lemma_byte_width_push(s: Seq<char>, c: char)
    ensures
        byte_width(s.push(c)) == byte_width(s) + char_width(c),
{
    lemma_encode_utf8_add(s, seq![c]);
    assert(s.push(c) =~= s + seq![c]);
    lemma_encode_scalar_len(c);
    assert(seq![c].drop_first() =~= Seq::<char>::empty());
    assert(encode_utf8(seq![c]) =~= encode_scalar(c as u32) + encode_utf8(Seq::<char>::empty()));
}

/// The UTF-16 width of a sequence one character longer.
pub proof fn lemma_utf16_width_push(s: Seq<char>, c: char)
    ensures
        utf16_width(s.push(c)) == utf16_width(s) + char_utf16(c),
    decreases s.len(),
{
    if s.len() == 0 {
        assert(s.push(c).drop_first() =~= Seq::<char>::empty());
        assert(utf16_width(Seq::<char>::empty()) == 0);
        assert(s.push(c)[0] == c);
    } else {
        assert(s.push(c).drop_first() =~= s.drop_first().push(c));
        assert(s.push(c)[0] == s[0]);
        lemma_utf16_width_push(s.drop_first(), c);
    }
}

/// The UTF-16 width adds over concatenation.
pub proof fn lemma_utf16_width_add(a: Seq<char>, b: Seq<char>)
    ensures
        utf16_width(a + b) == utf16_width(a) + utf16_width(b),
    decreases a.len(),
{
    if a.len() == 0 {
        assert(a + b =~= b);
    } else {
        assert((a + b).drop_first() =~= a.drop_first() + b);
        lemma_utf16_width_add(a.drop_first(), b);
    }
}

/// The byte width of a prefix grows one character at a time.
pub proof fn lemma_byte_width_take(s: Seq<char>, i: int)
    requires
        0 <= i < s.len(),
    ensures
        byte_width(s.take(i + 1)) == byte_width(s.take(i)) + char_width(s[i]),
{
    assert(s.take(i + 1) =~= s.take(i).push(s[i]));
    lemma_byte_width_push(s.take(i), s[i]);
}

/// The UTF-16 width of a prefix grows one character at a time.
pub proof fn lemma_utf16_width_take(s: Seq<char>, i: int)
    requires
        0 <= i < s.len(),
    ensures
        utf16_width(s.take(i + 1)) == utf16_width(s.take(i)) + char_utf16(s[i]),
{
    assert(s.take(i + 1) =~= s.take(i).push(s[i]));
    lemma_utf16_width_push(s.take(i), s[i]);
}

/// The characters of `s`, in order.
pub fn chars_of(s: &str) -> (v: Vec<char>)
    ensures
        v@ == s@,
{
    let mut v: Vec<char> = Vec::new();
    for c in it: s.chars()
        invariant
            v@ == it.seq().take(it.index()),
    {
        v.push(c);
    }
    v
}

/// Appends one character to a string.
#[verifier::external_body]
pub(crate) fn push_char(s: &mut String, c: char)
    ensures
        final(s)@ == old(s)@.push(c),
{
    s.push(c);
}

/// Appends `tail` to `s`.
pub(crate) fn append(s: &mut String, tail: &str)
    ensures
        final(s)@ == old(s)@ + tail@,
{
    s.append(tail);
}

/// A string holding exactly `cs`.
pub fn string_of(cs: &[char]) -> (s: String)
    ensures
        s@ == cs@,
{
    let mut s = String::new();
    let mut i: usize = 0;
    while i < cs.len()
        invariant
            i <= cs.len(),
            s@ == cs@.take(i as int),
        decreases cs.len() - i,
    {
        push_char(&mut s, cs[i]);
        i = i + 1;
        assert(cs@.take(i as int) =~= cs@.take(i - 1).push(cs@[i - 1]));
    }
    assert(cs@.take(cs.len() as int) =~= cs@);
    s
}

/// A string holding `cs[start..end]`.
pub fn string_of_range(cs: &[char], start: usize, end: usize) -> (s: String)
    requires
        start <= end <= cs.len(),
    ensures
        s@ == cs@.subrange(start as int, end as int),
{
    let mut s = String::new();
    let mut i: usize = start;
    while i < end
        invariant
            start <= i <= end <= cs.len(),
            s@ == cs@.subrange(start as int, i as int),
        decreases end - i,
    {
        push_char(&mut s, cs[i]);
        i = i + 1;
        assert(cs@.subrange(start as int, i as int) =~= cs@.subrange(start as int, i - 1).push(
            cs@[i - 1],
        ));
    }
    s
}

/// Whether `cs` opens with `prefix`.
pub fn has_prefix(cs: &[char], prefix: &[char]) -> (b: bool)
    ensures
        b == starts_with(cs@, prefix@),
{
    if prefix.len() > cs.len() {
        return false;
    }
    let mut i: usize = 0;
    while i < prefix.len()
        invariant
            prefix.len() <= cs.len(),
            i <= prefix.len(),
            forall|j: int| 0 <= j < i ==> cs@[j] == prefix@[j],
        decreases prefix.len() - i,
    {
        if cs[i] != prefix[i] {
            assert(cs@.take(prefix.len() as int)[i as int] != prefix@[i as int]);
            return false;
        }
        i = i + 1;
    }
    assert(cs@.take(prefix.len() as int) =~= prefix@);
    true
}

/// Whether `cs[from..]` opens with `prefix`.
pub fn has_prefix_at(cs: &[char], from: usize, prefix: &[char]) -> (b: bool)
    requires
        from <= cs.len(),
    ensures
        b == starts_with(cs@.skip(from as int), prefix@),
{
    if prefix.len() > cs.len() - from {
        return false;
    }
    let mut i: usize = 0;
    while i < prefix.len()
        invariant
            from <= cs.len(),
            prefix.len() <= cs.len() - from,
            i <= prefix.len(),
            forall|j: int| 0 <= j < i ==> cs@[from + j] == prefix@[j],
        decreases prefix.len() - i,
    {
        if cs[from + i] != prefix[i] {
            assert(cs@.skip(from as int).take(prefix.len() as int)[i as int] != prefix@[i as int]);
            return false;
        }
        i = i + 1;
    }
    assert(cs@.skip(from as int).take(prefix.len() as int) =~= prefix@);
    true
}

/// Whether `cs[..end]` closes with `suffix`.
pub fn has_suffix(cs: &[char], suffix: &[char]) -> (b: bool)
    ensures
        b == ends_with(cs@, suffix@),
{
    if suffix.len() > cs.len() {
        return false;
    }
    let from = cs.len() - suffix.len();
    let mut i: usize = 0;
    while i < suffix.len()
        invariant
            suffix.len() <= cs.len(),
            from == cs.len() - suffix.len(),
            i <= suffix.len(),
            forall|j: int| 0 <= j < i ==> cs@[from + j] == suffix@[j],
        decreases suffix.len() - i,
    {
        if cs[from + i] != suffix[i] {
            assert(cs@.skip(from as int)[i as int] != suffix@[i as int]);
            return false;
        }
        i = i + 1;
    }
    assert(cs@.skip(from as int) =~= suffix@);
    true
}

/// Whether the two sequences hold the same characters.
pub fn same_chars(a: &[char], b: &[char]) -> (r: bool)
    ensures
        r == (a@ == b@),
{
    if a.len() != b.len() {
        return false;
    }
    let r = has_prefix(a, b);
    assert(a@.take(b.len() as int) =~= a@);
    r
}

/// The first position of `c` in `cs`.
pub fn find_char(cs: &[char], c: char) -> (r: Option<usize>)
    ensures
        (match first_index_of(cs@, c) {
            Some(i) => r == Some(i as usize),
            None => r is None,
        }),
        r matches Some(i) ==> is_first_index(cs@, c, i as int),
{
    let mut i: usize = 0;
    while i < cs.len()
        invariant
            i <= cs.len(),
            forall|j: int| 0 <= j < i ==> cs@[j] != c,
        decreases cs.len() - i,
    {
        if cs[i] == c {
            assert(cs@.contains(c));
            assert(is_first_index(cs@, c, i as int));
            let ghost k = choose|k: int| is_first_index(cs@, c, k);
            assert(k == i);
            return Some(i);
        }
        i = i + 1;
    }
    None
}

/// The last position of `c` in `cs`.
pub fn rfind_char(cs: &[char], c: char) -> (r: Option<usize>)
    ensures
        (match last_index_of(cs@, c) {
            Some(i) => r == Some(i as usize),
            None => r is None,
        }),
        r matches Some(i) ==> is_last_index(cs@, c, i as int),
{
    let mut i: usize = cs.len();
    while i > 0
        invariant
            i <= cs.len(),
            forall|j: int| i <= j < cs.len() ==> cs@[j] != c,
        decreases i,
    {
        if cs[i - 1] == c {
            assert(cs@.contains(c));
            assert(is_last_index(cs@, c, i - 1));
            let ghost k = choose|k: int| is_last_index(cs@, c, k);
            assert(k == i - 1);
            return Some(i - 1);
        }
        i = i - 1;
    }
    None
}

/// Whether `needle` occurs anywhere in `cs`.
pub fn contains_chars(cs: &[char], needle: &[char]) -> (b: bool)
    ensures
        b == contains_seq(cs@, needle@),
{
    if needle.len() > cs.len() {
        assert(forall|at: int| !occurs_at(cs@, needle@, at));
        return false;
    }
    let limit = cs.len() - needle.len();
    let mut at: usize = 0;
    loop
        invariant
            needle.len() <= cs.len(),
            limit == cs.len() - needle.len(),
            at <= limit,
            forall|k: int| 0 <= k < at ==> !occurs_at(cs@, needle@, k),
        decreases limit - at,
    {
        assert(cs@.skip(at as int).take(needle.len() as int) =~= cs@.subrange(
            at as int,
            at + needle.len(),
        ));
        if has_prefix_at(cs, at, needle) {
            assert(occurs_at(cs@, needle@, at as int));
            return true;
        }
        if at == limit {
            assert forall|k: int| !occurs_at(cs@, needle@, k) by {
                if 0 <= k && k + needle.len() <= cs.len() {
                    assert(k <= at);
                }
            }
            return false;
        }
        at = at + 1;
    }
}

/// Whether `c` is Unicode whitespace.
pub fn char_is_whitespace(c: char) -> (b: bool)
    ensures
        b == is_whitespace(c),
{
    let u = c as u32;
    (0x09 <= u && u <= 0x0D) || u == 0x20 || u == 0x85 || u == 0xA0 || u == 0x1680 || (0x2000
        <= u && u <= 0x200A) || u == 0x2028 || u == 0x2029 || u == 0x202F || u == 0x205F || u
        == 0x3000
}

/// Whether any character of `cs[start..end]` is whitespace.
pub fn any_whitespace(cs: &[char]) -> (b: bool)
    ensures
        b == has_whitespace(cs@),
{
    let mut i: usize = 0;
    while i < cs.len()
        invariant
            i <= cs.len(),
            forall|j: int| 0 <= j < i ==> !is_whitespace(#[trigger] cs@[j]),
        decreases cs.len() - i,
    {
        if char_is_whitespace(cs[i]) {
            return true;
        }
        i = i + 1;
    }
    false
}

/// The UTF-8 width of one character.
pub fn char_len_utf8(c: char) -> (n: usize)
    ensures
        n == char_width(c),
{
    let u = c as u32;
    if u <= 0x7F {
        1
    } else if u <= 0x7FF {
        2
    } else if u <= 0xFFFF {
        3
    } else {
        4
    }
}

/// The UTF-16 width of one character.
pub fn char_len_utf16(c: char) -> (n: usize)
    ensures
        n == char_utf16(c),
{
    if (c as u32) >= 0x10000 {
        2
    } else {
        1
    }
}

} // verus!

verus! {

/// `i` is the position of the first whitespace character in `s`.
pub open spec fn is_first_whitespace(s: Seq<char>, i: int) -> bool {
    0 <= i < s.len() && is_whitespace(s[i]) && forall|j: int| 0 <= j < i ==> !is_whitespace(s[j])
}

/// Where the first whitespace character of `s` is.
pub open spec fn first_whitespace(s: Seq<char>) -> Option<int> {
    if has_whitespace(s) {
        Some(choose|i: int| is_first_whitespace(s, i))
    } else {
        None
    }
}

/// `n` is how many whitespace characters open `s`.
pub open spec fn is_leading_whitespace(s: Seq<char>, n: int) -> bool {
    0 <= n <= s.len() && (forall|j: int| 0 <= j < n ==> is_whitespace(s[j])) && (n == s.len()
        || !is_whitespace(s[n]))
}

/// How many whitespace characters open `s`.
pub open spec fn leading_whitespace(s: Seq<char>) -> int {
    choose|n: int| is_leading_whitespace(s, n)
}

/// `n` is how many whitespace characters close `s`.
pub open spec fn is_trailing_whitespace(s: Seq<char>, n: int) -> bool {
    0 <= n <= s.len() && (forall|j: int| s.len() - n <= j < s.len() ==> is_whitespace(s[j])) && (
    n == s.len() || !is_whitespace(s[s.len() - n - 1]))
}

/// How many whitespace characters close `s`.
pub open spec fn trailing_whitespace(s: Seq<char>) -> int {
    choose|n: int| is_trailing_whitespace(s, n)
}

/// `s` with whitespace removed from both ends, as `str::trim` leaves it.
pub open spec fn trim(s: Seq<char>) -> Seq<char> {
    let lead = leading_whitespace(s);
    if lead == s.len() {
        Seq::empty()
    } else {
        s.subrange(lead, s.len() - trailing_whitespace(s))
    }
}

/// The characters `cs[start..end]`.
pub fn sub_vec(cs: &[char], start: usize, end: usize) -> (v: Vec<char>)
    requires
        start <= end <= cs.len(),
    ensures
        v@ == cs@.subrange(start as int, end as int),
{
    let mut v: Vec<char> = Vec::new();
    let mut i: usize = start;
    while i < end
        invariant
            start <= i <= end <= cs.len(),
            v@ == cs@.subrange(start as int, i as int),
        decreases end - i,
    {
        v.push(cs[i]);
        i = i + 1;
        assert(cs@.subrange(start as int, i as int) =~= cs@.subrange(start as int, i - 1).push(
            cs@[i - 1],
        ));
    }
    v
}

/// The first whitespace character of `cs`.
pub fn find_whitespace(cs: &[char]) -> (r: Option<usize>)
    ensures
        (match first_whitespace(cs@) {
            Some(i) => r == Some(i as usize),
            None => r is None,
        }),
        r matches Some(i) ==> is_first_whitespace(cs@, i as int),
{
    let mut i: usize = 0;
    while i < cs.len()
        invariant
            i <= cs.len(),
            forall|j: int| 0 <= j < i ==> !is_whitespace(#[trigger] cs@[j]),
        decreases cs.len() - i,
    {
        if char_is_whitespace(cs[i]) {
            assert(is_first_whitespace(cs@, i as int));
            assert(has_whitespace(cs@));
            let ghost k = choose|k: int| is_first_whitespace(cs@, k);
            assert(k == i);
            return Some(i);
        }
        i = i + 1;
    }
    None
}

/// How many whitespace characters open `cs`.
pub fn count_leading_whitespace(cs: &[char]) -> (n: usize)
    ensures
        n == leading_whitespace(cs@),
        is_leading_whitespace(cs@, n as int),
{
    let mut i: usize = 0;
    while i < cs.len() && char_is_whitespace(cs[i])
        invariant
            i <= cs.len(),
            forall|j: int| 0 <= j < i ==> is_whitespace(#[trigger] cs@[j]),
        decreases cs.len() - i,
    {
        i = i + 1;
    }
    assert(is_leading_whitespace(cs@, i as int));
    let ghost k = choose|k: int| is_leading_whitespace(cs@, k);
    assert(k == i) by {
        if k < i {
            assert(is_whitespace(cs@[k]));
        } else if k > i {
            assert(is_whitespace(cs@[i as int]));
        }
    }
    i
}

/// How many whitespace characters close `cs`.
pub fn count_trailing_whitespace(cs: &[char]) -> (n: usize)
    ensures
        n == trailing_whitespace(cs@),
        is_trailing_whitespace(cs@, n as int),
{
    let mut i: usize = 0;
    while i < cs.len() && char_is_whitespace(cs[cs.len() - 1 - i])
        invariant
            i <= cs.len(),
            forall|j: int| cs.len() - i <= j < cs.len() ==> is_whitespace(#[trigger] cs@[j]),
        decreases cs.len() - i,
    {
        i = i + 1;
    }
    assert(is_trailing_whitespace(cs@, i as int));
    let ghost k = choose|k: int| is_trailing_whitespace(cs@, k);
    assert(k == i) by {
        if k < i {
            assert(is_whitespace(cs@[cs.len() - k - 1]));
        } else if k > i {
            assert(is_whitespace(cs@[cs.len() - i - 1]));
        }
    }
    i
}

/// `cs` with whitespace removed from both ends.
pub fn trim_chars(cs: &[char]) -> (v: Vec<char>)
    ensures
        v@ == trim(cs@),
{
    let lead = count_leading_whitespace(cs);
    if lead == cs.len() {
        return Vec::new();
    }
    let trail = count_trailing_whitespace(cs);
    assert(trail < cs.len() - lead) by {
        if trail >= cs.len() - lead {
            assert(is_whitespace(cs@[lead as int]));
        }
    }
    sub_vec(cs, lead, cs.len() - trail)
}

/// The UTF-8 byte length of `cs[..end]`.
pub fn byte_len_prefix(cs: &[char], end: usize) -> (n: usize)
    requires
        end <= cs.len(),
        byte_width(cs@) <= usize::MAX,
    ensures
        n == byte_width(cs@.take(end as int)),
{
    let mut n: usize = 0;
    let mut i: usize = 0;
    proof {
        assert(cs@.take(0) =~= Seq::<char>::empty());
    }
    while i < end
        invariant
            i <= end <= cs.len(),
            byte_width(cs@) <= usize::MAX,
            n == byte_width(cs@.take(i as int)),
        decreases end - i,
    {
        proof {
            lemma_byte_width_take(cs@, i as int);
            lemma_byte_width_prefix_le(cs@, i + 1);
        }
        n = n + char_len_utf8(cs[i]);
        i = i + 1;
    }
    n
}

/// A prefix is never wider than the whole.
pub proof fn lemma_byte_width_prefix_le(s: Seq<char>, i: int)
    requires
        0 <= i <= s.len(),
    ensures
        byte_width(s.take(i)) <= byte_width(s),
{
    assert(s =~= s.take(i) + s.skip(i));
    lemma_encode_utf8_add(s.take(i), s.skip(i));
}

/// The byte width of a `str` is its length.
pub proof fn lemma_str_byte_width(s: &str)
    ensures
        byte_width(s@) == s.spec_bytes().len(),
{
}

} // verus!

verus! {

/// A sequence's width is the width of its two halves.
pub proof fn lemma_byte_width_split(s: Seq<char>, k: int)
    requires
        0 <= k <= s.len(),
    ensures
        byte_width(s) == byte_width(s.take(k)) + byte_width(s.skip(k)),
{
    assert(s =~= s.take(k) + s.skip(k));
    lemma_encode_utf8_add(s.take(k), s.skip(k));
}

/// One character's width as a sequence.
pub proof fn lemma_byte_width_single(c: char)
    ensures
        byte_width(seq![c]) == char_width(c),
        char_width(c) >= 1,
{
    lemma_byte_width_push(Seq::<char>::empty(), c);
    assert(Seq::<char>::empty().push(c) =~= seq![c]);
    assert(encode_utf8(Seq::<char>::empty()) =~= Seq::<u8>::empty());
}

} // verus!

verus! {

/// An optional string's characters.
pub open spec fn opt_chars(s: Option<String>) -> Option<Seq<char>> {
    match s {
        Some(s) => Some(s@),
        None => None,
    }
}

/// Whether two strings are equal.
pub fn str_eq(a: &str, b: &str) -> (r: bool)
    ensures
        r == (a@ == b@),
{
    same_chars(&chars_of(a), &chars_of(b))
}

/// Whether `s` opens with `prefix`.
pub fn str_starts_with(s: &str, prefix: &str) -> (r: bool)
    ensures
        r == starts_with(s@, prefix@),
{
    has_prefix(&chars_of(s), &chars_of(prefix))
}

/// Whether `s` closes with `suffix`.
pub fn str_ends_with(s: &str, suffix: &str) -> (r: bool)
    ensures
        r == ends_with(s@, suffix@),
{
    has_suffix(&chars_of(s), &chars_of(suffix))
}

/// Every backslash of `s` turned into a forward slash.
pub open spec fn forward_slashes(s: Seq<char>) -> Seq<char> {
    s.map_values(|c: char| if c == '\\' { '/' } else { c })
}

/// `s` with every backslash turned into a forward slash, as
/// `str::replace('\\', "/")` leaves it.
pub fn to_forward_slashes(s: &str) -> (r: String)
    ensures
        r@ == forward_slashes(s@),
{
    let cs = chars_of(s);
    let mut out: Vec<char> = Vec::new();
    let mut i: usize = 0;
    while i < cs.len()
        invariant
            i <= cs.len(),
            cs@ == s@,
            out@ == forward_slashes(cs@.take(i as int)),
        decreases cs.len() - i,
    {
        let c = cs[i];
        if c == '\\' {
            out.push('/');
        } else {
            out.push(c);
        }
        i = i + 1;
        assert(forward_slashes(cs@.take(i as int)) =~= forward_slashes(cs@.take(i - 1)).push(
            if c == '\\' { '/' } else { c },
        ));
    }
    assert(cs@.take(cs.len() as int) =~= cs@);
    string_of(&out)
}

} // verus!

verus! {

/// `a` sorts before `b` by character code, a proper prefix first, as the
/// bytes of UTF-8 strings sort.
pub open spec fn text_less(a: Seq<char>, b: Seq<char>) -> bool
    decreases a.len(),
{
    if a.len() == 0 {
        b.len() > 0
    } else if b.len() == 0 {
        false
    } else if a[0] != b[0] {
        a[0] < b[0]
    } else {
        text_less(a.drop_first(), b.drop_first())
    }
}

/// Two texts are equal or one sorts before the other, and never both ways.
pub proof fn lemma_text_less_total(a: Seq<char>, b: Seq<char>)
    ensures
        !(text_less(a, b) && text_less(b, a)),
        a != b ==> text_less(a, b) || text_less(b, a),
        !text_less(a, a),
    decreases a.len(),
{
    if a.len() > 0 && b.len() > 0 {
        lemma_text_less_total(a.drop_first(), b.drop_first());
        lemma_text_less_total(a.drop_first(), a.drop_first());
        if a[0] == b[0] && a.drop_first() == b.drop_first() {
            assert(a =~= seq![a[0]] + a.drop_first());
            assert(b =~= seq![b[0]] + b.drop_first());
        }
    } else if a.len() > 0 {
        lemma_text_less_total(a.drop_first(), a.drop_first());
    } else if b.len() == 0 {
        assert(a =~= b);
    }
}

/// Whether `a` sorts before `b`.
pub fn chars_less(a: &[char], b: &[char]) -> (r: bool)
    ensures
        r == text_less(a@, b@),
{
    let mut i: usize = 0;
    assert(a@.skip(0) =~= a@);
    assert(b@.skip(0) =~= b@);
    while i < a.len() && i < b.len()
        invariant
            i <= a@.len(),
            i <= b@.len(),
            text_less(a@, b@) == text_less(a@.skip(i as int), b@.skip(i as int)),
        decreases a@.len() - i,
    {
        assert(a@.skip(i as int)[0] == a@[i as int]);
        assert(b@.skip(i as int)[0] == b@[i as int]);
        if a[i] != b[i] {
            return a[i] < b[i];
        }
        assert(a@.skip(i as int).drop_first() =~= a@.skip(i + 1));
        assert(b@.skip(i as int).drop_first() =~= b@.skip(i + 1));
        i = i + 1;
    }
    a.len() < b.len()
}

/// `x` in its place among the sorted texts `r`, unless `r` holds it.
pub open spec fn insert_sorted(r: Seq<Seq<char>>, x: Seq<char>) -> Seq<Seq<char>>
    decreases r.len(),
{
    if r.len() == 0 {
        seq![x]
    } else if r[0] == x {
        r
    } else if text_less(x, r[0]) {
        seq![x] + r
    } else {
        seq![r[0]] + insert_sorted(r.drop_first(), x)
    }
}

/// The distinct texts of `s` in sorted order, as inserting them one by one
/// in their place makes them.
pub open spec fn sorted_distinct(s: Seq<Seq<char>>) -> Seq<Seq<char>>
    decreases s.len(),
{
    if s.len() == 0 {
        Seq::empty()
    } else {
        insert_sorted(sorted_distinct(s.drop_last()), s.last())
    }
}

/// Inserting where the first text that does not sort before `x` stands.
proof fn lemma_insert_at(r: Seq<Seq<char>>, x: Seq<char>, p: int)
    requires
        0 <= p <= r.len(),
        forall|j: int| 0 <= j < p ==> text_less(#[trigger] r[j], x),
        p < r.len() ==> !text_less(r[p], x),
    ensures
        insert_sorted(r, x) == if p < r.len() && r[p] == x {
            r
        } else {
            r.take(p) + seq![x] + r.skip(p)
        },
    decreases p,
{
    if p == 0 {
        if r.len() > 0 {
            lemma_text_less_total(x, r[0]);
            assert(r.skip(0) =~= r);
            assert(r.take(0) + seq![x] + r.skip(0) =~= seq![x] + r);
        } else {
            assert(r.take(0) + seq![x] + r.skip(0) =~= seq![x]);
        }
    } else {
        lemma_text_less_total(r[0], x);
        assert forall|j: int| 0 <= j < p - 1 implies text_less(#[trigger] r.drop_first()[j], x) by {
            assert(r.drop_first()[j] == r[j + 1]);
        }
        if p < r.len() {
            assert(r.drop_first()[p - 1] == r[p]);
        }
        lemma_insert_at(r.drop_first(), x, p - 1);
        if p < r.len() && r[p] == x {
            assert(seq![r[0]] + r.drop_first() =~= r);
        } else {
            assert(seq![r[0]] + (r.drop_first().take(p - 1) + seq![x] + r.drop_first().skip(p - 1))
                =~= r.take(p) + seq![x] + r.skip(p));
        }
    }
}

/// The distinct strings of `v` in byte order.
pub fn sort_distinct(v: Vec<String>) -> (sorted: Vec<String>)
    ensures
        crate::paths::texts(sorted@) == sorted_distinct(crate::paths::texts(v@)),
{
    let ghost all = crate::paths::texts(v@);
    let mut out: Vec<String> = Vec::new();
    let mut i: usize = 0;
    assert(all.take(0) =~= Seq::<Seq<char>>::empty());
    assert(crate::paths::texts(out@) =~= Seq::<Seq<char>>::empty());
    while i < v.len()
        invariant
            i <= v@.len(),
            all == crate::paths::texts(v@),
            crate::paths::texts(out@) == sorted_distinct(all.take(i as int)),
        decreases v@.len() - i,
    {
        let x = chars_of(v[i].as_str());
        let ghost r = crate::paths::texts(out@);
        let mut p: usize = 0;
        while p < out.len() && chars_less(&chars_of(out[p].as_str()), &x)
            invariant
                p <= out@.len(),
                r == crate::paths::texts(out@),
                x@ == all[i as int],
                forall|j: int| 0 <= j < p ==> text_less(#[trigger] r[j], x@),
            decreases out@.len() - p,
        {
            p = p + 1;
        }
        proof {
            lemma_insert_at(r, x@, p as int);
            assert(all.take(i + 1).drop_last() =~= all.take(i as int));
            assert(all.take(i + 1).last() == all[i as int]);
        }
        let present = p < out.len() && str_eq(out[p].as_str(), v[i].as_str());
        if !present {
            let ghost before = out@;
            out.insert(p, v[i].clone());
            assert(crate::paths::texts(out@) =~= r.take(p as int) + seq![x@] + r.skip(p as int)) by {
                assert(out@ =~= before.insert(p as int, out@[p as int]));
            }
        }
        i = i + 1;
    }
    assert(all.take(v@.len() as int) =~= all);
    out
}

} // verus!
