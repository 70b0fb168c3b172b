//! Byte offsets and line/column positions.
//!
//! Columns are counted in UTF-16 code units, which is what LSP means by a
//! character. Offsets are bytes of the UTF-8 text: a byte that continues a
//! character occupies no column, the first byte of a four-byte character
//! opens two units (a surrogate pair), and every other byte one.

use vstd::prelude::*;
use vstd::utf8::encode_utf8;
use vstd::string::StringSliceAdditionalSpecFns;
use crate::text::{char_len_utf16, utf16_width, lemma_utf16_width_take};

verus! {

/// A byte that continues a UTF-8 sequence rather than opening one.
pub open spec fn is_continuation(b: u8) -> bool {
    0x80 <= b && b < 0xC0
}

/// The UTF-16 units a byte opens.
pub open spec fn unit_width(b: u8) -> nat {
    if is_continuation(b) {
        0
    } else if b >= 0xF0 {
        2
    } else {
        1
    }
}

/// The UTF-16 units in a run of UTF-8 bytes.
pub open spec fn units(bs: Seq<u8>) -> nat
    decreases bs.len(),
{
    if bs.len() == 0 {
        0
    } else {
        units(bs.drop_last()) + unit_width(bs.last())
    }
}

/// Whether `i` is a character boundary of `bs`, as `str::is_char_boundary`
/// decides it: the start, the end, or a byte that opens a character.
pub open spec fn is_boundary(bs: Seq<u8>, i: int) -> bool {
    i == 0 || i == bs.len() || (0 < i < bs.len() && !is_continuation(bs[i]))
}

/// The start of every line of `bs[..end]`: zero, and one past each newline.
pub open spec fn line_starts(bs: Seq<u8>, end: nat) -> Seq<int>
    decreases end,
{
    if end == 0 {
        seq![0]
    } else if bs[end - 1] == 10 {
        line_starts(bs, (end - 1) as nat).push(end as int)
    } else {
        line_starts(bs, (end - 1) as nat)
    }
}

/// The line holding `offset`: the last line starting at or before it.
pub open spec fn is_line_of(starts: Seq<int>, offset: int, k: int) -> bool {
    0 <= k < starts.len() && starts[k] <= offset && (k + 1 == starts.len() || offset < starts[k
        + 1])
}

/// The line holding `offset`.
pub open spec fn line_of(starts: Seq<int>, offset: int) -> int {
    choose|k: int| is_line_of(starts, offset, k)
}

/// Where a line's text ends: before its newline, and before a carriage
/// return that precedes it.
pub open spec fn line_text_end(bs: Seq<u8>, start: int, end: int) -> int {
    let e1 = if end > start && bs[end - 1] == 10 {
        end - 1
    } else {
        end
    };
    if e1 > start && bs[e1 - 1] == 13 {
        e1 - 1
    } else {
        e1
    }
}

/// `j` is where a character opens whose units end past column `target`,
/// the first such in `bs[start..end]`.
pub open spec fn is_column_hit(bs: Seq<u8>, start: int, end: int, target: int, j: int) -> bool {
    start <= j < end && !is_continuation(bs[j]) && units(bs.subrange(start, j)) + unit_width(bs[j])
        > target && forall|i: int|
        start <= i < j && !is_continuation(bs[i]) ==> units(bs.subrange(start, i)) + unit_width(
            bs[i],
        ) <= target
}

/// The byte offset of UTF-16 column `target` in `bs[start..end]`: the
/// character the column falls in, or the end when it lies past them all.
pub open spec fn column_offset(bs: Seq<u8>, start: int, end: int, target: int) -> int {
    if exists|j: int| is_column_hit(bs, start, end, target, j) {
        choose|j: int| is_column_hit(bs, start, end, target, j)
    } else {
        end
    }
}

/// Line starts open at zero, rise strictly, and stay within the text.
pub proof fn lemma_line_starts(bs: Seq<u8>, end: nat)
    requires
        end <= bs.len(),
    ensures
        line_starts(bs, end).len() >= 1,
        line_starts(bs, end)[0] == 0,
        forall|i: int, j: int|
            0 <= i < j < line_starts(bs, end).len() ==> line_starts(bs, end)[i] < line_starts(
                bs,
                end,
            )[j],
        forall|k: int|
            0 <= k < line_starts(bs, end).len() ==> 0 <= #[trigger] line_starts(bs, end)[k] <= end,
        line_starts(bs, end).len() <= end + 1,
        forall|k: int|
            0 < k < line_starts(bs, end).len() ==> bs[#[trigger] line_starts(bs, end)[k] - 1] == 10,
    decreases end,
{
    if end > 0 {
        lemma_line_starts(bs, (end - 1) as nat);
    }
}

/// A character whose units pass the column, with none before it doing so,
/// is where the column falls.
pub proof fn lemma_column_hit(bs: Seq<u8>, start: int, end: int, target: int, j: int)
    requires
        start <= j < end <= bs.len(),
        !is_continuation(bs[j]),
        units(bs.subrange(start, j)) + unit_width(bs[j]) > target,
        forall|i: int|
            start <= i < j && !is_continuation(bs[i]) ==> units(bs.subrange(start, i))
                + unit_width(bs[i]) <= target,
    ensures
        column_offset(bs, start, end, target) == j,
{
    assert(is_column_hit(bs, start, end, target, j));
    let k = choose|k: int| is_column_hit(bs, start, end, target, k);
    assert(is_column_hit(bs, start, end, target, k));
    if k < j {
        assert(units(bs.subrange(start, k)) + unit_width(bs[k]) <= target);
    } else if k > j {
        assert(units(bs.subrange(start, j)) + unit_width(bs[j]) <= target);
    }
}

/// No character passes the column in `bs[start..end]`.
pub proof fn lemma_column_miss(bs: Seq<u8>, start: int, end: int, target: int)
    requires
        start <= end <= bs.len(),
        forall|i: int|
            start <= i < end && !is_continuation(bs[i]) ==> units(bs.subrange(start, i))
                + unit_width(bs[i]) <= target,
    ensures
        column_offset(bs, start, end, target) == end,
{
    assert(!exists|k: int| is_column_hit(bs, start, end, target, k));
}

/// The byte offset of UTF-16 column `target` in `bytes[start..end]`.
fn scan_column(bytes: &[u8], start: usize, end: usize, target: usize) -> (offset: usize)
    requires
        start <= end <= bytes@.len(),
    ensures
        offset == column_offset(bytes@, start as int, end as int, target as int),
{
    let ghost bs = bytes@;
    let mut column: u128 = 0;
    let mut j: usize = start;
    assert(bs.subrange(start as int, start as int) =~= Seq::<u8>::empty());
    while j < end
        invariant
            start <= j <= end <= bs.len(),
            bytes@ == bs,
            column == units(bs.subrange(start as int, j as int)),
            column <= 2 * (j - start),
            forall|i: int|
                start <= i < j && !is_continuation(bs[i]) ==> #[trigger] units(
                    bs.subrange(start as int, i),
                ) + unit_width(bs[i]) <= target,
        decreases end - j,
    {
        proof {
            lemma_units_extend(bs, start as int, j as int);
        }
        let b = bytes[j];
        if !(0x80 <= b && b < 0xC0) {
            let w: u128 = if b >= 0xF0 {
                2
            } else {
                1
            };
            if (target as u128) < column + w {
                proof {
                    lemma_column_hit(bs, start as int, end as int, target as int, j as int);
                }
                return j;
            }
            column = column + w;
        }
        j = j + 1;
    }
    proof {
        lemma_column_miss(bs, start as int, end as int, target as int);
    }
    end
}

/// The units of a run grow one byte at a time.
pub proof fn lemma_units_extend(bs: Seq<u8>, start: int, j: int)
    requires
        0 <= start <= j < bs.len(),
    ensures
        units(bs.subrange(start, j + 1)) == units(bs.subrange(start, j)) + unit_width(bs[j]),
{
    assert(bs.subrange(start, j + 1).drop_last() =~= bs.subrange(start, j));
}

/// Some line holds every offset past the start.
pub proof fn lemma_line_of(starts: Seq<int>, off: int)
    requires
        starts.len() >= 1,
        starts[0] == 0,
        0 <= off,
    ensures
        is_line_of(starts, off, line_of(starts, off)),
    decreases starts.len(),
{
    if starts.last() <= off {
        assert(is_line_of(starts, off, starts.len() - 1));
    } else {
        let shorter = starts.drop_last();
        lemma_line_of(shorter, off);
        let k = line_of(shorter, off);
        assert(is_line_of(shorter, off, k));
        assert(is_line_of(starts, off, k));
    }
}

/// In valid UTF-8, a byte that opens a four-byte character is followed by
/// a byte that continues it.
pub proof fn lemma_after_wide_lead(bytes: Seq<u8>, p: int)
    requires
        vstd::utf8::valid_utf8(bytes),
        0 <= p < bytes.len(),
        bytes[p] >= 0xF0,
    ensures
        p + 1 < bytes.len(),
        is_continuation(bytes[p + 1]),
    decreases bytes.len(),
{
    let n = vstd::utf8::length_of_first_scalar(bytes);
    let rest = vstd::utf8::pop_first_scalar(bytes);
    assert(rest.len() == bytes.len() - n);
    if p < n {
        if p >= 1 {
            assert(is_continuation(bytes[p]));
        }
        assert(p == 0);
        assert(n == 4);
    } else {
        assert(rest[p - n] == bytes[p]);
        lemma_after_wide_lead(rest, p - n);
        assert(rest[p - n + 1] == bytes[p + 1]);
    }
}

/// A run of valid UTF-8 counts at most one unit a byte, plus one when its
/// last byte opens a four-byte character.
pub proof fn lemma_units_by_bytes(bs: Seq<u8>, s: int, b: int)
    requires
        vstd::utf8::valid_utf8(bs),
        0 <= s <= b <= bs.len(),
    ensures
        units(bs.subrange(s, b)) <= (b - s) + (if b > s && bs[b - 1] >= 0xF0 {
            1int
        } else {
            0int
        }),
    decreases b - s,
{
    if b > s {
        lemma_units_by_bytes(bs, s, b - 1);
        lemma_units_extend(bs, s, b - 1);
        if b - 1 > s && bs[b - 2] >= 0xF0 {
            lemma_after_wide_lead(bs, b - 2);
        }
    } else {
        assert(bs.subrange(s, b).len() == 0);
    }
}

/// A run of valid UTF-8 that ends at a character boundary counts at most
/// one unit a byte.
pub proof fn lemma_units_within_bytes(bs: Seq<u8>, s: int, b: int)
    requires
        vstd::utf8::valid_utf8(bs),
        0 <= s <= b <= bs.len(),
        is_boundary(bs, b),
    ensures
        units(bs.subrange(s, b)) <= b - s,
{
    lemma_units_by_bytes(bs, s, b);
    if b > s && bs[b - 1] >= 0xF0 {
        lemma_after_wide_lead(bs, b - 1);
    }
}

/// A run's units never shrink as it grows.
pub proof fn lemma_units_monotone(bs: Seq<u8>, s: int, a: int, b: int)
    requires
        0 <= s <= a <= b <= bs.len(),
    ensures
        units(bs.subrange(s, a)) <= units(bs.subrange(s, b)),
    decreases b - a,
{
    if a < b {
        lemma_units_monotone(bs, s, a, b - 1);
        lemma_units_extend(bs, s, b - 1);
    }
}

/// Two character boundaries on one line have their columns in their
/// order, in a text short enough that no column wraps.
pub proof fn lemma_columns_ordered(bs: Seq<u8>, a: int, b: int)
    requires
        0 <= a <= b <= bs.len() <= u32::MAX,
        vstd::utf8::valid_utf8(bs),
        is_boundary(bs, a),
        is_boundary(bs, b),
        text_position(bs, a).0 == text_position(bs, b).0,
    ensures
        text_position(bs, a).1 <= text_position(bs, b).1,
{
    let starts = line_starts(bs, bs.len());
    lemma_line_starts(bs, bs.len());
    lemma_line_of(starts, a);
    lemma_line_of(starts, b);
    let ka = line_of(starts, a);
    let kb = line_of(starts, b);
    assert(ka == kb);
    let s = starts[ka];
    lemma_units_monotone(bs, s, a, b);
    lemma_units_within_bytes(bs, s, b);
}

/// Offsets with no newline between them lie on one line, the later one
/// at the same column or past it when it ends a character.
pub proof fn lemma_one_line(bs: Seq<u8>, a: int, b: int)
    requires
        0 <= a <= b <= bs.len() <= u32::MAX,
        vstd::utf8::valid_utf8(bs),
        forall|i: int| a <= i < b ==> bs[i] != 10,
        is_boundary(bs, b),
    ensures
        text_position(bs, a).0 == text_position(bs, b).0,
        text_position(bs, a).1 <= text_position(bs, b).1,
{
    let starts = line_starts(bs, bs.len());
    lemma_line_starts(bs, bs.len());
    lemma_line_of(starts, a);
    lemma_line_of(starts, b);
    let ka = line_of(starts, a);
    let kb = line_of(starts, b);
    if ka < kb {
        let p = starts[ka + 1];
        assert(a < p <= b);
        assert(bs[p - 1] == 10);
    } else if ka > kb {
        assert(starts[kb + 1] <= starts[ka]);
    }
    assert(ka == kb);
    let s = starts[ka];
    lemma_units_monotone(bs, s, a, b);
    lemma_units_within_bytes(bs, s, b);
}

/// In valid UTF-8, the byte after an ASCII byte opens a character.
pub proof fn lemma_after_ascii(bytes: Seq<u8>, p: int)
    requires
        vstd::utf8::valid_utf8(bytes),
        0 < p < bytes.len(),
        bytes[p - 1] < 0x80,
    ensures
        !is_continuation(bytes[p]),
    decreases bytes.len(),
{
    let n = vstd::utf8::length_of_first_scalar(bytes);
    let rest = vstd::utf8::pop_first_scalar(bytes);
    assert(rest.len() == bytes.len() - n);
    if p < n {
        if p - 1 >= 1 {
            assert(bytes[p - 1] >= 0x80);
        }
    } else if p == n {
        assert(rest[0] == bytes[p]);
        assert(vstd::utf8::valid_utf8(rest));
        assert(rest.len() > 0);
        reveal_with_fuel(vstd::utf8::valid_utf8, 2);
        assert(vstd::utf8::valid_first_scalar(rest));
    } else {
        assert(rest[p - n] == bytes[p]);
        assert(rest[p - n - 1] == bytes[p - 1]);
        lemma_after_ascii(rest, p - n);
    }
}

/// Where the text of the line holding byte `offset` ends: before its
/// newline and any carriage return.
pub open spec fn text_end_of(bs: Seq<u8>, offset: int) -> int {
    let starts = line_starts(bs, bs.len());
    let k = line_of(starts, offset);
    let end = if k + 1 < starts.len() {
        starts[k + 1]
    } else {
        bs.len() as int
    };
    line_text_end(bs, starts[k], end)
}

/// An offset and a position name one another: the position of a byte
/// offset that opens a character (or ends the text), within its line's
/// text, leads back to that offset.
pub proof fn position_and_offset_round_trip(text: Seq<char>, offset: int)
    requires
        0 <= offset <= encode_utf8(text).len(),
        encode_utf8(text).len() <= u32::MAX,
        is_boundary(encode_utf8(text), offset),
        offset <= text_end_of(encode_utf8(text), offset),
    ensures
        text_offset(
            encode_utf8(text),
            text_position(encode_utf8(text), offset).0,
            text_position(encode_utf8(text), offset).1,
        ) == offset,
{
    let bs = encode_utf8(text);
    vstd::utf8::encode_utf8_valid_utf8(text);
    let starts = line_starts(bs, bs.len());
    lemma_line_starts(bs, bs.len());
    lemma_line_of(starts, offset);
    let k = line_of(starts, offset);
    let start = starts[k];
    let end = if k + 1 < starts.len() {
        starts[k + 1]
    } else {
        bs.len() as int
    };
    let e = line_text_end(bs, start, end);
    assert(is_boundary(bs, start)) by {
        if 0 < start < bs.len() {
            assert(k > 0);
            assert(bs[start - 1] == 10);
            lemma_after_ascii(bs, start);
        }
    }
    let target: int = units(bs.subrange(start, offset)) as int;
    lemma_units_within_bytes(bs, start, offset);
    assert(text_position(bs, offset) == (k as u32, target as u32));
    assert(e <= end);
    assert forall|i: int| start <= i < offset && !is_continuation(bs[i]) implies units(bs.subrange(start, i))
        + unit_width(bs[i]) <= target by {
        lemma_units_extend(bs, start, i);
        lemma_units_monotone(bs, start, i + 1, offset);
    }
    if offset < e {
        assert(!is_continuation(bs[offset]));
        assert(is_column_hit(bs, start, e, target, offset)) by {
            assert forall|i: int| start <= i < offset && !is_continuation(bs[i]) implies units(
                bs.subrange(start, i),
            ) + unit_width(bs[i]) <= target by {
                lemma_units_extend(bs, start, i);
                lemma_units_monotone(bs, start, i + 1, offset);
            }
        }
        lemma_column_hit(bs, start, e, target, offset);
    } else {
        lemma_column_miss(bs, start, e, target);
    }
}

/// The width of a string in UTF-16 code units, truncated to `u32`.
pub fn utf16_len(text: &str) -> (n: u32)
    ensures
        n == utf16_width(text@) as u32,
{
    let cs = crate::text::chars_of(text);
    let mut total: u128 = 0;
    let mut i: usize = 0;
    while i < cs.len()
        invariant
            cs@ == text@,
            i <= cs.len(),
            total == utf16_width(cs@.take(i as int)),
            total <= 2 * i,
        decreases cs.len() - i,
    {
        proof {
            lemma_utf16_width_take(cs@, i as int);
        }
        total = total + char_len_utf16(cs[i]) as u128;
        i = i + 1;
    }
    proof {
        assert(cs@.take(cs.len() as int) =~= cs@);
    }
    #[verifier::truncate]
    (total as u32)
}

/// The zero-based line and UTF-16 column of byte `offset` of a text, as
/// [`LineIndex::position`] finds them.
pub open spec fn text_position(bs: Seq<u8>, offset: int) -> (u32, u32) {
    let starts = line_starts(bs, bs.len());
    let off = if 0 <= offset <= bs.len() {
        offset
    } else {
        bs.len() as int
    };
    let k = line_of(starts, off);
    let start = starts[k];
    (
        k as u32,
        (if is_boundary(bs, start) && is_boundary(bs, off) {
            units(bs.subrange(start, off))
        } else {
            0
        }) as u32,
    )
}

/// The byte offset of a zero-based line and UTF-16 column of a text, as
/// [`LineIndex::offset`] finds it.
pub open spec fn text_offset(bs: Seq<u8>, line: u32, character: u32) -> int {
    let starts = line_starts(bs, bs.len());
    if line >= starts.len() {
        bs.len() as int
    } else {
        let start = starts[line as int];
        let end = if line + 1 < starts.len() {
            starts[line + 1]
        } else {
            bs.len() as int
        };
        column_offset(bs, start, line_text_end(bs, start, end), character as int)
    }
}

/// Line starts for one document, so a position costs a binary search rather
/// than a scan from the top of the file.
pub struct LineIndex {
    /// Byte offset of the start of each line.
    starts: Vec<usize>,
}

impl LineIndex {
    /// The line starts, as integers.
    pub closed spec fn starts(&self) -> Seq<int> {
        self.starts@.map_values(|s: usize| s as int)
    }

    /// This index was built from a text holding `chars`.
    pub open spec fn indexes_chars(&self, chars: Seq<char>) -> bool {
        self.starts() == line_starts(encode_utf8(chars), encode_utf8(chars).len())
    }

    /// This index was built from `text`.
    pub open spec fn indexes(&self, text: &str) -> bool {
        self.starts() == line_starts(text.spec_bytes(), text.spec_bytes().len())
    }

    pub fn new(text: &str) -> (index: Self)
        ensures
            index.indexes(text),
    {
        let bytes = text.as_bytes();
        let mut starts: Vec<usize> = Vec::new();
        starts.push(0);
        let mut i: usize = 0;
        assert(starts@.map_values(|s: usize| s as int) =~= seq![0int]);
        while i < bytes.len()
            invariant
                i <= bytes@.len(),
                bytes@ == text.spec_bytes(),
                starts@.map_values(|s: usize| s as int) == line_starts(bytes@, i as nat),
            decreases bytes@.len() - i,
        {
            let ghost before = starts@;
            if bytes[i] == 10 {
                starts.push(i + 1);
                assert(starts@.map_values(|s: usize| s as int) =~= before.map_values(
                    |s: usize| s as int,
                ).push(i + 1));
            }
            i = i + 1;
        }
        LineIndex { starts }
    }
}


impl LineIndex {
    /// The zero-based line and UTF-16 column of a byte offset. An offset past
    /// the end counts as the end; one inside a character is column zero, as
    /// the slice up to it is no string.
    pub fn position(&self, text: &str, offset: usize) -> (position: (u32, u32))
        requires
            self.indexes(text),
        ensures
            position == text_position(text.spec_bytes(), offset as int),
            ({
                let bs = text.spec_bytes();
                let off = if offset <= bs.len() {
                    offset as int
                } else {
                    bs.len() as int
                };
                let k = line_of(self.starts(), off);
                let start = self.starts()[k];
                &&& position.0 == k as u32
                &&& position.1 == (if is_boundary(bs, start) && is_boundary(bs, off) {
                    units(bs.subrange(start, off))
                } else {
                    0
                }) as u32
            }),
    {
        let bytes = text.as_bytes();
        let ghost bs = bytes@;
        let off = if offset <= bytes.len() {
            offset
        } else {
            bytes.len()
        };
        proof {
            lemma_line_starts(bs, bs.len());
        }
        let ghost starts = self.starts();
        assert(starts.len() == self.starts@.len());
        assert(forall|k: int| 0 <= k < starts.len() ==> starts[k] == self.starts@[k] as int);
        // The first line starting after `off`.
        let mut lo: usize = 0;
        let mut hi: usize = self.starts.len();
        while lo < hi
            invariant
                0 <= lo <= hi <= self.starts@.len(),
                starts == self.starts(),
                starts.len() == self.starts@.len(),
                forall|k: int| 0 <= k < starts.len() ==> starts[k] == self.starts@[k] as int,
                forall|i: int, j: int| 0 <= i < j < starts.len() ==> starts[i] < starts[j],
                forall|k: int| 0 <= k < lo ==> starts[k] <= off,
                forall|k: int| hi <= k < starts.len() ==> starts[k] > off,
            decreases hi - lo,
        {
            let mid = lo + (hi - lo) / 2;
            if self.starts[mid] <= off {
                assert forall|k: int| 0 <= k < mid + 1 implies starts[k] <= off by {
                    if k < mid {
                        assert(starts[k] < starts[mid as int]);
                    }
                }
                lo = mid + 1;
            } else {
                assert forall|k: int| mid <= k < starts.len() implies starts[k] > off by {
                    if k > mid {
                        assert(starts[mid as int] < starts[k]);
                    }
                }
                hi = mid;
            }
        }
        assert(starts[0] == 0);
        assert(lo >= 1);
        let line = lo - 1;
        assert(is_line_of(starts, off as int, line as int));
        proof {
            let k = line_of(starts, off as int);
            assert(is_line_of(starts, off as int, k));
            if k < line {
                assert(starts[k + 1] <= starts[line as int]);
            } else if k > line {
                assert(starts[line + 1] <= starts[k]);
            }
        }
        let start = self.starts[line];
        let start_boundary = start == 0 || start == bytes.len() || (start < bytes.len() && !(0x80
            <= bytes[start] && bytes[start] < 0xC0));
        let off_boundary = off == 0 || off == bytes.len() || (off < bytes.len() && !(0x80
            <= bytes[off] && bytes[off] < 0xC0));
        let mut column: u128 = 0;
        if start_boundary && off_boundary {
            let mut j: usize = start;
            assert(bs.subrange(start as int, start as int) =~= Seq::<u8>::empty());
            while j < off
                invariant
                    start <= j <= off <= bs.len(),
                    bytes@ == bs,
                    column == units(bs.subrange(start as int, j as int)),
                    column <= 2 * (j - start),
                decreases off - j,
            {
                proof {
                    lemma_units_extend(bs, start as int, j as int);
                }
                let b = bytes[j];
                if 0x80 <= b && b < 0xC0 {
                } else if b >= 0xF0 {
                    column = column + 2;
                } else {
                    column = column + 1;
                }
                j = j + 1;
            }
        }
        (#[verifier::truncate] (line as u32), #[verifier::truncate] (column as u32))
    }

    /// The byte offset of a zero-based line and UTF-16 column.
    ///
    /// A line past the last is the end of the text. A column past the end of
    /// its line clamps to the line's end, before its newline and any carriage
    /// return; a column inside a surrogate pair rounds down to the start of
    /// that character.
    pub fn offset(&self, text: &str, line: u32, character: u32) -> (offset: usize)
        requires
            self.indexes(text),
        ensures
            offset == text_offset(text.spec_bytes(), line, character),
            ({
                let bs = text.spec_bytes();
                let starts = self.starts();
                if line >= starts.len() {
                    offset == bs.len()
                } else {
                    let start = starts[line as int];
                    let end = if line + 1 < starts.len() {
                        starts[line + 1]
                    } else {
                        bs.len() as int
                    };
                    offset == column_offset(
                        bs,
                        start,
                        line_text_end(bs, start, end),
                        character as int,
                    )
                }
            }),
    {
        let bytes = text.as_bytes();
        let ghost bs = bytes@;
        proof {
            lemma_line_starts(bs, bs.len());
        }
        let ghost starts = self.starts();
        assert(starts.len() == self.starts@.len());
        assert(forall|k: int| 0 <= k < starts.len() ==> starts[k] == self.starts@[k] as int);
        let line = line as usize;
        if line >= self.starts.len() {
            return bytes.len();
        }
        let start = self.starts[line];
        let end = if line + 1 < self.starts.len() {
            self.starts[line + 1]
        } else {
            bytes.len()
        };
        assert(start <= end <= bytes@.len()) by {
            if line + 1 < starts.len() {
                assert(starts[line as int] < starts[line + 1]);
                assert(starts == line_starts(bs, bs.len()));
                assert(line_starts(bs, bs.len())[line + 1] <= bs.len());
            } else {
                assert(starts == line_starts(bs, bs.len()));
                assert(line_starts(bs, bs.len())[line as int] <= bs.len());
            }
        }
        let e1 = if end > start && bytes[end - 1] == 10 {
            end - 1
        } else {
            end
        };
        let e = if e1 > start && bytes[e1 - 1] == 13 {
            e1 - 1
        } else {
            e1
        };
        assert(e == line_text_end(bs, start as int, end as int));
        scan_column(bytes, start, e, character as usize)
    }
}

} // verus!

verus! {

/// The offset of any line and column lies on a character boundary within
/// the text: where a character opens, before a line's newline or carriage
/// return, or at the end.
pub proof fn lemma_text_offset_on_a_boundary(bs: Seq<u8>, line: u32, character: u32)
    requires
        vstd::utf8::valid_utf8(bs),
    ensures
        0 <= text_offset(bs, line, character) <= bs.len(),
        is_boundary(bs, text_offset(bs, line, character)),
{
    let starts = line_starts(bs, bs.len());
    lemma_line_starts(bs, bs.len());
    if line < starts.len() {
        let start = starts[line as int];
        let end = if line + 1 < starts.len() {
            starts[line + 1]
        } else {
            bs.len() as int
        };
        if line + 1 < starts.len() {
            assert(start < end);
            assert(bs[end - 1] == 10);
        }
        let e = line_text_end(bs, start, end);
        assert(start <= e <= end <= bs.len());
        assert(is_boundary(bs, e)) by {
            if e < bs.len() {
                let e1 = if end > start && bs[end - 1] == 10 {
                    end - 1
                } else {
                    end
                };
                if e1 > start && bs[e1 - 1] == 13 {
                    assert(bs[e] == 13);
                } else {
                    assert(e == e1);
                    if e1 == end {
                        assert(line + 1 < starts.len());
                    }
                    assert(bs[e1] == 10);
                }
            }
        }
        let target = character as int;
        if exists|j: int| is_column_hit(bs, start, e, target, j) {
            let j = choose|j: int| is_column_hit(bs, start, e, target, j);
            assert(is_column_hit(bs, start, e, target, j));
        }
    }
}

} // verus!

verus! {

proof fn lemma_lead_2(v: u32)
    ensures
        0xC0 <= (0xC0u8 | ((v >> 6u32) & 0x1Fu32) as u8) <= 0xDF,
{
    assert(0xC0 <= (0xC0u8 | ((v >> 6u32) & 0x1Fu32) as u8) <= 0xDF) by (bit_vector);
}

proof fn lemma_lead_3(v: u32)
    ensures
        0xE0 <= (0xE0u8 | ((v >> 12u32) & 0x0Fu32) as u8) <= 0xEF,
{
    assert(0xE0 <= (0xE0u8 | ((v >> 12u32) & 0x0Fu32) as u8) <= 0xEF) by (bit_vector);
}

proof fn lemma_lead_4(v: u32)
    ensures
        0xF0 <= (0xF0u8 | ((v >> 18u32) & 0x7u32) as u8) <= 0xF7,
{
    assert(0xF0 <= (0xF0u8 | ((v >> 18u32) & 0x7u32) as u8) <= 0xF7) by (bit_vector);
}

proof fn lemma_trail(v: u32)
    ensures
        0x80 <= (0x80u8 | (v & 0x3Fu32) as u8) <= 0xBF,
{
    assert(0x80 <= (0x80u8 | (v & 0x3Fu32) as u8) <= 0xBF) by (bit_vector);
}

proof fn lemma_lead_1(v: u32)
    requires
        v <= 0x7F,
    ensures
        ((v & 0x7Fu32) as u8) as u32 == v,
{
    assert(((v & 0x7Fu32) as u8) as u32 == v) by (bit_vector)
        requires
            v <= 0x7F,
    ;
}

/// One byte counts the units it opens.
proof fn lemma_units_one(b: u8)
    ensures
        units(seq![b]) == unit_width(b),
{
    assert(seq![b].drop_last() =~= Seq::<u8>::empty());
    assert(seq![b].last() == b);
    assert(units(Seq::<u8>::empty()) == 0);
}

/// The bytes of one character: its first byte opens it, the others continue
/// it, and none is a newline unless the character is one; it counts as many
/// UTF-16 units as the character.
proof fn lemma_scalar_bytes(c: char)
    ensures
        encode_utf8(seq![c]) == vstd::utf8::encode_scalar(c as u32),
        vstd::utf8::encode_scalar(c as u32).len() > 0,
        !is_continuation(vstd::utf8::encode_scalar(c as u32)[0]),
        forall|j: int| 0 < j < vstd::utf8::encode_scalar(c as u32).len() ==> is_continuation(
            #[trigger] vstd::utf8::encode_scalar(c as u32)[j],
        ),
        c != '\n' ==> forall|j: int|
            0 <= j < vstd::utf8::encode_scalar(c as u32).len() ==> #[trigger] vstd::utf8::encode_scalar(c as u32)[j] != 10,
        units(vstd::utf8::encode_scalar(c as u32)) == crate::text::char_utf16(c),
{
    let v = c as u32;
    vstd::utf8::char_is_scalar(c);
    assert(encode_utf8(Seq::<char>::empty()) =~= Seq::<u8>::empty());
    assert(seq![c].drop_first() =~= Seq::<char>::empty());
    assert(seq![c][0] == c);
    assert(encode_utf8(seq![c]) =~= vstd::utf8::encode_scalar(v));
    let e = vstd::utf8::encode_scalar(v);
    lemma_trail(v);
    lemma_trail(v >> 6u32);
    lemma_trail(v >> 12u32);
    let t1 = vstd::utf8::last_continuation_byte(v);
    let t2 = vstd::utf8::second_last_continuation_byte(v);
    let t3 = vstd::utf8::third_last_continuation_byte(v);
    lemma_units_one(t1);
    lemma_units_one(t2);
    lemma_units_one(t3);
    if v <= 0x7F {
        lemma_lead_1(v);
        let l = vstd::utf8::leading_byte_width_1(v);
        assert(e =~= seq![l]);
        lemma_units_one(l);
    } else if v <= 0x7FF {
        lemma_lead_2(v);
        let l = vstd::utf8::leading_byte_width_2(v);
        assert(e =~= seq![l] + seq![t1]);
        lemma_units_one(l);
        lemma_units_add(seq![l], seq![t1]);
    } else if v <= 0xFFFF {
        lemma_lead_3(v);
        let l = vstd::utf8::leading_byte_width_3(v);
        assert(e =~= seq![l] + seq![t2] + seq![t1]);
        lemma_units_one(l);
        lemma_units_add(seq![l], seq![t2]);
        lemma_units_add(seq![l] + seq![t2], seq![t1]);
    } else {
        lemma_lead_4(v);
        let l = vstd::utf8::leading_byte_width_4(v);
        assert(e =~= seq![l] + seq![t3] + seq![t2] + seq![t1]);
        lemma_units_one(l);
        lemma_units_add(seq![l], seq![t3]);
        lemma_units_add(seq![l] + seq![t3], seq![t2]);
        lemma_units_add(seq![l] + seq![t3] + seq![t2], seq![t1]);
    }
}

/// Units add over concatenation.
proof fn lemma_units_add(x: Seq<u8>, y: Seq<u8>)
    ensures
        units(x + y) == units(x) + units(y),
    decreases y.len(),
{
    if y.len() > 0 {
        assert((x + y).drop_last() =~= x + y.drop_last());
        lemma_units_add(x, y.drop_last());
    } else {
        assert(x + y =~= x);
    }
}

/// The encoding of `cs`: as many UTF-16 units as `cs` has, each character
/// opened by a byte that is not a continuation, and no newline byte unless
/// `cs` holds a newline.
proof fn lemma_encoding_units(cs: Seq<char>)
    ensures
        units(encode_utf8(cs)) == crate::text::utf16_width(cs),
        (forall|i: int| 0 <= i < cs.len() ==> cs[i] != '\n') ==> forall|j: int|
            0 <= j < encode_utf8(cs).len() ==> #[trigger] encode_utf8(cs)[j] != 10,
    decreases cs.len(),
{
    if cs.len() == 0 {
        assert(encode_utf8(cs) =~= Seq::<u8>::empty());
    } else {
        let rest = cs.drop_first();
        lemma_encoding_units(rest);
        lemma_scalar_bytes(cs[0]);
        let e = vstd::utf8::encode_scalar(cs[0] as u32);
        assert(encode_utf8(cs) == e + encode_utf8(rest));
        lemma_units_add(e, encode_utf8(rest));
        if forall|i: int| 0 <= i < cs.len() ==> cs[i] != '\n' {
            assert forall|i: int| 0 <= i < rest.len() implies rest[i] != '\n' by {
                assert(rest[i] == cs[i + 1]);
            }
            assert(cs[0] != '\n');
            assert forall|j: int| 0 <= j < encode_utf8(cs).len() implies #[trigger] encode_utf8(cs)[j] != 10 by {
                if j < e.len() {
                    assert(encode_utf8(cs)[j] == e[j]);
                } else {
                    assert(encode_utf8(cs)[j] == encode_utf8(rest)[j - e.len()]);
                }
            }
        }
    }
}

/// A text with no newline byte is one line.
proof fn lemma_one_line_starts(bs: Seq<u8>, end: nat)
    requires
        end <= bs.len(),
        forall|j: int| 0 <= j < bs.len() ==> bs[j] != 10,
    ensures
        line_starts(bs, end) == seq![0int],
    decreases end,
{
    if end > 0 {
        lemma_one_line_starts(bs, (end - 1) as nat);
    }
}

/// Columns count UTF-16 code units: on a line of text, the column of the
/// offset where a character opens (or where the text ends) is the number of
/// UTF-16 units of the characters before it, so a character beyond the
/// basic multilingual plane counts two and any other one.
pub proof fn columns_count_utf16_units(cs: Seq<char>, i: int)
    requires
        0 <= i <= cs.len(),
        forall|k: int| 0 <= k < cs.len() ==> cs[k] != '\n',
        crate::text::utf16_width(cs) <= u32::MAX,
    ensures
        text_position(encode_utf8(cs), encode_utf8(cs.take(i)).len() as int) == (
            0u32,
            crate::text::utf16_width(cs.take(i)) as u32,
        ),
{
    let bs = encode_utf8(cs);
    let head = cs.take(i);
    let tail = cs.skip(i);
    assert(cs =~= head + tail);
    crate::text::lemma_encode_utf8_add(head, tail);
    crate::text::lemma_utf16_width_add(head, tail);
    lemma_encoding_units(cs);
    lemma_encoding_units(head);
    let off = encode_utf8(head).len() as int;
    lemma_one_line_starts(bs, bs.len());
    let starts = line_starts(bs, bs.len());
    assert(is_line_of(starts, off, 0));
    assert(line_of(starts, off) == 0) by {
        let k = line_of(starts, off);
        assert(is_line_of(starts, off, k));
    }
    assert(bs.subrange(0, off) =~= encode_utf8(head));
    assert(is_boundary(bs, off)) by {
        if 0 < off < bs.len() {
            assert(tail.len() > 0);
            lemma_scalar_bytes(tail[0]);
            let e = vstd::utf8::encode_scalar(tail[0] as u32);
            assert(tail.drop_first() =~= tail.skip(1));
            assert(encode_utf8(tail) == e + encode_utf8(tail.drop_first()));
            assert(bs[off] == encode_utf8(tail)[0]);
            assert(encode_utf8(tail)[0] == e[0]);
        }
    }
}

} // verus!

verus! {

/// Before the first newline, at `p`, the text is one line; the second line
/// starts right after it.
proof fn lemma_first_two_starts(bs: Seq<u8>, p: int, n: nat)
    requires
        0 <= p < n <= bs.len(),
        bs[p] == 10,
        forall|j: int| 0 <= j < p ==> bs[j] != 10,
    ensures
        line_starts(bs, n).len() >= 2,
        line_starts(bs, n)[0] == 0,
        line_starts(bs, n)[1] == p + 1,
    decreases n,
{
    if n == p + 1 {
        assert(line_starts(bs, p as nat) == seq![0int]) by {
            lemma_starts_before(bs, p, p as nat);
        }
    } else {
        lemma_first_two_starts(bs, p, (n - 1) as nat);
    }
}

/// With no newline before `p`, the text up to `n <= p` is one line.
proof fn lemma_starts_before(bs: Seq<u8>, p: int, n: nat)
    requires
        n <= p <= bs.len(),
        forall|j: int| 0 <= j < p ==> bs[j] != 10,
    ensures
        line_starts(bs, n) == seq![0int],
    decreases n,
{
    if n > 0 {
        lemma_starts_before(bs, p, (n - 1) as nat);
    }
}

/// The last byte of a character's encoding is a carriage return only for a
/// carriage return.
proof fn lemma_last_byte(cs: Seq<char>)
    requires
        cs.len() > 0,
        cs.last() != '\r',
    ensures
        encode_utf8(cs).len() > 0,
        encode_utf8(cs).last() != 13,
{
    let front = cs.drop_last();
    let c = cs.last();
    assert(cs =~= front + seq![c]);
    crate::text::lemma_encode_utf8_add(front, seq![c]);
    lemma_scalar_bytes(c);
    let e = vstd::utf8::encode_scalar(c as u32);
    assert(encode_utf8(cs).last() == e[e.len() - 1]);
    vstd::utf8::char_is_scalar(c);
    if (c as u32) <= 0x7F {
        lemma_lead_1(c as u32);
        assert(('\r' as u32) == 13);
        assert(e =~= seq![((c as u32) & 0x7Fu32) as u8]);
        assert((c as u32) != 13) by {
            if (c as u32) == 13 {
                lemma_scalar_bytes('\r');
                assert(encode_utf8(seq![c]) == encode_utf8(seq!['\r']));
                vstd::utf8::encode_utf8_decode_utf8(seq![c]);
                vstd::utf8::encode_utf8_decode_utf8(seq!['\r']);
                assert(seq![c][0] == c);
                assert(seq!['\r'][0] == '\r');
            }
        }
    } else {
        assert(e.len() > 1);
        assert(is_continuation(e[e.len() - 1]));
    }
}

/// A column past the end of its line clamps to the line's end, before its
/// newline and any carriage return: on the first line of a text, any column
/// at or past the line's UTF-16 width is the byte offset where the line's
/// text ends.
pub proof fn a_column_past_the_line_clamps_to_its_end(
    line: Seq<char>,
    crlf: bool,
    rest: Seq<char>,
    character: u32,
)
    requires
        forall|k: int| 0 <= k < line.len() ==> line[k] != '\n',
        line.len() == 0 || line.last() != '\r',
        crate::text::utf16_width(line) <= character,
    ensures
        text_offset(encode_utf8(line + (if crlf { seq!['\r', '\n'] } else { seq!['\n'] }) + rest), 0, character)
            == encode_utf8(line).len(),
        text_offset(encode_utf8(line), 0, character) == encode_utf8(line).len(),
{
    let ending = if crlf { seq!['\r', '\n'] } else { seq!['\n'] };
    let text = line + ending + rest;
    let bs = encode_utf8(text);
    let lb = encode_utf8(line);
    let l = lb.len() as int;
    lemma_encoding_units(line);
    crate::text::lemma_encode_utf8_add(line + ending, rest);
    crate::text::lemma_encode_utf8_add(line, ending);
    let eb = encode_utf8(ending);
    lemma_scalar_bytes('\n');
    lemma_scalar_bytes('\r');
    assert(('\n' as u32) == 10);
    assert(('\r' as u32) == 13);
    lemma_lead_1(10);
    lemma_lead_1(13);
    assert(vstd::utf8::encode_scalar(10) =~= seq![10u8]);
    assert(vstd::utf8::encode_scalar(13) =~= seq![13u8]);
    assert(encode_utf8(seq!['\n']) =~= seq![10u8]);
    assert(encode_utf8(seq!['\r']) =~= seq![13u8]);
    if crlf {
        assert(ending =~= seq!['\r'] + seq!['\n']);
        crate::text::lemma_encode_utf8_add(seq!['\r'], seq!['\n']);
        assert(eb =~= seq![13u8, 10u8]);
    } else {
        assert(eb =~= seq![10u8]);
    }
    let p = if crlf { l + 1 } else { l };
    assert(bs == lb + eb + encode_utf8(rest));
    assert(bs[p] == 10);
    assert forall|j: int| 0 <= j < p implies bs[j] != 10 by {
        if j < l {
            assert(bs[j] == lb[j]);
        } else {
            assert(bs[j] == 13);
        }
    }
    lemma_first_two_starts(bs, p, bs.len());
    let starts = line_starts(bs, bs.len());
    assert(starts[1] == p + 1);
    if l > 0 {
        lemma_last_byte(line);
        assert(bs[l - 1] == lb[l - 1]);
    }
    assert(line_text_end(bs, 0, p + 1) == l);
    assert(bs.subrange(0, l) =~= lb);
    assert forall|i: int| 0 <= i < l && !is_continuation(bs[i]) implies units(bs.subrange(0, i)) + unit_width(bs[i])
        <= character by {
        lemma_units_extend(bs, 0, i);
        lemma_units_monotone(bs, 0, i + 1, l);
    }
    lemma_column_miss(bs, 0, l, character as int);
    // The line alone.
    lemma_starts_before(lb, l, l as nat);
    assert(line_starts(lb, lb.len()) == seq![0int]);
    assert(line_text_end(lb, 0, l) == l) by {
        if l > 0 {
            lemma_last_byte(line);
            assert(lb[l - 1] != 10) by {
                assert forall|j: int| 0 <= j < lb.len() implies #[trigger] lb[j] != 10 by {}
            }
        }
    }
    assert(lb.subrange(0, l) =~= lb);
    assert forall|i: int| 0 <= i < l && !is_continuation(lb[i]) implies units(lb.subrange(0, i)) + unit_width(lb[i])
        <= character by {
        lemma_units_extend(lb, 0, i);
        lemma_units_monotone(lb, 0, i + 1, l);
    }
    lemma_column_miss(lb, 0, l, character as int);
}

} // verus!
