//! Byte offset to line and column, where the column is counted in UTF-16
//! code units.
//!
//! An editor reports UTF-16 columns, and the entire job of this tool is
//! pointing at one character in a file the reader is about to open.
//! Counting bytes and counting scalars both diverge from that, in opposite
//! directions and on exactly the characters this tool finds: an invisible
//! U+2060 is three bytes and one code unit; a mathematical U+1D41A is four
//! bytes, one scalar and two code units.
//!
//! Lines and columns are 1-based. A carriage return is an ordinary
//! character; only a line feed starts a line.

use crate::text::{
    byte_len, lemma_byte_len_concat, lemma_byte_len_monotone, lemma_byte_len_take, offset_of,
    text_of, utf16_width,
    Text,
};
use vstd::prelude::*;

verus! {

#[derive(Clone, Copy, Debug, PartialEq, Eq, Structural)]
pub struct Position {
    pub line: usize,
    pub column: usize,
}

/// How many line feeds a sequence holds.
pub open spec fn newlines(s: Seq<char>) -> nat
    decreases s.len(),
{
    if s.len() == 0 {
        0
    } else {
        newlines(s.drop_last()) + if s.last() == '\n' {
            1nat
        } else {
            0nat
        }
    }
}

/// The index just after the last line feed, or 0.
pub open spec fn line_start(s: Seq<char>) -> nat
    decreases s.len(),
{
    if s.len() == 0 {
        0
    } else if s.last() == '\n' {
        s.len()
    } else {
        line_start(s.drop_last())
    }
}

/// How many UTF-16 code units a sequence takes.
pub open spec fn utf16_len(s: Seq<char>) -> nat
    decreases s.len(),
{
    if s.len() == 0 {
        0
    } else {
        utf16_len(s.drop_last()) + utf16_width(s.last())
    }
}

/// The character index of the boundary at or before a byte offset: the
/// largest `k` whose start is not past `offset`. Past the end, the end.
pub open spec fn floor_index(cs: Seq<char>, offset: nat) -> nat
    decreases cs.len(),
{
    if cs.len() == 0 {
        0
    } else if byte_len(cs) <= offset {
        cs.len()
    } else {
        floor_index(cs.drop_last(), offset)
    }
}

/// The 1-based line and UTF-16 column of the end of a prefix.
pub open spec fn position_after(s: Seq<char>) -> (nat, nat) {
    (newlines(s) + 1, utf16_len(s.subrange(line_start(s) as int, s.len() as int)) + 1)
}

/// The line and column a byte offset names in a document. An offset past
/// the end names the end; an offset inside a multi-byte character names
/// that character's start.
pub open spec fn position_at(cs: Seq<char>, offset: nat) -> (nat, nat) {
    position_after(cs.take(floor_index(cs, offset) as int))
}

/// The character indices at which lines start.
pub open spec fn starts_of(s: Seq<char>) -> Seq<nat>
    decreases s.len(),
{
    if s.len() == 0 {
        seq![0nat]
    } else if s.last() == '\n' {
        starts_of(s.drop_last()).push(s.len())
    } else {
        starts_of(s.drop_last())
    }
}

proof fn lemma_starts_shape(s: Seq<char>)
    ensures
        starts_of(s).len() == newlines(s) + 1,
        starts_of(s)[0] == 0,
        starts_of(s).last() == line_start(s),
        forall|i: int, j: int|
            0 <= i < j < starts_of(s).len() ==> starts_of(s)[i] < starts_of(s)[j],
        forall|i: int| 0 <= i < starts_of(s).len() ==> starts_of(s)[i] <= s.len(),
    decreases s.len(),
{
    if s.len() > 0 {
        lemma_starts_shape(s.drop_last());
    }
}

/// The line starts of a prefix are the line starts of the whole that lie
/// at or before its end.
proof fn lemma_starts_prefix(s: Seq<char>, k: int)
    requires
        0 <= k <= s.len(),
    ensures
        starts_of(s.take(k)).len() <= starts_of(s).len(),
        forall|i: int|
            0 <= i < starts_of(s.take(k)).len() ==> starts_of(s)[i] == starts_of(s.take(k))[i],
        forall|i: int|
            starts_of(s.take(k)).len() <= i < starts_of(s).len() ==> starts_of(s)[i] > k,
    decreases s.len(),
{
    if k == s.len() {
        assert(s.take(k) =~= s);
    } else {
        lemma_starts_prefix(s.drop_last(), k);
        assert(s.drop_last().take(k) =~= s.take(k));
        lemma_starts_shape(s.drop_last());
    }
}

proof fn lemma_utf16_push(s: Seq<char>, c: char)
    ensures
        utf16_len(s.push(c)) == utf16_len(s) + utf16_width(c),
{
    assert(s.push(c).drop_last() =~= s);
}

proof fn lemma_utf16_within_bytes(s: Seq<char>)
    ensures
        utf16_len(s) <= byte_len(s),
    decreases s.len(),
{
    if s.len() > 0 {
        lemma_utf16_within_bytes(s.drop_last());
    }
}

/// The characterisation `floor_index` rests on.
proof fn lemma_floor_index(cs: Seq<char>, offset: nat)
    ensures
        floor_index(cs, offset) <= cs.len(),
        offset_of(cs, floor_index(cs, offset) as int) <= offset,
        floor_index(cs, offset) < cs.len() ==> offset_of(cs, floor_index(cs, offset) as int + 1)
            > offset,
    decreases cs.len(),
{
    if cs.len() > 0 {
        assert(cs.take(cs.len() as int) =~= cs);
        if byte_len(cs) > offset {
            lemma_floor_index(cs.drop_last(), offset);
            let k = floor_index(cs.drop_last(), offset);
            assert(cs.drop_last().take(k as int) =~= cs.take(k as int));
            if k < cs.len() - 1 {
                assert(cs.drop_last().take(k as int + 1) =~= cs.take(k as int + 1));
            }
        }
    } else {
        assert(cs.take(0) =~= cs);
    }
}

proof fn lemma_floor_unique(cs: Seq<char>, offset: nat, k: int)
    requires
        0 <= k <= cs.len(),
        offset_of(cs, k) <= offset,
        k < cs.len() ==> offset_of(cs, k + 1) > offset,
    ensures
        k == floor_index(cs, offset),
{
    lemma_floor_index(cs, offset);
    let f = floor_index(cs, offset) as int;
    if f < k {
        lemma_byte_len_monotone(cs, f + 1, k);
    } else if k < f {
        lemma_byte_len_monotone(cs, k + 1, f);
    }
}

proof fn lemma_line_facts(s: Seq<char>)
    ensures
        newlines(s) <= s.len(),
        line_start(s) <= s.len(),
    decreases s.len(),
{
    if s.len() > 0 {
        lemma_line_facts(s.drop_last());
    }
}

/// A prepared index over one document: building it is linear; each lookup
/// is two binary searches and a count along the current line.
pub struct PositionIndex {
    text: Text,
    /// The character index of the first character of each line.
    line_starts: Vec<usize>,
}

impl PositionIndex {
    pub closed spec fn chars(&self) -> Seq<char> {
        self.text.chars@
    }

    pub closed spec fn wf(&self) -> bool {
        &&& self.text.wf()
        &&& self.line_starts@.map_values(|i: usize| i as nat) == starts_of(self.text.chars@)
        &&& byte_len(self.text.chars@) < usize::MAX
    }

    pub fn new(content: &str) -> (r: Self)
        requires
            byte_len(content@) < usize::MAX,
        ensures
            r.wf(),
            r.chars() == content@,
    {
        let text = text_of(content);
        let mut line_starts: Vec<usize> = Vec::new();
        line_starts.push(0);
        let mut i: usize = 0;
        proof {
            assert(text.chars@.take(0) =~= Seq::<char>::empty());
            assert(line_starts@.map_values(|j: usize| j as nat) =~= seq![0nat]);
        }
        while i < text.chars.len()
            invariant
                text.wf(),
                0 <= i <= text.chars.len(),
                line_starts@.map_values(|j: usize| j as nat) == starts_of(
                    text.chars@.take(i as int),
                ),
            decreases text.chars.len() - i,
        {
            let ghost before = line_starts@;
            proof {
                assert(text.chars@.take(i + 1).drop_last() =~= text.chars@.take(i as int));
                assert(text.chars@.take(i + 1).last() == text.chars@[i as int]);
            }
            if text.chars[i] == '\n' {
                line_starts.push(i + 1);
                proof {
                    assert(line_starts@.map_values(|j: usize| j as nat) =~= before.map_values(
                        |j: usize| j as nat,
                    ).push((i + 1) as nat));
                }
            }
            i = i + 1;
        }
        proof {
            assert(text.chars@.take(text.chars.len() as int) =~= text.chars@);
        }
        PositionIndex { text, line_starts }
    }

    /// The largest character index whose start is not past `offset`.
    fn floor_char(&self, offset: usize) -> (k: usize)
        requires
            self.wf(),
        ensures
            k == floor_index(self.chars(), offset as nat),
    {
        let n = self.text.chars.len();
        let ghost cs = self.text.chars@;
        // Invariant: offsets[low] <= offset, and everything past `high` starts past it.
        let mut low: usize = 0;
        let mut high: usize = n;
        proof {
            assert(self.text.offsets@[0] == offset_of(cs, 0));
            assert(cs.take(0) =~= Seq::<char>::empty());
        }
        while low < high
            invariant
                self.text.wf(),
                cs == self.text.chars@,
                n == cs.len(),
                0 <= low <= high <= n,
                offset_of(cs, low as int) <= offset,
                high < n ==> offset_of(cs, high + 1) > offset,
            decreases high - low,
        {
            let mid = low + (high - low + 1) / 2;
            assert(self.text.offsets@[mid as int] == offset_of(cs, mid as int));
            if self.text.offsets[mid] <= offset {
                low = mid;
            } else {
                proof {
                    if mid < n {
                        lemma_byte_len_monotone(cs, mid as int, mid + 1);
                    }
                }
                high = mid - 1;
            }
        }
        proof {
            lemma_floor_unique(cs, offset as nat, low as int);
        }
        low
    }

    /// The largest character boundary at or before `offset`: an offset
    /// inside a multi-byte character floors to that character's start, and
    /// one past the end to the end.
    pub fn floor_to_boundary(&self, offset: usize) -> (r: usize)
        requires
            self.wf(),
        ensures
            r == offset_of(self.chars(), floor_index(self.chars(), offset as nat) as int),
            r <= offset,
    {
        let k = self.floor_char(offset);
        proof {
            lemma_floor_index(self.text.chars@, offset as nat);
            assert(self.text.offsets@[k as int] == offset_of(self.text.chars@, k as int));
        }
        self.text.offsets[k]
    }

    /// The position of a byte offset. Offsets past the end clamp to the
    /// end, and an offset inside a multi-byte character floors to that
    /// character's start.
    pub fn at(&self, offset: usize) -> (r: Position)
        requires
            self.wf(),
        ensures
            (r.line as nat, r.column as nat) == position_at(self.chars(), offset as nat),
    {
        let ghost cs = self.text.chars@;
        let k = self.floor_char(offset);
        let ghost prefix = cs.take(k as int);
        proof {
            lemma_floor_index(cs, offset as nat);
            lemma_starts_prefix(cs, k as int);
            lemma_starts_shape(prefix);
            lemma_starts_shape(cs);
            assert(self.line_starts@.len() == starts_of(cs).len());
        }
        // The last line start at or before `k`.
        let mut low: usize = 0;
        let mut high: usize = self.line_starts.len() - 1;
        while low < high
            invariant
                self.wf(),
                cs == self.text.chars@,
                0 <= low <= high < self.line_starts.len(),
                self.line_starts.len() == starts_of(cs).len(),
                self.line_starts@[low as int] <= k,
                high + 1 < self.line_starts.len() ==> self.line_starts@[high + 1] > k,
                forall|i: int|
                    0 <= i < starts_of(cs).len() ==> #[trigger] self.line_starts@[i] as nat
                        == starts_of(cs)[i],
            decreases high - low,
        {
            let mid = low + (high - low + 1) / 2;
            if self.line_starts[mid] <= k {
                low = mid;
            } else {
                high = mid - 1;
            }
        }
        proof {
            assert forall|i: int|
                0 <= i < starts_of(cs).len() implies #[trigger] self.line_starts@[i] as nat
                == starts_of(cs)[i] by {
                assert(self.line_starts@.map_values(|j: usize| j as nat)[i]
                    == self.line_starts@[i] as nat);
            }
            let p = starts_of(prefix);
            let whole = starts_of(cs);
            // `low` is the last start at or before `k`, which is the prefix's last start.
            if (low as int) < p.len() - 1 {
                assert(whole[p.len() - 1] == p[p.len() - 1]);
                assert(p[p.len() - 1] <= k) by {
                    lemma_line_facts(prefix);
                }
                assert(whole[low as int] < whole[p.len() - 1]);
                assert(high + 1 < whole.len() ==> whole[high + 1] > k);
            }
            if (low as int) > p.len() - 1 {
                assert(whole[low as int] > k);
            }
            assert(low as int == p.len() - 1);
        }
        let start = self.line_starts[low];
        let mut column: usize = 1;
        let mut i: usize = start;
        proof {
            lemma_line_facts(prefix);
            assert(cs.subrange(start as int, start as int) =~= Seq::<char>::empty());
            let line = cs.subrange(start as int, k as int);
            lemma_utf16_within_bytes(line);
            lemma_byte_len_concat(cs.take(start as int), line);
            assert(cs.take(start as int) + line =~= cs.take(k as int));
            lemma_byte_len_monotone(cs, k as int, cs.len() as int);
            assert(cs.take(cs.len() as int) =~= cs);
        }
        while i < k
            invariant
                self.wf(),
                cs == self.text.chars@,
                start <= i <= k <= cs.len(),
                column == utf16_len(cs.subrange(start as int, i as int)) + 1,
                utf16_len(cs.subrange(start as int, k as int)) <= byte_len(cs.take(k as int)),
                byte_len(cs.take(k as int)) <= byte_len(cs),
                byte_len(cs) < usize::MAX,
            decreases k - i,
        {
            proof {
                assert(cs.subrange(start as int, i + 1) =~= cs.subrange(start as int, i as int).push(
                    cs[i as int],
                ));
                lemma_utf16_push(cs.subrange(start as int, i as int), cs[i as int]);
                lemma_utf16_prefix_le(cs.subrange(start as int, k as int), (i + 1 - start) as int);
                assert(cs.subrange(start as int, k as int).take((i + 1 - start) as int)
                    =~= cs.subrange(start as int, i + 1));
            }
            column = column + if (self.text.chars[i] as u32) < 0x10000 {
                1
            } else {
                2
            };
            i = i + 1;
        }
        proof {
            lemma_byte_len_monotone(cs, k as int, cs.len() as int);
            assert(cs.take(cs.len() as int) =~= cs);
            assert(prefix.subrange(line_start(prefix) as int, prefix.len() as int)
                =~= cs.subrange(start as int, k as int));
            assert(newlines(prefix) == low);
        }
        Position { line: low + 1, column }
    }
}

proof fn lemma_utf16_prefix_le(s: Seq<char>, n: int)
    requires
        0 <= n <= s.len(),
    ensures
        utf16_len(s.take(n)) <= utf16_len(s),
    decreases s.len() - n,
{
    if n < s.len() {
        lemma_utf16_prefix_le(s, n + 1);
        assert(s.take(n + 1).drop_last() =~= s.take(n));
    } else {
        assert(s.take(n) =~= s);
    }
}

} // verus!
