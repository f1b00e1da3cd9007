//! Text as the library reads it: a sequence of scalar values, each with
//! the UTF-8 width that decides its byte offset.
//!
//! Every offset in a report is a byte offset into the document on disk,
//! and every scanner here walks scalar values. `Text` carries both: the
//! characters, and beside each one the byte offset it starts at, so no
//! scanner can invent its own idea of where a character sits.

use vstd::prelude::*;
use vstd::std_specs::iter::IteratorSpec;
use vstd::utf8::*;

verus! {

/// The number of bytes UTF-8 spends on one scalar value.
pub open spec fn utf8_width(c: char) -> nat {
    let v = c as u32;
    if v < 0x80 {
        1
    } else if v < 0x800 {
        2
    } else if v < 0x10000 {
        3
    } else {
        4
    }
}

/// The byte length of a sequence of scalar values once encoded as UTF-8.
pub open spec fn byte_len(cs: Seq<char>) -> nat
    decreases cs.len(),
{
    if cs.len() == 0 {
        0
    } else {
        byte_len(cs.drop_last()) + utf8_width(cs.last())
    }
}

/// The byte offset at which the character at index `i` starts.
pub open spec fn offset_of(cs: Seq<char>, i: int) -> nat {
    byte_len(cs.take(i))
}

/// The number of UTF-16 code units a scalar value takes.
pub open spec fn utf16_width(c: char) -> nat {
    if (c as u32) < 0x10000 {
        1
    } else {
        2
    }
}

pub open spec fn is_ascii_char(c: char) -> bool {
    (c as u32) < 0x80
}

/// The Unicode `White_Space` property: the characters `str::trim` removes.
pub open spec fn is_white_space(c: char) -> bool {
    let v = c as u32;
    ||| 0x09 <= v <= 0x0D
    ||| v == 0x20
    ||| v == 0x85
    ||| v == 0xA0
    ||| v == 0x1680
    ||| 0x2000 <= v <= 0x200A
    ||| v == 0x2028
    ||| v == 0x2029
    ||| v == 0x202F
    ||| v == 0x205F
    ||| v == 0x3000
}

pub fn white_space(c: char) -> (r: bool)
    ensures
        r == is_white_space(c),
{
    let v = c as u32;
    (0x09 <= v && v <= 0x0D) || v == 0x20 || v == 0x85 || v == 0xA0 || v == 0x1680 || (0x2000
        <= v && v <= 0x200A) || v == 0x2028 || v == 0x2029 || v == 0x202F || v == 0x205F || v
        == 0x3000
}

pub proof fn lemma_byte_len_concat(a: Seq<char>, b: Seq<char>)
    ensures
        byte_len(a + b) == byte_len(a) + byte_len(b),
    decreases b.len(),
{
    if b.len() == 0 {
        assert(a + b =~= a);
    } else {
        lemma_byte_len_concat(a, b.drop_last());
        assert((a + b).drop_last() =~= a + b.drop_last());
    }
}

pub proof fn lemma_byte_len_take(cs: Seq<char>, i: int)
    requires
        0 <= i < cs.len(),
    ensures
        byte_len(cs.take(i + 1)) == byte_len(cs.take(i)) + utf8_width(cs[i]),
{
    assert(cs.take(i + 1).drop_last() =~= cs.take(i));
}

pub proof fn lemma_byte_len_monotone(cs: Seq<char>, i: int, j: int)
    requires
        0 <= i <= j <= cs.len(),
    ensures
        byte_len(cs.take(i)) <= byte_len(cs.take(j)),
        i < j ==> byte_len(cs.take(i)) < byte_len(cs.take(j)),
    decreases j - i,
{
    if i < j {
        lemma_byte_len_monotone(cs, i, j - 1);
        lemma_byte_len_take(cs, j - 1);
    }
}

pub proof fn lemma_width_is_encoding_length(c: char)
    ensures
        encode_scalar(c as u32).len() == utf8_width(c),
{
    broadcast use char_is_scalar;

    let v = c as u32;
    assert(is_scalar(v));
}

/// The widths here are UTF-8's own: the byte length of a sequence is the
/// length of its encoding.
pub proof fn lemma_byte_len_is_encoding_length(cs: Seq<char>)
    ensures
        byte_len(cs) == encode_utf8(cs).len(),
    decreases cs.len(),
{
    if cs.len() > 0 {
        lemma_byte_len_is_encoding_length(cs.drop_first());
        lemma_width_is_encoding_length(cs[0]);
        lemma_byte_len_concat(seq![cs[0]], cs.drop_first());
        assert(seq![cs[0]] + cs.drop_first() =~= cs);
        let one = seq![cs[0]];
        assert(one.drop_last() =~= Seq::<char>::empty());
        assert(byte_len(one.drop_last()) == 0);
        assert(one.last() == cs[0]);
        assert(byte_len(one) == utf8_width(cs[0]));
        assert(encode_utf8(cs) == encode_scalar(cs[0] as u32) + encode_utf8(cs.drop_first()));
    }
}

/// A document's scalar values, and the byte offset each one starts at.
///
/// `offsets` has one more entry than `chars`: the last is the byte length
/// of the whole document.
pub struct Text {
    pub chars: Vec<char>,
    pub offsets: Vec<usize>,
}

impl Text {
    pub open spec fn wf(&self) -> bool {
        &&& self.offsets.len() == self.chars.len() + 1
        &&& forall|i: int|
            0 <= i <= self.chars.len() ==> #[trigger] self.offsets@[i] == offset_of(
                self.chars@,
                i,
            )
    }

    pub open spec fn len(&self) -> nat {
        self.chars@.len()
    }
}

/// The scalar values of a string, in order, with the offset of each.
pub fn text_of(s: &str) -> (t: Text)
    ensures
        t.wf(),
        t.chars@ == s@,
{
    let bytes = s.as_bytes();
    let total = bytes.len();
    let mut chars: Vec<char> = Vec::new();
    let mut offsets: Vec<usize> = Vec::new();
    let mut offset: usize = 0;
    proof {
        lemma_byte_len_is_encoding_length(s@);
        assert(s@.take(0) =~= Seq::<char>::empty());
    }
    for c in it: s.chars()
        invariant
            it.seq() == s@,
            chars@ == it.seq().take(it.index() as int),
            offsets.len() == chars.len(),
            offset == offset_of(s@, it.index() as int),
            byte_len(s@) == total,
            forall|i: int|
                0 <= i < offsets.len() ==> #[trigger] offsets@[i] == offset_of(s@, i),
    {
        let ghost k = it.index() as int;
        proof {
            lemma_byte_len_take(s@, k);
            lemma_byte_len_monotone(s@, k + 1, s@.len() as int);
            assert(s@.take(s@.len() as int) =~= s@);
        }
        offsets.push(offset);
        chars.push(c);
        offset = offset + char_width(c);
    }
    proof {
        assert(chars@ =~= s@);
    }
    offsets.push(offset);
    Text { chars, offsets }
}

pub fn char_width(c: char) -> (r: usize)
    ensures
        r == utf8_width(c),
{
    let v = c as u32;
    if v < 0x80 {
        1
    } else if v < 0x800 {
        2
    } else if v < 0x10000 {
        3
    } else {
        4
    }
}

/// A `String` holding exactly the given scalar values.
#[verifier::external_body]
pub(crate) fn string_of(cs: &[char]) -> (r: String)
    ensures
        r@ == cs@,
{
    cs.iter().collect()
}

/// Appends the scalar values of `s`.
pub fn push_str(out: &mut Vec<char>, s: &str)
    ensures
        final(out)@ == old(out)@ + s@,
{
    for c in it: s.chars()
        invariant
            it.seq() == s@,
            out@ == old(out)@ + it.seq().take(it.index() as int),
    {
        out.push(c);
        proof {
            assert(it.seq().take(it.index() + 1) =~= it.seq().take(it.index() as int).push(c));
        }
    }
    proof {
        assert(s@.take(s@.len() as int) =~= s@);
    }
}

/// Appends a slice of scalar values.
pub fn push_chars(out: &mut Vec<char>, s: &[char])
    ensures
        final(out)@ == old(out)@ + s@,
{
    let mut i: usize = 0;
    while i < s.len()
        invariant
            0 <= i <= s.len(),
            out@ == old(out)@ + s@.take(i as int),
        decreases s.len() - i,
    {
        out.push(s[i]);
        proof {
            assert(s@.take(i + 1) =~= s@.take(i as int).push(s@[i as int]));
        }
        i = i + 1;
    }
    proof {
        assert(s@.take(s@.len() as int) =~= s@);
    }
}

/// The decimal spelling of a number, most significant digit first.
pub open spec fn decimal(n: nat) -> Seq<char>
    decreases n,
{
    if n < 10 {
        seq![digit_char(n)]
    } else {
        decimal(n / 10).push(digit_char(n % 10))
    }
}

pub open spec fn digit_char(d: nat) -> char {
    ((d + 0x30) as u32) as char
}

pub proof fn lemma_decimal_is_ascii(n: nat)
    ensures
        is_ascii_chars(decimal(n)),
        decimal(n).len() >= 1,
    decreases n,
{
    if n >= 10 {
        lemma_decimal_is_ascii(n / 10);
    }
}

/// Appends the decimal spelling of `n`.
pub fn push_decimal(out: &mut Vec<char>, n: u64)
    ensures
        final(out)@ == old(out)@ + decimal(n as nat),
    decreases n,
{
    if n >= 10 {
        push_decimal(out, n / 10);
    }
    let d = (n % 10) as u32 + 0x30;
    let c = char_from_digit(d);
    out.push(c);
    proof {
        if n >= 10 {
            assert(decimal(n as nat) == decimal((n / 10) as nat).push(digit_char((n % 10) as nat)));
        }
    }
}

fn char_from_digit(d: u32) -> (c: char)
    requires
        0x30 <= d <= 0x39,
    ensures
        c == (d as char),
{
    let b = d as u8;
    b as char
}

/// Whether two sequences of scalar values are equal.
pub fn chars_equal(a: &[char], b: &[char]) -> (r: bool)
    ensures
        r == (a@ == b@),
{
    if a.len() != b.len() {
        return false;
    }
    let mut i: usize = 0;
    while i < a.len()
        invariant
            a.len() == b.len(),
            0 <= i <= a.len(),
            forall|j: int| 0 <= j < i ==> a@[j] == b@[j],
        decreases a.len() - i,
    {
        if a[i] != b[i] {
            return false;
        }
        i = i + 1;
    }
    proof {
        assert(a@ =~= b@);
    }
    true
}

/// Whether a string literal and a sequence of scalar values are equal.
pub fn equals_str(a: &[char], b: &str) -> (r: bool)
    ensures
        r == (a@ == b@),
{
    let bs = text_of(b);
    chars_equal(a, bs.chars.as_slice())
}

/// The scalar values from `start` up to `end`.
pub fn slice_chars(cs: &[char], start: usize, end: usize) -> (r: Vec<char>)
    requires
        start <= end <= cs.len(),
    ensures
        r@ == cs@.subrange(start as int, end as int),
{
    let mut out: Vec<char> = Vec::new();
    let mut i: usize = start;
    while i < end
        invariant
            start <= i <= end <= cs.len(),
            out@ == cs@.subrange(start as int, i as int),
        decreases end - i,
    {
        out.push(cs[i]);
        proof {
            assert(cs@.subrange(start as int, i + 1) =~= cs@.subrange(start as int, i as int).push(
                cs@[i as int],
            ));
        }
        i = i + 1;
    }
    out
}

/// The first index at or after `i`, and before `end`, that is not white
/// space; `end` if there is none.
pub open spec fn skip_ws(s: Seq<char>, i: int, end: int) -> int
    decreases end - i,
{
    if i < end && 0 <= i < s.len() && is_white_space(s[i]) {
        skip_ws(s, i + 1, end)
    } else {
        i
    }
}

/// The index after the last character before `j`, and not before `lo`,
/// that is not white space.
pub open spec fn back_ws(s: Seq<char>, lo: int, j: int) -> int
    decreases j - lo,
{
    if j > lo && 0 < j <= s.len() && is_white_space(s[j - 1]) {
        back_ws(s, lo, j - 1)
    } else {
        j
    }
}

/// The first index at or after `i` holding `c`; the length if none does.
pub open spec fn find_from(s: Seq<char>, c: char, i: int) -> int
    decreases s.len() - i,
{
    if i >= s.len() {
        s.len() as int
    } else if s[i] == c {
        i
    } else {
        find_from(s, c, i + 1)
    }
}

/// Whether `p` occurs in `s` at index `i`.
pub open spec fn occurs_at(s: Seq<char>, i: int, p: Seq<char>) -> bool {
    0 <= i && i + p.len() <= s.len() && s.subrange(i, i + p.len()) == p
}

pub proof fn lemma_skip_ws(s: Seq<char>, i: int, end: int)
    requires
        0 <= i <= end <= s.len(),
    ensures
        i <= skip_ws(s, i, end) <= end,
        forall|k: int| i <= k < skip_ws(s, i, end) ==> is_white_space(s[k]),
        skip_ws(s, i, end) < end ==> !is_white_space(s[skip_ws(s, i, end)]),
    decreases end - i,
{
    if i < end && is_white_space(s[i]) {
        lemma_skip_ws(s, i + 1, end);
    }
}

pub proof fn lemma_back_ws(s: Seq<char>, lo: int, j: int)
    requires
        0 <= lo <= j <= s.len(),
    ensures
        lo <= back_ws(s, lo, j) <= j,
    decreases j - lo,
{
    if j > lo && is_white_space(s[j - 1]) {
        lemma_back_ws(s, lo, j - 1);
    }
}

pub proof fn lemma_find_from(s: Seq<char>, c: char, i: int)
    requires
        0 <= i <= s.len(),
    ensures
        i <= find_from(s, c, i) <= s.len(),
        find_from(s, c, i) < s.len() ==> s[find_from(s, c, i)] == c,
        forall|k: int| i <= k < find_from(s, c, i) ==> s[k] != c,
    decreases s.len() - i,
{
    if i < s.len() && s[i] != c {
        lemma_find_from(s, c, i + 1);
    }
}

/// The first index at or after `i`, and before `end`, that is not white
/// space.
pub fn skip_white(s: &[char], i: usize, end: usize) -> (r: usize)
    requires
        i <= end <= s.len(),
    ensures
        r == skip_ws(s@, i as int, end as int),
        i <= r <= end,
{
    proof {
        lemma_skip_ws(s@, i as int, end as int);
    }
    let mut k = i;
    while k < end && white_space(s[k])
        invariant
            i <= k <= end <= s.len(),
            skip_ws(s@, i as int, end as int) == skip_ws(s@, k as int, end as int),
        decreases end - k,
    {
        k = k + 1;
    }
    k
}

/// Back over white space from `j`, not past `lo`.
pub fn back_white(s: &[char], lo: usize, j: usize) -> (r: usize)
    requires
        lo <= j <= s.len(),
    ensures
        r == back_ws(s@, lo as int, j as int),
        lo <= r <= j,
{
    proof {
        lemma_back_ws(s@, lo as int, j as int);
    }
    let mut k = j;
    while k > lo && white_space(s[k - 1])
        invariant
            lo <= k <= j <= s.len(),
            back_ws(s@, lo as int, j as int) == back_ws(s@, lo as int, k as int),
        decreases k - lo,
    {
        k = k - 1;
    }
    k
}

/// The first index at or after `i` holding `c`, or the length.
pub fn find_char(s: &[char], c: char, i: usize) -> (r: usize)
    requires
        i <= s.len(),
    ensures
        r == find_from(s@, c, i as int),
        i <= r <= s.len(),
{
    proof {
        lemma_find_from(s@, c, i as int);
    }
    let mut k = i;
    while k < s.len() && s[k] != c
        invariant
            i <= k <= s.len(),
            find_from(s@, c, i as int) == find_from(s@, c, k as int),
        decreases s.len() - k,
    {
        k = k + 1;
    }
    k
}

/// Whether the literal `p` occurs in `s` at index `i`.
pub fn starts_at(s: &[char], i: usize, p: &str) -> (r: bool)
    requires
        i <= s.len(),
    ensures
        r == occurs_at(s@, i as int, p@),
{
    let pc = text_of(p).chars;
    if pc.len() > s.len() - i {
        return false;
    }
    let mut k: usize = 0;
    while k < pc.len()
        invariant
            pc@ == p@,
            i + pc.len() <= s.len(),
            0 <= k <= pc.len(),
            forall|m: int| 0 <= m < k ==> s@[i + m] == pc@[m],
        decreases pc.len() - k,
    {
        if s[i + k] != pc[k] {
            proof {
                assert(s@.subrange(i as int, i + pc.len())[k as int] != p@[k as int]);
            }
            return false;
        }
        k = k + 1;
    }
    proof {
        assert(s@.subrange(i as int, i + pc.len()) =~= p@);
    }
    true
}

/// The first index at or after `i` at which `p` occurs; the length if
/// none does.
pub open spec fn find_str(s: Seq<char>, p: Seq<char>, i: int) -> int
    decreases s.len() - i,
{
    if i >= s.len() {
        s.len() as int
    } else if occurs_at(s, i, p) {
        i
    } else {
        find_str(s, p, i + 1)
    }
}

pub proof fn lemma_find_str(s: Seq<char>, p: Seq<char>, i: int)
    requires
        0 <= i <= s.len(),
    ensures
        i <= find_str(s, p, i) <= s.len(),
    decreases s.len() - i,
{
    if i < s.len() && !occurs_at(s, i, p) {
        lemma_find_str(s, p, i + 1);
    }
}

/// The first index at or after `i` at which the literal `p` occurs, or the
/// length.
pub fn find_literal(s: &[char], p: &str, i: usize) -> (r: usize)
    requires
        i <= s.len(),
    ensures
        r == find_str(s@, p@, i as int),
        i <= r <= s.len(),
{
    proof {
        lemma_find_str(s@, p@, i as int);
    }
    let mut k = i;
    while k < s.len() && !starts_at(s, k, p)
        invariant
            i <= k <= s.len(),
            find_str(s@, p@, i as int) == find_str(s@, p@, k as int),
        decreases s.len() - k,
    {
        k = k + 1;
    }
    k
}

/// Whether `c` is one of the quote characters trimmed off a key: `"`,
/// and with `single` also `'`.
pub open spec fn is_quote(c: char, single: bool) -> bool {
    c == '"' || (single && c == '\'')
}

/// The first index at or after `i`, and before `end`, that is not a quote.
pub open spec fn skip_quotes(s: Seq<char>, i: int, end: int, single: bool) -> int
    decreases end - i,
{
    if i < end && 0 <= i < s.len() && is_quote(s[i], single) {
        skip_quotes(s, i + 1, end, single)
    } else {
        i
    }
}

/// Back over quotes from `j`, not past `lo`.
pub open spec fn back_quotes(s: Seq<char>, lo: int, j: int, single: bool) -> int
    decreases j - lo,
{
    if j > lo && 0 < j <= s.len() && is_quote(s[j - 1], single) {
        back_quotes(s, lo, j - 1, single)
    } else {
        j
    }
}

pub proof fn lemma_quotes(s: Seq<char>, i: int, end: int, single: bool)
    requires
        0 <= i <= end <= s.len(),
    ensures
        i <= skip_quotes(s, i, end, single) <= end,
        skip_quotes(s, i, end, single) <= back_quotes(s, skip_quotes(s, i, end, single), end, single)
            <= end,
    decreases end - i,
{
    if i < end && is_quote(s[i], single) {
        lemma_quotes(s, i + 1, end, single);
    } else {
        lemma_back_quotes(s, i, end, single);
    }
}

pub proof fn lemma_back_quotes(s: Seq<char>, lo: int, j: int, single: bool)
    requires
        0 <= lo <= j <= s.len(),
    ensures
        lo <= back_quotes(s, lo, j, single) <= j,
    decreases j - lo,
{
    if j > lo && is_quote(s[j - 1], single) {
        lemma_back_quotes(s, lo, j - 1, single);
    }
}

/// The characters `[i, end)` with quotes trimmed from both ends.
pub fn trim_quotes(s: &[char], i: usize, end: usize, single: bool) -> (r: (usize, usize))
    requires
        i <= end <= s.len(),
    ensures
        r.0 == skip_quotes(s@, i as int, end as int, single),
        r.1 == back_quotes(s@, r.0 as int, end as int, single),
        i <= r.0 <= r.1 <= end,
{
    proof {
        lemma_quotes(s@, i as int, end as int, single);
    }
    let mut k = i;
    while k < end && (s[k] == '"' || (single && s[k] == '\''))
        invariant
            i <= k <= end <= s.len(),
            skip_quotes(s@, i as int, end as int, single) == skip_quotes(
                s@,
                k as int,
                end as int,
                single,
            ),
        decreases end - k,
    {
        k = k + 1;
    }
    let mut m = end;
    while m > k && (s[m - 1] == '"' || (single && s[m - 1] == '\''))
        invariant
            k <= m <= end <= s.len(),
            back_quotes(s@, k as int, end as int, single) == back_quotes(
                s@,
                k as int,
                m as int,
                single,
            ),
        decreases m - k,
    {
        m = m - 1;
    }
    (k, m)
}

} // verus!
