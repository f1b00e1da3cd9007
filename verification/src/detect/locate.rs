//! Where a finding sits in the document's own vocabulary.
//!
//! A line and a column point at a place in a file; `metrics.headline.eyebrow`
//! points at a place in the document. Every format reader answers one
//! question: which byte ranges hold a value, and what is the key path of
//! each. Nothing here decides what a finding is, so a reader that is wrong
//! about a key path costs a key path and never a finding.
//!
//! The readers are line scanners over the raw text rather than parsers
//! over a tree, which keeps the offsets the raw document's.

use super::normalize::{lemma_line_end, line_end};
use crate::text::{offset_of, push_chars, push_str, string_of, text_of, Text};
use std::ops::Range;
use vstd::prelude::*;

verus! {

/// One value region, by byte offsets, and the key path that names it.
#[derive(Clone, Debug, PartialEq, Eq)]
pub struct KeySpan {
    pub start: usize,
    pub end: usize,
    pub path: String,
}

pub ghost struct KeySpanView {
    pub start: nat,
    pub end: nat,
    pub path: Seq<char>,
}

impl View for KeySpan {
    type V = KeySpanView;

    open spec fn view(&self) -> KeySpanView {
        KeySpanView { start: self.start as nat, end: self.end as nat, path: self.path@ }
    }
}

pub open spec fn spans_view(spans: Seq<KeySpan>) -> Seq<KeySpanView> {
    spans.map_values(|s: KeySpan| s@)
}

/// Spans in document order without overlap: what lets a lookup be a
/// binary search, and a lookup never answer with an outer key.
pub open spec fn ordered(spans: Seq<KeySpanView>) -> bool {
    &&& forall|i: int| 0 <= i < spans.len() ==> (#[trigger] spans[i]).start <= spans[i].end
    &&& forall|i: int, j: int|
        0 <= i < j < spans.len() ==> (#[trigger] spans[i]).end <= (#[trigger] spans[j]).start
}

/// Every span lies within a document of `len` bytes.
pub open spec fn within(spans: Seq<KeySpanView>, len: nat) -> bool {
    forall|i: int| 0 <= i < spans.len() ==> (#[trigger] spans[i]).end <= len
}

/// The key path covering a byte offset, if one does.
pub open spec fn path_at(spans: Seq<KeySpanView>, offset: nat) -> Option<Seq<char>> {
    if exists|i: int| 0 <= i < spans.len() && (#[trigger] spans[i]).start <= offset < spans[i].end {
        let i = choose|i: int| 0 <= i < spans.len() && (#[trigger] spans[i]).start <= offset < spans[i].end;
        Some(spans[i].path)
    } else {
        None
    }
}

/// The end of the content of the line `[i, j)`: before its line feed and
/// any carriage returns, so a file written on Windows shifts no column.
pub open spec fn content_end(cs: Seq<char>, i: int, j: int) -> int
    decreases j - i,
{
    if j > i && (cs[j - 1] == '\n' || cs[j - 1] == '\r') {
        content_end(cs, i, j - 1)
    } else {
        j
    }
}

/// The lines from index `i` on, as character index ranges of their
/// content. A trailing line feed adds no empty line.
pub open spec fn lines_from(cs: Seq<char>, i: int) -> Seq<(int, int)>
    decreases cs.len() - i,
{
    if i < 0 || i >= cs.len() {
        seq![]
    } else {
        proof {
            lemma_line_end(cs, i);
        }
        seq![(i, content_end(cs, i, line_end(cs, i)))] + lines_from(cs, line_end(cs, i))
    }
}

/// Every line of a document, as the character range of its content.
pub open spec fn lines_of(cs: Seq<char>) -> Seq<(int, int)> {
    lines_from(cs, 0)
}

pub proof fn lemma_content_end(cs: Seq<char>, i: int, j: int)
    requires
        0 <= i <= j <= cs.len(),
    ensures
        i <= content_end(cs, i, j) <= j,
    decreases j - i,
{
    if j > i && (cs[j - 1] == '\n' || cs[j - 1] == '\r') {
        lemma_content_end(cs, i, j - 1);
    }
}

/// Lines come in order, each one's content before the next one starts.
pub proof fn lemma_lines_ordered(cs: Seq<char>, i: int)
    requires
        0 <= i <= cs.len(),
    ensures
        forall|k: int|
            0 <= k < lines_from(cs, i).len() ==> i <= (#[trigger] lines_from(cs, i)[k]).0
                <= lines_from(cs, i)[k].1 <= cs.len(),
        forall|k: int, m: int|
            0 <= k < m < lines_from(cs, i).len() ==> (#[trigger] lines_from(cs, i)[k]).1
                <= (#[trigger] lines_from(cs, i)[m]).0,
    decreases cs.len() - i,
{
    if i < cs.len() {
        lemma_line_end(cs, i);
        let j = line_end(cs, i);
        lemma_content_end(cs, i, j);
        lemma_lines_ordered(cs, j);
        let all = lines_from(cs, i);
        let rest = lines_from(cs, j);
        assert(all == seq![(i, content_end(cs, i, j))] + rest);
        assert forall|k: int| 0 <= k < all.len() implies i <= (#[trigger] all[k]).0 <= all[k].1
            <= cs.len() by {
            if k > 0 {
                assert(all[k] == rest[k - 1]);
            }
        }
        assert forall|k: int, m: int| 0 <= k < m < all.len() implies (#[trigger] all[k]).1 <= (
        #[trigger] all[m]).0 by {
            assert(all[m] == rest[m - 1]);
            if k > 0 {
                assert(all[k] == rest[k - 1]);
            }
        }
    }
}

/// Every line of a document, as character ranges of its content.
pub fn line_ranges(text: &Text) -> (r: Vec<(usize, usize)>)
    requires
        text.wf(),
    ensures
        r@.map_values(|l: (usize, usize)| (l.0 as int, l.1 as int)) == lines_of(text.chars@),
{
    let ghost cs = text.chars@;
    let n = text.chars.len();
    let mut out: Vec<(usize, usize)> = Vec::new();
    let mut i: usize = 0;
    proof {
        assert(out@.map_values(|l: (usize, usize)| (l.0 as int, l.1 as int)) + lines_from(cs, 0)
            =~= lines_of(cs));
    }
    while i < n
        invariant
            text.wf(),
            cs == text.chars@,
            n == cs.len(),
            0 <= i <= n,
            out@.map_values(|l: (usize, usize)| (l.0 as int, l.1 as int)) + lines_from(cs, i as int)
                == lines_of(cs),
        decreases n - i,
    {
        proof {
            lemma_line_end(cs, i as int);
        }
        let mut j: usize = i;
        while j < n && text.chars[j] != '\n'
            invariant
                text.wf(),
                cs == text.chars@,
                n == cs.len(),
                i <= j <= n,
                line_end(cs, i as int) == line_end(cs, j as int),
            decreases n - j,
        {
            j = j + 1;
        }
        if j < n {
            j = j + 1;
        }
        proof {
            assert(j as int == line_end(cs, i as int));
        }
        let mut e: usize = j;
        while e > i && (text.chars[e - 1] == '\n' || text.chars[e - 1] == '\r')
            invariant
                text.wf(),
                cs == text.chars@,
                n == cs.len(),
                i <= e <= j <= n,
                content_end(cs, i as int, j as int) == content_end(cs, i as int, e as int),
            decreases e - i,
        {
            e = e - 1;
        }
        let ghost before = out@.map_values(|l: (usize, usize)| (l.0 as int, l.1 as int));
        out.push((i, e));
        proof {
            assert(out@.map_values(|l: (usize, usize)| (l.0 as int, l.1 as int)) =~= before.push(
                (i as int, e as int),
            ));
            assert(before.push((i as int, e as int)) + lines_from(cs, j as int) =~= before
                + lines_from(cs, i as int));
        }
        i = j;
    }
    proof {
        assert(out@.map_values(|l: (usize, usize)| (l.0 as int, l.1 as int)) + lines_from(
            cs,
            n as int,
        ) =~= out@.map_values(|l: (usize, usize)| (l.0 as int, l.1 as int)));
    }
    out
}

/// Every line of a document with the byte offset it starts at, without
/// its line feed or carriage returns. A trailing line feed does not add
/// an empty line.
pub fn lines(content: &str) -> (r: Vec<(usize, String)>)
    ensures
        r.len() == lines_of(content@).len(),
        forall|k: int|
            0 <= k < r.len() ==> {
                let l = #[trigger] lines_of(content@)[k];
                &&& r@[k].0 == offset_of(content@, l.0)
                &&& r@[k].1@ == content@.subrange(l.0, l.1)
            },
{
    let text = text_of(content);
    let ranges = line_ranges(&text);
    let ghost ls = lines_of(content@);
    proof {
        lemma_lines_ordered(content@, 0);
        assert forall|k: int| 0 <= k < ranges.len() implies ranges@[k].0 as int == (
        #[trigger] ls[k]).0 && ranges@[k].1 as int == ls[k].1 by {
            assert(ranges@.map_values(|l: (usize, usize)| (l.0 as int, l.1 as int))[k] == ls[k]);
        }
    }
    let mut out: Vec<(usize, String)> = Vec::new();
    let mut k: usize = 0;
    while k < ranges.len()
        invariant
            text.wf(),
            text.chars@ == content@,
            ls == lines_of(content@),
            ranges.len() == ls.len(),
            forall|m: int| 0 <= m < ranges.len() ==> ranges@[m].0 as int == (#[trigger] ls[m]).0
                && ranges@[m].1 as int == ls[m].1,
            forall|m: int| 0 <= m < ls.len() ==> 0 <= (#[trigger] ls[m]).0 <= ls[m].1 <= content@.len(),
            0 <= k <= ranges.len(),
            out.len() == k,
            forall|m: int|
                0 <= m < k ==> {
                    let l = #[trigger] ls[m];
                    &&& out@[m].0 == offset_of(content@, l.0)
                    &&& out@[m].1@ == content@.subrange(l.0, l.1)
                },
        decreases ranges.len() - k,
    {
        let (a, b) = ranges[k];
        proof {
            assert(ls[k as int].0 == a as int);
        }
        let piece = crate::text::slice_chars(text.chars.as_slice(), a, b);
        proof {
            assert(text.offsets@[a as int] == offset_of(content@, a as int));
        }
        out.push((text.offsets[a], string_of(piece.as_slice())));
        k = k + 1;
    }
    out
}

/// Segments joined by `.`, skipping the empty ones a document's root
/// leaves.
pub open spec fn joined_path(segments: Seq<Seq<char>>) -> Seq<char>
    decreases segments.len(),
{
    if segments.len() == 0 {
        seq![]
    } else {
        let before = joined_path(segments.drop_last());
        let last = segments.last();
        if last.len() == 0 {
            before
        } else if before.len() == 0 {
            last
        } else {
            before + "."@ + last
        }
    }
}

pub fn join_chars(segments: &Vec<Vec<char>>) -> (r: Vec<char>)
    ensures
        r@ == joined_path(segments@.map_values(|s: Vec<char>| s@)),
{
    let ghost all = segments@.map_values(|s: Vec<char>| s@);
    let mut out: Vec<char> = Vec::new();
    let mut i: usize = 0;
    proof {
        assert(all.take(0) =~= Seq::<Seq<char>>::empty());
    }
    while i < segments.len()
        invariant
            all == segments@.map_values(|s: Vec<char>| s@),
            0 <= i <= segments.len(),
            out@ == joined_path(all.take(i as int)),
        decreases segments.len() - i,
    {
        proof {
            reveal_strlit(".");
            let t = all.take(i + 1);
            assert(t.drop_last() =~= all.take(i as int));
            assert(t.last() == segments@[i as int]@);
        }
        if segments[i].len() > 0 {
            if out.len() > 0 {
                out.push('.');
            }
            push_chars(&mut out, segments[i].as_slice());
        }
        i = i + 1;
    }
    proof {
        assert(all.take(segments.len() as int) =~= all);
    }
    out
}

/// A dotted path from its segments, skipping the empty ones.
pub fn join(segments: &[String]) -> (r: String)
    ensures
        r@ == joined_path(segments@.map_values(|s: String| s@)),
{
    let mut chars: Vec<Vec<char>> = Vec::new();
    let mut i: usize = 0;
    while i < segments.len()
        invariant
            0 <= i <= segments.len(),
            chars@.map_values(|s: Vec<char>| s@) == segments@.map_values(|s: String| s@).take(
                i as int,
            ),
        decreases segments.len() - i,
    {
        let ghost before = chars@.map_values(|s: Vec<char>| s@);
        chars.push(text_of(segments[i].as_str()).chars);
        proof {
            assert(chars@.map_values(|s: Vec<char>| s@) =~= before.push(segments@[i as int]@));
            assert(segments@.map_values(|s: String| s@).take(i + 1) =~= segments@.map_values(
                |s: String| s@,
            ).take(i as int).push(segments@[i as int]@));
        }
        i = i + 1;
    }
    proof {
        assert(segments@.map_values(|s: String| s@).take(segments.len() as int)
            =~= segments@.map_values(|s: String| s@));
    }
    let out = join_chars(&chars);
    string_of(out.as_slice())
}

/// The key path covering a byte offset, if one does. A binary search: the
/// spans are in document order. An offset in a gap between two values (a
/// key name, a comma, whitespace) is under neither.
pub fn key_at(spans: &[KeySpan], offset: usize) -> (r: Option<&str>)
    requires
        ordered(spans_view(spans@)),
    ensures
        match r {
            Some(path) => path_at(spans_view(spans@), offset as nat) == Some(path@),
            None => path_at(spans_view(spans@), offset as nat) is None,
        },
{
    let ghost sv = spans_view(spans@);
    let mut low: usize = 0;
    let mut high: usize = spans.len();
    while low < high
        invariant
            sv == spans_view(spans@),
            ordered(sv),
            0 <= low <= high <= spans.len(),
            forall|i: int| 0 <= i < low ==> (#[trigger] sv[i]).start <= offset,
            forall|i: int| high <= i < spans.len() ==> (#[trigger] sv[i]).start > offset,
        decreases high - low,
    {
        let mid = low + (high - low) / 2;
        proof {
            assert(sv[mid as int] == spans@[mid as int]@);
        }
        if spans[mid].start <= offset {
            proof {
                assert forall|i: int| 0 <= i <= mid implies (#[trigger] sv[i]).start <= offset by {
                    if i < mid {
                        assert(sv[i].start <= sv[i].end);
                        assert(sv[i].end <= sv[mid as int].start);
                    }
                }
            }
            low = mid + 1;
        } else {
            proof {
                assert forall|i: int| mid <= i < spans.len() implies (#[trigger] sv[i]).start
                    > offset by {
                    if i > mid {
                        assert(sv[mid as int].start <= sv[mid as int].end);
                        assert(sv[mid as int].end <= sv[i].start);
                    }
                }
            }
            high = mid;
        }
    }
    if low == 0 {
        proof {
            assert(!exists|i: int| 0 <= i < sv.len() && (#[trigger] sv[i]).start <= offset < sv[i].end);
        }
        return None;
    }
    let last = low - 1;
    proof {
        assert(sv[last as int] == spans@[last as int]@);
    }
    if offset < spans[last].end {
        proof {
            assert(sv[last as int].start <= offset < sv[last as int].end);
            let i = choose|i: int| 0 <= i < sv.len() && (#[trigger] sv[i]).start <= offset < sv[i].end;
            if i < last {
                assert(sv[i].end <= sv[last as int].start);
            } else if i > last {
                assert(false);
            }
            assert(i == last);
        }
        Some(spans[last].path.as_str())
    } else {
        proof {
            assert forall|i: int| 0 <= i < sv.len() implies !((#[trigger] sv[i]).start <= offset
                && offset < sv[i].end) by {
                if i < last {
                    assert(sv[i].end <= sv[last as int].start);
                }
            }
        }
        None
    }
}

/// Every span starts at or after `lo` and ends at or before `hi`.
pub open spec fn bounded_by(spans: Seq<KeySpanView>, lo: nat, hi: nat) -> bool {
    forall|i: int| 0 <= i < spans.len() ==> lo <= (#[trigger] spans[i]).start && spans[i].end <= hi
}

pub open spec fn optional_span(span: Option<KeySpanView>) -> Seq<KeySpanView> {
    match span {
        Some(s) => seq![s],
        None => seq![],
    }
}

/// Two ordered runs, the first ending before the second starts, make one.
pub proof fn lemma_append_ordered(a: Seq<KeySpanView>, b: Seq<KeySpanView>, lo: nat, mid: nat, hi: nat)
    requires
        ordered(a),
        ordered(b),
        bounded_by(a, lo, mid),
        bounded_by(b, mid, hi),
        lo <= mid <= hi,
    ensures
        ordered(a + b),
        bounded_by(a + b, lo, hi),
{
    let ab = a + b;
    assert forall|i: int, j: int| 0 <= i < j < ab.len() implies (#[trigger] ab[i]).end <= (
    #[trigger] ab[j]).start by {
        if j < a.len() {
            assert(ab[i] == a[i] && ab[j] == a[j]);
        } else if i >= a.len() {
            assert(ab[i] == b[i - a.len()] && ab[j] == b[j - a.len()]);
        } else {
            assert(ab[i] == a[i] && ab[j] == b[j - a.len()]);
            assert(b[j - a.len()].start >= mid);
        }
    }
    assert forall|i: int| 0 <= i < ab.len() implies (#[trigger] ab[i]).start <= ab[i].end by {
        if i < a.len() {
            assert(ab[i] == a[i]);
        } else {
            assert(ab[i] == b[i - a.len()]);
        }
    }
    assert forall|i: int| 0 <= i < ab.len() implies lo <= (#[trigger] ab[i]).start && ab[i].end
        <= hi by {
        if i < a.len() {
            assert(ab[i] == a[i]);
        } else {
            assert(ab[i] == b[i - a.len()]);
        }
    }
}

/// The value regions of a document, by reader key. The plain-text
/// fallback has none, which is the honest answer: a `.md` file has no
/// keys, so its findings carry a line and column and nothing else.
pub open spec fn format_spans(cs: Seq<char>, format: Seq<char>) -> Seq<KeySpanView> {
    if format == "json"@ {
        super::json::json_spans(cs)
    } else if format == "yaml"@ {
        super::yaml::yaml_spans(cs)
    } else if format == "toml"@ {
        super::toml::toml_spans(cs)
    } else if format == "ini"@ {
        super::ini::ini_spans(cs)
    } else if format == "env"@ {
        super::dotenv::env_spans(cs)
    } else if format == "csv"@ {
        super::csv::csv_spans(cs, ',')
    } else if format == "tsv"@ {
        super::csv::csv_spans(cs, '\t')
    } else {
        seq![]
    }
}

/// Byte ranges a word may not be built across, by reader key. Only JSON
/// declares any: it is the one place the grammar settles it.
pub open spec fn format_escapes(cs: Seq<char>, format: Seq<char>) -> Seq<(nat, nat)> {
    if format == "json"@ {
        super::json::json_escapes(cs)
    } else {
        seq![]
    }
}

/// The value regions of a document, by reader key.
pub fn key_spans(content: &str, format: &str) -> (r: Vec<KeySpan>)
    ensures
        spans_view(r@) == format_spans(content@, format@),
        ordered(spans_view(r@)),
        within(spans_view(r@), crate::text::byte_len(content@)),
{
    let f = text_of(format).chars;
    if crate::text::equals_str(f.as_slice(), "json") {
        super::json::key_spans(content)
    } else if crate::text::equals_str(f.as_slice(), "yaml") {
        super::yaml::key_spans(content)
    } else if crate::text::equals_str(f.as_slice(), "toml") {
        super::toml::key_spans(content)
    } else if crate::text::equals_str(f.as_slice(), "ini") {
        super::ini::key_spans(content)
    } else if crate::text::equals_str(f.as_slice(), "env") {
        super::dotenv::key_spans(content)
    } else if crate::text::equals_str(f.as_slice(), "csv") {
        let r = super::csv::key_spans(content, super::csv::COMMA);
        proof {
            assert(((super::csv::COMMA as u32) as char) == ',');
        }
        r
    } else if crate::text::equals_str(f.as_slice(), "tsv") {
        let r = super::csv::key_spans(content, super::csv::TAB);
        proof {
            assert(((super::csv::TAB as u32) as char) == '\t');
        }
        r
    } else {
        let r: Vec<KeySpan> = Vec::new();
        proof {
            assert(spans_view(r@) =~= Seq::<KeySpanView>::empty());
        }
        r
    }
}

/// Byte ranges that a word may not be built across, by reader key.
pub fn escape_spans(content: &str, format: &str) -> (r: Vec<Range<usize>>)
    ensures
        r@.map_values(|e: Range<usize>| (e.start as nat, e.end as nat)) == format_escapes(
            content@,
            format@,
        ),
        super::scripts::escapes_ordered(r@),
{
    let f = text_of(format).chars;
    if crate::text::equals_str(f.as_slice(), "json") {
        let r = super::json::escape_spans(content);
        proof {
            super::json::lemma_json_escapes_ordered(content@);
            let v = r@.map_values(|e: Range<usize>| (e.start as nat, e.end as nat));
            assert forall|i: int| 0 <= i < r@.len() implies (#[trigger] r@[i]).start <= r@[i].end by {
                assert(v[i] == (r@[i].start as nat, r@[i].end as nat));
            }
            assert forall|i: int, j: int| 0 <= i < j < r@.len() implies (#[trigger] r@[i]).end <= (
            #[trigger] r@[j]).start by {
                assert(v[i] == (r@[i].start as nat, r@[i].end as nat));
                assert(v[j] == (r@[j].start as nat, r@[j].end as nat));
            }
        }
        r
    } else {
        let r: Vec<Range<usize>> = Vec::new();
        proof {
            assert(r@.map_values(|e: Range<usize>| (e.start as nat, e.end as nat)) =~= Seq::<
                (nat, nat),
            >::empty());
        }
        r
    }
}

} // verus!
