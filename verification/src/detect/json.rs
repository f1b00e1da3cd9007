//! Key paths in JSON, and the escape sequences inside its strings.
//!
//! A scanner over the raw text, not a parser over a tree: it keeps one
//! frame per open object or array, names a value by the keys and indices
//! it is nested under (`metrics.headline.eyebrow`, `rows.[2].id`), and
//! reads on past anything malformed. A document it cannot make sense of
//! loses key paths, never findings.
//!
//! It is also the one reader that knows an escape rule: inside a JSON
//! string `\n` is a line feed, not the letter `n`, so the ranges of the
//! escape sequences are handed to the word splitter and no word is built
//! across one. A `\uXXXX` escape covers all six characters.

use super::locate::{joined_path, join_chars, ordered, spans_view, within, KeySpan, KeySpanView};
use super::yaml::index_segment;
use crate::text::{byte_len, lemma_byte_len_monotone, offset_of, push_decimal, slice_chars, string_of, text_of, Text};
use std::ops::Range;
use vstd::prelude::*;

verus! {

/// One open container, as a value.
pub ghost struct FrameView {
    pub array: bool,
    pub index: nat,
    pub key: Seq<char>,
    pub value_next: bool,
}

/// The scanner's state after some prefix of the document, as a value.
/// Positions are character indices.
#[verifier::ext_equal]
pub ghost struct ScanView {
    pub frames: Seq<FrameView>,
    /// The index of the open string's quote, and whether it is a key.
    pub string_from: Option<(int, bool)>,
    /// The start of an open escape, and what it still accepts: 5 right
    /// after the backslash, then the hex digits a `\u` escape still takes.
    pub escape: Option<(int, nat)>,
    pub scalar_from: Option<int>,
    pub spans: Seq<(int, int, Seq<char>)>,
    pub escapes: Seq<(int, int)>,
}

pub open spec fn is_json_space(c: char) -> bool {
    c == ' ' || c == '\t' || c == '\n' || c == '\r'
}

pub open spec fn is_structural(c: char) -> bool {
    c == '{' || c == '}' || c == '[' || c == ']' || c == ',' || c == ':' || c == '"'
}

pub open spec fn is_hex_digit(c: char) -> bool {
    ('0' <= c && c <= '9') || ('a' <= c && c <= 'f') || ('A' <= c && c <= 'F')
}

pub open spec fn segment(f: FrameView) -> Seq<char> {
    if f.array {
        index_segment(f.index)
    } else {
        f.key
    }
}

/// The key path of a value in the innermost open frame.
pub open spec fn frames_path(frames: Seq<FrameView>) -> Seq<char> {
    joined_path(frames.map_values(|f: FrameView| segment(f)))
}

pub open spec fn initial() -> ScanView {
    ScanView {
        frames: seq![],
        string_from: None,
        escape: None,
        scalar_from: None,
        spans: seq![],
        escapes: seq![],
    }
}

/// A character inside a string, with no escape open.
pub open spec fn string_char(s: ScanView, cs: Seq<char>, i: int) -> ScanView {
    let c = cs[i];
    if c == '\\' {
        ScanView { escape: Some((i, 5nat)), ..s }
    } else if c == '"' {
        let (from, is_key) = s.string_from->0;
        if is_key {
            let top = s.frames.last();
            ScanView {
                frames: s.frames.update(
                    s.frames.len() - 1,
                    FrameView { key: cs.subrange(from + 1, i), ..top },
                ),
                string_from: None,
                ..s
            }
        } else {
            ScanView {
                spans: s.spans.push((from, i + 1, frames_path(s.frames))),
                string_from: None,
                ..s
            }
        }
    } else {
        s
    }
}

/// A character outside every string, with no scalar open.
pub open spec fn structure_char(s: ScanView, cs: Seq<char>, i: int) -> ScanView {
    let c = cs[i];
    let has_top = s.frames.len() > 0;
    let top = s.frames.last();
    if c == '"' {
        ScanView {
            string_from: Some((i, has_top && !top.array && !top.value_next)),
            ..s
        }
    } else if c == '{' {
        ScanView {
            frames: s.frames.push(FrameView { array: false, index: 0, key: seq![], value_next: false }),
            ..s
        }
    } else if c == '[' {
        ScanView {
            frames: s.frames.push(FrameView { array: true, index: 0, key: seq![], value_next: false }),
            ..s
        }
    } else if c == '}' || c == ']' {
        if has_top {
            ScanView { frames: s.frames.drop_last(), ..s }
        } else {
            s
        }
    } else if c == ',' {
        if !has_top {
            s
        } else if top.array {
            ScanView {
                frames: s.frames.update(s.frames.len() - 1, FrameView { index: top.index + 1, ..top }),
                ..s
            }
        } else {
            ScanView {
                frames: s.frames.update(
                    s.frames.len() - 1,
                    FrameView { key: seq![], value_next: false, ..top },
                ),
                ..s
            }
        }
    } else if c == ':' {
        if has_top && !top.array {
            ScanView {
                frames: s.frames.update(s.frames.len() - 1, FrameView { value_next: true, ..top }),
                ..s
            }
        } else {
            s
        }
    } else if is_json_space(c) {
        s
    } else {
        ScanView { scalar_from: Some(i), ..s }
    }
}

/// A character outside every string. A bare scalar (a number, `true`,
/// `false`, `null`) ends at white space or punctuation.
pub open spec fn outside_char(s: ScanView, cs: Seq<char>, i: int) -> ScanView {
    let c = cs[i];
    match s.scalar_from {
        Some(from) => if is_json_space(c) || is_structural(c) {
            structure_char(
                ScanView {
                    spans: s.spans.push((from, i, frames_path(s.frames))),
                    scalar_from: None,
                    ..s
                },
                cs,
                i,
            )
        } else {
            s
        },
        None => structure_char(s, cs, i),
    }
}

/// What the character at index `i` does to the scanner.
pub open spec fn json_step(s: ScanView, cs: Seq<char>, i: int) -> ScanView {
    let c = cs[i];
    match s.escape {
        Some((start, pending)) => if pending == 5 {
            if c == 'u' {
                ScanView { escape: Some((start, 4nat)), ..s }
            } else {
                ScanView { escape: None, escapes: s.escapes.push((start, i + 1)), ..s }
            }
        } else if is_hex_digit(c) {
            if pending <= 1 {
                ScanView { escape: None, escapes: s.escapes.push((start, i + 1)), ..s }
            } else {
                ScanView { escape: Some((start, (pending - 1) as nat)), ..s }
            }
        } else {
            string_char(ScanView { escape: None, escapes: s.escapes.push((start, i)), ..s }, cs, i)
        },
        None => if s.string_from is Some {
            string_char(s, cs, i)
        } else {
            outside_char(s, cs, i)
        },
    }
}

/// The scanner after the first `n` characters.
pub open spec fn json_run(cs: Seq<char>, n: int) -> ScanView
    decreases n,
{
    if n <= 0 {
        initial()
    } else {
        json_step(json_run(cs, n - 1), cs, n - 1)
    }
}

/// At the end of the document, a bare scalar still open ends there.
pub open spec fn json_finish(s: ScanView, n: int) -> ScanView {
    match s.scalar_from {
        Some(from) => ScanView {
            spans: s.spans.push((from, n, frames_path(s.frames))),
            scalar_from: None,
            ..s
        },
        None => s,
    }
}

pub open spec fn json_final(cs: Seq<char>) -> ScanView {
    json_finish(json_run(cs, cs.len() as int), cs.len() as int)
}

/// The value regions of a JSON document, by byte offsets.
pub open spec fn json_spans(cs: Seq<char>) -> Seq<KeySpanView> {
    json_final(cs).spans.map_values(
        |e: (int, int, Seq<char>)|
            KeySpanView { start: offset_of(cs, e.0), end: offset_of(cs, e.1), path: e.2 },
    )
}

/// The escape sequences inside the strings of a JSON document, by byte
/// offsets.
pub open spec fn json_escapes(cs: Seq<char>) -> Seq<(nat, nat)> {
    json_run(cs, cs.len() as int).escapes.map_values(
        |e: (int, int)| (offset_of(cs, e.0), offset_of(cs, e.1)),
    )
}

/// Character-index ranges in order, without overlap, ending by `limit`.
pub open spec fn runs_ordered(r: Seq<(int, int)>, limit: int) -> bool {
    &&& forall|k: int| 0 <= k < r.len() ==> 0 <= (#[trigger] r[k]).0 <= r[k].1 <= limit
    &&& forall|k: int, m: int| 0 <= k < m < r.len() ==> (#[trigger] r[k]).1 <= (#[trigger] r[m]).0
}

pub open spec fn span_runs(spans: Seq<(int, int, Seq<char>)>) -> Seq<(int, int)> {
    spans.map_values(|e: (int, int, Seq<char>)| (e.0, e.1))
}

/// What holds of the scanner after the first `i` characters: everything
/// recorded is ordered and behind `i`, and whatever is open started after
/// everything recorded.
pub open spec fn scan_inv(s: ScanView, i: int) -> bool {
    &&& runs_ordered(span_runs(s.spans), i)
    &&& runs_ordered(s.escapes, i)
    &&& (s.string_from matches Some((from, _)) ==> 0 <= from < i && forall|k: int|
        0 <= k < s.spans.len() ==> (#[trigger] s.spans[k]).1 <= from)
    &&& (s.scalar_from matches Some(from) ==> 0 <= from < i && forall|k: int|
        0 <= k < s.spans.len() ==> (#[trigger] s.spans[k]).1 <= from)
    &&& (s.escape matches Some((start, _)) ==> 0 <= start < i && s.string_from is Some
        && forall|k: int| 0 <= k < s.escapes.len() ==> (#[trigger] s.escapes[k]).1 <= start)
    &&& (s.scalar_from is Some ==> s.string_from is None)
}

proof fn lemma_push_run(r: Seq<(int, int)>, limit: int, a: int, b: int, next: int)
    requires
        runs_ordered(r, limit),
        forall|k: int| 0 <= k < r.len() ==> (#[trigger] r[k]).1 <= a,
        0 <= a <= b <= next,
        limit <= next,
    ensures
        runs_ordered(r.push((a, b)), next),
{
    let p = r.push((a, b));
    assert forall|k: int, m: int| 0 <= k < m < p.len() implies (#[trigger] p[k]).1 <= (
    #[trigger] p[m]).0 by {
        if m < r.len() {
            assert(p[k] == r[k] && p[m] == r[m]);
        } else {
            assert(p[k] == r[k]);
        }
    }
    assert forall|k: int| 0 <= k < p.len() implies 0 <= (#[trigger] p[k]).0 <= p[k].1 <= next by {
        if k < r.len() {
            assert(p[k] == r[k]);
        }
    }
}

proof fn lemma_span_runs_push(spans: Seq<(int, int, Seq<char>)>, e: (int, int, Seq<char>))
    ensures
        span_runs(spans.push(e)) == span_runs(spans).push((e.0, e.1)),
{
    assert(span_runs(spans.push(e)) =~= span_runs(spans).push((e.0, e.1)));
}

proof fn lemma_runs_grow(r: Seq<(int, int)>, limit: int, next: int)
    requires
        runs_ordered(r, limit),
        limit <= next,
    ensures
        runs_ordered(r, next),
{
}

proof fn lemma_step_inv(s: ScanView, cs: Seq<char>, i: int)
    requires
        0 <= i < cs.len(),
        scan_inv(s, i),
    ensures
        scan_inv(json_step(s, cs, i), i + 1),
{
    let c = cs[i];
    assert forall|k: int| 0 <= k < s.spans.len() implies (#[trigger] s.spans[k]).1 <= i by {
        assert(span_runs(s.spans)[k] == (s.spans[k].0, s.spans[k].1));
    }
    lemma_runs_grow(span_runs(s.spans), i, i + 1);
    lemma_runs_grow(s.escapes, i, i + 1);
    match s.escape {
        Some((start, pending)) => {
            if pending == 5 {
                if c != 'u' {
                    lemma_push_run(s.escapes, i, start, i + 1, i + 1);
                }
            } else if is_hex_digit(c) {
                if pending <= 1 {
                    lemma_push_run(s.escapes, i, start, i + 1, i + 1);
                }
            } else {
                lemma_push_run(s.escapes, i, start, i, i + 1);
                let s1 = ScanView { escape: None, escapes: s.escapes.push((start, i)), ..s };
                lemma_string_char_inv(s1, cs, i);
            }
        },
        None => {
            if s.string_from is Some {
                lemma_string_char_inv(s, cs, i);
            } else {
                match s.scalar_from {
                    Some(from) => {
                        if is_json_space(c) || is_structural(c) {
                            let e = (from, i, frames_path(s.frames));
                            lemma_span_runs_push(s.spans, e);
                            lemma_push_run(span_runs(s.spans), i, from, i, i + 1);
                            let s1 = ScanView {
                                spans: s.spans.push(e),
                                scalar_from: None,
                                ..s
                            };
                            assert forall|k: int| 0 <= k < s1.spans.len() implies (
                            #[trigger] s1.spans[k]).1 <= i by {
                                if k < s.spans.len() {
                                    assert(s1.spans[k] == s.spans[k]);
                                }
                            }
                            lemma_structure_inv(s1, cs, i);
                        }
                    },
                    None => {
                        lemma_structure_inv(s, cs, i);
                    },
                }
            }
        },
    }
}

proof fn lemma_string_char_inv(s: ScanView, cs: Seq<char>, i: int)
    requires
        0 <= i < cs.len(),
        s.escape is None,
        s.string_from is Some,
        s.scalar_from is None,
        runs_ordered(span_runs(s.spans), i + 1),
        runs_ordered(s.escapes, i + 1),
        s.string_from matches Some((from, _)) ==> 0 <= from < i && forall|k: int|
            0 <= k < s.spans.len() ==> (#[trigger] s.spans[k]).1 <= from,
        forall|k: int| 0 <= k < s.escapes.len() ==> (#[trigger] s.escapes[k]).1 <= i,
    ensures
        scan_inv(string_char(s, cs, i), i + 1),
{
    let c = cs[i];
    if c == '"' {
        let (from, is_key) = s.string_from->0;
        if !is_key {
            let e = (from, i + 1, frames_path(s.frames));
            lemma_span_runs_push(s.spans, e);
            lemma_push_run(span_runs(s.spans), i + 1, from, i + 1, i + 1);
        }
    }
}

proof fn lemma_structure_inv(s: ScanView, cs: Seq<char>, i: int)
    requires
        0 <= i < cs.len(),
        s.escape is None,
        s.string_from is None,
        s.scalar_from is None,
        runs_ordered(span_runs(s.spans), i + 1),
        runs_ordered(s.escapes, i + 1),
        forall|k: int| 0 <= k < s.spans.len() ==> (#[trigger] s.spans[k]).1 <= i,
    ensures
        scan_inv(structure_char(s, cs, i), i + 1),
{
}

proof fn lemma_run_inv(cs: Seq<char>, n: int)
    requires
        0 <= n <= cs.len(),
    ensures
        scan_inv(json_run(cs, n), n),
    decreases n,
{
    if n > 0 {
        lemma_run_inv(cs, n - 1);
        lemma_step_inv(json_run(cs, n - 1), cs, n - 1);
    }
}

proof fn lemma_bytes_ordered(cs: Seq<char>, r: Seq<(int, int)>)
    requires
        runs_ordered(r, cs.len() as int),
    ensures
        forall|k: int|
            0 <= k < r.len() ==> offset_of(cs, (#[trigger] r[k]).0) <= offset_of(cs, r[k].1)
                <= byte_len(cs),
        forall|k: int, m: int|
            0 <= k < m < r.len() ==> offset_of(cs, (#[trigger] r[k]).1) <= offset_of(
                cs,
                (#[trigger] r[m]).0,
            ),
{
    assert(cs.take(cs.len() as int) =~= cs);
    assert forall|k: int| 0 <= k < r.len() implies offset_of(cs, (#[trigger] r[k]).0) <= offset_of(
        cs,
        r[k].1,
    ) <= byte_len(cs) by {
        lemma_byte_len_monotone(cs, r[k].0, r[k].1);
        lemma_byte_len_monotone(cs, r[k].1, cs.len() as int);
    }
    assert forall|k: int, m: int| 0 <= k < m < r.len() implies offset_of(cs, (#[trigger] r[k]).1)
        <= offset_of(cs, (#[trigger] r[m]).0) by {
        lemma_byte_len_monotone(cs, r[k].1, r[m].0);
    }
}

/// What the structural characters do between values, outside every string.
/// `[` and `{` open a container nested in the ones already open, an array
/// starting at index 0. A comma moves on: in an array to the next index,
/// in an object to the next member, whose name is not yet read. A colon in
/// an object makes the next string a value, and until then a string there
/// is a member's name. The containers around the innermost one are never
/// touched.
pub proof fn lemma_json_structure(s: ScanView, cs: Seq<char>, i: int)
    requires
        0 <= i < cs.len(),
        s.escape is None,
        s.string_from is None,
    ensures
        cs[i] == '[' ==> json_step(s, cs, i).frames == s.frames.push(
            FrameView { array: true, index: 0, key: seq![], value_next: false },
        ),
        cs[i] == '{' ==> json_step(s, cs, i).frames == s.frames.push(
            FrameView { array: false, index: 0, key: seq![], value_next: false },
        ),
        cs[i] == ',' && s.frames.len() > 0 && s.frames.last().array ==> json_step(s, cs, i).frames
            == s.frames.update(
            s.frames.len() - 1,
            FrameView { index: s.frames.last().index + 1, ..s.frames.last() },
        ),
        cs[i] == ',' && s.frames.len() > 0 && !s.frames.last().array ==> json_step(s, cs, i).frames
            == s.frames.update(
            s.frames.len() - 1,
            FrameView { key: seq![], value_next: false, ..s.frames.last() },
        ),
        cs[i] == ':' && s.frames.len() > 0 && !s.frames.last().array ==> json_step(s, cs, i).frames
            == s.frames.update(s.frames.len() - 1, FrameView { value_next: true, ..s.frames.last() }),
        cs[i] == '"' ==> json_step(s, cs, i).string_from == Some(
            (i, s.frames.len() > 0 && !s.frames.last().array && !s.frames.last().value_next),
        ) && json_step(s, cs, i).frames == s.frames,
        (cs[i] == ']' || cs[i] == '}') && s.frames.len() > 0 ==> json_step(s, cs, i).frames
            == s.frames.drop_last(),
{
}

/// Closing a string that names a member makes it the name the member's
/// value is found under; closing any other string makes a span named by
/// the containers open around it.
pub proof fn lemma_json_strings(s: ScanView, cs: Seq<char>, i: int, from: int, is_key: bool)
    requires
        0 <= i < cs.len(),
        cs[i] == '"',
        s.escape is None,
        s.string_from == Some((from, is_key)),
        is_key ==> s.frames.len() > 0,
    ensures
        is_key ==> json_step(s, cs, i).frames == s.frames.update(
            s.frames.len() - 1,
            FrameView { key: cs.subrange(from + 1, i), ..s.frames.last() },
        ) && json_step(s, cs, i).spans == s.spans,
        !is_key ==> json_step(s, cs, i).spans == s.spans.push((from, i + 1, frames_path(s.frames)))
            && json_step(s, cs, i).frames == s.frames,
        json_step(s, cs, i).string_from is None,
{
}

/// The spans a JSON document yields are in document order, do not
/// overlap, and lie inside it.
pub proof fn lemma_json_spans_ordered(cs: Seq<char>)
    ensures
        ordered(json_spans(cs)),
        within(json_spans(cs), byte_len(cs)),
{
    let n = cs.len() as int;
    lemma_run_inv(cs, n);
    let s = json_run(cs, n);
    let f = json_final(cs);
    match s.scalar_from {
        Some(from) => {
            let e = (from, n, frames_path(s.frames));
            lemma_span_runs_push(s.spans, e);
            lemma_push_run(span_runs(s.spans), n, from, n, n);
        },
        None => {},
    }
    let r = span_runs(f.spans);
    lemma_bytes_ordered(cs, r);
    let v = json_spans(cs);
    assert forall|k: int| 0 <= k < v.len() implies (#[trigger] v[k]).start <= v[k].end && v[k].end
        <= byte_len(cs) by {
        assert(r[k] == (f.spans[k].0, f.spans[k].1));
    }
    assert forall|k: int, m: int| 0 <= k < m < v.len() implies (#[trigger] v[k]).end <= (
    #[trigger] v[m]).start by {
        assert(r[k] == (f.spans[k].0, f.spans[k].1));
        assert(r[m] == (f.spans[m].0, f.spans[m].1));
    }
}

/// The escape ranges of a JSON document are in document order, do not
/// overlap, and lie inside it: what the word splitter requires of them.
pub proof fn lemma_json_escapes_ordered(cs: Seq<char>)
    ensures
        forall|k: int|
            0 <= k < json_escapes(cs).len() ==> (#[trigger] json_escapes(cs)[k]).0 <= json_escapes(
                cs,
            )[k].1 <= byte_len(cs),
        forall|k: int, m: int|
            0 <= k < m < json_escapes(cs).len() ==> (#[trigger] json_escapes(cs)[k]).1 <= (
            #[trigger] json_escapes(cs)[m]).0,
{
    let n = cs.len() as int;
    lemma_run_inv(cs, n);
    let r = json_run(cs, n).escapes;
    lemma_bytes_ordered(cs, r);
}

pub struct Frame {
    pub array: bool,
    pub index: usize,
    pub key: Vec<char>,
    pub value_next: bool,
}

impl View for Frame {
    type V = FrameView;

    open spec fn view(&self) -> FrameView {
        FrameView { array: self.array, index: self.index as nat, key: self.key@, value_next: self.value_next }
    }
}

/// The scanner.
pub struct Scanner {
    pub frames: Vec<Frame>,
    pub string_from: Option<(usize, bool)>,
    pub escape: Option<(usize, u8)>,
    pub scalar_from: Option<usize>,
    pub spans: Vec<(usize, usize, Vec<char>)>,
    pub escapes: Vec<(usize, usize)>,
}

impl View for Scanner {
    type V = ScanView;

    open spec fn view(&self) -> ScanView {
        ScanView {
            frames: self.frames@.map_values(|f: Frame| f@),
            string_from: match self.string_from {
                Some((from, key)) => Some((from as int, key)),
                None => None,
            },
            escape: match self.escape {
                Some((start, pending)) => Some((start as int, pending as nat)),
                None => None,
            },
            scalar_from: match self.scalar_from {
                Some(from) => Some(from as int),
                None => None,
            },
            spans: self.spans@.map_values(
                |e: (usize, usize, Vec<char>)| (e.0 as int, e.1 as int, e.2@),
            ),
            escapes: self.escapes@.map_values(|e: (usize, usize)| (e.0 as int, e.1 as int)),
        }
    }
}

fn copy_chars(v: &Vec<char>) -> (r: Vec<char>)
    ensures
        r@ == v@,
{
    let r = slice_chars(v.as_slice(), 0, v.len());
    proof {
        assert(v@.subrange(0, v@.len() as int) =~= v@);
    }
    r
}

fn segment_of(f: &Frame) -> (r: Vec<char>)
    ensures
        r@ == segment(f@),
{
    if f.array {
        let mut out: Vec<char> = Vec::new();
        out.push('[');
        push_decimal(&mut out, f.index as u64);
        out.push(']');
        proof {
            assert(out@ =~= index_segment(f.index as nat));
        }
        out
    } else {
        copy_chars(&f.key)
    }
}

/// The key path of a value in the innermost open frame.
fn current_path(frames: &Vec<Frame>) -> (r: Vec<char>)
    ensures
        r@ == frames_path(frames@.map_values(|f: Frame| f@)),
{
    let mut segments: Vec<Vec<char>> = Vec::new();
    let mut i: usize = 0;
    while i < frames.len()
        invariant
            0 <= i <= frames.len(),
            segments@.map_values(|s: Vec<char>| s@) == frames@.map_values(|f: Frame| f@).map_values(
                |f: FrameView| segment(f),
            ).take(i as int),
        decreases frames.len() - i,
    {
        let ghost before = segments@.map_values(|s: Vec<char>| s@);
        segments.push(segment_of(&frames[i]));
        proof {
            let all = frames@.map_values(|f: Frame| f@).map_values(|f: FrameView| segment(f));
            assert(all.take(i + 1) =~= all.take(i as int).push(all[i as int]));
            assert(segments@.map_values(|s: Vec<char>| s@) =~= before.push(all[i as int]));
        }
        i = i + 1;
    }
    proof {
        let all = frames@.map_values(|f: Frame| f@).map_values(|f: FrameView| segment(f));
        assert(all.take(frames.len() as int) =~= all);
    }
    join_chars(&segments)
}

fn hex_digit_char(c: char) -> (r: bool)
    ensures
        r == is_hex_digit(c),
{
    ('0' <= c && c <= '9') || ('a' <= c && c <= 'f') || ('A' <= c && c <= 'F')
}

impl Scanner {
    pub fn new() -> (r: Self)
        ensures
            r@ =~= initial(),
            r.frames.len() == 0,
    {
        Scanner {
            frames: Vec::new(),
            string_from: None,
            escape: None,
            scalar_from: None,
            spans: Vec::new(),
            escapes: Vec::new(),
        }
    }

    fn string_char(&mut self, cs: &Vec<char>, i: usize)
        requires
            i < cs.len(),
            old(self).string_from is Some,
            old(self)@.string_from matches Some((from, _)) ==> 0 <= from < i,
            old(self)@.string_from matches Some((from, true)) ==> old(self).frames.len() > 0,
        ensures
            final(self)@ =~= string_char(old(self)@, cs@, i as int),
            final(self).frames.len() == old(self).frames.len(),
            forall|k: int| 0 <= k < final(self).frames.len() ==> (#[trigger] final(self).frames@[k]).index
                == old(self).frames@[k].index,
    {
        let c = cs[i];
        if c == '\\' {
            self.escape = Some((i, 5));
        } else if c == '"' {
            let (from, is_key) = match self.string_from {
                Some(p) => p,
                None => (0, false),
            };
            if is_key {
                let last = self.frames.len() - 1;
                let key = slice_chars(cs.as_slice(), from + 1, i);
                let ghost fv = self@.frames;
                let ghost kv = key@;
                self.frames[last].key = key;
                self.string_from = None;
                proof {
                    assert forall|k: int| 0 <= k < self.frames.len() implies (#[trigger] self.frames@[k]).index
                        == old(self).frames@[k].index by {
                        if k != last {
                            assert(self.frames@[k] == old(self).frames@[k]);
                        }
                    }
                    assert(self@.frames =~= fv.update(last as int, FrameView { key: kv, ..fv.last() }));
                }
            } else {
                let path = current_path(&self.frames);
                let ghost sv = self@.spans;
                let ghost pv = path@;
                self.spans.push((from, i + 1, path));
                self.string_from = None;
                proof {
                    assert(self@.spans =~= sv.push((from as int, i + 1, pv)));
                }
            }
        }
    }

    fn structure_char(&mut self, cs: &Vec<char>, i: usize)
        requires
            i < cs.len(),
            forall|k: int| 0 <= k < old(self).frames.len() ==> (#[trigger] old(self).frames@[k]).index
                <= i,
        ensures
            final(self)@ =~= structure_char(old(self)@, cs@, i as int),
            forall|k: int| 0 <= k < final(self).frames.len() ==> (#[trigger] final(self).frames@[k]).index <= i + 1,
    {
        let c = cs[i];
        let has_top = self.frames.len() > 0;
        let ghost fv = self@.frames;
        if c == '"' {
            let is_key = has_top && !self.frames[self.frames.len() - 1].array
                && !self.frames[self.frames.len() - 1].value_next;
            self.string_from = Some((i, is_key));
        } else if c == '{' {
            self.frames.push(Frame { array: false, index: 0, key: Vec::new(), value_next: false });
            proof {
                assert(self@.frames =~= fv.push(
                    FrameView { array: false, index: 0, key: seq![], value_next: false },
                ));
            }
        } else if c == '[' {
            self.frames.push(Frame { array: true, index: 0, key: Vec::new(), value_next: false });
            proof {
                assert(self@.frames =~= fv.push(
                    FrameView { array: true, index: 0, key: seq![], value_next: false },
                ));
            }
        } else if c == '}' || c == ']' {
            if has_top {
                let _ = self.frames.pop();
                proof {
                    assert(self@.frames =~= fv.drop_last());
                }
            }
        } else if c == ',' {
            if has_top {
                let last = self.frames.len() - 1;
                if self.frames[last].array {
                    let next = self.frames[last].index + 1;
                    self.frames[last].index = next;
                    proof {
                        assert(self@.frames =~= fv.update(
                            last as int,
                            FrameView { index: fv.last().index + 1, ..fv.last() },
                        ));
                    }
                } else {
                    self.frames[last].key = Vec::new();
                    self.frames[last].value_next = false;
                    proof {
                        assert(self@.frames =~= fv.update(
                            last as int,
                            FrameView { key: seq![], value_next: false, ..fv.last() },
                        ));
                    }
                }
            }
        } else if c == ':' {
            if has_top && !self.frames[self.frames.len() - 1].array {
                let last = self.frames.len() - 1;
                self.frames[last].value_next = true;
                proof {
                    assert(self@.frames =~= fv.update(last as int, FrameView { value_next: true, ..fv.last() }));
                }
            }
        } else if c == ' ' || c == '\t' || c == '\n' || c == '\r' {
        } else {
            self.scalar_from = Some(i);
        }
        proof {
            assert forall|k: int| 0 <= k < self.frames.len() implies (#[trigger] self.frames@[k]).index
                <= i + 1 by {
                if k < old(self).frames.len() {
                    if self.frames@[k].index != old(self).frames@[k].index {
                        assert(self.frames@[k].index == old(self).frames@[k].index + 1);
                    }
                }
            }
        }
    }

    /// What the character at index `i` does to the scanner.
    pub fn step(&mut self, cs: &Vec<char>, i: usize)
        requires
            i < cs.len(),
            scan_inv(old(self)@, i as int),
            old(self)@.string_from matches Some((_, true)) ==> old(self).frames.len() > 0,
            forall|k: int| 0 <= k < old(self).frames.len() ==> (#[trigger] old(self).frames@[k]).index
                <= i,
        ensures
            final(self)@ =~= json_step(old(self)@, cs@, i as int),
            final(self)@.string_from matches Some((_, true)) ==> final(self).frames.len() > 0,
            forall|k: int| 0 <= k < final(self).frames.len() ==> (#[trigger] final(self).frames@[k]).index <= i + 1,
    {
        let c = cs[i];
        let ghost fv = self@.frames;
        match self.escape {
            Some((start, pending)) => {
                if pending == 5 {
                    if c == 'u' {
                        self.escape = Some((start, 4));
                    } else {
                        let ghost ev = self@.escapes;
                        self.escape = None;
                        self.escapes.push((start, i + 1));
                        proof {
                            assert(self@.escapes =~= ev.push((start as int, i + 1)));
                        }
                    }
                } else if hex_digit_char(c) {
                    if pending <= 1 {
                        let ghost ev = self@.escapes;
                        self.escape = None;
                        self.escapes.push((start, i + 1));
                        proof {
                            assert(self@.escapes =~= ev.push((start as int, i + 1)));
                        }
                    } else {
                        self.escape = Some((start, pending - 1));
                    }
                } else {
                    let ghost ev = self@.escapes;
                    self.escape = None;
                    self.escapes.push((start, i));
                    proof {
                        assert(self@.escapes =~= ev.push((start as int, i as int)));
                    }
                    self.string_char(cs, i);
                }
            },
            None => {
                if self.string_from.is_some() {
                    self.string_char(cs, i);
                } else {
                    match self.scalar_from {
                        Some(from) => {
                            if c == ' ' || c == '\t' || c == '\n' || c == '\r' || c == '{' || c == '}'
                                || c == '[' || c == ']' || c == ',' || c == ':' || c == '"' {
                                let path = current_path(&self.frames);
                                let ghost sv = self@.spans;
                                let ghost pv = path@;
                                self.spans.push((from, i, path));
                                self.scalar_from = None;
                                proof {
                                    assert(self@.spans =~= sv.push((from as int, i as int, pv)));
                                }
                                self.structure_char(cs, i);
                            }
                        },
                        None => {
                            self.structure_char(cs, i);
                        },
                    }
                }
            },
        }
    }
}

/// Scans a document. The ranges are character indices.
pub fn scan(text: &Text) -> (r: Scanner)
    requires
        text.wf(),
    ensures
        r@ =~= json_run(text.chars@, text.chars.len() as int),
{
    let mut scanner = Scanner::new();
    let mut i: usize = 0;
    while i < text.chars.len()
        invariant
            text.wf(),
            0 <= i <= text.chars.len(),
            scanner@ == json_run(text.chars@, i as int),
            scanner@.string_from matches Some((_, true)) ==> scanner.frames.len() > 0,
            forall|k: int| 0 <= k < scanner.frames.len() ==> (#[trigger] scanner.frames@[k]).index
                <= i,
        decreases text.chars.len() - i,
    {
        proof {
            lemma_run_inv(text.chars@, i as int);
        }
        scanner.step(&text.chars, i);
        i = i + 1;
    }
    scanner
}

/// The value regions of a JSON document, each named by the keys and
/// indices it is nested under.
pub fn key_spans(content: &str) -> (r: Vec<KeySpan>)
    ensures
        spans_view(r@) == json_spans(content@),
        ordered(spans_view(r@)),
        within(spans_view(r@), byte_len(content@)),
{
    let text = text_of(content);
    let mut scanner = scan(&text);
    let n = text.chars.len();
    match scanner.scalar_from {
        Some(from) => {
            let path = current_path(&scanner.frames);
            let ghost sv = scanner@.spans;
            let ghost pv = path@;
            scanner.spans.push((from, n, path));
            proof {
                assert(scanner@.spans =~= sv.push((from as int, n as int, pv)));
            }
        },
        None => {},
    }
    let ghost fin = json_final(content@);
    proof {
        lemma_run_inv(content@, n as int);
        assert(scanner@.spans == fin.spans);
        lemma_json_spans_ordered(content@);
        match json_run(content@, n as int).scalar_from {
            Some(from) => {
                lemma_span_runs_push(json_run(content@, n as int).spans, (from, n as int, frames_path(json_run(content@, n as int).frames)));
                lemma_push_run(span_runs(json_run(content@, n as int).spans), n as int, from, n as int, n as int);
            },
            None => {},
        }
    }
    let mut out: Vec<KeySpan> = Vec::new();
    let mut k: usize = 0;
    while k < scanner.spans.len()
        invariant
            text.wf(),
            text.chars@ == content@,
            n == content@.len(),
            scanner@.spans == fin.spans,
            fin == json_final(content@),
            json_spans(content@).len() == scanner.spans.len(),
            runs_ordered(span_runs(fin.spans), n as int),
            0 <= k <= scanner.spans.len(),
            spans_view(out@) == json_spans(content@).take(k as int),
        decreases scanner.spans.len() - k,
    {
        let (a, b) = (scanner.spans[k].0, scanner.spans[k].1);
        proof {
            assert(span_runs(fin.spans)[k as int] == (fin.spans[k as int].0, fin.spans[k as int].1));
            assert(scanner@.spans[k as int] == fin.spans[k as int]);
            assert(text.offsets@[a as int] == offset_of(content@, a as int));
            assert(text.offsets@[b as int] == offset_of(content@, b as int));
        }
        let path = string_of(scanner.spans[k].2.as_slice());
        proof {
            let e = fin.spans[k as int];
            assert(e == (a as int, b as int, scanner.spans@[k as int].2@));
            assert(k < fin.spans.len());
            assert(path@ == e.2);
            assert(json_spans(content@)[k as int] == KeySpanView {
                start: offset_of(content@, e.0),
                end: offset_of(content@, e.1),
                path: e.2,
            });
            assert(json_spans(content@)[k as int] == KeySpanView {
                start: offset_of(content@, a as int),
                end: offset_of(content@, b as int),
                path: path@,
            });
        }
        let ghost before = spans_view(out@);
        out.push(KeySpan { start: text.offsets[a], end: text.offsets[b], path });
        proof {
            let all = json_spans(content@);
            assert(all.take(k + 1) =~= all.take(k as int).push(all[k as int]));
            assert(spans_view(out@) =~= before.push(all[k as int]));
        }
        k = k + 1;
    }
    proof {
        assert(json_spans(content@).take(scanner.spans.len() as int) =~= json_spans(content@));
    }
    out
}

/// The byte ranges of the escape sequences inside a JSON document's
/// strings, in document order.
pub fn escape_spans(content: &str) -> (r: Vec<Range<usize>>)
    ensures
        r@.map_values(|e: Range<usize>| (e.start as nat, e.end as nat)) == json_escapes(content@),
{
    let text = text_of(content);
    let scanner = scan(&text);
    let n = text.chars.len();
    let ghost run = json_run(content@, n as int);
    proof {
        lemma_run_inv(content@, n as int);
    }
    let mut out: Vec<Range<usize>> = Vec::new();
    let mut k: usize = 0;
    while k < scanner.escapes.len()
        invariant
            text.wf(),
            text.chars@ == content@,
            n == content@.len(),
            scanner@.escapes == run.escapes,
            json_escapes(content@).len() == scanner.escapes.len(),
            run == json_run(content@, n as int),
            runs_ordered(run.escapes, n as int),
            0 <= k <= scanner.escapes.len(),
            out@.map_values(|e: Range<usize>| (e.start as nat, e.end as nat)) == json_escapes(
                content@,
            ).take(k as int),
        decreases scanner.escapes.len() - k,
    {
        let (a, b) = scanner.escapes[k];
        proof {
            assert(scanner@.escapes[k as int] == run.escapes[k as int]);
            assert(text.offsets@[a as int] == offset_of(content@, a as int));
            assert(text.offsets@[b as int] == offset_of(content@, b as int));
        }
        let ghost before = out@.map_values(|e: Range<usize>| (e.start as nat, e.end as nat));
        out.push(Range { start: text.offsets[a], end: text.offsets[b] });
        proof {
            let all = json_escapes(content@);
            assert(all.take(k + 1) =~= all.take(k as int).push(all[k as int]));
            assert(out@.map_values(|e: Range<usize>| (e.start as nat, e.end as nat)) =~= before.push(
                all[k as int],
            ));
        }
        k = k + 1;
    }
    proof {
        assert(json_escapes(content@).take(scanner.escapes.len() as int) =~= json_escapes(content@));
    }
    out
}

} // verus!
