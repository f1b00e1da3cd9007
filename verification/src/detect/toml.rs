//! Key paths in TOML: a table header, and one key per line.
//!
//! A line scanner, not a parser, and the limit is worth naming: an array
//! or an inline table spread over several lines has its key on the first
//! of them, so a value on a continuation line carries no key path. That
//! costs a key path, never a finding.
//!
//! Both `[table]` and `[[array of tables]]` set the prefix. The array
//! index is deliberately not tracked: TOML gives no way to know it without
//! holding the whole document, and a wrong index is worse than none.

use super::ini::{qualified, qualify};
use super::locate::{
    bounded_by, lemma_append_ordered, lemma_lines_ordered, line_ranges, lines_of, optional_span,
    ordered, spans_view, within, KeySpan, KeySpanView,
};
use crate::text::{
    back_quotes, back_white, back_ws, byte_len, find_char, find_from, lemma_byte_len_monotone,
    lemma_find_from, lemma_quotes, offset_of, skip_quotes, skip_white, trim_quotes, skip_ws, slice_chars, string_of, text_of, Text,
};
use vstd::prelude::*;

verus! {

/// The name inside `[table]` or `[[array]]`, trimmed, for a trimmed line
/// `[ts, te)` that is a header.
pub open spec fn header_name(l: Seq<char>, ts: int, te: int) -> Option<Seq<char>> {
    if te - ts >= 2 && l[ts] == '[' && l[te - 1] == ']' {
        let (is, ie) = if te - ts >= 4 && l[ts + 1] == '[' && l[te - 2] == ']' {
            (ts + 2, te - 2)
        } else {
            (ts + 1, te - 1)
        };
        let ns = skip_ws(l, is, ie);
        Some(l.subrange(ns, back_ws(l, ns, ie)))
    } else {
        None
    }
}

/// What one line does: the table it leaves in force, and the span it
/// makes, for a line whose content is the characters `[a, b)`.
pub open spec fn toml_step(cs: Seq<char>, a: int, b: int, table: Seq<char>) -> (
    Seq<char>,
    Option<KeySpanView>,
) {
    let l = cs.subrange(a, b);
    let n = l.len() as int;
    let ts = skip_ws(l, 0, n);
    let te = back_ws(l, ts, n);
    if ts >= te || l[ts] == '#' {
        (table, None)
    } else if header_name(l, ts, te) is Some {
        (header_name(l, ts, te)->0, None)
    } else {
        let eq = find_from(l, '=', 0);
        if eq >= n {
            (table, None)
        } else {
            let ks = skip_ws(l, 0, eq);
            let ke = back_ws(l, ks, eq);
            let qs = skip_quotes(l, ks, ke, false);
            let qe = back_quotes(l, qs, ke, false);
            if qs >= qe {
                (table, None)
            } else {
                (
                    table,
                    Some(
                        KeySpanView {
                            start: offset_of(cs, a + eq + 1),
                            end: offset_of(cs, b),
                            path: qualified(table, l.subrange(qs, qe)),
                        },
                    ),
                )
            }
        }
    }
}

/// The table in force after the lines listed, and the spans they made.
pub open spec fn toml_fold(cs: Seq<char>, ls: Seq<(int, int)>) -> (Seq<char>, Seq<KeySpanView>)
    decreases ls.len(),
{
    if ls.len() == 0 {
        (seq![], seq![])
    } else {
        let (table, spans) = toml_fold(cs, ls.drop_last());
        let (next, span) = toml_step(cs, ls.last().0, ls.last().1, table);
        (next, spans + optional_span(span))
    }
}

/// The value regions of a TOML document.
pub open spec fn toml_spans(cs: Seq<char>) -> Seq<KeySpanView> {
    toml_fold(cs, lines_of(cs)).1
}

proof fn lemma_step_in_line(cs: Seq<char>, a: int, b: int, table: Seq<char>)
    requires
        0 <= a <= b <= cs.len(),
    ensures
        bounded_by(optional_span(toml_step(cs, a, b, table).1), offset_of(cs, a), offset_of(cs, b)),
        ordered(optional_span(toml_step(cs, a, b, table).1)),
{
    let l = cs.subrange(a, b);
    lemma_find_from(l, '=', 0);
    let eq = find_from(l, '=', 0);
    if eq < l.len() {
        lemma_byte_len_monotone(cs, a, a + eq + 1);
        lemma_byte_len_monotone(cs, a + eq + 1, b);
    }
}

proof fn lemma_toml_prefix(cs: Seq<char>, ls: Seq<(int, int)>, k: int)
    requires
        0 <= k <= ls.len(),
        forall|m: int| 0 <= m < ls.len() ==> 0 <= (#[trigger] ls[m]).0 <= ls[m].1 <= cs.len(),
        forall|m: int, p: int| 0 <= m < p < ls.len() ==> (#[trigger] ls[m]).1 <= (#[trigger] ls[p]).0,
    ensures
        ordered(toml_fold(cs, ls.take(k)).1),
        bounded_by(
            toml_fold(cs, ls.take(k)).1,
            0,
            if k == 0 {
                0
            } else {
                offset_of(cs, ls[k - 1].1)
            },
        ),
    decreases k,
{
    if k > 0 {
        lemma_toml_prefix(cs, ls, k - 1);
        let t = ls.take(k);
        assert(t.drop_last() =~= ls.take(k - 1));
        assert(t.last() == ls[k - 1]);
        let (a, b) = ls[k - 1];
        let table = toml_fold(cs, ls.take(k - 1)).0;
        lemma_step_in_line(cs, a, b, table);
        if k > 1 {
            lemma_byte_len_monotone(cs, ls[k - 2].1, a);
        }
        lemma_byte_len_monotone(cs, a, b);
        lemma_append_ordered(
            toml_fold(cs, ls.take(k - 1)).1,
            optional_span(toml_step(cs, a, b, table).1),
            0,
            offset_of(cs, a),
            offset_of(cs, b),
        );
    }
}

/// The spans of a TOML document are in document order, do not overlap,
/// and lie inside it.
pub proof fn lemma_toml_spans_ordered(cs: Seq<char>)
    ensures
        ordered(toml_spans(cs)),
        within(toml_spans(cs), byte_len(cs)),
{
    let ls = lines_of(cs);
    lemma_lines_ordered(cs, 0);
    lemma_toml_prefix(cs, ls, ls.len() as int);
    if ls.len() > 0 {
        lemma_byte_len_monotone(cs, ls.last().1, cs.len() as int);
    }
    assert(ls.take(ls.len() as int) =~= ls);
    assert(cs.take(cs.len() as int) =~= cs);
}

/// The table a line names, when it is a `[table]` or `[[array]]` header.
pub open spec fn line_header(cs: Seq<char>, a: int, b: int) -> Option<Seq<char>> {
    let l = cs.subrange(a, b);
    let ts = skip_ws(l, 0, l.len() as int);
    header_name(l, ts, back_ws(l, ts, l.len() as int))
}

proof fn lemma_step_table(cs: Seq<char>, a: int, b: int, table: Seq<char>)
    ensures
        toml_step(cs, a, b, table).0 == match line_header(cs, a, b) {
            Some(name) => name,
            None => table,
        },
{
}

/// The table in force after some lines is the one named by the last
/// header among them, whatever tables came before it; with no header
/// among them it is the root, named by nothing.
pub proof fn lemma_toml_table_in_force(cs: Seq<char>, ls: Seq<(int, int)>)
    ensures
        forall|j: int|
            0 <= j < ls.len() && (#[trigger] line_header(cs, ls[j].0, ls[j].1)) is Some && (forall|
                m: int,
            |
                j < m < ls.len() ==> line_header(cs, (#[trigger] ls[m]).0, ls[m].1) is None)
                ==> toml_fold(cs, ls).0 == line_header(cs, ls[j].0, ls[j].1)->0,
        (forall|m: int| 0 <= m < ls.len() ==> line_header(cs, (#[trigger] ls[m]).0, ls[m].1) is None)
            ==> toml_fold(cs, ls).0 == Seq::<char>::empty(),
    decreases ls.len(),
{
    if ls.len() > 0 {
        let p = ls.drop_last();
        lemma_toml_table_in_force(cs, p);
        lemma_step_table(cs, ls.last().0, ls.last().1, toml_fold(cs, p).0);
        assert forall|j: int|
            0 <= j < ls.len() && (#[trigger] line_header(cs, ls[j].0, ls[j].1)) is Some && (forall|
                m: int,
            |
                j < m < ls.len() ==> line_header(cs, (#[trigger] ls[m]).0, ls[m].1) is None)
                implies toml_fold(cs, ls).0 == line_header(cs, ls[j].0, ls[j].1)->0 by {
            if j < p.len() {
                assert(p[j] == ls[j]);
                assert forall|m: int| j < m < p.len() implies line_header(
                    cs,
                    (#[trigger] p[m]).0,
                    p[m].1,
                ) is None by {
                    assert(p[m] == ls[m]);
                }
                assert(line_header(cs, ls[ls.len() - 1].0, ls[ls.len() - 1].1) is None);
            }
        }
        if forall|m: int| 0 <= m < ls.len() ==> line_header(cs, (#[trigger] ls[m]).0, ls[m].1) is None {
            assert forall|m: int| 0 <= m < p.len() implies line_header(
                cs,
                (#[trigger] p[m]).0,
                p[m].1,
            ) is None by {
                assert(p[m] == ls[m]);
            }
            assert(line_header(cs, ls[ls.len() - 1].0, ls[ls.len() - 1].1) is None);
        }
    }
}

/// A key line is read under the nearest table header above it: the span it
/// makes is the one it makes with that header's table in force, whatever
/// headers came before that one.
pub proof fn lemma_toml_key_under_nearest_header(cs: Seq<char>, ls: Seq<(int, int)>, j: int, k: int)
    requires
        0 <= j < k < ls.len(),
        line_header(cs, ls[j].0, ls[j].1) is Some,
        forall|m: int| j < m < k ==> line_header(cs, (#[trigger] ls[m]).0, ls[m].1) is None,
    ensures
        toml_step(cs, ls[k].0, ls[k].1, toml_fold(cs, ls.take(k)).0).1 == toml_step(
            cs,
            ls[k].0,
            ls[k].1,
            line_header(cs, ls[j].0, ls[j].1)->0,
        ).1,
{
    let t = ls.take(k);
    assert(t[j] == ls[j]);
    assert forall|m: int| j < m < t.len() implies line_header(cs, (#[trigger] t[m]).0, t[m].1) is None by {
        assert(t[m] == ls[m]);
    }
    lemma_toml_table_in_force(cs, t);
}

/// The key a `key = value` line names: before its first `=`, trimmed and
/// unquoted, when that leaves something.
pub open spec fn line_key(cs: Seq<char>, a: int, b: int) -> Option<Seq<char>> {
    let l = cs.subrange(a, b);
    let n = l.len() as int;
    let ts = skip_ws(l, 0, n);
    let te = back_ws(l, ts, n);
    let eq = find_from(l, '=', 0);
    if ts >= te || l[ts] == '#' || header_name(l, ts, te) is Some || eq >= n {
        None
    } else {
        let ks = skip_ws(l, 0, eq);
        let ke = back_ws(l, ks, eq);
        let qs = skip_quotes(l, ks, ke, false);
        let qe = back_quotes(l, qs, ke, false);
        if qs >= qe {
            None
        } else {
            Some(l.subrange(qs, qe))
        }
    }
}

/// A key line makes a span, named by the nearest table header above it
/// joined to its key by a dot, or by the key alone when no header above it
/// names a table.
pub proof fn lemma_toml_key_path(cs: Seq<char>, ls: Seq<(int, int)>, k: int)
    requires
        0 <= k < ls.len(),
        line_key(cs, ls[k].0, ls[k].1) is Some,
    ensures
        toml_step(cs, ls[k].0, ls[k].1, toml_fold(cs, ls.take(k)).0).1 is Some,
        forall|j: int|
            0 <= j < k && (#[trigger] line_header(cs, ls[j].0, ls[j].1)) is Some && line_header(
                cs,
                ls[j].0,
                ls[j].1,
            )->0.len() > 0 && (forall|m: int|
                j < m < k ==> line_header(cs, (#[trigger] ls[m]).0, ls[m].1) is None) ==> toml_step(
                cs,
                ls[k].0,
                ls[k].1,
                toml_fold(cs, ls.take(k)).0,
            ).1->0.path == line_header(cs, ls[j].0, ls[j].1)->0 + "."@ + line_key(
                cs,
                ls[k].0,
                ls[k].1,
            )->0,
        (forall|m: int| 0 <= m < k ==> line_header(cs, (#[trigger] ls[m]).0, ls[m].1) is None)
            ==> toml_step(cs, ls[k].0, ls[k].1, toml_fold(cs, ls.take(k)).0).1->0.path == line_key(
            cs,
            ls[k].0,
            ls[k].1,
        )->0,
{
    let t = ls.take(k);
    lemma_toml_table_in_force(cs, t);
    assert forall|j: int|
        0 <= j < k && (#[trigger] line_header(cs, ls[j].0, ls[j].1)) is Some && line_header(
            cs,
            ls[j].0,
            ls[j].1,
        )->0.len() > 0 && (forall|m: int|
            j < m < k ==> line_header(cs, (#[trigger] ls[m]).0, ls[m].1) is None) implies toml_step(
        cs,
        ls[k].0,
        ls[k].1,
        toml_fold(cs, t).0,
    ).1->0.path == line_header(cs, ls[j].0, ls[j].1)->0 + "."@ + line_key(cs, ls[k].0, ls[k].1)->0 by {
        assert(t[j] == ls[j]);
        assert forall|m: int| j < m < t.len() implies line_header(cs, (#[trigger] t[m]).0, t[m].1) is None by {
            assert(t[m] == ls[m]);
        }
    }
    if forall|m: int| 0 <= m < k ==> line_header(cs, (#[trigger] ls[m]).0, ls[m].1) is None {
        assert forall|m: int| 0 <= m < t.len() implies line_header(cs, (#[trigger] t[m]).0, t[m].1) is None by {
            assert(t[m] == ls[m]);
        }
    }
}

/// The name inside `[table]` or `[[array]]`.
pub fn header(line: &[char], ts: usize, te: usize) -> (r: Option<Vec<char>>)
    requires
        ts <= te <= line.len(),
    ensures
        match r {
            Some(name) => header_name(line@, ts as int, te as int) == Some(name@),
            None => header_name(line@, ts as int, te as int) is None,
        },
{
    if te - ts >= 2 && line[ts] == '[' && line[te - 1] == ']' {
        let (is, ie) = if te - ts >= 4 && line[ts + 1] == '[' && line[te - 2] == ']' {
            (ts + 2, te - 2)
        } else {
            (ts + 1, te - 1)
        };
        let ns = skip_white(line, is, ie);
        let ne = back_white(line, ns, ie);
        Some(slice_chars(line, ns, ne))
    } else {
        None
    }
}

fn step(text: &Text, a: usize, b: usize, table: &mut Vec<char>) -> (r: Option<KeySpan>)
    requires
        text.wf(),
        a <= b <= text.chars.len(),
    ensures
        (final(table)@, match r {
            Some(s) => Some(s@),
            None => None::<KeySpanView>,
        }) == toml_step(text.chars@, a as int, b as int, old(table)@),
{
    let line = slice_chars(text.chars.as_slice(), a, b);
    let n = line.len();
    let ts = skip_white(line.as_slice(), 0, n);
    let te = back_white(line.as_slice(), ts, n);
    if ts >= te || line[ts] == '#' {
        return None;
    }
    match header(line.as_slice(), ts, te) {
        Some(name) => {
            *table = name;
            return None;
        },
        None => {},
    }
    let eq = find_char(line.as_slice(), '=', 0);
    if eq >= n {
        return None;
    }
    let ks = skip_white(line.as_slice(), 0, eq);
    let ke = back_white(line.as_slice(), ks, eq);
    let (qs, qe) = trim_quotes(line.as_slice(), ks, ke, false);
    if qs >= qe {
        return None;
    }
    let key = slice_chars(line.as_slice(), qs, qe);
    proof {
        assert(text.offsets@[a + eq + 1] == offset_of(text.chars@, a + eq + 1));
        assert(text.offsets@[b as int] == offset_of(text.chars@, b as int));
    }
    Some(KeySpan { start: text.offsets[a + eq + 1], end: text.offsets[b], path: qualify(table, &key) })
}

/// The value regions of a TOML document, each named by its table and
/// key.
pub fn key_spans(content: &str) -> (r: Vec<KeySpan>)
    ensures
        spans_view(r@) == toml_spans(content@),
        ordered(spans_view(r@)),
        within(spans_view(r@), byte_len(content@)),
{
    let text = text_of(content);
    let ranges = line_ranges(&text);
    let ghost ls = lines_of(content@);
    proof {
        lemma_lines_ordered(content@, 0);
        assert forall|k: int| 0 <= k < ranges.len() implies ranges@[k].0 as int == (
        #[trigger] ls[k]).0 && ranges@[k].1 as int == ls[k].1 by {
            assert(ranges@.map_values(|l: (usize, usize)| (l.0 as int, l.1 as int))[k] == ls[k]);
        }
        assert(ls.take(0) =~= Seq::<(int, int)>::empty());
    }
    let mut table: Vec<char> = Vec::new();
    let mut out: Vec<KeySpan> = Vec::new();
    let mut k: usize = 0;
    while k < ranges.len()
        invariant
            text.wf(),
            text.chars@ == content@,
            ls == lines_of(content@),
            ranges.len() == ls.len(),
            forall|m: int| 0 <= m < ranges.len() ==> ranges@[m].0 as int == (#[trigger] ls[m]).0
                && ranges@[m].1 as int == ls[m].1,
            forall|m: int| 0 <= m < ls.len() ==> 0 <= (#[trigger] ls[m]).0 <= ls[m].1 <= content@.len(),
            0 <= k <= ranges.len(),
            (table@, spans_view(out@)) == toml_fold(content@, ls.take(k as int)),
        decreases ranges.len() - k,
    {
        let (a, b) = ranges[k];
        proof {
            assert(ls[k as int].0 == a as int && ls[k as int].1 == b as int);
        }
        let ghost before = spans_view(out@);
        let found = step(&text, a, b, &mut table);
        match found {
            Some(s) => {
                out.push(s);
            },
            None => {},
        }
        proof {
            let t = ls.take(k + 1);
            assert(t.drop_last() =~= ls.take(k as int));
            assert(t.last() == ls[k as int]);
            assert(spans_view(out@) =~= before + optional_span(
                match found {
                    Some(s) => Some(s@),
                    None => None::<KeySpanView>,
                },
            ));
        }
        k = k + 1;
    }
    proof {
        assert(ls.take(ranges.len() as int) =~= ls);
        lemma_toml_spans_ordered(content@);
    }
    out
}

} // verus!
