//! Key paths in `.env` files: one key, one value, one line.
//!
//! A no-break space or a zero-width joiner inside a secret is a value
//! that compares unequal to the one that was meant, and
//! `STRIPE_SECRET_KEY` says which one far faster than a line number.

use super::locate::{
    bounded_by, lemma_append_ordered, lemma_lines_ordered, line_ranges, lines_of, optional_span,
    ordered, spans_view, within, KeySpan, KeySpanView,
};
use crate::text::{
    back_white, back_ws, byte_len, find_char, find_from, find_literal, find_str,
    lemma_byte_len_monotone, occurs_at, offset_of, skip_white, skip_ws, slice_chars,
    starts_at, string_of, text_of, Text,
};
use vstd::prelude::*;

verus! {

/// How far a value runs, in characters from just after the `=`. A `#`
/// inside a quoted value is part of it, so a comment is only cut off an
/// unquoted one.
pub open spec fn value_len(raw: Seq<char>) -> int {
    let body = skip_ws(raw, 0, raw.len() as int);
    if body < raw.len() && (raw[body] == '"' || raw[body] == '\'') {
        raw.len() as int
    } else {
        find_str(raw, " #"@, body)
    }
}

/// The span one line of a `.env` file makes: the line's content is the
/// characters `[a, b)` of the document.
pub open spec fn env_span(cs: Seq<char>, a: int, b: int) -> Option<KeySpanView> {
    let l = cs.subrange(a, b);
    let n = l.len() as int;
    let t = skip_ws(l, 0, n);
    if t >= n || l[t] == '#' {
        None
    } else {
        let e = find_from(l, '=', 0);
        if e >= n {
            None
        } else {
            let ds = skip_ws(l, 0, e);
            let de = back_ws(l, ds, e);
            let k0 = if ds + 7 <= de && occurs_at(l, ds, "export "@) {
                ds + 7
            } else {
                ds
            };
            let ks = skip_ws(l, k0, de);
            let ke = back_ws(l, ks, de);
            if ks >= ke {
                None
            } else {
                Some(
                    KeySpanView {
                        start: offset_of(cs, a + e + 1),
                        end: offset_of(cs, a + e + 1 + value_len(l.subrange(e + 1, n))),
                        path: l.subrange(ks, ke),
                    },
                )
            }
        }
    }
}

pub open spec fn env_spans_of(cs: Seq<char>, ls: Seq<(int, int)>) -> Seq<KeySpanView>
    decreases ls.len(),
{
    if ls.len() == 0 {
        seq![]
    } else {
        env_spans_of(cs, ls.drop_last()) + optional_span(env_span(cs, ls.last().0, ls.last().1))
    }
}

/// The value regions of a `.env` document.
pub open spec fn env_spans(cs: Seq<char>) -> Seq<KeySpanView> {
    env_spans_of(cs, lines_of(cs))
}

proof fn lemma_value_len(raw: Seq<char>)
    ensures
        0 <= value_len(raw) <= raw.len(),
{
    crate::text::lemma_skip_ws(raw, 0, raw.len() as int);
    let body = skip_ws(raw, 0, raw.len() as int);
    crate::text::lemma_find_str(raw, " #"@, body);
}

proof fn lemma_env_span_in_line(cs: Seq<char>, a: int, b: int)
    requires
        0 <= a <= b <= cs.len(),
    ensures
        bounded_by(optional_span(env_span(cs, a, b)), offset_of(cs, a), offset_of(cs, b)),
        ordered(optional_span(env_span(cs, a, b))),
{
    let l = cs.subrange(a, b);
    let n = l.len() as int;
    let e = find_from(l, '=', 0);
    crate::text::lemma_find_from(l, '=', 0);
    if e < n {
        lemma_value_len(l.subrange(e + 1, n));
        let v = value_len(l.subrange(e + 1, n));
        lemma_byte_len_monotone(cs, a, a + e + 1);
        lemma_byte_len_monotone(cs, a + e + 1, a + e + 1 + v);
        lemma_byte_len_monotone(cs, a + e + 1 + v, b);
    }
}

/// The spans of a `.env` document are in document order, do not overlap,
/// and lie inside it.
pub proof fn lemma_env_spans_ordered(cs: Seq<char>)
    ensures
        ordered(env_spans(cs)),
        within(env_spans(cs), byte_len(cs)),
{
    let ls = lines_of(cs);
    lemma_lines_ordered(cs, 0);
    lemma_env_prefix(cs, ls, ls.len() as int);
    if ls.len() > 0 {
        lemma_byte_len_monotone(cs, ls.last().1, cs.len() as int);
    }
    assert(ls.take(ls.len() as int) =~= ls);
    assert(cs.take(cs.len() as int) =~= cs);
}

proof fn lemma_env_prefix(cs: Seq<char>, ls: Seq<(int, int)>, k: int)
    requires
        0 <= k <= ls.len(),
        forall|m: int| 0 <= m < ls.len() ==> 0 <= (#[trigger] ls[m]).0 <= ls[m].1 <= cs.len(),
        forall|m: int, p: int| 0 <= m < p < ls.len() ==> (#[trigger] ls[m]).1 <= (#[trigger] ls[p]).0,
    ensures
        ordered(env_spans_of(cs, ls.take(k))),
        bounded_by(
            env_spans_of(cs, ls.take(k)),
            0,
            if k == 0 {
                0
            } else {
                offset_of(cs, ls[k - 1].1)
            },
        ),
    decreases k,
{
    if k > 0 {
        lemma_env_prefix(cs, ls, k - 1);
        let t = ls.take(k);
        assert(t.drop_last() =~= ls.take(k - 1));
        assert(t.last() == ls[k - 1]);
        let (a, b) = ls[k - 1];
        lemma_env_span_in_line(cs, a, b);
        let mid = if k == 1 {
            0
        } else {
            offset_of(cs, ls[k - 2].1)
        };
        if k > 1 {
            lemma_byte_len_monotone(cs, ls[k - 2].1, a);
        }
        lemma_byte_len_monotone(cs, a, b);
        lemma_append_ordered(
            env_spans_of(cs, ls.take(k - 1)),
            optional_span(env_span(cs, a, b)),
            0,
            offset_of(cs, a),
            offset_of(cs, b),
        );
    }
}

/// How far a value runs, in characters from just after the `=`.
pub fn value_length(raw: &[char]) -> (r: usize)
    ensures
        r == value_len(raw@),
{
    let body = skip_white(raw, 0, raw.len());
    if body < raw.len() && (raw[body] == '"' || raw[body] == '\'') {
        return raw.len();
    }
    find_literal(raw, " #", body)
}

/// The span of one line, whose content is the characters `[a, b)`.
pub fn span_of(text: &Text, a: usize, b: usize) -> (r: Option<KeySpan>)
    requires
        text.wf(),
        a <= b <= text.chars.len(),
    ensures
        match r {
            Some(s) => env_span(text.chars@, a as int, b as int) == Some(s@),
            None => env_span(text.chars@, a as int, b as int) is None,
        },
{
    let ghost cs = text.chars@;
    let line = slice_chars(text.chars.as_slice(), a, b);
    let n = line.len();
    let t = skip_white(line.as_slice(), 0, n);
    if t >= n || line[t] == '#' {
        return None;
    }
    let e = find_char(line.as_slice(), '=', 0);
    if e >= n {
        return None;
    }
    let ds = skip_white(line.as_slice(), 0, e);
    let de = back_white(line.as_slice(), ds, e);
    let k0 = if de >= 7 && ds <= de - 7 && starts_at(line.as_slice(), ds, "export ") {
        ds + 7
    } else {
        ds
    };
    let ks = skip_white(line.as_slice(), k0, de);
    let ke = back_white(line.as_slice(), ks, de);
    if ks >= ke {
        return None;
    }
    let raw = slice_chars(line.as_slice(), e + 1, n);
    let v = value_length(raw.as_slice());
    proof {
        lemma_value_len(raw@);
        assert(text.offsets@[a + e + 1] == offset_of(cs, a + e + 1));
        assert(text.offsets@[a + e + 1 + v] == offset_of(cs, a + e + 1 + v));
    }
    let key = slice_chars(line.as_slice(), ks, ke);
    Some(
        KeySpan {
            start: text.offsets[a + e + 1],
            end: text.offsets[a + e + 1 + v],
            path: string_of(key.as_slice()),
        },
    )
}

/// The value regions of a `.env` document, each named by its key.
pub fn key_spans(content: &str) -> (r: Vec<KeySpan>)
    ensures
        spans_view(r@) == env_spans(content@),
        ordered(spans_view(r@)),
        within(spans_view(r@), byte_len(content@)),
{
    let text = text_of(content);
    let ranges = line_ranges(&text);
    let ghost ls = lines_of(content@);
    proof {
        lemma_lines_ordered(content@, 0);
        assert forall|k: int| 0 <= k < ranges.len() implies ranges@[k].0 as int == (
        #[trigger] ls[k]).0 && ranges@[k].1 as int == ls[k].1 by {
            assert(ranges@.map_values(|l: (usize, usize)| (l.0 as int, l.1 as int))[k] == ls[k]);
        }
        assert(ls.take(0) =~= Seq::<(int, int)>::empty());
    }
    let mut out: Vec<KeySpan> = Vec::new();
    let mut k: usize = 0;
    while k < ranges.len()
        invariant
            text.wf(),
            text.chars@ == content@,
            ls == lines_of(content@),
            ranges.len() == ls.len(),
            forall|m: int| 0 <= m < ranges.len() ==> ranges@[m].0 as int == (#[trigger] ls[m]).0
                && ranges@[m].1 as int == ls[m].1,
            forall|m: int| 0 <= m < ls.len() ==> 0 <= (#[trigger] ls[m]).0 <= ls[m].1 <= content@.len(),
            0 <= k <= ranges.len(),
            spans_view(out@) == env_spans_of(content@, ls.take(k as int)),
        decreases ranges.len() - k,
    {
        let (a, b) = ranges[k];
        proof {
            assert(ls[k as int].0 == a as int && ls[k as int].1 == b as int);
        }
        let found = span_of(&text, a, b);
        let ghost before = spans_view(out@);
        match found {
            Some(s) => {
                out.push(s);
            },
            None => {},
        }
        proof {
            let t = ls.take(k + 1);
            assert(t.drop_last() =~= ls.take(k as int));
            assert(t.last() == ls[k as int]);
            assert(spans_view(out@) =~= before + optional_span(env_span(content@, a as int, b as int)));
        }
        k = k + 1;
    }
    proof {
        assert(ls.take(ranges.len() as int) =~= ls);
        lemma_env_spans_ordered(content@);
    }
    out
}

} // verus!
