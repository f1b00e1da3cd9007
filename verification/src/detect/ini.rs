//! Key paths in INI, `.cfg`, `.conf` and `.properties`: a section header
//! and one key per line.
//!
//! `;` and `#` both start a comment, because both are in use and a file
//! does not say which dialect it is. `=` separates a key from a value, and
//! `:` does too where no `=` is present, which is how a `.properties` file
//! writes it.

use super::locate::{
    bounded_by, lemma_append_ordered, lemma_lines_ordered, line_ranges, lines_of, optional_span,
    ordered, spans_view, within, KeySpan, KeySpanView,
};
use crate::text::{
    back_white, back_ws, byte_len, find_char, find_from, lemma_byte_len_monotone, lemma_find_from,
    offset_of, push_chars, skip_white, skip_ws, slice_chars, string_of, text_of, Text,
};
use vstd::prelude::*;

verus! {

/// `section.key`, or the key alone before any section.
pub open spec fn qualified(prefix: Seq<char>, key: Seq<char>) -> Seq<char> {
    if prefix.len() == 0 {
        key
    } else {
        prefix + "."@ + key
    }
}

/// `=` where there is one, else `:`. Asking for `=` first matters: a value
/// is very often a URL, and the first `:` of `url = https://x` is in it.
pub open spec fn separator_of(l: Seq<char>) -> int {
    if find_from(l, '=', 0) < l.len() {
        find_from(l, '=', 0)
    } else {
        find_from(l, ':', 0)
    }
}

/// What one line does: the section it leaves in force, and the span it
/// makes, for a line whose content is the characters `[a, b)`.
pub open spec fn ini_step(cs: Seq<char>, a: int, b: int, section: Seq<char>) -> (
    Seq<char>,
    Option<KeySpanView>,
) {
    let l = cs.subrange(a, b);
    let n = l.len() as int;
    let ts = skip_ws(l, 0, n);
    let te = back_ws(l, ts, n);
    if ts >= te || l[ts] == ';' || l[ts] == '#' {
        (section, None)
    } else if te - ts >= 2 && l[ts] == '[' && l[te - 1] == ']' {
        let ns = skip_ws(l, ts + 1, te - 1);
        (l.subrange(ns, back_ws(l, ns, te - 1)), None)
    } else {
        let sep = separator_of(l);
        if sep >= n {
            (section, None)
        } else {
            let ks = skip_ws(l, 0, sep);
            let ke = back_ws(l, ks, sep);
            if ks >= ke {
                (section, None)
            } else {
                (
                    section,
                    Some(
                        KeySpanView {
                            start: offset_of(cs, a + sep + 1),
                            end: offset_of(cs, b),
                            path: qualified(section, l.subrange(ks, ke)),
                        },
                    ),
                )
            }
        }
    }
}

/// The section in force after the lines listed, and the spans they made.
pub open spec fn ini_fold(cs: Seq<char>, ls: Seq<(int, int)>) -> (Seq<char>, Seq<KeySpanView>)
    decreases ls.len(),
{
    if ls.len() == 0 {
        (seq![], seq![])
    } else {
        let (section, spans) = ini_fold(cs, ls.drop_last());
        let (next, span) = ini_step(cs, ls.last().0, ls.last().1, section);
        (next, spans + optional_span(span))
    }
}

/// The value regions of an INI document.
pub open spec fn ini_spans(cs: Seq<char>) -> Seq<KeySpanView> {
    ini_fold(cs, lines_of(cs)).1
}

proof fn lemma_step_in_line(cs: Seq<char>, a: int, b: int, section: Seq<char>)
    requires
        0 <= a <= b <= cs.len(),
    ensures
        bounded_by(optional_span(ini_step(cs, a, b, section).1), offset_of(cs, a), offset_of(cs, b)),
        ordered(optional_span(ini_step(cs, a, b, section).1)),
{
    let l = cs.subrange(a, b);
    lemma_find_from(l, '=', 0);
    lemma_find_from(l, ':', 0);
    let sep = separator_of(l);
    if sep < l.len() {
        lemma_byte_len_monotone(cs, a, a + sep + 1);
        lemma_byte_len_monotone(cs, a + sep + 1, b);
    }
}

proof fn lemma_ini_prefix(cs: Seq<char>, ls: Seq<(int, int)>, k: int)
    requires
        0 <= k <= ls.len(),
        forall|m: int| 0 <= m < ls.len() ==> 0 <= (#[trigger] ls[m]).0 <= ls[m].1 <= cs.len(),
        forall|m: int, p: int| 0 <= m < p < ls.len() ==> (#[trigger] ls[m]).1 <= (#[trigger] ls[p]).0,
    ensures
        ordered(ini_fold(cs, ls.take(k)).1),
        bounded_by(
            ini_fold(cs, ls.take(k)).1,
            0,
            if k == 0 {
                0
            } else {
                offset_of(cs, ls[k - 1].1)
            },
        ),
    decreases k,
{
    if k > 0 {
        lemma_ini_prefix(cs, ls, k - 1);
        let t = ls.take(k);
        assert(t.drop_last() =~= ls.take(k - 1));
        assert(t.last() == ls[k - 1]);
        let (a, b) = ls[k - 1];
        let section = ini_fold(cs, ls.take(k - 1)).0;
        lemma_step_in_line(cs, a, b, section);
        if k > 1 {
            lemma_byte_len_monotone(cs, ls[k - 2].1, a);
        }
        lemma_byte_len_monotone(cs, a, b);
        lemma_append_ordered(
            ini_fold(cs, ls.take(k - 1)).1,
            optional_span(ini_step(cs, a, b, section).1),
            0,
            offset_of(cs, a),
            offset_of(cs, b),
        );
    }
}

/// The spans of an INI document are in document order, do not overlap,
/// and lie inside it.
pub proof fn lemma_ini_spans_ordered(cs: Seq<char>)
    ensures
        ordered(ini_spans(cs)),
        within(ini_spans(cs), byte_len(cs)),
{
    let ls = lines_of(cs);
    lemma_lines_ordered(cs, 0);
    lemma_ini_prefix(cs, ls, ls.len() as int);
    if ls.len() > 0 {
        lemma_byte_len_monotone(cs, ls.last().1, cs.len() as int);
    }
    assert(ls.take(ls.len() as int) =~= ls);
    assert(cs.take(cs.len() as int) =~= cs);
}

/// The section a line names, when it is a `[section]` header.
pub open spec fn line_section(cs: Seq<char>, a: int, b: int) -> Option<Seq<char>> {
    let l = cs.subrange(a, b);
    let n = l.len() as int;
    let ts = skip_ws(l, 0, n);
    let te = back_ws(l, ts, n);
    if te - ts >= 2 && l[ts] == '[' && l[te - 1] == ']' {
        let ns = skip_ws(l, ts + 1, te - 1);
        Some(l.subrange(ns, back_ws(l, ns, te - 1)))
    } else {
        None
    }
}

/// The key a `key = value` or `key: value` line names, trimmed, when that
/// leaves something.
pub open spec fn line_key(cs: Seq<char>, a: int, b: int) -> Option<Seq<char>> {
    let l = cs.subrange(a, b);
    let n = l.len() as int;
    let ts = skip_ws(l, 0, n);
    let te = back_ws(l, ts, n);
    let sep = separator_of(l);
    if ts >= te || l[ts] == ';' || l[ts] == '#' || line_section(cs, a, b) is Some || sep >= n {
        None
    } else {
        let ks = skip_ws(l, 0, sep);
        let ke = back_ws(l, ks, sep);
        if ks >= ke {
            None
        } else {
            Some(l.subrange(ks, ke))
        }
    }
}

proof fn lemma_step_section(cs: Seq<char>, a: int, b: int, section: Seq<char>)
    ensures
        ini_step(cs, a, b, section).0 == match line_section(cs, a, b) {
            Some(name) => name,
            None => section,
        },
{
}

/// The section in force after some lines is the one named by the last
/// header among them, whatever sections came before it; with no header
/// among them it is the root, named by nothing.
pub proof fn lemma_ini_section_in_force(cs: Seq<char>, ls: Seq<(int, int)>)
    ensures
        forall|j: int|
            0 <= j < ls.len() && (#[trigger] line_section(cs, ls[j].0, ls[j].1)) is Some && (forall|
                m: int,
            |
                j < m < ls.len() ==> line_section(cs, (#[trigger] ls[m]).0, ls[m].1) is None)
                ==> ini_fold(cs, ls).0 == line_section(cs, ls[j].0, ls[j].1)->0,
        (forall|m: int| 0 <= m < ls.len() ==> line_section(cs, (#[trigger] ls[m]).0, ls[m].1) is None)
            ==> ini_fold(cs, ls).0 == Seq::<char>::empty(),
    decreases ls.len(),
{
    if ls.len() > 0 {
        let p = ls.drop_last();
        lemma_ini_section_in_force(cs, p);
        lemma_step_section(cs, ls.last().0, ls.last().1, ini_fold(cs, p).0);
        assert forall|j: int|
            0 <= j < ls.len() && (#[trigger] line_section(cs, ls[j].0, ls[j].1)) is Some && (forall|
                m: int,
            |
                j < m < ls.len() ==> line_section(cs, (#[trigger] ls[m]).0, ls[m].1) is None)
                implies ini_fold(cs, ls).0 == line_section(cs, ls[j].0, ls[j].1)->0 by {
            if j < p.len() {
                assert(p[j] == ls[j]);
                assert forall|m: int| j < m < p.len() implies line_section(
                    cs,
                    (#[trigger] p[m]).0,
                    p[m].1,
                ) is None by {
                    assert(p[m] == ls[m]);
                }
                assert(line_section(cs, ls[ls.len() - 1].0, ls[ls.len() - 1].1) is None);
            }
        }
        if forall|m: int| 0 <= m < ls.len() ==> line_section(cs, (#[trigger] ls[m]).0, ls[m].1) is None {
            assert forall|m: int| 0 <= m < p.len() implies line_section(
                cs,
                (#[trigger] p[m]).0,
                p[m].1,
            ) is None by {
                assert(p[m] == ls[m]);
            }
            assert(line_section(cs, ls[ls.len() - 1].0, ls[ls.len() - 1].1) is None);
        }
    }
}

/// A key line makes a span, named by the nearest section header above it
/// joined to its key by a dot, or by the key alone when no header above it
/// names a section.
pub proof fn lemma_ini_key_path(cs: Seq<char>, ls: Seq<(int, int)>, k: int)
    requires
        0 <= k < ls.len(),
        line_key(cs, ls[k].0, ls[k].1) is Some,
    ensures
        ini_step(cs, ls[k].0, ls[k].1, ini_fold(cs, ls.take(k)).0).1 is Some,
        forall|j: int|
            0 <= j < k && (#[trigger] line_section(cs, ls[j].0, ls[j].1)) is Some && line_section(
                cs,
                ls[j].0,
                ls[j].1,
            )->0.len() > 0 && (forall|m: int|
                j < m < k ==> line_section(cs, (#[trigger] ls[m]).0, ls[m].1) is None) ==> ini_step(
                cs,
                ls[k].0,
                ls[k].1,
                ini_fold(cs, ls.take(k)).0,
            ).1->0.path == line_section(cs, ls[j].0, ls[j].1)->0 + "."@ + line_key(
                cs,
                ls[k].0,
                ls[k].1,
            )->0,
        (forall|m: int| 0 <= m < k ==> line_section(cs, (#[trigger] ls[m]).0, ls[m].1) is None)
            ==> ini_step(cs, ls[k].0, ls[k].1, ini_fold(cs, ls.take(k)).0).1->0.path == line_key(
            cs,
            ls[k].0,
            ls[k].1,
        )->0,
{
    let t = ls.take(k);
    lemma_ini_section_in_force(cs, t);
    assert forall|j: int|
        0 <= j < k && (#[trigger] line_section(cs, ls[j].0, ls[j].1)) is Some && line_section(
            cs,
            ls[j].0,
            ls[j].1,
        )->0.len() > 0 && (forall|m: int|
            j < m < k ==> line_section(cs, (#[trigger] ls[m]).0, ls[m].1) is None) implies ini_step(
        cs,
        ls[k].0,
        ls[k].1,
        ini_fold(cs, t).0,
    ).1->0.path == line_section(cs, ls[j].0, ls[j].1)->0 + "."@ + line_key(cs, ls[k].0, ls[k].1)->0 by {
        assert(t[j] == ls[j]);
        assert forall|m: int| j < m < t.len() implies line_section(cs, (#[trigger] t[m]).0, t[m].1) is None by {
            assert(t[m] == ls[m]);
        }
    }
    if forall|m: int| 0 <= m < k ==> line_section(cs, (#[trigger] ls[m]).0, ls[m].1) is None {
        assert forall|m: int| 0 <= m < t.len() implies line_section(cs, (#[trigger] t[m]).0, t[m].1) is None by {
            assert(t[m] == ls[m]);
        }
    }
}

/// `=` where there is one, else `:`.
pub fn separator(line: &[char]) -> (r: Option<usize>)
    ensures
        match r {
            Some(i) => i == separator_of(line@) && i < line.len(),
            None => separator_of(line@) >= line.len(),
        },
{
    let e = find_char(line, '=', 0);
    if e < line.len() {
        return Some(e);
    }
    let c = find_char(line, ':', 0);
    if c < line.len() {
        Some(c)
    } else {
        None
    }
}

/// `section.key`, or the key alone.
pub fn qualify(prefix: &Vec<char>, key: &Vec<char>) -> (r: String)
    ensures
        r@ == qualified(prefix@, key@),
{
    let mut out: Vec<char> = Vec::new();
    if prefix.len() > 0 {
        push_chars(&mut out, prefix.as_slice());
        out.push('.');
    }
    push_chars(&mut out, key.as_slice());
    proof {
        reveal_strlit(".");
        assert(out@ =~= qualified(prefix@, key@));
    }
    string_of(out.as_slice())
}

fn step(text: &Text, a: usize, b: usize, section: &mut Vec<char>) -> (r: Option<KeySpan>)
    requires
        text.wf(),
        a <= b <= text.chars.len(),
    ensures
        (final(section)@, match r {
            Some(s) => Some(s@),
            None => None::<KeySpanView>,
        }) == ini_step(text.chars@, a as int, b as int, old(section)@),
{
    let line = slice_chars(text.chars.as_slice(), a, b);
    let n = line.len();
    let ts = skip_white(line.as_slice(), 0, n);
    let te = back_white(line.as_slice(), ts, n);
    if ts >= te || line[ts] == ';' || line[ts] == '#' {
        return None;
    }
    if te - ts >= 2 && line[ts] == '[' && line[te - 1] == ']' {
        let ns = skip_white(line.as_slice(), ts + 1, te - 1);
        let ne = back_white(line.as_slice(), ns, te - 1);
        *section = slice_chars(line.as_slice(), ns, ne);
        return None;
    }
    let sep = match separator(line.as_slice()) {
        Some(sep) => sep,
        None => return None,
    };
    let ks = skip_white(line.as_slice(), 0, sep);
    let ke = back_white(line.as_slice(), ks, sep);
    if ks >= ke {
        return None;
    }
    let key = slice_chars(line.as_slice(), ks, ke);
    proof {
        assert(text.offsets@[a + sep + 1] == offset_of(text.chars@, a + sep + 1));
        assert(text.offsets@[b as int] == offset_of(text.chars@, b as int));
    }
    Some(KeySpan { start: text.offsets[a + sep + 1], end: text.offsets[b], path: qualify(section, &key) })
}

/// The value regions of an INI document, each named by its section and
/// key.
pub fn key_spans(content: &str) -> (r: Vec<KeySpan>)
    ensures
        spans_view(r@) == ini_spans(content@),
        ordered(spans_view(r@)),
        within(spans_view(r@), byte_len(content@)),
{
    let text = text_of(content);
    let ranges = line_ranges(&text);
    let ghost ls = lines_of(content@);
    proof {
        lemma_lines_ordered(content@, 0);
        assert forall|k: int| 0 <= k < ranges.len() implies ranges@[k].0 as int == (
        #[trigger] ls[k]).0 && ranges@[k].1 as int == ls[k].1 by {
            assert(ranges@.map_values(|l: (usize, usize)| (l.0 as int, l.1 as int))[k] == ls[k]);
        }
        assert(ls.take(0) =~= Seq::<(int, int)>::empty());
    }
    let mut section: Vec<char> = Vec::new();
    let mut out: Vec<KeySpan> = Vec::new();
    let mut k: usize = 0;
    while k < ranges.len()
        invariant
            text.wf(),
            text.chars@ == content@,
            ls == lines_of(content@),
            ranges.len() == ls.len(),
            forall|m: int| 0 <= m < ranges.len() ==> ranges@[m].0 as int == (#[trigger] ls[m]).0
                && ranges@[m].1 as int == ls[m].1,
            forall|m: int| 0 <= m < ls.len() ==> 0 <= (#[trigger] ls[m]).0 <= ls[m].1 <= content@.len(),
            0 <= k <= ranges.len(),
            (section@, spans_view(out@)) == ini_fold(content@, ls.take(k as int)),
        decreases ranges.len() - k,
    {
        let (a, b) = ranges[k];
        proof {
            assert(ls[k as int].0 == a as int && ls[k as int].1 == b as int);
        }
        let ghost before = spans_view(out@);
        let found = step(&text, a, b, &mut section);
        match found {
            Some(s) => {
                out.push(s);
            },
            None => {},
        }
        proof {
            let t = ls.take(k + 1);
            assert(t.drop_last() =~= ls.take(k as int));
            assert(t.last() == ls[k as int]);
            assert(spans_view(out@) =~= before + optional_span(
                match found {
                    Some(s) => Some(s@),
                    None => None::<KeySpanView>,
                },
            ));
        }
        k = k + 1;
    }
    proof {
        assert(ls.take(ranges.len() as int) =~= ls);
        lemma_ini_spans_ordered(content@);
    }
    out
}

} // verus!
