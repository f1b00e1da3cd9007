//! Key paths in CSV: the header row names the columns.
//!
//! A column of names in which one row carries a Cyrillic `a` is exactly
//! the shape this tool exists to find, and `customer_name` says more about
//! it than "field 4" does. A column with no name in the header is `[n]`.
//! The first non-blank row is the header unconditionally: a file with no
//! header loses one row's key paths, not one row's findings.

use super::locate::{
    bounded_by, lemma_append_ordered, lemma_lines_ordered, line_ranges, lines_of, ordered,
    spans_view, within, KeySpan, KeySpanView,
};
use crate::text::{
    back_quotes, back_white, back_ws, byte_len, decimal, lemma_byte_len_monotone, offset_of,
    push_chars, push_decimal, skip_quotes, skip_white, skip_ws, slice_chars, string_of, text_of,
    trim_quotes, Text,
};
use vstd::prelude::*;

verus! {

/// The byte between fields of a comma-separated file.
pub const COMMA: u8 = 0x2C;

/// The byte between fields of a tab-separated file.
pub const TAB: u8 = 0x09;

/// The field ranges of a row from index `i` on, the current field having
/// started at `start`. A `"` toggles quoting; a delimiter outside quotes
/// ends a field. A quoted field keeps its quotes in its range.
pub open spec fn fields_from(l: Seq<char>, d: char, i: int, start: int, quoted: bool) -> Seq<
    (int, int),
>
    decreases l.len() - i,
{
    if i >= l.len() {
        seq![(start, l.len() as int)]
    } else if l[i] == '"' {
        fields_from(l, d, i + 1, start, !quoted)
    } else if l[i] == d && !quoted {
        seq![(start, i)] + fields_from(l, d, i + 1, i + 1, quoted)
    } else {
        fields_from(l, d, i + 1, start, quoted)
    }
}

pub open spec fn field_ranges(l: Seq<char>, d: char) -> Seq<(int, int)> {
    fields_from(l, d, 0, 0, false)
}

/// A header cell's name: trimmed, and without surrounding quotes.
pub open spec fn header_cell(l: Seq<char>, f: (int, int)) -> Seq<char> {
    let ts = skip_ws(l, f.0, f.1);
    let te = back_ws(l, ts, f.1);
    let qs = skip_quotes(l, ts, te, false);
    l.subrange(qs, back_quotes(l, qs, te, false))
}

pub open spec fn header_names(l: Seq<char>, d: char) -> Seq<Seq<char>> {
    field_ranges(l, d).map_values(|f: (int, int)| header_cell(l, f))
}

/// The name of column `c`: its header, or `[c]` where the header has none.
pub open spec fn column_name(headers: Seq<Seq<char>>, c: nat) -> Seq<char> {
    if c < headers.len() && headers[c as int].len() > 0 {
        headers[c as int]
    } else {
        seq!['['] + decimal(c) + seq![']']
    }
}

/// The spans of one data row whose content is the characters `[a, b)`.
pub open spec fn row_spans(cs: Seq<char>, a: int, b: int, d: char, headers: Seq<Seq<char>>) -> Seq<
    KeySpanView,
> {
    let fs = field_ranges(cs.subrange(a, b), d);
    Seq::new(
        fs.len(),
        |c: int|
            KeySpanView {
                start: offset_of(cs, a + fs[c].0),
                end: offset_of(cs, a + fs[c].1),
                path: column_name(headers, c as nat),
            },
    )
}

/// What one line does: the header row, once read, and the spans of a data
/// row. A blank line is not a row.
pub open spec fn csv_step(
    cs: Seq<char>,
    a: int,
    b: int,
    d: char,
    headers: Option<Seq<Seq<char>>>,
) -> (Option<Seq<Seq<char>>>, Seq<KeySpanView>) {
    let l = cs.subrange(a, b);
    if skip_ws(l, 0, l.len() as int) >= l.len() {
        (headers, seq![])
    } else {
        match headers {
            None => (Some(header_names(l, d)), seq![]),
            Some(h) => (headers, row_spans(cs, a, b, d, h)),
        }
    }
}

pub open spec fn csv_fold(cs: Seq<char>, ls: Seq<(int, int)>, d: char) -> (
    Option<Seq<Seq<char>>>,
    Seq<KeySpanView>,
)
    decreases ls.len(),
{
    if ls.len() == 0 {
        (None, seq![])
    } else {
        let (headers, spans) = csv_fold(cs, ls.drop_last(), d);
        let (next, more) = csv_step(cs, ls.last().0, ls.last().1, d, headers);
        (next, spans + more)
    }
}

/// The value regions of a delimited document.
pub open spec fn csv_spans(cs: Seq<char>, d: char) -> Seq<KeySpanView> {
    csv_fold(cs, lines_of(cs), d).1
}

proof fn lemma_fields(l: Seq<char>, d: char, i: int, start: int, quoted: bool)
    requires
        0 <= start <= i <= l.len(),
    ensures
        fields_from(l, d, i, start, quoted).len() >= 1,
        fields_from(l, d, i, start, quoted)[0].0 == start,
        forall|k: int|
            0 <= k < fields_from(l, d, i, start, quoted).len() ==> start <= (#[trigger] fields_from(
                l,
                d,
                i,
                start,
                quoted,
            )[k]).0 <= fields_from(l, d, i, start, quoted)[k].1 <= l.len(),
        forall|k: int|
            0 <= k < fields_from(l, d, i, start, quoted).len() - 1 ==> (#[trigger] fields_from(
                l,
                d,
                i,
                start,
                quoted,
            )[k]).1 < fields_from(l, d, i, start, quoted)[k + 1].0,
    decreases l.len() - i,
{
    let r = fields_from(l, d, i, start, quoted);
    if i < l.len() {
        if l[i] == '"' {
            lemma_fields(l, d, i + 1, start, !quoted);
        } else if l[i] == d && !quoted {
            lemma_fields(l, d, i + 1, i + 1, quoted);
            let rest = fields_from(l, d, i + 1, i + 1, quoted);
            assert(r == seq![(start, i)] + rest);
            assert forall|k: int| 0 <= k < r.len() implies start <= (#[trigger] r[k]).0 <= r[k].1
                <= l.len() by {
                if k > 0 {
                    assert(r[k] == rest[k - 1]);
                }
            }
            assert forall|k: int| 0 <= k < r.len() - 1 implies (#[trigger] r[k]).1 < r[k + 1].0 by {
                assert(r[k + 1] == rest[k]);
                if k > 0 {
                    assert(r[k] == rest[k - 1]);
                }
            }
        } else {
            lemma_fields(l, d, i + 1, start, quoted);
        }
    }
}

proof fn lemma_row_in_line(cs: Seq<char>, a: int, b: int, d: char, headers: Seq<Seq<char>>)
    requires
        0 <= a <= b <= cs.len(),
    ensures
        ordered(row_spans(cs, a, b, d, headers)),
        bounded_by(row_spans(cs, a, b, d, headers), offset_of(cs, a), offset_of(cs, b)),
{
    let l = cs.subrange(a, b);
    lemma_fields(l, d, 0, 0, false);
    let fs = field_ranges(l, d);
    let r = row_spans(cs, a, b, d, headers);
    assert forall|k: int| 0 <= k < r.len() implies (#[trigger] r[k]).start <= r[k].end && offset_of(
        cs,
        a,
    ) <= r[k].start && r[k].end <= offset_of(cs, b) by {
        lemma_byte_len_monotone(cs, a, a + fs[k].0);
        lemma_byte_len_monotone(cs, a + fs[k].0, a + fs[k].1);
        lemma_byte_len_monotone(cs, a + fs[k].1, b);
    }
    assert forall|i: int, j: int| 0 <= i < j < r.len() implies (#[trigger] r[i]).end <= (
    #[trigger] r[j]).start by {
        lemma_fields_apart(l, d, i, j);
        lemma_byte_len_monotone(cs, a + fs[i].1, a + fs[j].0);
    }
}

proof fn lemma_fields_apart(l: Seq<char>, d: char, i: int, j: int)
    requires
        0 <= i < j < field_ranges(l, d).len(),
    ensures
        field_ranges(l, d)[i].1 <= field_ranges(l, d)[j].0,
    decreases j - i,
{
    lemma_fields(l, d, 0, 0, false);
    let fs = field_ranges(l, d);
    if j > i + 1 {
        lemma_fields_apart(l, d, i, j - 1);
        assert(fs[j - 1].1 < fs[j].0);
    }
}

proof fn lemma_csv_prefix(cs: Seq<char>, ls: Seq<(int, int)>, d: char, k: int)
    requires
        0 <= k <= ls.len(),
        forall|m: int| 0 <= m < ls.len() ==> 0 <= (#[trigger] ls[m]).0 <= ls[m].1 <= cs.len(),
        forall|m: int, p: int| 0 <= m < p < ls.len() ==> (#[trigger] ls[m]).1 <= (#[trigger] ls[p]).0,
    ensures
        ordered(csv_fold(cs, ls.take(k), d).1),
        bounded_by(
            csv_fold(cs, ls.take(k), d).1,
            0,
            if k == 0 {
                0
            } else {
                offset_of(cs, ls[k - 1].1)
            },
        ),
    decreases k,
{
    if k > 0 {
        lemma_csv_prefix(cs, ls, d, k - 1);
        let t = ls.take(k);
        assert(t.drop_last() =~= ls.take(k - 1));
        assert(t.last() == ls[k - 1]);
        let (a, b) = ls[k - 1];
        let headers = csv_fold(cs, ls.take(k - 1), d).0;
        let more = csv_step(cs, a, b, d, headers).1;
        match headers {
            Some(h) => lemma_row_in_line(cs, a, b, d, h),
            None => {},
        }
        if k > 1 {
            lemma_byte_len_monotone(cs, ls[k - 2].1, a);
        }
        lemma_byte_len_monotone(cs, a, b);
        lemma_append_ordered(csv_fold(cs, ls.take(k - 1), d).1, more, 0, offset_of(cs, a), offset_of(cs, b));
    }
}

/// The spans of a delimited document are in document order, do not
/// overlap, and lie inside it.
pub proof fn lemma_csv_spans_ordered(cs: Seq<char>, d: char)
    ensures
        ordered(csv_spans(cs, d)),
        within(csv_spans(cs, d), byte_len(cs)),
{
    let ls = lines_of(cs);
    lemma_lines_ordered(cs, 0);
    lemma_csv_prefix(cs, ls, d, ls.len() as int);
    if ls.len() > 0 {
        lemma_byte_len_monotone(cs, ls.last().1, cs.len() as int);
    }
    assert(ls.take(ls.len() as int) =~= ls);
    assert(cs.take(cs.len() as int) =~= cs);
}

/// Whether the characters `[a, b)` are a blank line, which is no row.
pub open spec fn blank_line(cs: Seq<char>, a: int, b: int) -> bool {
    let l = cs.subrange(a, b);
    skip_ws(l, 0, l.len() as int) >= l.len()
}

/// The header row is the first row that is not blank, whatever comes after
/// it: later rows are data and never rename the columns. Before any such
/// row there is no header yet.
pub proof fn lemma_csv_header_is_first_row(cs: Seq<char>, ls: Seq<(int, int)>, d: char)
    ensures
        forall|j: int|
            0 <= j < ls.len() && !blank_line(cs, (#[trigger] ls[j]).0, ls[j].1) && (forall|m: int|
                0 <= m < j ==> blank_line(cs, (#[trigger] ls[m]).0, ls[m].1)) ==> csv_fold(
                cs,
                ls,
                d,
            ).0 == Some(header_names(cs.subrange(ls[j].0, ls[j].1), d)),
        (forall|m: int| 0 <= m < ls.len() ==> blank_line(cs, (#[trigger] ls[m]).0, ls[m].1))
            ==> csv_fold(cs, ls, d).0 is None,
    decreases ls.len(),
{
    if ls.len() > 0 {
        let p = ls.drop_last();
        lemma_csv_header_is_first_row(cs, p, d);
        assert forall|j: int|
            0 <= j < ls.len() && !blank_line(cs, (#[trigger] ls[j]).0, ls[j].1) && (forall|m: int|
                0 <= m < j ==> blank_line(cs, (#[trigger] ls[m]).0, ls[m].1)) implies csv_fold(
            cs,
            ls,
            d,
        ).0 == Some(header_names(cs.subrange(ls[j].0, ls[j].1), d)) by {
            if j < p.len() {
                assert(p[j] == ls[j]);
                assert forall|m: int| 0 <= m < j implies blank_line(cs, (#[trigger] p[m]).0, p[m].1) by {
                    assert(p[m] == ls[m]);
                }
            } else {
                assert forall|m: int| 0 <= m < p.len() implies blank_line(
                    cs,
                    (#[trigger] p[m]).0,
                    p[m].1,
                ) by {
                    assert(p[m] == ls[m]);
                }
            }
        }
        if forall|m: int| 0 <= m < ls.len() ==> blank_line(cs, (#[trigger] ls[m]).0, ls[m].1) {
            assert forall|m: int| 0 <= m < p.len() implies blank_line(cs, (#[trigger] p[m]).0, p[m].1) by {
                assert(p[m] == ls[m]);
            }
            assert(blank_line(cs, ls[ls.len() - 1].0, ls[ls.len() - 1].1));
        }
    }
}

/// Every row after the header row is named by the header row: the value in
/// its column `c` carries the header's name for `c`, or `[c]` where the
/// header leaves that column unnamed.
pub proof fn lemma_csv_rows_named_by_header(cs: Seq<char>, ls: Seq<(int, int)>, d: char, j: int, k: int)
    requires
        0 <= j < k < ls.len(),
        !blank_line(cs, ls[j].0, ls[j].1),
        forall|m: int| 0 <= m < j ==> blank_line(cs, (#[trigger] ls[m]).0, ls[m].1),
    ensures
        csv_step(cs, ls[k].0, ls[k].1, d, csv_fold(cs, ls.take(k), d).0).1 == if blank_line(
            cs,
            ls[k].0,
            ls[k].1,
        ) {
            Seq::<KeySpanView>::empty()
        } else {
            row_spans(cs, ls[k].0, ls[k].1, d, header_names(cs.subrange(ls[j].0, ls[j].1), d))
        },
{
    let t = ls.take(k);
    assert(t[j] == ls[j]);
    assert forall|m: int| 0 <= m < j implies blank_line(cs, (#[trigger] t[m]).0, t[m].1) by {
        assert(t[m] == ls[m]);
    }
    lemma_csv_header_is_first_row(cs, t, d);
}

/// The character range of each field in one row.
pub fn fields(line: &[char], d: char) -> (r: Vec<(usize, usize)>)
    ensures
        r@.map_values(|f: (usize, usize)| (f.0 as int, f.1 as int)) == field_ranges(line@, d),
{
    let mut out: Vec<(usize, usize)> = Vec::new();
    let mut start: usize = 0;
    let mut quoted = false;
    let mut i: usize = 0;
    proof {
        assert(out@.map_values(|f: (usize, usize)| (f.0 as int, f.1 as int)) + fields_from(
            line@,
            d,
            0,
            0,
            false,
        ) =~= field_ranges(line@, d));
    }
    while i < line.len()
        invariant
            0 <= start <= i <= line.len(),
            out@.map_values(|f: (usize, usize)| (f.0 as int, f.1 as int)) + fields_from(
                line@,
                d,
                i as int,
                start as int,
                quoted,
            ) == field_ranges(line@, d),
        decreases line.len() - i,
    {
        let ghost before = out@.map_values(|f: (usize, usize)| (f.0 as int, f.1 as int));
        if line[i] == '"' {
            quoted = !quoted;
        } else if line[i] == d && !quoted {
            out.push((start, i));
            proof {
                assert(out@.map_values(|f: (usize, usize)| (f.0 as int, f.1 as int)) =~= before.push(
                    (start as int, i as int),
                ));
                assert(before.push((start as int, i as int)) + fields_from(
                    line@,
                    d,
                    i + 1,
                    i + 1,
                    quoted,
                ) =~= before + fields_from(line@, d, i as int, start as int, quoted));
            }
            start = i + 1;
        }
        i = i + 1;
    }
    let ghost before = out@.map_values(|f: (usize, usize)| (f.0 as int, f.1 as int));
    out.push((start, line.len()));
    proof {
        assert(out@.map_values(|f: (usize, usize)| (f.0 as int, f.1 as int)) =~= before + fields_from(
            line@,
            d,
            i as int,
            start as int,
            quoted,
        ));
    }
    out
}

fn header_row(line: &[char], d: char) -> (r: Vec<Vec<char>>)
    ensures
        r@.map_values(|h: Vec<char>| h@) == header_names(line@, d),
{
    let fs = fields(line, d);
    proof {
        lemma_fields(line@, d, 0, 0, false);
    }
    let ghost fv = field_ranges(line@, d);
    let mut out: Vec<Vec<char>> = Vec::new();
    let mut k: usize = 0;
    while k < fs.len()
        invariant
            fv == field_ranges(line@, d),
            fs@.map_values(|f: (usize, usize)| (f.0 as int, f.1 as int)) == fv,
            forall|m: int| 0 <= m < fv.len() ==> 0 <= (#[trigger] fv[m]).0 <= fv[m].1 <= line@.len(),
            0 <= k <= fs.len(),
            out@.map_values(|h: Vec<char>| h@) == header_names(line@, d).take(k as int),
        decreases fs.len() - k,
    {
        let (s, e) = fs[k];
        proof {
            assert(fv[k as int] == (s as int, e as int));
        }
        let ts = skip_white(line, s, e);
        let te = back_white(line, ts, e);
        let (qs, qe) = trim_quotes(line, ts, te, false);
        let ghost before = out@.map_values(|h: Vec<char>| h@);
        out.push(slice_chars(line, qs, qe));
        proof {
            assert(out@.map_values(|h: Vec<char>| h@) =~= before.push(header_cell(line@, fv[k as int])));
            assert(header_names(line@, d).take(k + 1) =~= header_names(line@, d).take(k as int).push(
                header_cell(line@, fv[k as int]),
            ));
        }
        k = k + 1;
    }
    proof {
        assert(header_names(line@, d).take(fs.len() as int) =~= header_names(line@, d));
    }
    out
}

/// The name of a column: its header, or `[c]`.
fn column(headers: &Vec<Vec<char>>, c: usize) -> (r: String)
    ensures
        r@ == column_name(headers@.map_values(|h: Vec<char>| h@), c as nat),
{
    if c < headers.len() && headers[c].len() > 0 {
        return string_of(headers[c].as_slice());
    }
    let mut out: Vec<char> = Vec::new();
    out.push('[');
    push_decimal(&mut out, c as u64);
    out.push(']');
    proof {
        assert(out@ =~= seq!['['] + decimal(c as nat) + seq![']']);
    }
    string_of(out.as_slice())
}

/// The value regions of a delimited document, each named by its column.
/// The delimiter is an ASCII byte: `COMMA` or `TAB`.
pub fn key_spans(content: &str, delimiter: u8) -> (r: Vec<KeySpan>)
    requires
        delimiter < 0x80,
    ensures
        spans_view(r@) == csv_spans(content@, (delimiter as u32) as char),
        ordered(spans_view(r@)),
        within(spans_view(r@), byte_len(content@)),
{
    let d = delimiter as char;
    let ghost dc = (delimiter as u32) as char;
    proof {
        assert(d == dc);
    }
    let text = text_of(content);
    let ranges = line_ranges(&text);
    let ghost ls = lines_of(content@);
    proof {
        lemma_lines_ordered(content@, 0);
        assert forall|k: int| 0 <= k < ranges.len() implies ranges@[k].0 as int == (
        #[trigger] ls[k]).0 && ranges@[k].1 as int == ls[k].1 by {
            assert(ranges@.map_values(|l: (usize, usize)| (l.0 as int, l.1 as int))[k] == ls[k]);
        }
        assert(ls.take(0) =~= Seq::<(int, int)>::empty());
    }
    let mut headers: Option<Vec<Vec<char>>> = None;
    let mut out: Vec<KeySpan> = Vec::new();
    let mut k: usize = 0;
    while k < ranges.len()
        invariant
            text.wf(),
            text.chars@ == content@,
            d == dc,
            ls == lines_of(content@),
            ranges.len() == ls.len(),
            forall|m: int| 0 <= m < ranges.len() ==> ranges@[m].0 as int == (#[trigger] ls[m]).0
                && ranges@[m].1 as int == ls[m].1,
            forall|m: int| 0 <= m < ls.len() ==> 0 <= (#[trigger] ls[m]).0 <= ls[m].1 <= content@.len(),
            0 <= k <= ranges.len(),
            (match headers {
                Some(h) => Some(h@.map_values(|x: Vec<char>| x@)),
                None => None,
            }, spans_view(out@)) == csv_fold(content@, ls.take(k as int), dc),
        decreases ranges.len() - k,
    {
        let (a, b) = ranges[k];
        proof {
            assert(ls[k as int].0 == a as int && ls[k as int].1 == b as int);
            let t = ls.take(k + 1);
            assert(t.drop_last() =~= ls.take(k as int));
            assert(t.last() == ls[k as int]);
        }
        let line = slice_chars(text.chars.as_slice(), a, b);
        let blank = skip_white(line.as_slice(), 0, line.len()) >= line.len();
        if !blank {
            match headers {
                None => {
                    headers = Some(header_row(line.as_slice(), d));
                    proof {
                        assert(spans_view(out@) =~= spans_view(out@) + Seq::<KeySpanView>::empty());
                    }
                },
                Some(ref h) => {
                    let fs = fields(line.as_slice(), d);
                    let ghost fv = field_ranges(line@, d);
                    let ghost hv = h@.map_values(|x: Vec<char>| x@);
                    let ghost before = spans_view(out@);
                    proof {
                        lemma_fields(line@, d, 0, 0, false);
                    }
                    let mut c: usize = 0;
                    while c < fs.len()
                        invariant
                            text.wf(),
                            text.chars@ == content@,
                            a <= b <= content@.len(),
                            line@ == content@.subrange(a as int, b as int),
                            fv == field_ranges(line@, d),
                            fs@.map_values(|f: (usize, usize)| (f.0 as int, f.1 as int)) == fv,
                            forall|m: int| 0 <= m < fv.len() ==> 0 <= (#[trigger] fv[m]).0 <= fv[m].1
                                <= line@.len(),
                            hv == h@.map_values(|x: Vec<char>| x@),
                            0 <= c <= fs.len(),
                            spans_view(out@) == before + row_spans(content@, a as int, b as int, d, hv).take(
                                c as int,
                            ),
                        decreases fs.len() - c,
                    {
                        let (s, e) = fs[c];
                        proof {
                            assert(fv[c as int] == (s as int, e as int));
                            assert(text.offsets@[a + s] == offset_of(content@, a + s));
                            assert(text.offsets@[a + e] == offset_of(content@, a + e));
                        }
                        let ghost prior = spans_view(out@);
                        out.push(KeySpan { start: text.offsets[a + s], end: text.offsets[a + e], path: column(h, c) });
                        proof {
                            let rs = row_spans(content@, a as int, b as int, d, hv);
                            assert(rs.take(c + 1) =~= rs.take(c as int).push(rs[c as int]));
                            assert(spans_view(out@) =~= prior.push(rs[c as int]));
                        }
                        c = c + 1;
                    }
                    proof {
                        let rs = row_spans(content@, a as int, b as int, d, hv);
                        assert(rs.take(fs.len() as int) =~= rs);
                    }
                },
            }
        } else {
            proof {
                assert(spans_view(out@) =~= spans_view(out@) + Seq::<KeySpanView>::empty());
            }
        }
        k = k + 1;
    }
    proof {
        assert(ls.take(ranges.len() as int) =~= ls);
        lemma_csv_spans_ordered(content@, dc);
    }
    out
}

} // verus!
