//! Key paths in YAML block style: indentation is the structure.
//!
//! A line scanner, not a parser. It reads block mappings and block
//! sequences, which is what a configuration file and a locale catalogue
//! are written in. Flow style, anchors, aliases, multi-line scalars and
//! multiple documents are not modelled: a value inside one of those
//! carries the key path of the line it sits on, or none.
//!
//! A key is pushed at the column its own text starts at, not at the
//! line's indent. In `- id: A` followed by `  name: B`, `id` starts two
//! columns in because `- ` consumed them, so `name` at the same column
//! replaces it rather than nesting under it. Columns are byte offsets
//! within the line.

use super::locate::{
    bounded_by, joined_path, join_chars, lemma_append_ordered, lemma_lines_ordered, line_ranges,
    lines_of, optional_span, ordered, spans_view, within, KeySpan, KeySpanView,
};
use crate::text::{
    back_quotes, back_white, back_ws, byte_len, decimal, lemma_byte_len_monotone, lemma_skip_ws,
    occurs_at, offset_of, push_decimal, skip_quotes, skip_white, skip_ws, slice_chars, starts_at,
    string_of, text_of, trim_quotes, Text,
};
use vstd::prelude::*;

verus! {

/// Open keys, each with the column it was pushed at.
pub type Stack = Seq<(nat, Seq<char>)>;

/// Sequence counters, each with the indent of its `- ` items.
pub type Counters = Seq<(nat, nat)>;

/// The entries of a stack pushed at a column before `indent`.
pub open spec fn keep_below(stack: Stack, indent: nat) -> Stack
    decreases stack.len(),
{
    if stack.len() == 0 {
        stack
    } else {
        let before = keep_below(stack.drop_last(), indent);
        if stack.last().0 < indent {
            before.push(stack.last())
        } else {
            before
        }
    }
}

/// The counters at an indent no deeper than `indent`.
pub open spec fn keep_upto(counters: Counters, indent: nat) -> Counters
    decreases counters.len(),
{
    if counters.len() == 0 {
        counters
    } else {
        let before = keep_upto(counters.drop_last(), indent);
        if counters.last().0 <= indent {
            before.push(counters.last())
        } else {
            before
        }
    }
}

/// The first counter at or after `i` kept for `indent`, or the length.
pub open spec fn counter_find(counters: Counters, indent: nat, i: int) -> int
    decreases counters.len() - i,
{
    if i >= counters.len() {
        counters.len() as int
    } else if counters[i].0 == indent {
        i
    } else {
        counter_find(counters, indent, i + 1)
    }
}

/// The next index for a sequence at one indent, and the counters after
/// taking it: a second `- ` at the same indent is `[1]`, not `[0]` again.
pub open spec fn next_index_of(counters: Counters, indent: nat) -> (nat, Counters) {
    let k = counter_find(counters, indent, 0);
    if 0 <= k < counters.len() {
        (counters[k].1, counters.update(k, (indent, counters[k].1 + 1)))
    } else {
        (0, counters.push((indent, 1)))
    }
}

pub open spec fn index_segment(index: nat) -> Seq<char> {
    seq!['['] + decimal(index) + seq![']']
}

pub open spec fn path_of_stack(stack: Stack) -> Seq<char> {
    joined_path(stack.map_values(|e: (nat, Seq<char>)| e.1))
}

/// The colon that ends a key in `l` from index `i` on: one followed by a
/// space or ending the line. The length if there is none.
pub open spec fn key_colon(l: Seq<char>, i: int) -> int
    decreases l.len() - i,
{
    if i >= l.len() {
        l.len() as int
    } else if l[i] == ':' && (i + 1 == l.len() || l[i + 1] == ' ') {
        i
    } else {
        key_colon(l, i + 1)
    }
}

/// A key starting at `bs` and the index its value starts at, for
/// `key: value`. The first such colon decides, and a key that trims to
/// nothing is no key.
pub open spec fn split_key_of(l: Seq<char>, bs: int) -> Option<(Seq<char>, int)> {
    let colon = key_colon(l, bs);
    if colon >= l.len() {
        None
    } else {
        let ks = skip_ws(l, bs, colon);
        let ke = back_ws(l, ks, colon);
        let qs = skip_quotes(l, ks, ke, true);
        let qe = back_quotes(l, qs, ke, true);
        if qs >= qe {
            None
        } else {
            Some((l.subrange(qs, qe), colon + 1))
        }
    }
}

/// What one line does to the open keys and counters, and the span it
/// makes, for a line whose content is the characters `[a, b)`.
pub open spec fn yaml_step(cs: Seq<char>, a: int, b: int, stack: Stack, counters: Counters) -> (
    Stack,
    Counters,
    Option<KeySpanView>,
) {
    let l = cs.subrange(a, b);
    let n = l.len() as int;
    let cstart = skip_ws(l, 0, n);
    if cstart >= n || l[cstart] == '#' || occurs_at(l, cstart, "---"@) {
        (stack, counters, None)
    } else {
        let indent = offset_of(l, cstart);
        let stack1 = keep_below(stack, indent);
        let counters1 = keep_upto(counters, indent);
        let (bs, stack2, counters2) = if l[cstart] == '-' {
            let rest = if cstart + 1 < n && l[cstart + 1] == ' ' {
                cstart + 2
            } else {
                cstart + 1
            };
            let (index, next) = next_index_of(counters1, indent);
            (rest, stack1.push((indent, index_segment(index))), next)
        } else {
            (cstart, stack1, counters1)
        };
        match split_key_of(l, bs) {
            None => if bs < n {
                (
                    stack2,
                    counters2,
                    Some(
                        KeySpanView {
                            start: offset_of(cs, a + bs),
                            end: offset_of(cs, b),
                            path: path_of_stack(stack2),
                        },
                    ),
                )
            } else {
                (stack2, counters2, None)
            },
            Some((key, value_at)) => {
                let stack3 = stack2.push((offset_of(l, bs), key));
                let vs = skip_ws(l, value_at, n);
                if vs >= n {
                    (stack3, counters2, None)
                } else {
                    (
                        stack3,
                        counters2,
                        Some(
                            KeySpanView {
                                start: offset_of(cs, a + vs),
                                end: offset_of(cs, b),
                                path: path_of_stack(stack3),
                            },
                        ),
                    )
                }
            },
        }
    }
}

pub open spec fn yaml_fold(cs: Seq<char>, ls: Seq<(int, int)>) -> (Stack, Counters, Seq<KeySpanView>)
    decreases ls.len(),
{
    if ls.len() == 0 {
        (seq![], seq![], seq![])
    } else {
        let (stack, counters, spans) = yaml_fold(cs, ls.drop_last());
        let (s, c, span) = yaml_step(cs, ls.last().0, ls.last().1, stack, counters);
        (s, c, spans + optional_span(span))
    }
}

/// The value regions of a YAML document.
pub open spec fn yaml_spans(cs: Seq<char>) -> Seq<KeySpanView> {
    yaml_fold(cs, lines_of(cs)).2
}

proof fn lemma_key_colon(l: Seq<char>, i: int)
    requires
        0 <= i <= l.len(),
    ensures
        i <= key_colon(l, i) <= l.len(),
    decreases l.len() - i,
{
    if i < l.len() && !(l[i] == ':' && (i + 1 == l.len() || l[i + 1] == ' ')) {
        lemma_key_colon(l, i + 1);
    }
}

proof fn lemma_step_in_line(cs: Seq<char>, a: int, b: int, stack: Stack, counters: Counters)
    requires
        0 <= a <= b <= cs.len(),
    ensures
        bounded_by(
            optional_span(yaml_step(cs, a, b, stack, counters).2),
            offset_of(cs, a),
            offset_of(cs, b),
        ),
        ordered(optional_span(yaml_step(cs, a, b, stack, counters).2)),
{
    let l = cs.subrange(a, b);
    let n = l.len() as int;
    lemma_skip_ws(l, 0, n);
    let cstart = skip_ws(l, 0, n);
    if cstart < n {
        let bs = if l[cstart] == '-' {
            if cstart + 1 < n && l[cstart + 1] == ' ' {
                cstart + 2
            } else {
                cstart + 1
            }
        } else {
            cstart
        };
        lemma_key_colon(l, bs);
        let colon = key_colon(l, bs);
        if bs <= n {
            lemma_byte_len_monotone(cs, a, a + bs);
            lemma_byte_len_monotone(cs, a + bs, b);
        }
        if colon < n {
            lemma_skip_ws(l, colon + 1, n);
            let vs = skip_ws(l, colon + 1, n);
            lemma_byte_len_monotone(cs, a, a + vs);
            lemma_byte_len_monotone(cs, a + vs, b);
        }
    }
}

proof fn lemma_yaml_prefix(cs: Seq<char>, ls: Seq<(int, int)>, k: int)
    requires
        0 <= k <= ls.len(),
        forall|m: int| 0 <= m < ls.len() ==> 0 <= (#[trigger] ls[m]).0 <= ls[m].1 <= cs.len(),
        forall|m: int, p: int| 0 <= m < p < ls.len() ==> (#[trigger] ls[m]).1 <= (#[trigger] ls[p]).0,
    ensures
        ordered(yaml_fold(cs, ls.take(k)).2),
        bounded_by(
            yaml_fold(cs, ls.take(k)).2,
            0,
            if k == 0 {
                0
            } else {
                offset_of(cs, ls[k - 1].1)
            },
        ),
    decreases k,
{
    if k > 0 {
        lemma_yaml_prefix(cs, ls, k - 1);
        let t = ls.take(k);
        assert(t.drop_last() =~= ls.take(k - 1));
        assert(t.last() == ls[k - 1]);
        let (a, b) = ls[k - 1];
        let (stack, counters, spans) = yaml_fold(cs, ls.take(k - 1));
        lemma_step_in_line(cs, a, b, stack, counters);
        if k > 1 {
            lemma_byte_len_monotone(cs, ls[k - 2].1, a);
        }
        lemma_byte_len_monotone(cs, a, b);
        lemma_append_ordered(
            spans,
            optional_span(yaml_step(cs, a, b, stack, counters).2),
            0,
            offset_of(cs, a),
            offset_of(cs, b),
        );
    }
}

/// The spans of a YAML document are in document order, do not overlap,
/// and lie inside it.
pub proof fn lemma_yaml_spans_ordered(cs: Seq<char>)
    ensures
        ordered(yaml_spans(cs)),
        within(yaml_spans(cs), byte_len(cs)),
{
    let ls = lines_of(cs);
    lemma_lines_ordered(cs, 0);
    lemma_yaml_prefix(cs, ls, ls.len() as int);
    if ls.len() > 0 {
        lemma_byte_len_monotone(cs, ls.last().1, cs.len() as int);
    }
    assert(ls.take(ls.len() as int) =~= ls);
    assert(cs.take(cs.len() as int) =~= cs);
}

/// Whether the characters `[a, b)` make a line the scanner reads: not
/// blank, not a comment, not a document marker.
pub open spec fn content_line(cs: Seq<char>, a: int, b: int) -> bool {
    let l = cs.subrange(a, b);
    let c = skip_ws(l, 0, l.len() as int);
    !(c >= l.len() || l[c] == '#' || occurs_at(l, c, "---"@))
}

/// The column a line's content starts at.
pub open spec fn line_indent(cs: Seq<char>, a: int, b: int) -> nat {
    let l = cs.subrange(a, b);
    offset_of(l, skip_ws(l, 0, l.len() as int))
}

/// Whether a line is a block sequence item, `- ...`.
pub open spec fn item_line(cs: Seq<char>, a: int, b: int) -> bool {
    let l = cs.subrange(a, b);
    content_line(cs, a, b) && l[skip_ws(l, 0, l.len() as int)] == '-'
}

/// The items at `indent` among the lines listed, counted back to the last
/// line read at a smaller indent: the index the next item there takes.
pub open spec fn items_since(cs: Seq<char>, ls: Seq<(int, int)>, indent: nat) -> nat
    decreases ls.len(),
{
    if ls.len() == 0 {
        0
    } else {
        let (a, b) = ls.last();
        if !content_line(cs, a, b) {
            items_since(cs, ls.drop_last(), indent)
        } else if line_indent(cs, a, b) < indent {
            0
        } else if line_indent(cs, a, b) == indent && item_line(cs, a, b) {
            items_since(cs, ls.drop_last(), indent) + 1
        } else {
            items_since(cs, ls.drop_last(), indent)
        }
    }
}

pub open spec fn unique_indents(counters: Counters) -> bool {
    forall|p: int, q: int|
        0 <= p < q < counters.len() ==> (#[trigger] counters[p]).0 != (#[trigger] counters[q]).0
}

/// The counters after some lines: one per indent, each holding the items
/// counted there, and one for every indent where something was counted.
pub open spec fn counters_count(counters: Counters, cs: Seq<char>, ls: Seq<(int, int)>) -> bool {
    &&& unique_indents(counters)
    &&& forall|x: (nat, nat)| #[trigger] counters.contains(x) ==> x.1 == items_since(cs, ls, x.0)
    &&& forall|i: nat|
        #[trigger] items_since(cs, ls, i) > 0 ==> exists|v: nat| counters.contains((i, v))
}

proof fn lemma_counter_find(counters: Counters, indent: nat, p: int)
    requires
        0 <= p <= counters.len(),
    ensures
        p <= counter_find(counters, indent, p) <= counters.len(),
        counter_find(counters, indent, p) < counters.len() ==> counters[counter_find(
            counters,
            indent,
            p,
        )].0 == indent,
        forall|q: int| p <= q < counter_find(counters, indent, p) ==> (#[trigger] counters[q]).0 != indent,
    decreases counters.len() - p,
{
    if p < counters.len() && counters[p].0 != indent {
        lemma_counter_find(counters, indent, p + 1);
    }
}

proof fn lemma_keep_upto(counters: Counters, indent: nat)
    ensures
        forall|x: (nat, nat)|
            #[trigger] keep_upto(counters, indent).contains(x) <==> (counters.contains(x) && x.0
                <= indent),
        unique_indents(counters) ==> unique_indents(keep_upto(counters, indent)),
    decreases counters.len(),
{
    if counters.len() > 0 {
        let p = counters.drop_last();
        lemma_keep_upto(p, indent);
        let k = keep_upto(p, indent);
        let kept = keep_upto(counters, indent);
        assert forall|x: (nat, nat)| #[trigger] kept.contains(x) <==> (counters.contains(x) && x.0
            <= indent) by {
            if counters.contains(x) && x.0 <= indent {
                let q = choose|q: int| 0 <= q < counters.len() && counters[q] == x;
                if q < p.len() {
                    assert(p[q] == x);
                    assert(k.contains(x));
                    let m = choose|m: int| 0 <= m < k.len() && k[m] == x;
                    if counters.last().0 <= indent {
                        assert(k.push(counters.last())[m] == x);
                    }
                } else {
                    assert(k.push(counters.last())[k.len() as int] == x);
                }
            }
            if kept.contains(x) {
                let m = choose|m: int| 0 <= m < kept.len() && kept[m] == x;
                if m < k.len() {
                    assert(kept[m] == k[m]);
                    assert(k.contains(x));
                    let q = choose|q: int| 0 <= q < p.len() && p[q] == x;
                    assert(counters[q] == x);
                } else {
                    assert(counters[counters.len() - 1] == x);
                }
            }
        }
        if unique_indents(counters) {
            assert forall|a: int, b: int| 0 <= a < b < p.len() implies (#[trigger] p[a]).0 != (
            #[trigger] p[b]).0 by {
                assert(p[a] == counters[a] && p[b] == counters[b]);
            }
            if counters.last().0 <= indent {
                assert forall|a: int, b: int| 0 <= a < b < kept.len() implies (#[trigger] kept[a]).0
                    != (#[trigger] kept[b]).0 by {
                    if b == k.len() {
                        assert(kept[a] == k[a]);
                        assert(k.contains(k[a]));
                        let q = choose|q: int| 0 <= q < p.len() && p[q] == k[a];
                        assert(counters[q] == k[a]);
                        assert(kept[b] == counters[counters.len() - 1]);
                    } else {
                        assert(kept[a] == k[a] && kept[b] == k[b]);
                    }
                }
            }
        }
    }
}

/// The index an item line takes from counters that count the lines
/// before it: the items counted at its indent.
proof fn lemma_index_taken(counters: Counters, cs: Seq<char>, ls: Seq<(int, int)>, indent: nat)
    requires
        counters_count(counters, cs, ls),
    ensures
        next_index_of(keep_upto(counters, indent), indent).0 == items_since(cs, ls, indent),
{
    let c1 = keep_upto(counters, indent);
    lemma_keep_upto(counters, indent);
    lemma_counter_find(c1, indent, 0);
    let cf = counter_find(c1, indent, 0);
    if cf < c1.len() {
        assert(c1.contains(c1[cf]));
    } else if items_since(cs, ls, indent) > 0 {
        let v = choose|v: nat| counters.contains((indent, v));
        assert(c1.contains((indent, v)));
        let q = choose|q: int| 0 <= q < c1.len() && c1[q] == (indent, v);
        assert(c1[q].0 == indent);
    }
}

proof fn lemma_counters_step(
    cs: Seq<char>,
    ls: Seq<(int, int)>,
    stack: Stack,
    counters: Counters,
)
    requires
        ls.len() > 0,
        counters_count(counters, cs, ls.drop_last()),
    ensures
        counters_count(yaml_step(cs, ls.last().0, ls.last().1, stack, counters).1, cs, ls),
{
    let p = ls.drop_last();
    let (a, b) = ls.last();
    let after = yaml_step(cs, a, b, stack, counters).1;
    if !content_line(cs, a, b) {
        assert(after == counters);
        assert forall|i: nat| #[trigger] items_since(cs, ls, i) == items_since(cs, p, i) by {}
    } else {
        let j = line_indent(cs, a, b);
        let c1 = keep_upto(counters, j);
        lemma_keep_upto(counters, j);
        assert forall|i: nat| #[trigger] items_since(cs, ls, i) == if i > j {
            0
        } else if i == j && item_line(cs, a, b) {
            items_since(cs, p, i) + 1
        } else {
            items_since(cs, p, i)
        } by {}
        if item_line(cs, a, b) {
            lemma_counter_find(c1, j, 0);
            let cf = counter_find(c1, j, 0);
            let c2 = next_index_of(c1, j).1;
            assert(after == c2);
            if cf < c1.len() {
                let v = c1[cf].1;
                assert(c1.contains(c1[cf]));
                assert(c2 == c1.update(cf, (j, v + 1)));
                assert forall|q: int, r: int| 0 <= q < r < c2.len() implies (#[trigger] c2[q]).0 != (
                #[trigger] c2[r]).0 by {
                    assert(c1[q].0 != c1[r].0);
                }
                assert forall|x: (nat, nat)| #[trigger] c2.contains(x) implies x.1 == items_since(
                    cs,
                    ls,
                    x.0,
                ) by {
                    let q = choose|q: int| 0 <= q < c2.len() && c2[q] == x;
                    if q != cf {
                        assert(c2[q] == c1[q]);
                        assert(c1.contains(c1[q]));
                        if q < cf {
                            assert(c1[q].0 != c1[cf].0);
                        } else {
                            assert(c1[cf].0 != c1[q].0);
                        }
                    }
                }
                assert forall|i: nat| #[trigger] items_since(cs, ls, i) > 0 implies exists|w: nat|
                    c2.contains((i, w)) by {
                    if i == j {
                        assert(c2[cf] == (j, v + 1));
                        assert(c2.contains((i, v + 1)));
                    } else {
                        let w = choose|w: nat| counters.contains((i, w));
                        assert(c1.contains((i, w)));
                        let q = choose|q: int| 0 <= q < c1.len() && c1[q] == (i, w);
                        assert(c2[q] == c1[q]);
                        assert(c2.contains((i, w)));
                    }
                }
            } else {
                assert(c2 == c1.push((j, 1nat)));
                if items_since(cs, p, j) > 0 {
                    let w = choose|w: nat| counters.contains((j, w));
                    assert(c1.contains((j, w)));
                    let q = choose|q: int| 0 <= q < c1.len() && c1[q] == (j, w);
                    assert(c1[q].0 == j);
                }
                assert forall|q: int, r: int| 0 <= q < r < c2.len() implies (#[trigger] c2[q]).0 != (
                #[trigger] c2[r]).0 by {
                    if r < c1.len() {
                        assert(c1[q].0 != c1[r].0);
                    } else {
                        assert(c2[q] == c1[q]);
                    }
                }
                assert forall|x: (nat, nat)| #[trigger] c2.contains(x) implies x.1 == items_since(
                    cs,
                    ls,
                    x.0,
                ) by {
                    let q = choose|q: int| 0 <= q < c2.len() && c2[q] == x;
                    if q < c1.len() {
                        assert(c2[q] == c1[q]);
                        assert(c1.contains(c1[q]));
                    }
                }
                assert forall|i: nat| #[trigger] items_since(cs, ls, i) > 0 implies exists|w: nat|
                    c2.contains((i, w)) by {
                    if i == j {
                        assert(c2[c1.len() as int] == (j, 1nat));
                        assert(c2.contains((i, 1nat)));
                    } else {
                        let w = choose|w: nat| counters.contains((i, w));
                        assert(c1.contains((i, w)));
                        let q = choose|q: int| 0 <= q < c1.len() && c1[q] == (i, w);
                        assert(c2[q] == c1[q]);
                        assert(c2.contains((i, w)));
                    }
                }
            }
        } else {
            assert(after == c1);
            assert forall|i: nat| #[trigger] items_since(cs, ls, i) > 0 implies exists|w: nat|
                c1.contains((i, w)) by {
                let w = choose|w: nat| counters.contains((i, w));
                assert(c1.contains((i, w)));
            }
        }
    }
}

proof fn lemma_fold_counts(cs: Seq<char>, ls: Seq<(int, int)>)
    ensures
        counters_count(yaml_fold(cs, ls).1, cs, ls),
    decreases ls.len(),
{
    if ls.len() == 0 {
        assert forall|i: nat| #[trigger] items_since(cs, ls, i) == 0 by {}
    } else {
        lemma_fold_counts(cs, ls.drop_last());
        let (stack, counters, spans) = yaml_fold(cs, ls.drop_last());
        lemma_counters_step(cs, ls, stack, counters);
    }
}

/// The index a block sequence item takes counts only the items before it
/// at its own indent since the last line read at a smaller indent: the
/// first item under a new parent key is `[0]`, however many items an
/// earlier list at that indent had.
pub proof fn lemma_yaml_item_index(cs: Seq<char>, ls: Seq<(int, int)>, k: int)
    requires
        0 <= k < ls.len(),
        item_line(cs, ls[k].0, ls[k].1),
    ensures
        yaml_fold(cs, ls.take(k + 1)).0.contains(
            (
                line_indent(cs, ls[k].0, ls[k].1),
                index_segment(items_since(cs, ls.take(k), line_indent(cs, ls[k].0, ls[k].1))),
            ),
        ),
        k > 0 && content_line(cs, ls[k - 1].0, ls[k - 1].1) && line_indent(cs, ls[k - 1].0, ls[k
            - 1].1) < line_indent(cs, ls[k].0, ls[k].1) ==> items_since(
            cs,
            ls.take(k),
            line_indent(cs, ls[k].0, ls[k].1),
        ) == 0,
{
    let t = ls.take(k + 1);
    assert(t.drop_last() =~= ls.take(k));
    assert(t.last() == ls[k]);
    let (a, b) = ls[k];
    let j = line_indent(cs, a, b);
    let (stack, counters, spans) = yaml_fold(cs, ls.take(k));
    lemma_fold_counts(cs, ls.take(k));
    lemma_index_taken(counters, cs, ls.take(k), j);
    let seg = index_segment(items_since(cs, ls.take(k), j));
    let stack2 = keep_below(stack, j).push((j, seg));
    let after = yaml_step(cs, a, b, stack, counters).0;
    assert(after.len() >= stack2.len() && after[stack2.len() - 1] == (j, seg));
    assert(after.contains((j, seg)));
    if k > 0 {
        assert(ls.take(k).last() == ls[k - 1]);
    }
}

/// Open keys nest strictly: each sits at a column right of the one it is
/// nested under.
pub open spec fn nested(stack: Stack) -> bool {
    forall|p: int, q: int| 0 <= p < q < stack.len() ==> (#[trigger] stack[p]).0 < (#[trigger] stack[q]).0
}

proof fn lemma_keep_below(stack: Stack, indent: nat)
    ensures
        forall|x: (nat, Seq<char>)|
            #[trigger] keep_below(stack, indent).contains(x) <==> (stack.contains(x) && x.0 < indent),
        nested(stack) ==> nested(keep_below(stack, indent)),
    decreases stack.len(),
{
    if stack.len() > 0 {
        let p = stack.drop_last();
        lemma_keep_below(p, indent);
        let k = keep_below(p, indent);
        let kept = keep_below(stack, indent);
        assert forall|x: (nat, Seq<char>)| #[trigger] kept.contains(x) <==> (stack.contains(x) && x.0
            < indent) by {
            if stack.contains(x) && x.0 < indent {
                let q = choose|q: int| 0 <= q < stack.len() && stack[q] == x;
                if q < p.len() {
                    assert(p[q] == x);
                    assert(k.contains(x));
                    let m = choose|m: int| 0 <= m < k.len() && k[m] == x;
                    if stack.last().0 < indent {
                        assert(k.push(stack.last())[m] == x);
                    }
                } else {
                    assert(k.push(stack.last())[k.len() as int] == x);
                }
            }
            if kept.contains(x) {
                let m = choose|m: int| 0 <= m < kept.len() && kept[m] == x;
                if m < k.len() {
                    assert(kept[m] == k[m]);
                    assert(k.contains(x));
                    let q = choose|q: int| 0 <= q < p.len() && p[q] == x;
                    assert(stack[q] == x);
                } else {
                    assert(stack[stack.len() - 1] == x);
                }
            }
        }
        if nested(stack) {
            assert forall|a: int, b: int| 0 <= a < b < p.len() implies (#[trigger] p[a]).0 < (
            #[trigger] p[b]).0 by {
                assert(p[a] == stack[a] && p[b] == stack[b]);
            }
            if stack.last().0 < indent {
                assert forall|a: int, b: int| 0 <= a < b < kept.len() implies (#[trigger] kept[a]).0
                    < (#[trigger] kept[b]).0 by {
                    if b == k.len() {
                        assert(kept[a] == k[a]);
                        assert(k.contains(k[a]));
                        let q = choose|q: int| 0 <= q < p.len() && p[q] == k[a];
                        assert(stack[q] == k[a]);
                        assert(kept[b] == stack[stack.len() - 1]);
                    } else {
                        assert(kept[a] == k[a] && kept[b] == k[b]);
                    }
                }
            }
        }
    }
}

proof fn lemma_stack_step(cs: Seq<char>, a: int, b: int, stack: Stack, counters: Counters)
    requires
        0 <= a <= b <= cs.len(),
        nested(stack),
    ensures
        nested(yaml_step(cs, a, b, stack, counters).0),
        content_line(cs, a, b) ==> forall|x: (nat, Seq<char>)|
            x.0 < line_indent(cs, a, b) ==> (#[trigger] yaml_step(cs, a, b, stack, counters).0.contains(
                x,
            ) <==> stack.contains(x)),
{
    let l = cs.subrange(a, b);
    let n = l.len() as int;
    lemma_skip_ws(l, 0, n);
    let cstart = skip_ws(l, 0, n);
    let after = yaml_step(cs, a, b, stack, counters).0;
    if content_line(cs, a, b) {
        let j = line_indent(cs, a, b);
        let s1 = keep_below(stack, j);
        lemma_keep_below(stack, j);
        let item = l[cstart] == '-';
        let bs = if item {
            if cstart + 1 < n && l[cstart + 1] == ' ' {
                cstart + 2
            } else {
                cstart + 1
            }
        } else {
            cstart
        };
        let s2 = if item {
            s1.push((j, index_segment(next_index_of(keep_upto(counters, j), j).0)))
        } else {
            s1
        };
        crate::text::lemma_byte_len_monotone(l, cstart, bs);
        let col = offset_of(l, bs);
        assert(col >= j && (item ==> col > j));
        assert(forall|m: int| 0 <= m < s1.len() ==> s1.contains(#[trigger] s1[m]));
        assert forall|p: int, q: int| 0 <= p < q < s2.len() implies (#[trigger] s2[p]).0 < (
        #[trigger] s2[q]).0 by {
            if q == s1.len() {
                assert(s1.contains(s1[p]));
            } else {
                assert(s2[p] == s1[p] && s2[q] == s1[q]);
            }
        }
        assert(forall|m: int| 0 <= m < s2.len() ==> (#[trigger] s2[m]).0 <= j);
        match split_key_of(l, bs) {
            None => {
                assert(after == s2);
            },
            Some((key, v)) => {
                assert(after == s2.push((col, key)));
                assert forall|p: int, q: int| 0 <= p < q < after.len() implies (#[trigger] after[p]).0
                    < (#[trigger] after[q]).0 by {
                    if q == s2.len() {
                        assert(after[p] == s2[p]);
                        if item && p == s1.len() {
                        } else {
                            assert(s2[p] == s1[p]);
                            assert(s1.contains(s1[p]));
                        }
                    } else {
                        assert(after[p] == s2[p] && after[q] == s2[q]);
                    }
                }
            },
        }
        assert(forall|m: int| 0 <= m < s1.len() ==> after[m] == s1[m]);
        assert(forall|m: int| s1.len() <= m < after.len() ==> (#[trigger] after[m]).0 >= j);
        assert forall|x: (nat, Seq<char>)| x.0 < j implies (#[trigger] after.contains(x)
            <==> stack.contains(x)) by {
            if after.contains(x) {
                let m = choose|m: int| 0 <= m < after.len() && after[m] == x;
                assert(m < s1.len());
                assert(s1.contains(x));
            }
            if stack.contains(x) {
                assert(s1.contains(x));
                let m = choose|m: int| 0 <= m < s1.len() && s1[m] == x;
                assert(after[m] == x);
            }
        }
    }
}

/// The keys open at each point of a YAML document nest strictly, each at
/// a column right of the one it is nested under: a key at the same column
/// as an open one replaces it rather than nesting under it. A line read at
/// some indent keeps open exactly the keys opened before it at a column
/// left of that indent.
pub proof fn lemma_yaml_keys_nest(cs: Seq<char>, ls: Seq<(int, int)>)
    requires
        forall|m: int| 0 <= m < ls.len() ==> 0 <= (#[trigger] ls[m]).0 <= ls[m].1 <= cs.len(),
    ensures
        nested(yaml_fold(cs, ls).0),
        ls.len() > 0 && content_line(cs, ls.last().0, ls.last().1) ==> forall|x: (nat, Seq<char>)|
            x.0 < line_indent(cs, ls.last().0, ls.last().1) ==> (#[trigger] yaml_fold(
                cs,
                ls,
            ).0.contains(x) <==> yaml_fold(cs, ls.drop_last()).0.contains(x)),
    decreases ls.len(),
{
    if ls.len() > 0 {
        let p = ls.drop_last();
        assert forall|m: int| 0 <= m < p.len() implies 0 <= (#[trigger] p[m]).0 <= p[m].1 <= cs.len() by {
            assert(p[m] == ls[m]);
        }
        lemma_yaml_keys_nest(cs, p);
        let (stack, counters, spans) = yaml_fold(cs, p);
        assert(ls.last() == ls[ls.len() - 1]);
        lemma_stack_step(cs, ls.last().0, ls.last().1, stack, counters);
    }
}

pub open spec fn stack_view(stack: Seq<(usize, Vec<char>)>) -> Stack {
    stack.map_values(|e: (usize, Vec<char>)| (e.0 as nat, e.1@))
}

pub open spec fn counters_view(counters: Seq<(usize, usize)>) -> Counters {
    counters.map_values(|e: (usize, usize)| (e.0 as nat, e.1 as nat))
}

/// The next index for a sequence at one indent, remembered so a second
/// `- ` on the following line is `[1]` rather than `[0]` again.
pub fn next_index(counters: &mut Vec<(usize, usize)>, indent: usize, bound: Ghost<nat>) -> (r: usize)
    requires
        forall|m: int| 0 <= m < old(counters).len() ==> (#[trigger] old(counters)@[m]).1 <= bound@,
        bound@ < usize::MAX,
    ensures
        forall|m: int| 0 <= m < final(counters).len() ==> (#[trigger] final(counters)@[m]).1 <= bound@
            + 1,
        (r as nat, counters_view(final(counters)@)) == next_index_of(
            counters_view(old(counters)@),
            indent as nat,
        ),
{
    let ghost cv = counters_view(counters@);
    let mut k: usize = 0;
    while k < counters.len() && counters[k].0 != indent
        invariant
            cv == counters_view(counters@),
            0 <= k <= counters.len(),
            counter_find(cv, indent as nat, 0) == counter_find(cv, indent as nat, k as int),
        decreases counters.len() - k,
    {
        k = k + 1;
    }
    if k < counters.len() {
        let next = counters[k].1;
        counters.set(k, (indent, next + 1));
        proof {
            assert forall|m: int| 0 <= m < counters.len() implies (#[trigger] counters@[m]).1 <= bound@
                + 1 by {
                if m != k {
                    assert(counters@[m] == old(counters)@[m]);
                }
            }
            assert(counters_view(counters@) =~= cv.update(k as int, (indent as nat, cv[k as int].1 + 1)));
        }
        next
    } else {
        counters.push((indent, 1));
        proof {
            assert forall|m: int| 0 <= m < counters.len() implies (#[trigger] counters@[m]).1 <= bound@
                + 1 by {
                if m < counters.len() - 1 {
                    assert(counters@[m] == old(counters)@[m]);
                }
            }
            assert(counters_view(counters@) =~= cv.push((indent as nat, 1nat)));
        }
        0
    }
}

/// A key and the index its value starts at, for `key: value` starting at
/// `bs`. The colon has to be followed by a space or end the line, which
/// keeps `url: https://example.com` from being split at its second colon.
pub fn split_key(line: &[char], bs: usize) -> (r: Option<(Vec<char>, usize)>)
    requires
        bs <= line.len(),
    ensures
        match r {
            Some((key, at)) => split_key_of(line@, bs as int) == Some((key@, at as int)),
            None => split_key_of(line@, bs as int) is None,
        },
{
    proof {
        lemma_key_colon(line@, bs as int);
    }
    let mut colon = bs;
    while colon < line.len() && !(line[colon] == ':' && (colon + 1 == line.len() || line[colon + 1]
        == ' '))
        invariant
            bs <= colon <= line.len(),
            key_colon(line@, bs as int) == key_colon(line@, colon as int),
        decreases line.len() - colon,
    {
        colon = colon + 1;
    }
    if colon >= line.len() {
        return None;
    }
    let ks = skip_white(line, bs, colon);
    let ke = back_white(line, ks, colon);
    let (qs, qe) = trim_quotes(line, ks, ke, true);
    if qs >= qe {
        return None;
    }
    Some((slice_chars(line, qs, qe), colon + 1))
}

/// The path of the open keys, joined.
pub fn path_of(stack: &Vec<(usize, Vec<char>)>) -> (r: String)
    ensures
        r@ == path_of_stack(stack_view(stack@)),
{
    let mut segments: Vec<Vec<char>> = Vec::new();
    let mut i: usize = 0;
    while i < stack.len()
        invariant
            0 <= i <= stack.len(),
            segments@.map_values(|s: Vec<char>| s@) == stack_view(stack@).map_values(
                |e: (nat, Seq<char>)| e.1,
            ).take(i as int),
        decreases stack.len() - i,
    {
        let ghost before = segments@.map_values(|s: Vec<char>| s@);
        segments.push(slice_chars(stack[i].1.as_slice(), 0, stack[i].1.len()));
        proof {
            assert(stack[i as int].1@.subrange(0, stack[i as int].1@.len() as int) =~= stack[i as int].1@);
            assert(segments@.map_values(|s: Vec<char>| s@) =~= before.push(stack[i as int].1@));
            assert(stack_view(stack@).map_values(|e: (nat, Seq<char>)| e.1).take(i + 1)
                =~= stack_view(stack@).map_values(|e: (nat, Seq<char>)| e.1).take(i as int).push(
                stack[i as int].1@,
            ));
        }
        i = i + 1;
    }
    proof {
        assert(stack_view(stack@).map_values(|e: (nat, Seq<char>)| e.1).take(stack.len() as int)
            =~= stack_view(stack@).map_values(|e: (nat, Seq<char>)| e.1));
    }
    string_of(join_chars(&segments).as_slice())
}

fn retain_below(stack: &mut Vec<(usize, Vec<char>)>, indent: usize)
    ensures
        stack_view(final(stack)@) == keep_below(stack_view(old(stack)@), indent as nat),
{
    let ghost sv = stack_view(stack@);
    let mut kept: Vec<(usize, Vec<char>)> = Vec::new();
    let mut old_stack: Vec<(usize, Vec<char>)> = Vec::new();
    std::mem::swap(&mut old_stack, stack);
    let mut i: usize = 0;
    proof {
        assert(sv.take(0) =~= Seq::<(nat, Seq<char>)>::empty());
    }
    while i < old_stack.len()
        invariant
            sv == stack_view(old_stack@),
            0 <= i <= old_stack.len(),
            stack_view(kept@) == keep_below(sv.take(i as int), indent as nat),
        decreases old_stack.len() - i,
    {
        let at = old_stack[i].0;
        proof {
            let t = sv.take(i + 1);
            assert(t.drop_last() =~= sv.take(i as int));
            assert(t.last() == sv[i as int]);
        }
        if at < indent {
            let seg = slice_chars(old_stack[i].1.as_slice(), 0, old_stack[i].1.len());
            let ghost before = stack_view(kept@);
            kept.push((at, seg));
            proof {
                assert(old_stack[i as int].1@.subrange(0, old_stack[i as int].1@.len() as int)
                    =~= old_stack[i as int].1@);
                assert(stack_view(kept@) =~= before.push(sv[i as int]));
            }
        }
        i = i + 1;
    }
    proof {
        assert(sv.take(old_stack.len() as int) =~= sv);
    }
    *stack = kept;
}

fn retain_upto(counters: &mut Vec<(usize, usize)>, indent: usize, bound: Ghost<nat>)
    requires
        forall|m: int| 0 <= m < old(counters).len() ==> (#[trigger] old(counters)@[m]).1 <= bound@,
    ensures
        counters_view(final(counters)@) == keep_upto(counters_view(old(counters)@), indent as nat),
        forall|m: int| 0 <= m < final(counters).len() ==> (#[trigger] final(counters)@[m]).1 <= bound@,
{
    let ghost cv = counters_view(counters@);
    let ghost original = counters@;
    let mut kept: Vec<(usize, usize)> = Vec::new();
    let mut i: usize = 0;
    proof {
        assert(cv.take(0) =~= Seq::<(nat, nat)>::empty());
    }
    while i < counters.len()
        invariant
            cv == counters_view(counters@),
            counters@ == original,
            forall|m: int| 0 <= m < original.len() ==> (#[trigger] original[m]).1 <= bound@,
            0 <= i <= counters.len(),
            counters_view(kept@) == keep_upto(cv.take(i as int), indent as nat),
            forall|m: int| 0 <= m < kept.len() ==> (#[trigger] kept@[m]).1 <= bound@,
        decreases counters.len() - i,
    {
        let entry = counters[i];
        proof {
            let t = cv.take(i + 1);
            assert(t.drop_last() =~= cv.take(i as int));
            assert(t.last() == cv[i as int]);
        }
        if entry.0 <= indent {
            let ghost before = counters_view(kept@);
            kept.push(entry);
            proof {
                assert(counters_view(kept@) =~= before.push(cv[i as int]));
            }
        }
        i = i + 1;
    }
    proof {
        assert(cv.take(counters.len() as int) =~= cv);
    }
    *counters = kept;
}

fn index_text(index: usize) -> (r: Vec<char>)
    ensures
        r@ == index_segment(index as nat),
{
    let mut out: Vec<char> = Vec::new();
    out.push('[');
    push_decimal(&mut out, index as u64);
    out.push(']');
    proof {
        assert(out@ =~= index_segment(index as nat));
    }
    out
}

fn step(
    text: &Text,
    a: usize,
    b: usize,
    stack: &mut Vec<(usize, Vec<char>)>,
    counters: &mut Vec<(usize, usize)>,
    bound: Ghost<nat>,
) -> (r: Option<KeySpan>)
    requires
        text.wf(),
        a <= b <= text.chars.len(),
        bound@ < usize::MAX,
        forall|m: int| 0 <= m < old(counters).len() ==> (#[trigger] old(counters)@[m]).1 <= bound@,
    ensures
        (stack_view(final(stack)@), counters_view(final(counters)@), match r {
            Some(s) => Some(s@),
            None => None::<KeySpanView>,
        }) == yaml_step(
            text.chars@,
            a as int,
            b as int,
            stack_view(old(stack)@),
            counters_view(old(counters)@),
        ),
        forall|m: int| 0 <= m < final(counters).len() ==> (#[trigger] final(counters)@[m]).1 <= bound@
            + 1,
{
    let ghost cs = text.chars@;
    let line = slice_chars(text.chars.as_slice(), a, b);
    let n = line.len();
    let cstart = skip_white(line.as_slice(), 0, n);
    if cstart >= n || line[cstart] == '#' || starts_at(line.as_slice(), cstart, "---") {
        return None;
    }
    proof {
        lemma_byte_len_monotone(cs, a as int, a + cstart);
        assert(text.offsets@[a + cstart] == offset_of(cs, a + cstart));
        assert(text.offsets@[a as int] == offset_of(cs, a as int));
    }
    let indent = text.offsets[a + cstart] - text.offsets[a];
    proof {
        assert(text.offsets@[a + cstart] == offset_of(cs, a + cstart));
        assert(text.offsets@[a as int] == offset_of(cs, a as int));
        crate::text::lemma_byte_len_concat(cs.take(a as int), line@.take(cstart as int));
        assert(cs.take(a as int) + line@.take(cstart as int) =~= cs.take(a + cstart));
        assert(indent == offset_of(line@, cstart as int));
    }
    retain_below(stack, indent);
    retain_upto(counters, indent, bound);
    let ghost l = line@;
    let ghost stack1 = keep_below(stack_view(old(stack)@), indent as nat);
    let ghost counters1 = keep_upto(counters_view(old(counters)@), indent as nat);
    assert(l == cs.subrange(a as int, b as int));
    assert(stack_view(stack@) == stack1);
    assert(counters_view(counters@) == counters1);
    let mut bs = cstart;
    if line[cstart] == '-' {
        bs = if cstart + 1 < n && line[cstart + 1] == ' ' {
            cstart + 2
        } else {
            cstart + 1
        };
        let index = next_index(counters, indent, bound);
        let ghost sv = stack_view(stack@);
        stack.push((indent, index_text(index)));
        proof {
            assert(stack_view(stack@) =~= sv.push((indent as nat, index_segment(index as nat))));
        }
    }
    match split_key(line.as_slice(), bs) {
        None => {
            if bs < n {
                proof {
                    assert(text.offsets@[a + bs] == offset_of(cs, a + bs));
                    assert(text.offsets@[b as int] == offset_of(cs, b as int));
                }
                Some(KeySpan { start: text.offsets[a + bs], end: text.offsets[b], path: path_of(stack) })
            } else {
                None
            }
        },
        Some((key, value_at)) => {
            proof {
                lemma_byte_len_monotone(cs, a as int, a + bs);
                assert(text.offsets@[a + bs] == offset_of(cs, a + bs));
                assert(text.offsets@[a as int] == offset_of(cs, a as int));
            }
            let column = text.offsets[a + bs] - text.offsets[a];
            proof {
                assert(text.offsets@[a + bs] == offset_of(cs, a + bs));
                crate::text::lemma_byte_len_concat(cs.take(a as int), line@.take(bs as int));
                assert(cs.take(a as int) + line@.take(bs as int) =~= cs.take(a + bs));
            }
            let ghost sv = stack_view(stack@);
            let ghost kv = key@;
            stack.push((column, key));
            proof {
                assert(stack_view(stack@) =~= sv.push((column as nat, kv)));
            }
            let vs = skip_white(line.as_slice(), value_at, n);
            if vs >= n {
                None
            } else {
                proof {
                    assert(text.offsets@[a + vs] == offset_of(cs, a + vs));
                    assert(text.offsets@[b as int] == offset_of(cs, b as int));
                }
                Some(KeySpan { start: text.offsets[a + vs], end: text.offsets[b], path: path_of(stack) })
            }
        },
    }
}

/// The value regions of a YAML document, each named by the keys and
/// sequence indices it is nested under.
pub fn key_spans(content: &str) -> (r: Vec<KeySpan>)
    ensures
        spans_view(r@) == yaml_spans(content@),
        ordered(spans_view(r@)),
        within(spans_view(r@), byte_len(content@)),
{
    let text = text_of(content);
    let ranges = line_ranges(&text);
    let ghost ls = lines_of(content@);
    proof {
        lemma_lines_ordered(content@, 0);
        assert forall|k: int| 0 <= k < ranges.len() implies ranges@[k].0 as int == (
        #[trigger] ls[k]).0 && ranges@[k].1 as int == ls[k].1 by {
            assert(ranges@.map_values(|l: (usize, usize)| (l.0 as int, l.1 as int))[k] == ls[k]);
        }
        assert(ls.take(0) =~= Seq::<(int, int)>::empty());
        assert(stack_view(Seq::<(usize, Vec<char>)>::empty()) =~= Seq::<(nat, Seq<char>)>::empty());
    }
    let mut stack: Vec<(usize, Vec<char>)> = Vec::new();
    let mut counters: Vec<(usize, usize)> = Vec::new();
    let mut out: Vec<KeySpan> = Vec::new();
    let mut k: usize = 0;
    proof {
        assert(stack_view(stack@) =~= Seq::<(nat, Seq<char>)>::empty());
        assert(counters_view(counters@) =~= Seq::<(nat, nat)>::empty());
    }
    while k < ranges.len()
        invariant
            text.wf(),
            text.chars@ == content@,
            ls == lines_of(content@),
            ranges.len() == ls.len(),
            forall|m: int| 0 <= m < ranges.len() ==> ranges@[m].0 as int == (#[trigger] ls[m]).0
                && ranges@[m].1 as int == ls[m].1,
            forall|m: int| 0 <= m < ls.len() ==> 0 <= (#[trigger] ls[m]).0 <= ls[m].1 <= content@.len(),
            0 <= k <= ranges.len(),
            forall|m: int| 0 <= m < counters.len() ==> (#[trigger] counters@[m]).1 <= k,
            (stack_view(stack@), counters_view(counters@), spans_view(out@)) == yaml_fold(
                content@,
                ls.take(k as int),
            ),
        decreases ranges.len() - k,
    {
        let (a, b) = ranges[k];
        proof {
            assert(ls[k as int].0 == a as int && ls[k as int].1 == b as int);
        }
        let ghost before = spans_view(out@);
        let found = step(&text, a, b, &mut stack, &mut counters, Ghost(k as nat));
        let ghost found_view = match &found {
            Some(s) => Some(s@),
            None => None::<KeySpanView>,
        };
        match found {
            Some(s) => {
                out.push(s);
            },
            None => {},
        }
        proof {
            let t = ls.take(k + 1);
            assert(t.drop_last() =~= ls.take(k as int));
            assert(t.last() == ls[k as int]);
            assert(spans_view(out@) =~= before + optional_span(found_view));
        }
        k = k + 1;
    }
    proof {
        assert(ls.take(ranges.len() as int) =~= ls);
        lemma_yaml_spans_ordered(content@);
    }
    out
}

} // verus!
