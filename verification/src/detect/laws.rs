//! What holds of every examination, whatever the document.

use super::characters::{char_draft, char_drafts, classified};
use super::locate::format_escapes;
use super::normalize::{line_draft, line_end, nfc_drafts, nfc_drafts_from, lemma_line_end};
use super::scripts::{
    compat_from, compatibility_view, context_of, homoglyph_view, homoglyphs_from, judge_view,
    judged, script_drafts,
};
use super::locate::KeySpanView;
use super::{
    draft_slot, escape_ranges, examined, kind_rank, located, raw_drafts, script_checks_wanted,
    sort_drafts, sorts_before, wanted, wanted_only, DraftView, FindingView, Kind,
};
use vstd::prelude::*;

verus! {

/// Drafts in order: no later one sorts strictly before an earlier one.
pub open spec fn in_order(s: Seq<DraftView>) -> bool {
    forall|i: int, j: int| 0 <= i < j < s.len() ==> !sorts_before(#[trigger] s[j], #[trigger] s[i])
}

proof fn lemma_slot(s: Seq<DraftView>, d: DraftView, i: int)
    requires
        0 <= i <= s.len(),
    ensures
        i <= draft_slot(s, d, i) <= s.len(),
        forall|k: int| i <= k < draft_slot(s, d, i) ==> !sorts_before(d, #[trigger] s[k]),
        draft_slot(s, d, i) < s.len() ==> sorts_before(d, s[draft_slot(s, d, i)]),
    decreases s.len() - i,
{
    if i < s.len() && !sorts_before(d, s[i]) {
        lemma_slot(s, d, i + 1);
    }
}

/// Sorting puts drafts in order and keeps exactly as many as it was given,
/// each one of them.
pub proof fn lemma_sort_drafts(s: Seq<DraftView>)
    ensures
        in_order(sort_drafts(s)),
        sort_drafts(s).len() == s.len(),
        forall|k: int| 0 <= k < sort_drafts(s).len() ==> s.contains(#[trigger] sort_drafts(s)[k]),
    decreases s.len(),
{
    if s.len() > 0 {
        let t = sort_drafts(s.drop_last());
        lemma_sort_drafts(s.drop_last());
        let d = s.last();
        lemma_slot(t, d, 0);
        let p = draft_slot(t, d, 0);
        let r = t.insert(p, d);
        assert forall|i: int, j: int| 0 <= i < j < r.len() implies !sorts_before(
            #[trigger] r[j],
            #[trigger] r[i],
        ) by {
            if j < p {
                assert(r[i] == t[i] && r[j] == t[j]);
            } else if j == p {
                assert(r[i] == t[i] && r[j] == d);
            } else if i < p {
                assert(r[i] == t[i] && r[j] == t[j - 1]);
                if i < j - 1 {
                    assert(!sorts_before(t[j - 1], t[i]));
                }
            } else if i == p {
                assert(r[i] == d && r[j] == t[j - 1]);
                assert(sorts_before(d, t[p]));
                if j - 1 > p {
                    assert(!sorts_before(t[j - 1], t[p]));
                }
            } else {
                assert(r[i] == t[i - 1] && r[j] == t[j - 1]);
            }
        }
        assert forall|k: int| 0 <= k < r.len() implies s.contains(#[trigger] r[k]) by {
            if k == p {
                assert(s[s.len() - 1] == r[k]);
            } else {
                let q = if k < p {
                    k
                } else {
                    k - 1
                };
                assert(r[k] == t[q]);
                assert(s.drop_last().contains(t[q]));
                let m = choose|m: int| 0 <= m < s.drop_last().len() && s.drop_last()[m] == t[q];
                assert(s[m] == r[k]);
            }
        }
    }
}

pub proof fn lemma_wanted_only_members(s: Seq<DraftView>, kinds: Seq<Kind>)
    ensures
        forall|k: int|
            0 <= k < wanted_only(s, kinds).len() ==> s.contains(#[trigger] wanted_only(s, kinds)[k])
                && wanted(kinds, wanted_only(s, kinds)[k].kind),
    decreases s.len(),
{
    if s.len() > 0 {
        lemma_wanted_only_members(s.drop_last(), kinds);
        let before = wanted_only(s.drop_last(), kinds);
        let r = wanted_only(s, kinds);
        assert forall|k: int| 0 <= k < r.len() implies s.contains(#[trigger] r[k]) && wanted(
            kinds,
            r[k].kind,
        ) by {
            if k < before.len() {
                assert(r[k] == before[k]);
                assert(s.drop_last().contains(before[k]));
                let m = choose|m: int| 0 <= m < s.drop_last().len() && s.drop_last()[m] == before[k];
                assert(s[m] == r[k]);
            } else {
                assert(r[k] == s.last());
                assert(s[s.len() - 1] == r[k]);
            }
        }
    }
}

/// Findings come back in document order, and within one offset in the
/// order kinds are declared, so two runs over an unchanged file give a
/// byte-identical report.
pub proof fn lemma_findings_in_document_order(
    cs: Seq<char>,
    format: Seq<char>,
    kinds: Seq<Kind>,
    expected: Seq<u8>,
)
    ensures
        forall|i: int, j: int|
            0 <= i < j < examined(cs, format, kinds, expected).len() ==> {
                let a = #[trigger] examined(cs, format, kinds, expected)[i];
                let b = #[trigger] examined(cs, format, kinds, expected)[j];
                a.offset < b.offset || (a.offset == b.offset && kind_rank(a.kind) <= kind_rank(b.kind))
            },
{
    let s = sort_drafts(wanted_only(raw_drafts(cs, format, kinds, expected), kinds));
    lemma_sort_drafts(wanted_only(raw_drafts(cs, format, kinds, expected), kinds));
    let e = examined(cs, format, kinds, expected);
    assert forall|i: int, j: int| 0 <= i < j < e.len() implies {
        let a = #[trigger] e[i];
        let b = #[trigger] e[j];
        a.offset < b.offset || (a.offset == b.offset && kind_rank(a.kind) <= kind_rank(b.kind))
    } by {
        assert(!sorts_before(s[j], s[i]));
    }
}

/// A kind filter narrows the report: every finding is of a kind the
/// caller asked for, and an empty filter asks for every kind.
pub proof fn lemma_findings_are_wanted(
    cs: Seq<char>,
    format: Seq<char>,
    kinds: Seq<Kind>,
    expected: Seq<u8>,
)
    ensures
        forall|i: int|
            0 <= i < examined(cs, format, kinds, expected).len() ==> wanted(
                kinds,
                (#[trigger] examined(cs, format, kinds, expected)[i]).kind,
            ),
{
    let w = wanted_only(raw_drafts(cs, format, kinds, expected), kinds);
    let s = sort_drafts(w);
    lemma_sort_drafts(w);
    lemma_wanted_only_members(raw_drafts(cs, format, kinds, expected), kinds);
    let e = examined(cs, format, kinds, expected);
    assert forall|i: int| 0 <= i < e.len() implies wanted(kinds, (#[trigger] e[i]).kind) by {
        assert(w.contains(s[i]));
        let m = choose|m: int| 0 <= m < w.len() && w[m] == s[i];
        assert(wanted(kinds, w[m].kind));
    }
}

proof fn lemma_char_kinds(cs: Seq<char>)
    ensures
        forall|i: int|
            0 <= i < char_drafts(cs).len() ==> {
                let k = (#[trigger] char_drafts(cs)[i]).kind;
                k != Kind::Confusable && k != Kind::MixedScript
            },
    decreases cs.len(),
{
    if cs.len() > 0 {
        lemma_char_kinds(cs.drop_last());
        let before = char_drafts(cs.drop_last());
        assert forall|i: int| 0 <= i < char_drafts(cs).len() implies {
            let k = (#[trigger] char_drafts(cs)[i]).kind;
            k != Kind::Confusable && k != Kind::MixedScript
        } by {
            if i < before.len() {
                assert(char_drafts(cs)[i] == before[i]);
            }
        }
    }
}

proof fn lemma_nfc_kinds(cs: Seq<char>, i: int)
    ensures
        forall|k: int|
            0 <= k < nfc_drafts_from(cs, i).len() ==> (#[trigger] nfc_drafts_from(cs, i)[k]).kind
                == Kind::NonNfc,
    decreases cs.len() - i,
{
    if 0 <= i < cs.len() {
        lemma_line_end(cs, i);
        let j = line_end(cs, i);
        lemma_nfc_kinds(cs, j);
        let here = match line_draft(cs.subrange(i, j), crate::text::offset_of(cs, i)) {
            Some(d) => seq![d],
            None => seq![],
        };
        let all = nfc_drafts_from(cs, i);
        let rest = nfc_drafts_from(cs, j);
        assert forall|k: int| 0 <= k < all.len() implies (#[trigger] all[k]).kind == Kind::NonNfc by {
            if k >= here.len() {
                assert(all[k] == rest[k - here.len()]);
            }
        }
    }
}

/// A refused document is still examined for everything else, and only
/// the two script checks are withheld: where the script context refuses
/// a document, no finding is a confusable or a mixed-script one.
pub proof fn lemma_refusal_withholds_only_the_script_checks(
    cs: Seq<char>,
    format: Seq<char>,
    kinds: Seq<Kind>,
    expected: Seq<u8>,
)
    requires
        context_of(cs, expected) is Some,
    ensures
        raw_drafts(cs, format, kinds, expected) == char_drafts(cs) + nfc_drafts(cs),
        forall|i: int|
            0 <= i < examined(cs, format, kinds, expected).len() ==> {
                let k = (#[trigger] examined(cs, format, kinds, expected)[i]).kind;
                k != Kind::Confusable && k != Kind::MixedScript
            },
{
    let raw = raw_drafts(cs, format, kinds, expected);
    lemma_char_kinds(cs);
    lemma_nfc_kinds(cs, 0);
    let w = wanted_only(raw, kinds);
    let s = sort_drafts(w);
    lemma_sort_drafts(w);
    lemma_wanted_only_members(raw, kinds);
    let e = examined(cs, format, kinds, expected);
    assert forall|i: int| 0 <= i < e.len() implies {
        let k = (#[trigger] e[i]).kind;
        k != Kind::Confusable && k != Kind::MixedScript
    } by {
        assert(w.contains(s[i]));
        let q = choose|q: int| 0 <= q < w.len() && w[q] == s[i];
        assert(raw.contains(w[q]));
        let m = choose|m: int| 0 <= m < raw.len() && raw[m] == s[i];
        let a = char_drafts(cs);
        if m < a.len() {
            assert(raw[m] == a[m]);
        } else {
            assert(raw[m] == nfc_drafts(cs)[m - a.len()]);
        }
    }
}

/// A finding with its key path taken away.
pub open spec fn unkeyed(f: FindingView) -> FindingView {
    FindingView { key: None, ..f }
}

/// The format decides how a finding is addressed and never whether it
/// exists: two formats that declare the same escape ranges (every format
/// but JSON declares none) give the same findings, differing at most in
/// their key paths.
pub proof fn lemma_format_only_addresses(
    cs: Seq<char>,
    f1: Seq<char>,
    f2: Seq<char>,
    kinds: Seq<Kind>,
    expected: Seq<u8>,
)
    requires
        format_escapes(cs, f1) == format_escapes(cs, f2),
    ensures
        examined(cs, f1, kinds, expected).len() == examined(cs, f2, kinds, expected).len(),
        forall|i: int|
            0 <= i < examined(cs, f1, kinds, expected).len() ==> unkeyed(
                #[trigger] examined(cs, f1, kinds, expected)[i],
            ) == unkeyed(examined(cs, f2, kinds, expected)[i]),
{
    assert(escape_ranges(cs, f1) == escape_ranges(cs, f2));
    assert(raw_drafts(cs, f1, kinds, expected) == raw_drafts(cs, f2, kinds, expected));
}

/// The findings of the kinds asked for, in the order given.
pub open spec fn findings_wanted(s: Seq<FindingView>, kinds: Seq<Kind>) -> Seq<FindingView>
    decreases s.len(),
{
    if s.len() == 0 {
        s
    } else {
        let before = findings_wanted(s.drop_last(), kinds);
        if wanted(kinds, s.last().kind) {
            before.push(s.last())
        } else {
            before
        }
    }
}

/// The kinds only the script checks report.
pub open spec fn script_kind(kind: Kind) -> bool {
    kind == Kind::Confusable || kind == Kind::MixedScript
}

pub open spec fn all_script_kinds(s: Seq<DraftView>) -> bool {
    forall|i: int| 0 <= i < s.len() ==> script_kind(#[trigger] s[i].kind)
}

proof fn lemma_concat_script_kinds(a: Seq<DraftView>, b: Seq<DraftView>)
    requires
        all_script_kinds(a),
        all_script_kinds(b),
    ensures
        all_script_kinds(a + b),
{
    assert forall|i: int| 0 <= i < (a + b).len() implies script_kind(#[trigger] (a + b)[i].kind) by {
        if i < a.len() {
            assert((a + b)[i] == a[i]);
        } else {
            assert((a + b)[i] == b[i - a.len()]);
        }
    }
}

proof fn lemma_compat_kinds(word: Seq<char>, offset: nat, i: int)
    ensures
        all_script_kinds(compat_from(word, offset, i)),
    decreases word.len() - i,
{
    if 0 <= i < word.len() {
        lemma_compat_kinds(word, offset, i + 1);
        let c = word[i];
        let here = if crate::unicode::script_of(c) == crate::unicode::SCRIPT_LATIN
            || crate::unicode::script_of(c) == crate::unicode::SCRIPT_COMMON {
            match compatibility_view(offset + crate::text::offset_of(word, i), c) {
                Some(d) => seq![d],
                None => seq![],
            }
        } else {
            seq![]
        };
        assert(all_script_kinds(here));
        lemma_concat_script_kinds(here, compat_from(word, offset, i + 1));
        assert(compat_from(word, offset, i) == here + compat_from(word, offset, i + 1));
    }
}

proof fn lemma_homoglyph_kinds(word: Seq<char>, offset: nat, undeclared: Seq<u8>, i: int)
    ensures
        all_script_kinds(homoglyphs_from(word, offset, undeclared, i)),
    decreases word.len() - i,
{
    if 0 <= i < word.len() {
        lemma_homoglyph_kinds(word, offset, undeclared, i + 1);
        let c = word[i];
        let here = if undeclared.contains(crate::unicode::script_of(c)) {
            match homoglyph_view(offset + crate::text::offset_of(word, i), c) {
                Some(d) => seq![d],
                None => seq![],
            }
        } else {
            seq![]
        };
        assert(all_script_kinds(here));
        lemma_concat_script_kinds(here, homoglyphs_from(word, offset, undeclared, i + 1));
        assert(homoglyphs_from(word, offset, undeclared, i) == here + homoglyphs_from(
            word,
            offset,
            undeclared,
            i + 1,
        ));
    }
}

proof fn lemma_judged_kinds(cs: Seq<char>, words: Seq<(int, int)>, expected: Seq<u8>)
    ensures
        all_script_kinds(judged(cs, words, expected)),
    decreases words.len(),
{
    if words.len() > 0 {
        lemma_judged_kinds(cs, words.drop_last(), expected);
        let word = cs.subrange(words.last().0, words.last().1);
        let offset = crate::text::offset_of(cs, words.last().0);
        let found = super::scripts::word_scripts(word);
        let undeclared = super::scripts::undeclared_in(super::scripts::scripts_of(found), expected);
        lemma_compat_kinds(word, offset, 0);
        lemma_homoglyph_kinds(word, offset, undeclared, 0);
        let head = super::scripts::mixed_view(word, offset, found, undeclared).take(1);
        assert(all_script_kinds(head));
        assert(super::scripts::mixed_view(word, offset, found, undeclared) =~= head
            + homoglyphs_from(word, offset, undeclared, 0));
        lemma_concat_script_kinds(head, homoglyphs_from(word, offset, undeclared, 0));
        assert(all_script_kinds(judge_view(word, offset, expected)));
        lemma_concat_script_kinds(
            judged(cs, words.drop_last(), expected),
            judge_view(word, offset, expected),
        );
    }
}

proof fn lemma_wanted_only_concat(a: Seq<DraftView>, b: Seq<DraftView>, kinds: Seq<Kind>)
    ensures
        wanted_only(a + b, kinds) == wanted_only(a, kinds) + wanted_only(b, kinds),
    decreases b.len(),
{
    if b.len() == 0 {
        assert(a + b =~= a);
        assert(wanted_only(a, kinds) + wanted_only(b, kinds) =~= wanted_only(a, kinds));
    } else {
        lemma_wanted_only_concat(a, b.drop_last(), kinds);
        assert((a + b).drop_last() =~= a + b.drop_last());
        assert((a + b).last() == b.last());
        if wanted(kinds, b.last().kind) {
            assert(wanted_only(a, kinds) + wanted_only(b.drop_last(), kinds).push(b.last()) =~= (
            wanted_only(a, kinds) + wanted_only(b.drop_last(), kinds)).push(b.last()));
        }
    }
}

proof fn lemma_wanted_only_none(s: Seq<DraftView>, kinds: Seq<Kind>)
    requires
        forall|i: int| 0 <= i < s.len() ==> !wanted(kinds, #[trigger] s[i].kind),
    ensures
        wanted_only(s, kinds) == Seq::<DraftView>::empty(),
    decreases s.len(),
{
    if s.len() > 0 {
        assert forall|i: int| 0 <= i < s.drop_last().len() implies !wanted(
            kinds,
            #[trigger] s.drop_last()[i].kind,
        ) by {
            assert(s.drop_last()[i] == s[i]);
        }
        lemma_wanted_only_none(s.drop_last(), kinds);
        assert(!wanted(kinds, s[s.len() - 1].kind));
    }
}

proof fn lemma_wanted_only_all(s: Seq<DraftView>)
    ensures
        wanted_only(s, Seq::<Kind>::empty()) == s,
    decreases s.len(),
{
    if s.len() > 0 {
        lemma_wanted_only_all(s.drop_last());
        assert(s.drop_last().push(s.last()) =~= s);
    }
}

proof fn lemma_wanted_only_one(d: DraftView, kinds: Seq<Kind>)
    ensures
        wanted_only(seq![d], kinds) == if wanted(kinds, d.kind) {
            seq![d]
        } else {
            Seq::<DraftView>::empty()
        },
{
    reveal_with_fuel(wanted_only, 2);
    assert(seq![d].drop_last() =~= Seq::<DraftView>::empty());
    assert(Seq::<DraftView>::empty().push(d) =~= seq![d]);
}

proof fn lemma_slot_exact(u: Seq<DraftView>, d: DraftView, a: int, i: int)
    requires
        0 <= i <= a <= u.len(),
        forall|k: int| i <= k < a ==> !sorts_before(d, #[trigger] u[k]),
        forall|k: int| a <= k < u.len() ==> sorts_before(d, #[trigger] u[k]),
    ensures
        draft_slot(u, d, i) == a,
    decreases a - i,
{
    if i < a {
        lemma_slot_exact(u, d, a, i + 1);
    } else if a < u.len() {
        assert(sorts_before(d, u[a]));
    }
}

/// Filtering and the stable sort commute.
proof fn lemma_sort_wanted_only(s: Seq<DraftView>, kinds: Seq<Kind>)
    ensures
        sort_drafts(wanted_only(s, kinds)) == wanted_only(sort_drafts(s), kinds),
    decreases s.len(),
{
    if s.len() > 0 {
        let s1 = s.drop_last();
        let d = s.last();
        lemma_sort_wanted_only(s1, kinds);
        let t = sort_drafts(s1);
        lemma_sort_drafts(s1);
        lemma_slot(t, d, 0);
        let p = draft_slot(t, d, 0);
        assert forall|k: int| p <= k < t.len() implies sorts_before(d, #[trigger] t[k]) by {
            if k > p {
                assert(!sorts_before(t[k], t[p]));
            }
        }
        let a = t.take(p);
        let b = t.skip(p);
        assert(t =~= a + b);
        assert(t.insert(p, d) =~= a + seq![d] + b);
        assert(sort_drafts(s) == t.insert(p, d));
        lemma_wanted_only_concat(a, b, kinds);
        lemma_wanted_only_concat(a + seq![d], b, kinds);
        lemma_wanted_only_concat(a, seq![d], kinds);
        lemma_wanted_only_one(d, kinds);
        let wa = wanted_only(a, kinds);
        let wb = wanted_only(b, kinds);
        if wanted(kinds, d.kind) {
            assert(wanted_only(s, kinds) == wanted_only(s1, kinds).push(d));
            lemma_wanted_only_members(a, kinds);
            lemma_wanted_only_members(b, kinds);
            let u = wa + wb;
            assert forall|k: int| 0 <= k < wa.len() implies !sorts_before(d, #[trigger] u[k]) by {
                assert(u[k] == wa[k]);
                assert(a.contains(wa[k]));
                let m = choose|m: int| 0 <= m < a.len() && a[m] == wa[k];
                assert(a[m] == t[m]);
            }
            assert forall|k: int| wa.len() <= k < u.len() implies sorts_before(d, #[trigger] u[k]) by {
                assert(u[k] == wb[k - wa.len()]);
                assert(b.contains(wb[k - wa.len()]));
                let m = choose|m: int| 0 <= m < b.len() && b[m] == wb[k - wa.len()];
                assert(b[m] == t[p + m]);
            }
            lemma_slot_exact(u, d, wa.len() as int, 0);
            assert(u.insert(wa.len() as int, d) =~= wa + seq![d] + wb);
            let w1 = wanted_only(s1, kinds);
            assert(w1.push(d).drop_last() =~= w1);
            assert(sort_drafts(w1) == u);
            assert(sort_drafts(wanted_only(s, kinds)) == u.insert(wa.len() as int, d));
            assert(wanted_only(sort_drafts(s), kinds) == wa + seq![d] + wb);
        } else {
            assert(wanted_only(s, kinds) == wanted_only(s1, kinds));
            assert(wa + Seq::<DraftView>::empty() =~= wa);
            assert(wanted_only(sort_drafts(s), kinds) == wa + wb);
        }
    }
}

proof fn lemma_located_wanted(
    x: Seq<DraftView>,
    cs: Seq<char>,
    spans: Seq<KeySpanView>,
    kinds: Seq<Kind>,
)
    ensures
        findings_wanted(x.map_values(|d: DraftView| located(d, cs, spans)), kinds) == wanted_only(
            x,
            kinds,
        ).map_values(|d: DraftView| located(d, cs, spans)),
    decreases x.len(),
{
    let m = x.map_values(|d: DraftView| located(d, cs, spans));
    if x.len() == 0 {
        assert(m =~= Seq::<FindingView>::empty());
        assert(wanted_only(x, kinds).map_values(|d: DraftView| located(d, cs, spans))
            =~= Seq::<FindingView>::empty());
    } else {
        lemma_located_wanted(x.drop_last(), cs, spans, kinds);
        assert(m.drop_last() =~= x.drop_last().map_values(|d: DraftView| located(d, cs, spans)));
        assert(m.last() == located(x.last(), cs, spans));
        let w = wanted_only(x.drop_last(), kinds);
        if wanted(kinds, x.last().kind) {
            assert(w.push(x.last()).map_values(|d: DraftView| located(d, cs, spans))
                =~= w.map_values(|d: DraftView| located(d, cs, spans)).push(located(x.last(), cs, spans)));
        }
    }
}

/// A kind filter narrows the report and does nothing else: the findings of
/// a filtered examination are exactly the unfiltered examination's
/// findings of the kinds asked for, in the same order and the same places.
pub proof fn lemma_filter_narrows(
    cs: Seq<char>,
    format: Seq<char>,
    kinds: Seq<Kind>,
    expected: Seq<u8>,
)
    ensures
        examined(cs, format, kinds, expected) == findings_wanted(
            examined(cs, format, Seq::<Kind>::empty(), expected),
            kinds,
        ),
{
    let all = Seq::<Kind>::empty();
    let raw_k = raw_drafts(cs, format, kinds, expected);
    let raw_a = raw_drafts(cs, format, all, expected);
    let base = char_drafts(cs) + nfc_drafts(cs);
    assert(script_checks_wanted(all));
    if !script_checks_wanted(kinds) && context_of(cs, expected) is None {
        let extra = script_drafts(cs, escape_ranges(cs, format), expected);
        lemma_judged_kinds(cs, super::scripts::words_of(cs, escape_ranges(cs, format)), expected);
        assert forall|i: int| 0 <= i < extra.len() implies !wanted(kinds, #[trigger] extra[i].kind) by {
            assert(script_kind(extra[i].kind));
        }
        lemma_wanted_only_none(extra, kinds);
        lemma_wanted_only_concat(base, extra, kinds);
        assert(wanted_only(base, kinds) + Seq::<DraftView>::empty() =~= wanted_only(base, kinds));
    }
    assert(wanted_only(raw_k, kinds) == wanted_only(raw_a, kinds));
    lemma_wanted_only_all(raw_a);
    lemma_sort_wanted_only(raw_a, kinds);
    lemma_located_wanted(sort_drafts(raw_a), cs, super::locate::format_spans(cs, format), kinds);
}

proof fn lemma_findings_wanted_members(s: Seq<FindingView>, kinds: Seq<Kind>)
    ensures
        forall|i: int|
            0 <= i < s.len() && wanted(kinds, (#[trigger] s[i]).kind) ==> findings_wanted(
                s,
                kinds,
            ).contains(s[i]),
        forall|i: int|
            0 <= i < findings_wanted(s, kinds).len() ==> wanted(
                kinds,
                (#[trigger] findings_wanted(s, kinds)[i]).kind,
            ),
    decreases s.len(),
{
    if s.len() > 0 {
        let p = s.drop_last();
        lemma_findings_wanted_members(p, kinds);
        let before = findings_wanted(p, kinds);
        assert forall|i: int|
            0 <= i < s.len() && wanted(kinds, (#[trigger] s[i]).kind) implies findings_wanted(
            s,
            kinds,
        ).contains(s[i]) by {
            if i < p.len() {
                assert(p[i] == s[i]);
                let m = choose|m: int| 0 <= m < before.len() && before[m] == p[i];
                if wanted(kinds, s.last().kind) {
                    assert(before.push(s.last())[m] == s[i]);
                }
            } else {
                assert(findings_wanted(s, kinds) == before.push(s.last()));
                assert(before.push(s.last())[before.len() as int] == s[i]);
            }
        }
        assert forall|i: int| 0 <= i < findings_wanted(s, kinds).len() implies wanted(
            kinds,
            (#[trigger] findings_wanted(s, kinds)[i]).kind,
        ) by {
            if wanted(kinds, s.last().kind) && i == before.len() {
            } else {
                assert(findings_wanted(s, kinds)[i] == before[i]);
            }
        }
    }
}

/// What a kind filter does to a report. With no kinds named, nothing is
/// filtered out. With kinds named, every finding of a named kind that the
/// unfiltered examination reports is still reported, and nothing of a kind
/// left unnamed is.
pub proof fn lemma_filter_keeps_the_kinds_named(
    cs: Seq<char>,
    format: Seq<char>,
    kinds: Seq<Kind>,
    expected: Seq<u8>,
)
    ensures
        kinds.len() == 0 ==> examined(cs, format, kinds, expected) == examined(
            cs,
            format,
            Seq::<Kind>::empty(),
            expected,
        ),
        forall|i: int|
            0 <= i < examined(cs, format, Seq::<Kind>::empty(), expected).len() && kinds.contains(
                (#[trigger] examined(cs, format, Seq::<Kind>::empty(), expected)[i]).kind,
            ) ==> examined(cs, format, kinds, expected).contains(
                examined(cs, format, Seq::<Kind>::empty(), expected)[i],
            ),
        kinds.len() > 0 ==> forall|i: int|
            0 <= i < examined(cs, format, kinds, expected).len() ==> kinds.contains(
                (#[trigger] examined(cs, format, kinds, expected)[i]).kind,
            ),
{
    let all = examined(cs, format, Seq::<Kind>::empty(), expected);
    lemma_filter_narrows(cs, format, kinds, expected);
    lemma_findings_wanted_members(all, kinds);
    if kinds.len() == 0 {
        assert(kinds =~= Seq::<Kind>::empty());
    }
    assert forall|i: int|
        0 <= i < all.len() && kinds.contains((#[trigger] all[i]).kind) implies examined(
        cs,
        format,
        kinds,
        expected,
    ).contains(all[i]) by {
        assert(wanted(kinds, all[i].kind));
    }
    if kinds.len() > 0 {
        let e = examined(cs, format, kinds, expected);
        assert forall|i: int| 0 <= i < e.len() implies kinds.contains((#[trigger] e[i]).kind) by {
            assert(wanted(kinds, findings_wanted(all, kinds)[i].kind));
        }
    }
}

/// Every kind is spelled the same everywhere: the name a finding carries
/// and the short word a caller filters on both parse back to that kind.
pub proof fn lemma_kind_names_round_trip(kind: Kind)
    ensures
        super::kind_token(super::kind_name(kind)) == Some(kind),
        super::kind_token(super::kind_short(kind)) == Some(kind),
{
    reveal_strlit("bidi-control");
    reveal_strlit("bidi");
    reveal_strlit("invisible");
    reveal_strlit("confusable");
    reveal_strlit("mixed-script");
    reveal_strlit("non-nfc");
    reveal_strlit("unusual-whitespace");
    reveal_strlit("whitespace");
    reveal_strlit("unassigned-or-private-use");
    reveal_strlit("unassigned");
    assert("bidi-control"@.len() == 12 && "bidi"@.len() == 4 && "invisible"@.len() == 9);
    assert("confusable"@.len() == 10 && "mixed-script"@.len() == 12 && "non-nfc"@.len() == 7);
    assert("unusual-whitespace"@.len() == 18 && "whitespace"@.len() == 10);
    assert("unassigned-or-private-use"@.len() == 25 && "unassigned"@.len() == 10);
    assert("bidi-control"@[0] != "mixed-script"@[0]);
    assert("confusable"@[0] != "whitespace"@[0]);
    assert("confusable"@[0] != "unassigned"@[0]);
    assert("whitespace"@[0] != "unassigned"@[0]);
    match kind {
        Kind::BidiControl => {},
        Kind::Invisible => {
            assert(!super::names_kind(super::kind_name(kind), Kind::BidiControl));
            assert(!super::names_kind(super::kind_short(kind), Kind::BidiControl));
        },
        Kind::Confusable => {
            assert(!super::names_kind(super::kind_name(kind), Kind::BidiControl));
            assert(!super::names_kind(super::kind_name(kind), Kind::Invisible));
        },
        Kind::MixedScript => {
            assert(!super::names_kind(super::kind_name(kind), Kind::BidiControl));
            assert(!super::names_kind(super::kind_name(kind), Kind::Invisible));
            assert(!super::names_kind(super::kind_name(kind), Kind::Confusable));
        },
        Kind::NonNfc => {
            assert(!super::names_kind(super::kind_name(kind), Kind::MixedScript));
        },
        Kind::UnusualWhitespace => {
            assert(!super::names_kind(super::kind_name(kind), Kind::Confusable));
            assert(!super::names_kind(super::kind_short(kind), Kind::Confusable));
            assert(!super::names_kind(super::kind_short(kind), Kind::BidiControl));
            assert(!super::names_kind(super::kind_short(kind), Kind::MixedScript));
        },
        Kind::UnassignedOrPrivateUse => {
            assert(!super::names_kind(super::kind_short(kind), Kind::Confusable));
            assert(!super::names_kind(super::kind_short(kind), Kind::UnusualWhitespace));
            assert(!super::names_kind(super::kind_short(kind), Kind::BidiControl));
            assert(!super::names_kind(super::kind_short(kind), Kind::MixedScript));
        },
    }
}

proof fn lemma_undeclared_shrinks(t: super::scripts::TallyView, fewer: Seq<u8>, more: Seq<u8>)
    requires
        forall|x: u8| fewer.contains(x) ==> more.contains(x),
    ensures
        super::scripts::undeclared_of(t, more).len() <= super::scripts::undeclared_of(t, fewer).len(),
        super::scripts::tally_total(super::scripts::undeclared_of(t, more))
            <= super::scripts::tally_total(super::scripts::undeclared_of(t, fewer)),
    decreases t.len(),
{
    if t.len() > 0 {
        lemma_undeclared_shrinks(t.drop_last(), fewer, more);
        let a = super::scripts::undeclared_of(t.drop_last(), more);
        let b = super::scripts::undeclared_of(t.drop_last(), fewer);
        if more.contains(t.last().0) {
            if !fewer.contains(t.last().0) {
                assert(b.push(t.last()).drop_last() =~= b);
            }
        } else {
            assert(!fewer.contains(t.last().0));
            assert(a.push(t.last()).drop_last() =~= a);
            assert(b.push(t.last()).drop_last() =~= b);
        }
    }
}

/// Declaring scripts turns the script checks on and never off: a document
/// judged with some scripts declared is still judged, not refused, when
/// more are declared.
pub proof fn lemma_declaring_more_never_refuses(cs: Seq<char>, fewer: Seq<u8>, more: Seq<u8>)
    requires
        forall|x: u8| fewer.contains(x) ==> more.contains(x),
        context_of(cs, fewer) is None,
    ensures
        context_of(cs, more) is None,
{
    let t = super::scripts::tally(cs, |c: char| super::scripts::foreign_letter(c));
    lemma_undeclared_shrinks(t, fewer, more);
    let u1 = super::scripts::tally_total(super::scripts::undeclared_of(t, fewer));
    let u2 = super::scripts::tally_total(super::scripts::undeclared_of(t, more));
    let letters = super::scripts::letter_count(cs);
    assert(u2 * 100 <= u1 * 100) by (nonlinear_arith)
        requires
            u2 <= u1,
    ;
}

} // verus!
