//! The rule the tool exists under: a report carries no character it found.
//!
//! A report that pasted a raw bidi control would reorder the terminal, the
//! diff and the ticket of whoever read it: the tool would be the delivery
//! mechanism for the thing it detects. Every field of a finding that the
//! library writes is therefore ASCII, and so is every refusal. The one
//! field it does not write, the key path, is document text, and is escaped
//! where the report is serialized (see `crate::escape`).
//!
//! Script names come from `unicode-script`'s table. The law is stated on
//! the condition that the name of the script of each character of the
//! document is ASCII, which is what the library's lookup of that name
//! states of every name it returns.

use super::characters::{
    bidi_detail, bidi_name, char_draft, char_drafts, classified, invisible_detail, invisible_name,
    private_use_detail, space_detail, space_name, unassigned_detail,
};
use super::codepoint::{lemma_rendered_is_ascii, rendered, rendered_each};
use super::normalize::{form_detail, lemma_line_end, line_draft, line_end, nfc_drafts, nfc_drafts_from};
use super::scripts::{
    comma_list, compat_from, compatibility_detail, compatibility_view, context_of, declaration_text,
    homoglyph_detail, homoglyph_view, homoglyphs_from, joined_names, judge_view, judged,
    mixed_detail, mixed_view, names_of, refusal_detail, script_drafts, TallyView,
};
use super::laws::{lemma_sort_drafts, lemma_wanted_only_members};
use super::{
    examined, raw_drafts, refused, sort_drafts, wanted_only, DraftView, FindingView, Kind, Reason,
};
use crate::text::{decimal, lemma_decimal_is_ascii, offset_of};
use super::scripts::{insert_pos, lemma_insert_pos, lemma_tally_shape, sort_by_name, tally, undeclared_of};
use crate::unicode::{script_name, script_of};
use vstd::prelude::*;
use vstd::utf8::is_ascii_chars;

verus! {

/// The name of the script of every character of `cs` is ASCII.
pub open spec fn names_ascii_in(cs: Seq<char>) -> bool {
    forall|c: char| #[trigger] cs.contains(c) ==> is_ascii_chars(script_name(script_of(c)))
}

proof fn lemma_names_ascii_sub(cs: Seq<char>, a: int, b: int)
    requires
        names_ascii_in(cs),
        0 <= a <= b <= cs.len(),
    ensures
        names_ascii_in(cs.subrange(a, b)),
{
    assert forall|c: char| #[trigger] cs.subrange(a, b).contains(c) implies is_ascii_chars(
        script_name(script_of(c)),
    ) by {
        let k = choose|k: int| 0 <= k < b - a && cs.subrange(a, b)[k] == c;
        assert(cs[a + k] == c);
        assert(cs.contains(c));
    }
}

proof fn lemma_tally_members(cs: Seq<char>, keep: spec_fn(char) -> bool)
    ensures
        forall|k: int| 0 <= k < tally(cs, keep).len() ==> cs.contains(#[trigger] tally(cs, keep)[k].1),
    decreases cs.len(),
{
    if cs.len() > 0 {
        lemma_tally_members(cs.drop_last(), keep);
        let before = tally(cs.drop_last(), keep);
        let t = tally(cs, keep);
        assert forall|k: int| 0 <= k < t.len() implies cs.contains(#[trigger] t[k].1) by {
            if k < before.len() && t[k].1 == before[k].1 {
                let m = choose|m: int| 0 <= m < cs.drop_last().len() && cs.drop_last()[m] == before[k].1;
                assert(cs[m] == t[k].1);
            } else {
                assert(t[k].1 == cs.last());
                assert(cs[cs.len() - 1] == t[k].1);
            }
        }
    }
}

proof fn lemma_sorted_members(t: TallyView)
    ensures
        sort_by_name(t).len() == t.len(),
        forall|k: int| 0 <= k < sort_by_name(t).len() ==> t.contains(#[trigger] sort_by_name(t)[k]),
    decreases t.len(),
{
    if t.len() > 0 {
        lemma_sorted_members(t.drop_last());
        let s = sort_by_name(t.drop_last());
        let p = insert_pos(s, script_name(t.last().0), 0);
        lemma_insert_pos(s, script_name(t.last().0), 0);
        let r = s.insert(p, t.last());
        assert forall|k: int| 0 <= k < r.len() implies t.contains(#[trigger] r[k]) by {
            if k == p {
                assert(t[t.len() - 1] == r[k]);
            } else {
                let q = if k < p {
                    k
                } else {
                    k - 1
                };
                assert(r[k] == s[q]);
                let m = choose|m: int| 0 <= m < t.drop_last().len() && t.drop_last()[m] == s[q];
                assert(t[m] == r[k]);
            }
        }
    }
}

proof fn lemma_undeclared_members(t: TallyView, expected: Seq<u8>)
    ensures
        forall|k: int|
            0 <= k < undeclared_of(t, expected).len() ==> t.contains(
                #[trigger] undeclared_of(t, expected)[k],
            ),
    decreases t.len(),
{
    if t.len() > 0 {
        lemma_undeclared_members(t.drop_last(), expected);
        let before = undeclared_of(t.drop_last(), expected);
        let u = undeclared_of(t, expected);
        assert forall|k: int| 0 <= k < u.len() implies t.contains(#[trigger] u[k]) by {
            if k < before.len() {
                assert(u[k] == before[k]);
                let m = choose|m: int| 0 <= m < t.drop_last().len() && t.drop_last()[m] == before[k];
                assert(t[m] == u[k]);
            } else {
                assert(u[k] == t.last());
                assert(t[t.len() - 1] == u[k]);
            }
        }
    }
}

/// Each entry of `t` is an entry of a tally of `cs`: its character is in
/// `cs` and written in its script.
pub open spec fn entries_from(t: TallyView, cs: Seq<char>) -> bool {
    forall|k: int|
        0 <= k < t.len() ==> cs.contains(#[trigger] t[k].1) && script_of(t[k].1) == t[k].0
}

proof fn lemma_entries_from_tally(cs: Seq<char>, keep: spec_fn(char) -> bool)
    ensures
        entries_from(tally(cs, keep), cs),
{
    lemma_tally_members(cs, keep);
    lemma_tally_shape(cs, keep);
}

proof fn lemma_entries_from_sorted(t: TallyView, cs: Seq<char>)
    requires
        entries_from(t, cs),
    ensures
        entries_from(sort_by_name(t), cs),
{
    lemma_sorted_members(t);
    let r = sort_by_name(t);
    assert forall|k: int| 0 <= k < r.len() implies cs.contains(#[trigger] r[k].1) && script_of(
        r[k].1,
    ) == r[k].0 by {
        let m = choose|m: int| 0 <= m < t.len() && t[m] == r[k];
        assert(cs.contains(t[m].1));
    }
}

proof fn lemma_entries_from_undeclared(t: TallyView, cs: Seq<char>, expected: Seq<u8>)
    requires
        entries_from(t, cs),
    ensures
        entries_from(undeclared_of(t, expected), cs),
{
    lemma_undeclared_members(t, expected);
    let r = undeclared_of(t, expected);
    assert forall|k: int| 0 <= k < r.len() implies cs.contains(#[trigger] r[k].1) && script_of(
        r[k].1,
    ) == r[k].0 by {
        let m = choose|m: int| 0 <= m < t.len() && t[m] == r[k];
        assert(cs.contains(t[m].1));
    }
}

pub open spec fn all_ascii(ss: Seq<Seq<char>>) -> bool {
    forall|i: int| 0 <= i < ss.len() ==> is_ascii_chars(#[trigger] ss[i])
}

pub open spec fn draft_ascii(d: DraftView) -> bool {
    all_ascii(d.codepoints) && all_ascii(d.scripts) && all_ascii(d.resembles) && is_ascii_chars(
        d.detail,
    )
}

pub open spec fn finding_ascii(f: FindingView) -> bool {
    all_ascii(f.codepoints) && all_ascii(f.scripts) && all_ascii(f.resembles) && is_ascii_chars(
        f.detail,
    )
}

pub open spec fn drafts_ascii(s: Seq<DraftView>) -> bool {
    forall|i: int| 0 <= i < s.len() ==> draft_ascii(#[trigger] s[i])
}

pub proof fn lemma_concat_ascii(a: Seq<char>, b: Seq<char>)
    requires
        is_ascii_chars(a),
        is_ascii_chars(b),
    ensures
        is_ascii_chars(a + b),
{
    assert forall|i: int| 0 <= i < (a + b).len() implies '\0' <= #[trigger] (a + b)[i] <= '\u{7f}' by {
        if i < a.len() {
            assert((a + b)[i] == a[i]);
        } else {
            assert((a + b)[i] == b[i - a.len()]);
        }
    }
}

proof fn lemma_drafts_concat(a: Seq<DraftView>, b: Seq<DraftView>)
    requires
        drafts_ascii(a),
        drafts_ascii(b),
    ensures
        drafts_ascii(a + b),
{
    assert forall|i: int| 0 <= i < (a + b).len() implies draft_ascii(#[trigger] (a + b)[i]) by {
        if i < a.len() {
            assert((a + b)[i] == a[i]);
        } else {
            assert((a + b)[i] == b[i - a.len()]);
        }
    }
}

proof fn lemma_rendered_each_ascii(cs: Seq<char>)
    ensures
        all_ascii(rendered_each(cs)),
{
    assert forall|i: int| 0 <= i < rendered_each(cs).len() implies is_ascii_chars(
        #[trigger] rendered_each(cs)[i],
    ) by {
        lemma_rendered_is_ascii(cs[i]);
    }
}

proof fn lemma_one_ascii(s: Seq<char>)
    requires
        is_ascii_chars(s),
    ensures
        all_ascii(seq![s]),
{
    assert forall|i: int| 0 <= i < seq![s].len() implies is_ascii_chars(#[trigger] seq![s][i]) by {
        assert(seq![s][i] == s);
    }
}

proof fn lemma_bidi_names(c: char)
    ensures
        bidi_name(c) matches Some(n) ==> is_ascii_chars(n),
        invisible_name(c) matches Some(n) ==> is_ascii_chars(n),
        space_name(c) matches Some(n) ==> is_ascii_chars(n),
{
    reveal_strlit("arabic letter mark");
    reveal_strlit("left-to-right embedding");
    reveal_strlit("right-to-left embedding");
    reveal_strlit("pop directional formatting");
    reveal_strlit("left-to-right override");
    reveal_strlit("right-to-left override");
    reveal_strlit("left-to-right isolate");
    reveal_strlit("right-to-left isolate");
    reveal_strlit("first strong isolate");
    reveal_strlit("pop directional isolate");
    reveal_strlit("soft hyphen");
    reveal_strlit("mongolian vowel separator");
    reveal_strlit("zero width space");
    reveal_strlit("zero width non-joiner");
    reveal_strlit("zero width joiner");
    reveal_strlit("word joiner");
    reveal_strlit("zero width no-break space");
    reveal_strlit("no-break space");
    reveal_strlit("ogham space mark");
    reveal_strlit("en quad");
    reveal_strlit("em quad");
    reveal_strlit("en space");
    reveal_strlit("em space");
    reveal_strlit("three-per-em space");
    reveal_strlit("four-per-em space");
    reveal_strlit("six-per-em space");
    reveal_strlit("figure space");
    reveal_strlit("punctuation space");
    reveal_strlit("thin space");
    reveal_strlit("hair space");
    reveal_strlit("narrow no-break space");
    reveal_strlit("medium mathematical space");
    reveal_strlit("ideographic space");
}

proof fn lemma_classified_ascii(c: char)
    ensures
        classified(c) matches Some((_, _, detail)) ==> is_ascii_chars(detail),
{
    lemma_bidi_names(c);
    reveal_strlit(
        ": a bidirectional control reorders how the rest of the line renders, so the text a reader sees is not the text that runs",
    );
    reveal_strlit(": takes up no width, so two strings that are not equal look identical");
    reveal_strlit(
        ": renders like a space and is not one, so a trim, a split or a comparison against U+0020 does not see it",
    );
    reveal_strlit(
        "a private-use codepoint: its meaning is whatever the system that produced it decided, and no other system agrees",
    );
    reveal_strlit("not assigned in Unicode 18.0.0: no renderer, no collation and no agreed meaning");
    match bidi_name(c) {
        Some(n) => lemma_concat_ascii(
            n,
            ": a bidirectional control reorders how the rest of the line renders, so the text a reader sees is not the text that runs"@,
        ),
        None => {},
    }
    match invisible_name(c) {
        Some(n) => lemma_concat_ascii(
            n,
            ": takes up no width, so two strings that are not equal look identical"@,
        ),
        None => {},
    }
    match space_name(c) {
        Some(n) => lemma_concat_ascii(
            n,
            ": renders like a space and is not one, so a trim, a split or a comparison against U+0020 does not see it"@,
        ),
        None => {},
    }
}

proof fn lemma_char_drafts_ascii(cs: Seq<char>)
    requires
        names_ascii_in(cs),
    ensures
        drafts_ascii(char_drafts(cs)),
    decreases cs.len(),
{
    if cs.len() > 0 {
        lemma_names_ascii_sub(cs, 0, cs.len() - 1);
        assert(cs.subrange(0, cs.len() - 1) =~= cs.drop_last());
        lemma_char_drafts_ascii(cs.drop_last());
        let c = cs.last();
        assert(cs[cs.len() - 1] == c);
        assert(cs.contains(c));
        lemma_classified_ascii(c);
        lemma_rendered_is_ascii(c);
        lemma_one_ascii(rendered(c));
        lemma_one_ascii(script_name(crate::unicode::script_of(c)));
        assert(is_ascii_chars(script_name(crate::unicode::script_of(c))));
        let before = char_drafts(cs.drop_last());
        match char_draft(crate::text::byte_len(cs.drop_last()), c) {
            Some(d) => {
                assert(draft_ascii(d));
                lemma_drafts_concat(before, seq![d]);
                assert(before.push(d) == before + seq![d]);
            },
            None => {},
        }
    }
}

proof fn lemma_nfc_drafts_ascii(cs: Seq<char>, i: int)
    ensures
        drafts_ascii(nfc_drafts_from(cs, i)),
    decreases cs.len() - i,
{
    if 0 <= i < cs.len() {
        lemma_line_end(cs, i);
        let j = line_end(cs, i);
        lemma_nfc_drafts_ascii(cs, j);
        let line = cs.subrange(i, j);
        reveal_strlit("this line is in ");
        reveal_strlit("NFD");
        reveal_strlit("neither NFC nor NFD");
        reveal_strlit(
            ", not NFC: it compares unequal, hashes differently and indexes differently from the same text written in NFC",
        );
        let here = match line_draft(line, offset_of(cs, i)) {
            Some(d) => seq![d],
            None => seq![],
        };
        match line_draft(line, offset_of(cs, i)) {
            Some(d) => {
                lemma_rendered_each_ascii(super::normalize::divergence_of(line).1);
                let is_nfd = crate::unicode::decomposed(line);
                lemma_concat_ascii("this line is in "@, if is_nfd { "NFD"@ } else { "neither NFC nor NFD"@ });
                lemma_concat_ascii(
                    "this line is in "@ + (if is_nfd { "NFD"@ } else { "neither NFC nor NFD"@ }),
                    ", not NFC: it compares unequal, hashes differently and indexes differently from the same text written in NFC"@,
                );
                assert(draft_ascii(d));
            },
            None => {},
        }
        assert(drafts_ascii(here));
        lemma_drafts_concat(here, nfc_drafts_from(cs, j));
    }
}

proof fn lemma_comma_list_ascii(names: Seq<Seq<char>>)
    requires
        all_ascii(names),
    ensures
        is_ascii_chars(comma_list(names)),
        is_ascii_chars(joined_names(names)),
    decreases names.len(),
{
    reveal_strlit(", ");
    reveal_strlit(" and ");
    if names.len() > 1 {
        assert(all_ascii(names.drop_last())) by {
            assert forall|i: int| 0 <= i < names.drop_last().len() implies is_ascii_chars(
                #[trigger] names.drop_last()[i],
            ) by {
                assert(names.drop_last()[i] == names[i]);
            }
        }
        lemma_comma_list_ascii(names.drop_last());
        assert(is_ascii_chars(names.last()));
        lemma_concat_ascii(comma_list(names.drop_last()), ", "@);
        lemma_concat_ascii(comma_list(names.drop_last()) + ", "@, names.last());
        lemma_concat_ascii(comma_list(names.drop_last()), " and "@);
        lemma_concat_ascii(comma_list(names.drop_last()) + " and "@, names.last());
    } else if names.len() == 1 {
        assert(is_ascii_chars(names[0]));
    }
}

proof fn lemma_names_ascii(t: TallyView, cs: Seq<char>)
    requires
        names_ascii_in(cs),
        entries_from(t, cs),
    ensures
        all_ascii(names_of(t)),
{
    assert forall|i: int| 0 <= i < names_of(t).len() implies is_ascii_chars(#[trigger] names_of(t)[i]) by {
        assert(names_of(t)[i] == script_name(t[i].0));
        assert(cs.contains(t[i].1));
    }
}

proof fn lemma_compat_ascii(word: Seq<char>, offset: nat, i: int)
    requires
        names_ascii_in(word),
    ensures
        drafts_ascii(compat_from(word, offset, i)),
    decreases word.len() - i,
{
    if 0 <= i < word.len() {
        lemma_compat_ascii(word, offset, i + 1);
        let c = word[i];
        reveal_strlit(
            "a compatibility form of an ASCII character: it reads as the codepoint under `resembles` and does not compare equal to it",
        );
        let here = if crate::unicode::script_of(c) == crate::unicode::SCRIPT_LATIN || crate::unicode::script_of(c)
            == crate::unicode::SCRIPT_COMMON {
            match compatibility_view(offset + offset_of(word, i), c) {
                Some(d) => seq![d],
                None => seq![],
            }
        } else {
            seq![]
        };
        assert(word.contains(c));
        match compatibility_view(offset + offset_of(word, i), c) {
            Some(d) => {
                lemma_rendered_is_ascii(c);
                lemma_one_ascii(rendered(c));
                lemma_rendered_is_ascii(super::scripts::lookalike(c)->0);
                lemma_one_ascii(rendered(super::scripts::lookalike(c)->0));
                assert(is_ascii_chars(script_name(crate::unicode::script_of(c))));
                lemma_one_ascii(script_name(crate::unicode::script_of(c)));
                assert(draft_ascii(d));
            },
            None => {},
        }
        assert(drafts_ascii(here));
        lemma_drafts_concat(here, compat_from(word, offset, i + 1));
    }
}

proof fn lemma_homoglyphs_ascii(word: Seq<char>, offset: nat, undeclared: Seq<u8>, i: int)
    requires
        names_ascii_in(word),
    ensures
        drafts_ascii(homoglyphs_from(word, offset, undeclared, i)),
    decreases word.len() - i,
{
    if 0 <= i < word.len() {
        lemma_homoglyphs_ascii(word, offset, undeclared, i + 1);
        let c = word[i];
        let here = if undeclared.contains(crate::unicode::script_of(c)) {
            match homoglyph_view(offset + offset_of(word, i), c) {
                Some(d) => seq![d],
                None => seq![],
            }
        } else {
            seq![]
        };
        assert(word.contains(c));
        match homoglyph_view(offset + offset_of(word, i), c) {
            Some(d) => {
                let name = script_name(crate::unicode::script_of(c));
                assert(is_ascii_chars(name));
                reveal_strlit("a ");
                reveal_strlit(" character in a word that is not ");
                reveal_strlit(
                    ", and it reduces to the codepoint under `resembles`: the two are indistinguishable on screen",
                );
                lemma_concat_ascii("a "@, name);
                lemma_concat_ascii("a "@ + name, " character in a word that is not "@);
                lemma_concat_ascii("a "@ + name + " character in a word that is not "@, name);
                lemma_concat_ascii(
                    "a "@ + name + " character in a word that is not "@ + name,
                    ", and it reduces to the codepoint under `resembles`: the two are indistinguishable on screen"@,
                );
                lemma_rendered_is_ascii(c);
                lemma_one_ascii(rendered(c));
                lemma_one_ascii(name);
                lemma_rendered_each_ascii(super::scripts::prototype_of(c)->0);
                assert(draft_ascii(d));
            },
            None => {},
        }
        assert(drafts_ascii(here));
        lemma_drafts_concat(here, homoglyphs_from(word, offset, undeclared, i + 1));
    }
}

proof fn lemma_judge_ascii(word: Seq<char>, offset: nat, expected: Seq<u8>)
    requires
        names_ascii_in(word),
    ensures
        drafts_ascii(judge_view(word, offset, expected)),
{
    let found = super::scripts::word_scripts(word);
    let undeclared = super::scripts::undeclared_in(super::scripts::scripts_of(found), expected);
    lemma_compat_ascii(word, offset, 0);
    lemma_homoglyphs_ascii(word, offset, undeclared, 0);
    lemma_entries_from_tally(word, |c: char| super::scripts::writes_script(c));
    lemma_entries_from_sorted(tally(word, |c: char| super::scripts::writes_script(c)), word);
    lemma_names_ascii(found, word);
    lemma_comma_list_ascii(names_of(found));
    lemma_rendered_each_ascii(super::scripts::foreign_chars(word));
    reveal_strlit("one word written in ");
    reveal_strlit(
        ": no single script accounts for it, which is how a name that reads as familiar is forged",
    );
    lemma_concat_ascii("one word written in "@, joined_names(names_of(found)));
    lemma_concat_ascii(
        "one word written in "@ + joined_names(names_of(found)),
        ": no single script accounts for it, which is how a name that reads as familiar is forged"@,
    );
    let first = mixed_view(word, offset, found, undeclared)[0];
    assert(all_ascii(Seq::<Seq<char>>::empty()));
    assert(draft_ascii(first));
    assert(drafts_ascii(seq![first]));
    lemma_drafts_concat(seq![first], homoglyphs_from(word, offset, undeclared, 0));
}

proof fn lemma_judged_ascii(cs: Seq<char>, words: Seq<(int, int)>, expected: Seq<u8>)
    requires
        names_ascii_in(cs),
        forall|k: int| 0 <= k < words.len() ==> 0 <= (#[trigger] words[k]).0 <= words[k].1 <= cs.len(),
    ensures
        drafts_ascii(judged(cs, words, expected)),
    decreases words.len(),
{
    if words.len() > 0 {
        assert forall|k: int| 0 <= k < words.drop_last().len() implies 0 <= (
        #[trigger] words.drop_last()[k]).0 <= words.drop_last()[k].1 <= cs.len() by {
            assert(words.drop_last()[k] == words[k]);
        }
        lemma_judged_ascii(cs, words.drop_last(), expected);
        assert(words.last() == words[words.len() - 1]);
        lemma_names_ascii_sub(cs, words.last().0, words.last().1);
        lemma_judge_ascii(
            cs.subrange(words.last().0, words.last().1),
            offset_of(cs, words.last().0),
            expected,
        );
        lemma_drafts_concat(
            judged(cs, words.drop_last(), expected),
            judge_view(
                cs.subrange(words.last().0, words.last().1),
                offset_of(cs, words.last().0),
                expected,
            ),
        );
    }
}

/// The report is ASCII and nothing else: every codepoint, script name,
/// resemblance and detail of every finding, and the detail of every
/// refusal, wherever the names of the document's scripts are ASCII. So
/// there is nothing in it that could render as anything.
pub proof fn lemma_report_is_ascii(
    cs: Seq<char>,
    format: Seq<char>,
    kinds: Seq<Kind>,
    expected: Seq<u8>,
)
    requires
        names_ascii_in(cs),
    ensures
        forall|i: int|
            0 <= i < examined(cs, format, kinds, expected).len() ==> finding_ascii(
                #[trigger] examined(cs, format, kinds, expected)[i],
            ),
        forall|i: int|
            0 <= i < refused(cs, kinds, expected).len() ==> is_ascii_chars(
                (#[trigger] refused(cs, kinds, expected)[i]).1,
            ),
{
    lemma_char_drafts_ascii(cs);
    lemma_nfc_drafts_ascii(cs, 0);
    lemma_drafts_concat(char_drafts(cs), nfc_drafts(cs));
    let esc = super::escape_ranges(cs, format);
    super::scripts::lemma_words_bounds(cs, esc, 0);
    lemma_judged_ascii(cs, super::scripts::words_of(cs, esc), expected);
    lemma_drafts_concat(char_drafts(cs) + nfc_drafts(cs), script_drafts(cs, esc, expected));
    let raw = raw_drafts(cs, format, kinds, expected);
    assert(drafts_ascii(raw));
    let w = wanted_only(raw, kinds);
    let s = sort_drafts(w);
    lemma_wanted_only_members(raw, kinds);
    lemma_sort_drafts(w);
    let e = examined(cs, format, kinds, expected);
    assert forall|i: int| 0 <= i < e.len() implies finding_ascii(#[trigger] e[i]) by {
        assert(w.contains(s[i]));
        let q = choose|q: int| 0 <= q < w.len() && w[q] == s[i];
        assert(raw.contains(w[q]));
        let m = choose|m: int| 0 <= m < raw.len() && raw[m] == s[i];
        assert(draft_ascii(raw[m]));
    }
    match context_of(cs, expected) {
        Some((share, names)) => {
            let t = sort_refused_names(cs, expected);
            let all = tally(cs, |c: char| super::scripts::foreign_letter(c));
            lemma_entries_from_tally(cs, |c: char| super::scripts::foreign_letter(c));
            lemma_entries_from_undeclared(all, cs, expected);
            lemma_entries_from_sorted(super::scripts::undeclared_of(all, expected), cs);
            lemma_names_ascii(t, cs);
            lemma_refusal_detail_ascii(share, names, expected.len() > 0);
        },
        None => {},
    }
}

/// A script-context refusal's detail is ASCII wherever the script names it
/// lists are.
pub(crate) proof fn lemma_refusal_detail_ascii(share: nat, names: Seq<Seq<char>>, declared_any: bool)
    requires
        all_ascii(names),
    ensures
        is_ascii_chars(refusal_detail(share, names, declared_any)),
{
    lemma_comma_list_ascii(names);
    lemma_decimal_is_ascii(share);
    reveal_strlit("% of this file's letters are ");
    reveal_strlit(", ");
    reveal_strlit("and none of those is among the scripts declared for it");
    reveal_strlit("and no expected script was declared for it");
    reveal_strlit(
        ". The confusable and mixed-script checks did not run here: in a file written in another script there is nothing to tell a forged name from a translated one, and answering anyway would bury the real findings. Every other check did run.",
    );
    let d = declaration_text(declared_any);
    assert(is_ascii_chars(d));
    lemma_concat_ascii(decimal(share), "% of this file's letters are "@);
    lemma_concat_ascii(decimal(share) + "% of this file's letters are "@, joined_names(names));
    lemma_concat_ascii(decimal(share) + "% of this file's letters are "@ + joined_names(names), ", "@);
    lemma_concat_ascii(decimal(share) + "% of this file's letters are "@ + joined_names(names) + ", "@, d);
    lemma_concat_ascii(
        decimal(share) + "% of this file's letters are "@ + joined_names(names) + ", "@ + d,
        ". The confusable and mixed-script checks did not run here: in a file written in another script there is nothing to tell a forged name from a translated one, and answering anyway would bury the real findings. Every other check did run."@,
    );
}

spec fn sort_refused_names(cs: Seq<char>, expected: Seq<u8>) -> TallyView {
    super::scripts::sort_by_name(
        super::scripts::undeclared_of(
            super::scripts::tally(cs, |c: char| super::scripts::foreign_letter(c)),
            expected,
        ),
    )
}

/// Looks up the name of the script of every character, so that what the
/// lookup states of each name it returns is known of the whole text.
pub(crate) fn check_script_names(chars: &Vec<char>)
    ensures
        names_ascii_in(chars@),
{
    let mut i: usize = 0;
    while i < chars.len()
        invariant
            0 <= i <= chars.len(),
            forall|j: int| 0 <= j < i ==> is_ascii_chars(#[trigger] script_name(script_of(chars@[j]))),
        decreases chars.len() - i,
    {
        let _name = crate::unicode::char_script_name(chars[i]);
        i = i + 1;
    }
    assert forall|c: char| #[trigger] chars@.contains(c) implies is_ascii_chars(
        script_name(script_of(c)),
    ) by {
        let k = choose|k: int| 0 <= k < chars@.len() && chars@[k] == c;
        assert(is_ascii_chars(script_name(script_of(chars@[k]))));
    }
}

} // verus!
