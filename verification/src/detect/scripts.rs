//! Mixed scripts, homoglyphs, and the refusal that makes both usable.
//!
//! The naive confusable check, "flag every character that resembles an
//! ASCII one", reports every letter of every Russian, Greek and Chinese
//! string in a tree. Three rules keep this one honest:
//!
//! **A word is judged, never a file.** UTS #39's resolved script set is
//! computed per word, so text that is consistently one non-Latin script
//! produces nothing; only a word that mixes is a finding.
//!
//! **A file that is plainly not Latin is refused, not guessed at.** The
//! share that triggers the refusal is measured over the scripts the
//! caller did *not* declare.
//!
//! **A declared script is an expected script.** Mixing Latin with a
//! declared script is a translation; mixing it with an undeclared one is
//! still a finding, in the same file.
//!
//! Scripts are carried as the discriminant `unicode-script` gives them
//! (see `crate::unicode`), and each script's name is asked of the crate
//! through a character written in it.

use super::codepoint::{render, render_each, rendered, rendered_each};
use super::{Draft, DraftView, Kind, Reason, Refusal, Severity};
use crate::text::{
    byte_len, char_width, lemma_byte_len_concat, lemma_byte_len_monotone, lemma_byte_len_take,
    offset_of, push_chars, push_decimal, push_str, string_of, text_of, decimal, Text,
};
use crate::unicode::{
    alphabetic, char_script, char_script_name, is_alphabetic, is_alphanumeric,
    is_mixed_script_confusable, is_numeric, is_single_script, mixed_script_confusable,
    nfkc_char, nfkc_of_char, numeric, script_by_full_name, script_by_short_name, script_from_full_name, script_from_short_name, script_name,
    script_of, single_script, skeleton_chars, skeleton_of, to_lowercase, to_uppercase, lowercase,
    uppercase, SCRIPT_COMMON, SCRIPT_INHERITED, SCRIPT_LATIN, SCRIPT_UNKNOWN,
};
use std::ops::Range;
use vstd::prelude::*;
use vstd::utf8::is_ascii_chars;

verus! {

/// The share of a file's letters, in percent, that must belong to an
/// undeclared non-Latin script before the file is refused.
///
/// Measured rather than picked: a `zh-CN` UI catalogue is 16% Han, and a
/// single foreign word quoted in an English document is a tenth of one
/// percent.
pub const FOREIGN_SHARE_PERCENT: u64 = 10;

pub open spec fn is_ascii(c: char) -> bool {
    (c as u32) < 0x80
}

pub open spec fn is_ascii_alphanumeric(c: char) -> bool {
    let v = c as u32;
    (0x30 <= v <= 0x39) || (0x41 <= v <= 0x5A) || (0x61 <= v <= 0x7A)
}

/// Notation that folds to an ASCII character and is not impersonating
/// one: ordinal indicators, superscripts and subscripts. `2ª`, `x²` and
/// `Hₙ` are ordinary writing.
pub open spec fn not_impersonating(c: char) -> bool {
    let v = c as u32;
    ||| v == 0xAA
    ||| 0xB2 <= v <= 0xB3
    ||| 0xB9 <= v <= 0xBA
    ||| 0x2070 <= v <= 0x209F
}

/// The three script property values that are not writing systems.
pub open spec fn is_placeholder(script: u8) -> bool {
    script == SCRIPT_COMMON || script == SCRIPT_INHERITED || script == SCRIPT_UNKNOWN
}

/// Lexicographic order by codepoint, which is the order `str`'s `<` gives:
/// UTF-8 preserves codepoint order byte by byte.
pub open spec fn lex_less(a: Seq<char>, b: Seq<char>) -> bool
    decreases a.len(),
{
    if a.len() == 0 {
        b.len() > 0
    } else if b.len() == 0 {
        false
    } else if a[0] != b[0] {
        (a[0] as u32) < (b[0] as u32)
    } else {
        lex_less(a.drop_first(), b.drop_first())
    }
}

/// `A, B, C`: the names joined by commas.
pub open spec fn comma_list(names: Seq<Seq<char>>) -> Seq<char>
    decreases names.len(),
{
    if names.len() == 0 {
        seq![]
    } else if names.len() == 1 {
        names[0]
    } else {
        comma_list(names.drop_last()) + ", "@ + names.last()
    }
}

/// `A`, `A and B`, `A, B and C`.
pub open spec fn joined_names(names: Seq<Seq<char>>) -> Seq<char> {
    if names.len() == 0 {
        seq![]
    } else if names.len() == 1 {
        names[0]
    } else {
        comma_list(names.drop_last()) + " and "@ + names.last()
    }
}

/// The clause after the script names in a refusal.
pub open spec fn declaration_text(declared_any: bool) -> Seq<char> {
    if declared_any {
        "and none of those is among the scripts declared for it"@
    } else {
        "and no expected script was declared for it"@
    }
}

/// The one-to-one compatibility fold of a letter or digit onto an ASCII
/// letter or digit, if it has one.
pub open spec fn lookalike(c: char) -> Option<char> {
    if is_ascii(c) || !(alphabetic(c) || numeric(c)) || not_impersonating(c) {
        None
    } else if nfkc_char(c).len() != 1 {
        None
    } else {
        let plain = nfkc_char(c)[0];
        if plain != c && is_ascii_alphanumeric(plain) {
            Some(plain)
        } else {
            None
        }
    }
}

/// The UTS #39 skeleton of a character, when it is not the character.
pub open spec fn prototype_of(c: char) -> Option<Seq<char>> {
    if skeleton_chars(c) != seq![c] {
        Some(skeleton_chars(c))
    } else {
        None
    }
}

pub open spec fn compatibility_detail() -> Seq<char> {
    "a compatibility form of an ASCII character: it reads as the codepoint under `resembles` and does not compare equal to it"@
}

pub open spec fn homoglyph_detail(name: Seq<char>) -> Seq<char> {
    "a "@ + name + " character in a word that is not "@ + name
        + ", and it reduces to the codepoint under `resembles`: the two are indistinguishable on screen"@
}

pub open spec fn compatibility_view(offset: nat, c: char) -> Option<DraftView> {
    match lookalike(c) {
        Some(plain) => Some(
            DraftView {
                offset,
                kind: Kind::Confusable,
                severity: Severity::High,
                codepoints: seq![rendered(c)],
                scripts: seq![script_name(script_of(c))],
                resembles: seq![rendered(plain)],
                detail: compatibility_detail(),
            },
        ),
        None => None,
    }
}

pub open spec fn homoglyph_view(offset: nat, c: char) -> Option<DraftView> {
    if is_ascii(c) || !mixed_script_confusable(c) {
        None
    } else {
        match prototype_of(c) {
            Some(prototype) => Some(
                DraftView {
                    offset,
                    kind: Kind::Confusable,
                    severity: Severity::High,
                    codepoints: seq![rendered(c)],
                    scripts: seq![script_name(script_of(c))],
                    resembles: rendered_each(prototype),
                    detail: homoglyph_detail(script_name(script_of(c))),
                },
            ),
            None => None,
        }
    }
}

/// `A`, `A and B`, `A, B and C`. Written out because a bare join reads as
/// broken prose the moment a third script appears, and Japanese always
/// brings three.
pub fn join_names(names: &[&str]) -> (r: String)
    ensures
        r@ == joined_names(names@.map_values(|n: &str| n@)),
{
    let ghost all = names@.map_values(|n: &str| n@);
    let mut out: Vec<char> = Vec::new();
    if names.len() == 0 {
        proof {
            assert(out@ =~= joined_names(all));
        }
        return string_of(out.as_slice());
    }
    let last = names.len() - 1;
    let mut i: usize = 0;
    while i < last
        invariant
            all == names@.map_values(|n: &str| n@),
            last == names.len() - 1,
            0 <= i <= last,
            i == 0 ==> out@ == Seq::<char>::empty(),
            i > 0 ==> out@ == comma_list(all.take(i as int)),
        decreases last - i,
    {
        if i > 0 {
            push_str(&mut out, ", ");
        }
        push_str(&mut out, names[i]);
        proof {
            let t = all.take(i + 1);
            assert(t.drop_last() =~= all.take(i as int));
            assert(t.last() == names@[i as int]@);
            if i == 0 {
                assert(t.len() == 1);
                assert(out@ =~= comma_list(t));
            }
        }
        i = i + 1;
    }
    if last > 0 {
        push_str(&mut out, " and ");
    }
    push_str(&mut out, names[last]);
    proof {
        assert(all.drop_last() =~= all.take(last as int));
        assert(all.last() == names@[last as int]@);
        assert(out@ =~= joined_names(all));
    }
    string_of(out.as_slice())
}

/// The clause after the script names. A caller who declared something
/// and is still refused is not told that nothing was declared.
pub fn declaration(expected: &[u8]) -> (r: &'static str)
    ensures
        r@ == declaration_text(expected.len() > 0),
{
    if expected.len() == 0 {
        return "and no expected script was declared for it";
    }
    "and none of those is among the scripts declared for it"
}

/// The ASCII letter or digit a compatibility form folds to: full-width
/// `ｆ`, mathematical `𝐟`, the Kelvin sign. Only a one-to-one fold counts:
/// `ﬁ` becomes `fi` and `Ⅻ` becomes `XII`, which are ligatures and
/// numerals rather than one letter wearing another's face.
pub fn ascii_lookalike(c: char) -> (r: Option<char>)
    ensures
        r == lookalike(c),
{
    if (c as u32) < 0x80 || !(is_alphabetic(c) || is_numeric(c)) {
        return None;
    }
    let v = c as u32;
    if v == 0xAA || (0xB2 <= v && v <= 0xB3) || (0xB9 <= v && v <= 0xBA) || (0x2070 <= v && v
        <= 0x209F) {
        return None;
    }
    let folded = nfkc_of_char(c);
    if folded.len() != 1 {
        return None;
    }
    let plain = folded[0];
    let p = plain as u32;
    if plain != c && ((0x30 <= p && p <= 0x39) || (0x41 <= p && p <= 0x5A) || (0x61 <= p && p
        <= 0x7A)) {
        Some(plain)
    } else {
        None
    }
}

/// The UTS #39 skeleton of a single character, when it is not itself.
pub fn resembles(c: char) -> (r: Option<Vec<char>>)
    ensures
        match r {
            Some(p) => prototype_of(c) == Some(p@),
            None => prototype_of(c) is None,
        },
{
    let prototype = skeleton_of(c);
    if prototype.len() != 1 || prototype[0] != c {
        proof {
            if prototype@ == seq![c] {
                assert(prototype@[0] == c);
            }
        }
        Some(prototype)
    } else {
        proof {
            assert(prototype@ =~= seq![c]);
        }
        None
    }
}

fn one_name(c: char) -> (r: Vec<String>)
    ensures
        r.deep_view() == seq![script_name(script_of(c))],
{
    let mut names: Vec<String> = Vec::new();
    names.push(char_script_name(c).to_owned());
    proof {
        assert(names.deep_view() =~= seq![script_name(script_of(c))]);
    }
    names
}

fn one_rendered(c: char) -> (r: Vec<String>)
    ensures
        r.deep_view() == seq![rendered(c)],
{
    let mut out: Vec<String> = Vec::new();
    out.push(render(c));
    proof {
        assert(out.deep_view() =~= seq![rendered(c)]);
    }
    out
}

/// A letter or digit that is a compatibility form of an ASCII one. Same
/// script, different codepoint, identical to a reader.
pub fn compatibility_draft(offset: usize, c: char) -> (r: Option<Draft>)
    ensures
        match r {
            Some(d) => compatibility_view(offset as nat, c) == Some(d@),
            None => compatibility_view(offset as nat, c) is None,
        },
{
    let plain = match ascii_lookalike(c) {
        Some(plain) => plain,
        None => return None,
    };
    let mut detail: Vec<char> = Vec::new();
    push_str(
        &mut detail,
        "a compatibility form of an ASCII character: it reads as the codepoint under `resembles` and does not compare equal to it",
    );
    let d = Draft {
        offset,
        kind: Kind::Confusable,
        severity: Severity::High,
        codepoints: one_rendered(c),
        scripts: one_name(c),
        resembles: one_rendered(plain),
        detail: string_of(detail.as_slice()),
    };
    proof {
        assert(d@.detail =~= compatibility_detail());
    }
    Some(d)
}

/// A character inside a mixed word that UTS #39 knows is confusable across
/// scripts, and that really does reduce to something else.
pub fn homoglyph_draft(offset: usize, c: char) -> (r: Option<Draft>)
    ensures
        match r {
            Some(d) => homoglyph_view(offset as nat, c) == Some(d@),
            None => homoglyph_view(offset as nat, c) is None,
        },
{
    if (c as u32) < 0x80 || !is_mixed_script_confusable(c) {
        return None;
    }
    let prototype = match resembles(c) {
        Some(p) => p,
        None => return None,
    };
    let name = char_script_name(c);
    let mut detail: Vec<char> = Vec::new();
    push_str(&mut detail, "a ");
    push_str(&mut detail, name);
    push_str(&mut detail, " character in a word that is not ");
    push_str(&mut detail, name);
    push_str(
        &mut detail,
        ", and it reduces to the codepoint under `resembles`: the two are indistinguishable on screen",
    );
    let d = Draft {
        offset,
        kind: Kind::Confusable,
        severity: Severity::High,
        codepoints: one_rendered(c),
        scripts: one_name(c),
        resembles: render_each(prototype.as_slice()),
        detail: string_of(detail.as_slice()),
    };
    proof {
        assert(d@.detail =~= homoglyph_detail(script_name(script_of(c))));
    }
    Some(d)
}

/// A tally of scripts in order of first appearance: each script once,
/// with the first character written in it and how many characters counted
/// for it.
pub type TallyView = Seq<(u8, char, nat)>;

pub open spec fn tally_view(t: Seq<(u8, char, usize)>) -> TallyView {
    t.map_values(|e: (u8, char, usize)| (e.0, e.1, e.2 as nat))
}

/// The first index at or after `i` that holds `script`, else the length.
pub open spec fn tally_find(t: TallyView, script: u8, i: int) -> int
    decreases t.len() - i,
{
    if i >= t.len() {
        t.len() as int
    } else if t[i].0 == script {
        i
    } else {
        tally_find(t, script, i + 1)
    }
}

pub open spec fn tally_add(t: TallyView, c: char) -> TallyView {
    let k = tally_find(t, script_of(c), 0);
    if 0 <= k < t.len() {
        t.update(k, (t[k].0, t[k].1, t[k].2 + 1))
    } else {
        t.push((script_of(c), c, 1nat))
    }
}

/// The scripts of the characters `keep` admits, tallied.
pub open spec fn tally(cs: Seq<char>, keep: spec_fn(char) -> bool) -> TallyView
    decreases cs.len(),
{
    if cs.len() == 0 {
        seq![]
    } else {
        let before = tally(cs.drop_last(), keep);
        if keep(cs.last()) {
            tally_add(before, cs.last())
        } else {
            before
        }
    }
}

/// Where a script named `name` goes in a list sorted by name: before the
/// first entry whose name sorts after it. Equal names keep their order.
pub open spec fn insert_pos(t: TallyView, name: Seq<char>, i: int) -> int
    decreases t.len() - i,
{
    if i >= t.len() {
        t.len() as int
    } else if lex_less(name, script_name(t[i].0)) {
        i
    } else {
        insert_pos(t, name, i + 1)
    }
}

/// A tally sorted by script name, stably.
pub open spec fn sort_by_name(t: TallyView) -> TallyView
    decreases t.len(),
{
    if t.len() == 0 {
        t
    } else {
        let sorted = sort_by_name(t.drop_last());
        sorted.insert(insert_pos(sorted, script_name(t.last().0), 0), t.last())
    }
}

/// Every entry's character is written in the entry's script.
pub open spec fn faithful(t: TallyView) -> bool {
    forall|k: int| 0 <= k < t.len() ==> script_of(#[trigger] t[k].1) == t[k].0
}

pub open spec fn names_of(t: TallyView) -> Seq<Seq<char>> {
    t.map_values(|e: (u8, char, nat)| script_name(e.0))
}

pub open spec fn scripts_of(t: TallyView) -> Seq<u8> {
    t.map_values(|e: (u8, char, nat)| e.0)
}

/// A script counts towards a word's script set unless it is one of the
/// three placeholders.
pub open spec fn writes_script(c: char) -> bool {
    !is_placeholder(script_of(c))
}

/// Every script written in a word, sorted by name.
pub open spec fn word_scripts(word: Seq<char>) -> TallyView {
    sort_by_name(tally(word, |c: char| writes_script(c)))
}

/// A letter that counts towards the foreign share of a file: alphabetic
/// and in a script other than Latin and the placeholders.
pub open spec fn foreign_letter(c: char) -> bool {
    alphabetic(c) && !is_placeholder(script_of(c)) && script_of(c) != SCRIPT_LATIN
}

pub open spec fn letter_count(cs: Seq<char>) -> nat
    decreases cs.len(),
{
    if cs.len() == 0 {
        0
    } else {
        letter_count(cs.drop_last()) + if alphabetic(cs.last()) {
            1nat
        } else {
            0nat
        }
    }
}

/// The tally with every declared script taken out.
pub open spec fn undeclared_of(t: TallyView, expected: Seq<u8>) -> TallyView
    decreases t.len(),
{
    if t.len() == 0 {
        t
    } else {
        let before = undeclared_of(t.drop_last(), expected);
        if expected.contains(t.last().0) {
            before
        } else {
            before.push(t.last())
        }
    }
}

pub open spec fn tally_total(t: TallyView) -> nat
    decreases t.len(),
{
    if t.len() == 0 {
        0
    } else {
        tally_total(t.drop_last()) + t.last().2
    }
}

pub open spec fn refusal_detail(share: nat, names: Seq<Seq<char>>, declared_any: bool) -> Seq<char> {
    decimal(share) + "% of this file's letters are "@ + joined_names(names) + ", "@
        + declaration_text(declared_any)
        + ". The confusable and mixed-script checks did not run here: in a file written in another script there is nothing to tell a forged name from a translated one, and answering anyway would bury the real findings. Every other check did run."@
}

/// Whether a document may be judged for confusables and mixed script: a
/// refusal when at least a tenth of its letters are in scripts that are
/// neither Latin nor declared.
pub open spec fn context_of(cs: Seq<char>, expected: Seq<u8>) -> Option<(nat, Seq<Seq<char>>)> {
    let letters = letter_count(cs);
    let found = undeclared_of(tally(cs, |c: char| foreign_letter(c)), expected);
    let undeclared = tally_total(found);
    if found.len() == 0 || undeclared * 100 < letters * 10 {
        None
    } else {
        Some(
            (
                undeclared * 100 / (if letters == 0 {
                    1nat
                } else {
                    letters
                }),
                names_of(sort_by_name(found)),
            ),
        )
    }
}

proof fn lemma_tally_find(t: TallyView, script: u8, i: int)
    requires
        0 <= i <= t.len(),
    ensures
        i <= tally_find(t, script, i) <= t.len(),
        tally_find(t, script, i) < t.len() ==> t[tally_find(t, script, i)].0 == script,
        forall|j: int| i <= j < tally_find(t, script, i) ==> t[j].0 != script,
    decreases t.len() - i,
{
    if i < t.len() && t[i].0 != script {
        lemma_tally_find(t, script, i + 1);
    }
}

pub(crate) proof fn lemma_insert_pos(t: TallyView, name: Seq<char>, i: int)
    requires
        0 <= i <= t.len(),
    ensures
        i <= insert_pos(t, name, i) <= t.len(),
    decreases t.len() - i,
{
    if i < t.len() && !lex_less(name, script_name(t[i].0)) {
        lemma_insert_pos(t, name, i + 1);
    }
}

pub(crate) proof fn lemma_tally_shape(cs: Seq<char>, keep: spec_fn(char) -> bool)
    ensures
        faithful(tally(cs, keep)),
        forall|k: int|
            0 <= k < tally(cs, keep).len() ==> #[trigger] tally(cs, keep)[k].2 <= cs.len(),
        forall|k: int| 0 <= k < tally(cs, keep).len() ==> keep(#[trigger] tally(cs, keep)[k].1),
    decreases cs.len(),
{
    if cs.len() > 0 {
        lemma_tally_shape(cs.drop_last(), keep);
        let before = tally(cs.drop_last(), keep);
        if keep(cs.last()) {
            lemma_tally_find(before, script_of(cs.last()), 0);
        }
    }
}

/// Whether one string sorts before another, byte by byte.
pub fn str_less(a: &str, b: &str) -> (r: bool)
    ensures
        r == lex_less(a@, b@),
{
    let x = text_of(a).chars;
    let y = text_of(b).chars;
    let mut i: usize = 0;
    proof {
        assert(a@.skip(0) =~= a@);
        assert(b@.skip(0) =~= b@);
    }
    while i < x.len() && i < y.len() && x[i] == y[i]
        invariant
            x@ == a@,
            y@ == b@,
            0 <= i <= x.len(),
            i <= y.len(),
            lex_less(a@, b@) == lex_less(a@.skip(i as int), b@.skip(i as int)),
        decreases x.len() - i,
    {
        proof {
            assert(a@.skip(i as int).drop_first() =~= a@.skip(i + 1));
            assert(b@.skip(i as int).drop_first() =~= b@.skip(i + 1));
        }
        i = i + 1;
    }
    if i == x.len() {
        i < y.len()
    } else if i == y.len() {
        false
    } else {
        (x[i] as u32) < (y[i] as u32)
    }
}

/// Adds one character's script to a tally.
fn tally_push(t: &mut Vec<(u8, char, usize)>, c: char, bound: Ghost<nat>)
    requires
        forall|k: int| 0 <= k < old(t).len() ==> (#[trigger] old(t)@[k]).2 < bound@,
        bound@ <= usize::MAX,
        bound@ >= 1,
    ensures
        tally_view(final(t)@) == tally_add(tally_view(old(t)@), c),
        forall|k: int| 0 <= k < final(t).len() ==> (#[trigger] final(t)@[k]).2 <= bound@,
{
    let script = char_script(c);
    let ghost tv = tally_view(t@);
    let mut k: usize = 0;
    while k < t.len() && t[k].0 != script
        invariant
            tv == tally_view(t@),
            0 <= k <= t.len(),
            tally_find(tv, script, 0) == tally_find(tv, script, k as int),
        decreases t.len() - k,
    {
        k = k + 1;
    }
    if k < t.len() {
        let (s, first, count) = t[k];
        t.set(k, (s, first, count + 1));
        proof {
            assert forall|j: int| 0 <= j < t.len() implies (#[trigger] t@[j]).2 <= bound@ by {
                if j != k {
                    assert(t@[j] == old(t)@[j]);
                }
            }
            assert(tally_view(t@) =~= tv.update(k as int, (tv[k as int].0, tv[k as int].1, tv[k as int].2 + 1)));
        }
    } else {
        t.push((script, c, 1));
        proof {
            assert forall|j: int| 0 <= j < t.len() implies (#[trigger] t@[j]).2 <= bound@ by {
                if j < t.len() - 1 {
                    assert(t@[j] == old(t)@[j]);
                }
            }
            assert(tally_view(t@) =~= tv.push((script, c, 1nat)));
        }
    }
}

/// A tally sorted by script name. Names are asked of each entry's
/// character.
pub fn sort_by_script_name(t: &Vec<(u8, char, usize)>) -> (r: Vec<(u8, char, usize)>)
    requires
        faithful(tally_view(t@)),
    ensures
        tally_view(r@) == sort_by_name(tally_view(t@)),
        faithful(tally_view(r@)),
{
    let ghost tv = tally_view(t@);
    let mut out: Vec<(u8, char, usize)> = Vec::new();
    let mut i: usize = 0;
    proof {
        assert(tv.take(0) =~= Seq::<(u8, char, nat)>::empty());
    }
    while i < t.len()
        invariant
            tv == tally_view(t@),
            faithful(tv),
            0 <= i <= t.len(),
            tally_view(out@) == sort_by_name(tv.take(i as int)),
            faithful(tally_view(out@)),
        decreases t.len() - i,
    {
        let x = t[i];
        let name = char_script_name(x.1);
        proof {
            assert(tv[i as int].1 == x.1);
            assert(script_of(x.1) == x.0);
        }
        let ghost ov = tally_view(out@);
        let mut p: usize = 0;
        while p < out.len() && !str_less(name, char_script_name(out[p].1))
            invariant
                ov == tally_view(out@),
                faithful(ov),
                0 <= p <= out.len(),
                name@ == script_name(x.0),
                insert_pos(ov, script_name(x.0), 0) == insert_pos(ov, script_name(x.0), p as int),
            decreases out.len() - p,
        {
            proof {
                assert(ov[p as int].1 == out@[p as int].1);
            }
            p = p + 1;
        }
        proof {
            if p < out.len() {
                assert(ov[p as int].1 == out@[p as int].1);
            }
            lemma_insert_pos(ov, script_name(x.0), 0);
        }
        out.insert(p, x);
        proof {
            let taken = tv.take(i + 1);
            assert(taken.drop_last() =~= tv.take(i as int));
            assert(taken.last() == tv[i as int]);
            assert(tally_view(out@) =~= ov.insert(p as int, tv[i as int]));
            assert forall|k: int| 0 <= k < tally_view(out@).len() implies script_of(
                #[trigger] tally_view(out@)[k].1,
            ) == tally_view(out@)[k].0 by {
                if k < p {
                    assert(tally_view(out@)[k] == ov[k]);
                } else if k > p {
                    assert(tally_view(out@)[k] == ov[k - 1]);
                }
            }
        }
        i = i + 1;
    }
    proof {
        assert(tv.take(t.len() as int) =~= tv);
    }
    out
}

/// Every script written in this word, excluding the three property values
/// that are not writing systems, sorted by name; each with the first
/// character of the word written in it.
pub fn scripts_in(word: &[char]) -> (r: Vec<(u8, char, usize)>)
    ensures
        tally_view(r@) == word_scripts(word@),
        faithful(tally_view(r@)),
{
    let mut found: Vec<(u8, char, usize)> = Vec::new();
    let ghost keep = |c: char| writes_script(c);
    let mut i: usize = 0;
    proof {
        assert(word@.take(0) =~= Seq::<char>::empty());
    }
    while i < word.len()
        invariant
            keep == (|c: char| writes_script(c)),
            0 <= i <= word.len(),
            tally_view(found@) == tally(word@.take(i as int), keep),
            forall|k: int| 0 <= k < found.len() ==> (#[trigger] found@[k]).2 <= i,
        decreases word.len() - i,
    {
        let c = word[i];
        proof {
            let taken = word@.take(i + 1);
            assert(taken.drop_last() =~= word@.take(i as int));
            assert(taken.last() == c);
        }
        let script = char_script(c);
        if !(script == SCRIPT_COMMON || script == SCRIPT_INHERITED || script == SCRIPT_UNKNOWN) {
            tally_push(&mut found, c, Ghost((i + 1) as nat));
        }
        i = i + 1;
    }
    proof {
        assert(word@.take(word.len() as int) =~= word@);
        lemma_tally_shape(word@, keep);
    }
    sort_by_script_name(&found)
}

proof fn lemma_total_update(t: TallyView, k: int)
    requires
        0 <= k < t.len(),
    ensures
        tally_total(t.update(k, (t[k].0, t[k].1, t[k].2 + 1))) == tally_total(t) + 1,
    decreases t.len(),
{
    let u = t.update(k, (t[k].0, t[k].1, t[k].2 + 1));
    if k == t.len() - 1 {
        assert(u.drop_last() =~= t.drop_last());
    } else {
        lemma_total_update(t.drop_last(), k);
        assert(u.drop_last() =~= t.drop_last().update(k, (t[k].0, t[k].1, t[k].2 + 1)));
    }
}

proof fn lemma_foreign_total(cs: Seq<char>)
    ensures
        tally_total(tally(cs, |c: char| foreign_letter(c))) <= letter_count(cs),
        letter_count(cs) <= cs.len(),
    decreases cs.len(),
{
    if cs.len() > 0 {
        let keep = |c: char| foreign_letter(c);
        lemma_foreign_total(cs.drop_last());
        let before = tally(cs.drop_last(), keep);
        if keep(cs.last()) {
            let k = tally_find(before, script_of(cs.last()), 0);
            lemma_tally_find(before, script_of(cs.last()), 0);
            if k < before.len() {
                lemma_total_update(before, k);
            } else {
                assert(before.push((script_of(cs.last()), cs.last(), 1nat)).drop_last() =~= before);
            }
        }
    }
}

proof fn lemma_undeclared(t: TallyView, expected: Seq<u8>)
    requires
        faithful(t),
    ensures
        faithful(undeclared_of(t, expected)),
        tally_total(undeclared_of(t, expected)) <= tally_total(t),
        forall|k: int|
            0 <= k < undeclared_of(t, expected).len() ==> !expected.contains(
                #[trigger] undeclared_of(t, expected)[k].0,
            ),
    decreases t.len(),
{
    if t.len() > 0 {
        assert(faithful(t.drop_last())) by {
            assert forall|k: int| 0 <= k < t.drop_last().len() implies script_of(
                #[trigger] t.drop_last()[k].1,
            ) == t.drop_last()[k].0 by {
                assert(t.drop_last()[k] == t[k]);
            }
        }
        lemma_undeclared(t.drop_last(), expected);
        let before = undeclared_of(t.drop_last(), expected);
        if !expected.contains(t.last().0) {
            assert(before.push(t.last()).drop_last() =~= before);
            assert forall|k: int| 0 <= k < before.push(t.last()).len() implies script_of(
                #[trigger] before.push(t.last())[k].1,
            ) == before.push(t.last())[k].0 by {
                if k < before.len() {
                    assert(before.push(t.last())[k] == before[k]);
                }
            }
        }
    }
}

fn contains_script(expected: &[u8], script: u8) -> (r: bool)
    ensures
        r == expected@.contains(script),
{
    let mut i: usize = 0;
    while i < expected.len()
        invariant
            0 <= i <= expected.len(),
            forall|j: int| 0 <= j < i ==> expected@[j] != script,
        decreases expected.len() - i,
    {
        if expected[i] == script {
            proof {
                assert(expected@[i as int] == script);
            }
            return true;
        }
        i = i + 1;
    }
    false
}

/// How many letters a document holds, and how many of them belong to
/// each non-Latin script written in it. Counted per script rather than
/// summed: the declared scripts are taken out afterwards.
pub fn survey(text: &Text) -> (r: (usize, Vec<(u8, char, usize)>))
    ensures
        r.0 == letter_count(text.chars@),
        tally_view(r.1@) == tally(text.chars@, |c: char| foreign_letter(c)),
{
    let ghost cs = text.chars@;
    let ghost keep = |c: char| foreign_letter(c);
    let mut letters: usize = 0;
    let mut found: Vec<(u8, char, usize)> = Vec::new();
    let mut i: usize = 0;
    proof {
        assert(cs.take(0) =~= Seq::<char>::empty());
    }
    while i < text.chars.len()
        invariant
            cs == text.chars@,
            keep == (|c: char| foreign_letter(c)),
            0 <= i <= cs.len(),
            letters == letter_count(cs.take(i as int)),
            letters <= i,
            tally_view(found@) == tally(cs.take(i as int), keep),
            forall|k: int| 0 <= k < found.len() ==> (#[trigger] found@[k]).2 <= i,
        decreases cs.len() - i,
    {
        let c = text.chars[i];
        proof {
            let taken = cs.take(i + 1);
            assert(taken.drop_last() =~= cs.take(i as int));
            assert(taken.last() == c);
        }
        if is_alphabetic(c) {
            letters = letters + 1;
            let script = char_script(c);
            if !(script == SCRIPT_LATIN || script == SCRIPT_COMMON || script == SCRIPT_INHERITED
                || script == SCRIPT_UNKNOWN) {
                tally_push(&mut found, c, Ghost((i + 1) as nat));
            }
        }
        i = i + 1;
    }
    proof {
        assert(cs.take(cs.len() as int) =~= cs);
    }
    (letters, found)
}

/// Whether this document may be judged for confusables and mixed script,
/// or a refusal saying why it may not.
///
/// The share is over the undeclared scripts alone: declaring the script a
/// repository is written in must turn the check on for it, not off.
/// Percentages in integers, so the comparison is the same on every
/// platform.
pub fn context(content: &str, expected: &[u8]) -> (r: Option<Refusal>)
    ensures
        match r {
            None => context_of(content@, expected@) is None,
            Some(refusal) => {
                &&& refusal.reason == Reason::IntentionalScriptContext
                &&& context_of(content@, expected@) matches Some((share, names))
                &&& refusal.detail@ == refusal_detail(share, names, expected.len() > 0)
                &&& is_ascii_chars(refusal.detail@)
            },
        },
{
    let text = text_of(content);
    context_text(&text, expected)
}

pub fn context_text(text: &Text, expected: &[u8]) -> (r: Option<Refusal>)
    ensures
        match r {
            None => context_of(text.chars@, expected@) is None,
            Some(refusal) => {
                &&& refusal.reason == Reason::IntentionalScriptContext
                &&& context_of(text.chars@, expected@) matches Some((share, names))
                &&& refusal.detail@ == refusal_detail(share, names, expected.len() > 0)
                &&& is_ascii_chars(refusal.detail@)
            },
        },
{
    let ghost cs = text.chars@;
    let (letters, found) = survey(text);
    let ghost fv = tally_view(found@);
    proof {
        lemma_tally_shape(cs, |c: char| foreign_letter(c));
        lemma_foreign_total(cs);
        lemma_undeclared(fv, expected@);
    }
    let mut kept: Vec<(u8, char, usize)> = Vec::new();
    let mut undeclared: usize = 0;
    let mut i: usize = 0;
    proof {
        assert(fv.take(0) =~= Seq::<(u8, char, nat)>::empty());
    }
    while i < found.len()
        invariant
            fv == tally_view(found@),
            faithful(fv),
            tally_total(undeclared_of(fv, expected@)) <= tally_total(fv),
            tally_total(fv) <= letters,
            0 <= i <= found.len(),
            tally_view(kept@) == undeclared_of(fv.take(i as int), expected@),
            undeclared == tally_total(undeclared_of(fv.take(i as int), expected@)),
            undeclared <= tally_total(fv.take(i as int)),
            tally_total(fv.take(i as int)) <= tally_total(fv),
        decreases found.len() - i,
    {
        let entry = found[i];
        proof {
            let taken = fv.take(i + 1);
            assert(taken.drop_last() =~= fv.take(i as int));
            assert(taken.last() == fv[i as int]);
            lemma_total_prefix(fv, i + 1);
        }
        if !contains_script(expected, entry.0) {
            let ghost before = tally_view(kept@);
            kept.push(entry);
            undeclared = undeclared + entry.2;
            proof {
                assert(tally_view(kept@) =~= before.push(fv[i as int]));
                assert(before.push(fv[i as int]).drop_last() =~= before);
            }
        }
        i = i + 1;
    }
    proof {
        assert(fv.take(found.len() as int) =~= fv);
    }
    if kept.len() == 0 {
        return None;
    }
    if (undeclared as u128) * 100 < (letters as u128) * 10 {
        return None;
    }
    let sorted = sort_by_script_name(&kept);
    let mut names: Vec<&str> = Vec::new();
    let mut k: usize = 0;
    while k < sorted.len()
        invariant
            faithful(tally_view(sorted@)),
            0 <= k <= sorted.len(),
            names@.map_values(|n: &str| n@) == names_of(tally_view(sorted@)).take(k as int),
            forall|j: int| 0 <= j < k ==> is_ascii_chars(#[trigger] names@[j]@),
        decreases sorted.len() - k,
    {
        let ghost before = names@;
        names.push(char_script_name(sorted[k].1));
        proof {
            assert(before.map_values(|n: &str| n@).len() == k);
            assert(forall|j: int| 0 <= j < k ==> names@[j] == before[j]);
        }
        proof {
            assert(tally_view(sorted@)[k as int].1 == sorted@[k as int].1);
            assert(script_of(tally_view(sorted@)[k as int].1) == tally_view(sorted@)[k as int].0);
            assert(names@.map_values(|n: &str| n@).drop_last() =~= before.map_values(|n: &str| n@));
            assert(names@.map_values(|n: &str| n@) =~= names_of(tally_view(sorted@)).take(k + 1));
        }
        k = k + 1;
    }
    proof {
        assert(names_of(tally_view(sorted@)).take(sorted.len() as int) =~= names_of(tally_view(sorted@)));
        assert forall|j: int| 0 <= j < names_of(tally_view(sorted@)).len() implies is_ascii_chars(
            #[trigger] names_of(tally_view(sorted@))[j],
        ) by {
            assert(names@.map_values(|n: &str| n@)[j] == names@[j]@);
        }
        assert(super::ascii::all_ascii(names_of(tally_view(sorted@))));
    }
    let divisor: u128 = if letters == 0 {
        1
    } else {
        letters as u128
    };
    let share = ((undeclared as u128) * 100) / divisor;
    proof {
        let u = undeclared as int;
        let d = divisor as int;
        assert(share == (u * 100) / d);
        assert((u * 100) / d <= 100) by (nonlinear_arith)
            requires
                d >= 1,
                0 <= u <= d,
        ;
    }
    let mut detail: Vec<char> = Vec::new();
    push_decimal(&mut detail, share as u64);
    push_str(&mut detail, "% of this file's letters are ");
    let joined = join_names(names.as_slice());
    push_str(&mut detail, joined.as_str());
    push_str(&mut detail, ", ");
    push_str(&mut detail, declaration(expected));
    push_str(
        &mut detail,
        ". The confusable and mixed-script checks did not run here: in a file written in another script there is nothing to tell a forged name from a translated one, and answering anyway would bury the real findings. Every other check did run.",
    );
    let refusal = Refusal {
        reason: Reason::IntentionalScriptContext,
        detail: string_of(detail.as_slice()),
    };
    proof {
        let d = refusal_detail(
            share as nat,
            names_of(sort_by_name(tally_view(kept@))),
            expected.len() > 0,
        );
        assert(refusal.detail@ =~= d);
        super::ascii::lemma_refusal_detail_ascii(
            share as nat,
            names_of(sort_by_name(tally_view(kept@))),
            expected.len() > 0,
        );
    }
    Some(refusal)
}

proof fn lemma_total_prefix(t: TallyView, n: int)
    requires
        0 <= n <= t.len(),
    ensures
        tally_total(t.take(n)) <= tally_total(t),
    decreases t.len() - n,
{
    if n < t.len() {
        lemma_total_prefix(t, n + 1);
        assert(t.take(n + 1).drop_last() =~= t.take(n));
    } else {
        assert(t.take(n) =~= t);
    }
}

/// Escape ranges as a reader supplies them: each range well formed, and
/// the ranges in document order without overlap.
pub open spec fn escapes_ordered(escapes: Seq<Range<usize>>) -> bool {
    &&& forall|i: int| 0 <= i < escapes.len() ==> (#[trigger] escapes[i]).start <= escapes[i].end
    &&& forall|i: int, j: int|
        0 <= i < j < escapes.len() ==> (#[trigger] escapes[i]).end <= (#[trigger] escapes[j]).start
}

/// Whether a byte offset falls inside one of the escape ranges.
pub open spec fn escaped(escapes: Seq<Range<usize>>, offset: nat) -> bool {
    exists|i: int| 0 <= i < escapes.len() && (#[trigger] escapes[i]).start <= offset < escapes[i].end
}

/// Letters, digits, underscores and combining marks: an identifier in any
/// language, and a word in ordinary prose.
pub open spec fn is_word_char(c: char) -> bool {
    alphabetic(c) || numeric(c) || c == '_' || script_of(c) == SCRIPT_INHERITED
}

/// Whether the character at index `i` may be part of a word.
pub open spec fn material(cs: Seq<char>, escapes: Seq<Range<usize>>, i: int) -> bool {
    is_word_char(cs[i]) && !escaped(escapes, offset_of(cs, i))
}

/// The end of the run of word material that starts at `i`.
pub open spec fn run_end(cs: Seq<char>, escapes: Seq<Range<usize>>, i: int) -> int
    decreases cs.len() - i,
{
    if i < 0 || i >= cs.len() || !material(cs, escapes, i) {
        i
    } else {
        run_end(cs, escapes, i + 1)
    }
}

/// The words from index `i` on, as character index ranges: maximal runs of
/// word material.
pub open spec fn words_from(cs: Seq<char>, escapes: Seq<Range<usize>>, i: int) -> Seq<(int, int)>
    decreases cs.len() - i,
{
    if i < 0 || i >= cs.len() {
        seq![]
    } else if !material(cs, escapes, i) {
        words_from(cs, escapes, i + 1)
    } else {
        proof {
            lemma_run_end(cs, escapes, i);
        }
        seq![(i, run_end(cs, escapes, i))] + words_from(cs, escapes, run_end(cs, escapes, i))
    }
}

pub open spec fn words_of(cs: Seq<char>, escapes: Seq<Range<usize>>) -> Seq<(int, int)> {
    words_from(cs, escapes, 0)
}

pub proof fn lemma_run_end(cs: Seq<char>, escapes: Seq<Range<usize>>, i: int)
    requires
        0 <= i <= cs.len(),
    ensures
        i <= run_end(cs, escapes, i) <= cs.len(),
        i < cs.len() && material(cs, escapes, i) ==> i < run_end(cs, escapes, i),
        forall|j: int| i <= j < run_end(cs, escapes, i) ==> material(cs, escapes, j),
        run_end(cs, escapes, i) < cs.len() ==> !material(cs, escapes, run_end(cs, escapes, i)),
    decreases cs.len() - i,
{
    if i < cs.len() && material(cs, escapes, i) {
        lemma_run_end(cs, escapes, i + 1);
    }
}

pub(crate) proof fn lemma_words_bounds(cs: Seq<char>, escapes: Seq<Range<usize>>, i: int)
    requires
        0 <= i <= cs.len(),
    ensures
        forall|k: int|
            0 <= k < words_from(cs, escapes, i).len() ==> i <= (#[trigger] words_from(
                cs,
                escapes,
                i,
            )[k]).0 < words_from(cs, escapes, i)[k].1 <= cs.len(),
    decreases cs.len() - i,
{
    if i < cs.len() {
        if !material(cs, escapes, i) {
            lemma_words_bounds(cs, escapes, i + 1);
            assert(words_from(cs, escapes, i) == words_from(cs, escapes, i + 1));
        } else {
            lemma_run_end(cs, escapes, i);
            let j = run_end(cs, escapes, i);
            lemma_words_bounds(cs, escapes, j);
            let w = words_from(cs, escapes, i);
            let rest = words_from(cs, escapes, j);
            assert(w == seq![(i, j)] + rest);
            assert forall|k: int| 0 <= k < w.len() implies i <= (#[trigger] w[k]).0 < w[k].1
                <= cs.len() by {
                if k > 0 {
                    assert(w[k] == rest[k - 1]);
                } else {
                    assert(w[0] == (i, j));
                }
            }
        }
    }
}

/// Whether a byte offset falls inside an escape range. A binary search:
/// the ranges are in document order, and a linear scan per character
/// would make the word splitter quadratic on a document full of escapes.
pub fn in_escape(escapes: &[Range<usize>], offset: usize) -> (r: bool)
    requires
        escapes_ordered(escapes@),
    ensures
        r == escaped(escapes@, offset as nat),
{
    let mut low: usize = 0;
    let mut high: usize = escapes.len();
    while low < high
        invariant
            escapes_ordered(escapes@),
            0 <= low <= high <= escapes.len(),
            forall|i: int| 0 <= i < low ==> (#[trigger] escapes@[i]).start <= offset,
            forall|i: int| high <= i < escapes.len() ==> (#[trigger] escapes@[i]).start > offset,
        decreases high - low,
    {
        let mid = low + (high - low) / 2;
        if escapes[mid].start <= offset {
            proof {
                assert forall|i: int| 0 <= i <= mid implies (#[trigger] escapes@[i]).start
                    <= offset by {
                    if i < mid {
                        assert(escapes@[i].start <= escapes@[i].end);
                        assert(escapes@[i].end <= escapes@[mid as int].start);
                    }
                }
            }
            low = mid + 1;
        } else {
            proof {
                assert forall|i: int| mid <= i < escapes.len() implies (#[trigger] escapes@[
                    i
                ]).start > offset by {
                    if i > mid {
                        assert(escapes@[mid as int].start <= escapes@[mid as int].end);
                        assert(escapes@[mid as int].end <= escapes@[i].start);
                    }
                }
            }
            high = mid;
        }
    }
    if low == 0 {
        proof {
            assert forall|i: int| 0 <= i < escapes.len() implies !((#[trigger] escapes@[
                i
            ]).start <= offset && offset < escapes@[i].end) by {}
        }
        return false;
    }
    let last = low - 1;
    let inside = offset < escapes[last].end;
    proof {
        if !inside {
            assert forall|i: int| 0 <= i < escapes.len() implies !((#[trigger] escapes@[
                i
            ]).start <= offset && offset < escapes@[i].end) by {
                if i < last {
                    assert(escapes@[i].end <= escapes@[last as int].start);
                }
            }
        } else {
            assert(escapes@[last as int].start <= offset);
        }
    }
    inside
}

/// Whether a character may be part of a word.
pub fn is_word_character(c: char) -> (r: bool)
    ensures
        r == is_word_char(c),
{
    is_alphanumeric(c) || c == '_' || char_script(c) == SCRIPT_INHERITED
}

/// The words of a document as character index ranges.
pub fn word_spans(text: &Text, escapes: &[Range<usize>]) -> (r: Vec<(usize, usize)>)
    requires
        text.wf(),
        escapes_ordered(escapes@),
    ensures
        r@.map_values(|w: (usize, usize)| (w.0 as int, w.1 as int)) == words_of(
            text.chars@,
            escapes@,
        ),
{
    let ghost cs = text.chars@;
    let ghost esc = escapes@;
    let n = text.chars.len();
    let mut out: Vec<(usize, usize)> = Vec::new();
    let mut i: usize = 0;
    proof {
        assert(out@.map_values(|w: (usize, usize)| (w.0 as int, w.1 as int)) + words_from(cs, esc, 0)
            =~= words_of(cs, esc));
    }
    while i < n
        invariant
            text.wf(),
            cs == text.chars@,
            esc == escapes@,
            escapes_ordered(esc),
            n == cs.len(),
            0 <= i <= n,
            out@.map_values(|w: (usize, usize)| (w.0 as int, w.1 as int)) + words_from(
                cs,
                esc,
                i as int,
            ) == words_of(cs, esc),
        decreases n - i,
    {
        let ghost before = out@.map_values(|w: (usize, usize)| (w.0 as int, w.1 as int));
        proof {
            assert(text.offsets@[i as int] == offset_of(cs, i as int));
        }
        if !(is_word_character(text.chars[i]) && !in_escape(escapes, text.offsets[i])) {
            i = i + 1;
        } else {
            proof {
                lemma_run_end(cs, esc, i as int);
            }
            let mut j: usize = i + 1;
            proof {
                lemma_run_end(cs, esc, j as int);
                assert(run_end(cs, esc, i as int) == run_end(cs, esc, j as int));
            }
            while j < n && is_word_character(text.chars[j]) && !in_escape(escapes, text.offsets[j])
                invariant
                    text.wf(),
                    cs == text.chars@,
                    esc == escapes@,
                    escapes_ordered(esc),
                    n == cs.len(),
                    i < j <= n,
                    run_end(cs, esc, i as int) == run_end(cs, esc, j as int),
                decreases n - j,
            {
                proof {
                    assert(text.offsets@[j as int] == offset_of(cs, j as int));
                }
                j = j + 1;
            }
            proof {
                if j < n {
                    assert(text.offsets@[j as int] == offset_of(cs, j as int));
                }
            }
            out.push((i, j));
            proof {
                assert(out@.map_values(|w: (usize, usize)| (w.0 as int, w.1 as int)) =~= before.push(
                    (i as int, j as int),
                ));
                assert(before.push((i as int, j as int)) + words_from(cs, esc, j as int) =~= before
                    + words_from(cs, esc, i as int));
            }
            i = j;
        }
    }
    proof {
        assert(out@.map_values(|w: (usize, usize)| (w.0 as int, w.1 as int)) + words_from(
            cs,
            esc,
            n as int,
        ) =~= out@.map_values(|w: (usize, usize)| (w.0 as int, w.1 as int)));
    }
    out
}

/// The words of a document, each with the byte offset it starts at.
///
/// `escapes` are byte ranges that no word may be built across, supplied by
/// a format reader that knows its escape rule: in a JSON string `\n` is a
/// line feed, so its `n` is not a letter. Nothing here guesses one.
pub fn words(content: &str, escapes: &[Range<usize>]) -> (r: Vec<(usize, String)>)
    requires
        escapes_ordered(escapes@),
    ensures
        r.len() == words_of(content@, escapes@).len(),
        forall|k: int|
            0 <= k < r.len() ==> {
                let w = #[trigger] words_of(content@, escapes@)[k];
                &&& r@[k].0 == offset_of(content@, w.0)
                &&& r@[k].1@ == content@.subrange(w.0, w.1)
            },
{
    let text = text_of(content);
    let spans = word_spans(&text, escapes);
    let ghost ws = words_of(content@, escapes@);
    proof {
        lemma_words_bounds(content@, escapes@, 0);
        assert forall|k: int| 0 <= k < spans.len() implies spans@[k].0 as int == (#[trigger] ws[k]).0
            && spans@[k].1 as int == ws[k].1 by {
            assert(spans@.map_values(|w: (usize, usize)| (w.0 as int, w.1 as int))[k] == ws[k]);
        }
    }
    let mut out: Vec<(usize, String)> = Vec::new();
    let mut k: usize = 0;
    while k < spans.len()
        invariant
            text.wf(),
            text.chars@ == content@,
            ws == words_of(content@, escapes@),
            spans.len() == ws.len(),
            forall|m: int| 0 <= m < spans.len() ==> spans@[m].0 as int == (#[trigger] ws[m]).0
                && spans@[m].1 as int == ws[m].1,
            forall|m: int| 0 <= m < ws.len() ==> 0 <= (#[trigger] ws[m]).0 < ws[m].1 <= content@.len(),
            0 <= k <= spans.len(),
            out.len() == k,
            forall|m: int|
                0 <= m < k ==> {
                    let w = #[trigger] ws[m];
                    &&& out@[m].0 == offset_of(content@, w.0)
                    &&& out@[m].1@ == content@.subrange(w.0, w.1)
                },
        decreases spans.len() - k,
    {
        let (a, b) = spans[k];
        proof {
            assert(ws[k as int].0 == a as int);
        }
        let mut word: Vec<char> = Vec::new();
        let mut m: usize = a;
        while m < b
            invariant
                text.chars@ == content@,
                a <= m <= b <= content@.len(),
                word@ == content@.subrange(a as int, m as int),
            decreases b - m,
        {
            word.push(text.chars[m]);
            proof {
                assert(content@.subrange(a as int, m + 1) =~= content@.subrange(a as int, m as int).push(
                    content@[m as int],
                ));
            }
            m = m + 1;
        }
        proof {
            assert(text.offsets@[a as int] == offset_of(content@, a as int));
        }
        out.push((text.offsets[a], string_of(word.as_slice())));
        k = k + 1;
    }
    out
}

/// The scripts of a word that are neither Latin nor declared.
pub open spec fn undeclared_in(scripts: Seq<u8>, expected: Seq<u8>) -> Seq<u8>
    decreases scripts.len(),
{
    if scripts.len() == 0 {
        scripts
    } else {
        let before = undeclared_in(scripts.drop_last(), expected);
        if scripts.last() != SCRIPT_LATIN && !expected.contains(scripts.last()) {
            before.push(scripts.last())
        } else {
            before
        }
    }
}

/// The distinct non-ASCII characters of a word, in the order they appear.
pub open spec fn foreign_chars(word: Seq<char>) -> Seq<char>
    decreases word.len(),
{
    if word.len() == 0 {
        word
    } else {
        let before = foreign_chars(word.drop_last());
        if !is_ascii(word.last()) && !before.contains(word.last()) {
            before.push(word.last())
        } else {
            before
        }
    }
}

pub open spec fn mixed_detail(names: Seq<Seq<char>>) -> Seq<char> {
    "one word written in "@ + joined_names(names)
        + ": no single script accounts for it, which is how a name that reads as familiar is forged"@
}

/// The compatibility findings of a word's Latin and Common characters,
/// from index `i` on.
pub open spec fn compat_from(word: Seq<char>, offset: nat, i: int) -> Seq<DraftView>
    decreases word.len() - i,
{
    if i < 0 || i >= word.len() {
        seq![]
    } else {
        let c = word[i];
        let here = if script_of(c) == SCRIPT_LATIN || script_of(c) == SCRIPT_COMMON {
            match compatibility_view(offset + offset_of(word, i), c) {
                Some(d) => seq![d],
                None => seq![],
            }
        } else {
            seq![]
        };
        here + compat_from(word, offset, i + 1)
    }
}

/// The homoglyph findings of a word's characters in undeclared scripts,
/// from index `i` on.
pub open spec fn homoglyphs_from(word: Seq<char>, offset: nat, undeclared: Seq<u8>, i: int) -> Seq<
    DraftView,
>
    decreases word.len() - i,
{
    if i < 0 || i >= word.len() {
        seq![]
    } else {
        let c = word[i];
        let here = if undeclared.contains(script_of(c)) {
            match homoglyph_view(offset + offset_of(word, i), c) {
                Some(d) => seq![d],
                None => seq![],
            }
        } else {
            seq![]
        };
        here + homoglyphs_from(word, offset, undeclared, i + 1)
    }
}

/// A word that no single script accounts for: the mixed-script finding,
/// then one confusable finding per character from an undeclared script
/// that resembles a character from another.
pub open spec fn mixed_view(word: Seq<char>, offset: nat, found: TallyView, undeclared: Seq<u8>) -> Seq<
    DraftView,
> {
    seq![
        DraftView {
            offset,
            kind: Kind::MixedScript,
            severity: Severity::High,
            codepoints: rendered_each(foreign_chars(word)),
            scripts: names_of(found),
            resembles: seq![],
            detail: mixed_detail(names_of(found)),
        },
    ] + homoglyphs_from(word, offset, undeclared, 0)
}

/// The findings one word makes at one byte offset.
pub open spec fn judge_view(word: Seq<char>, offset: nat, expected: Seq<u8>) -> Seq<DraftView> {
    let found = word_scripts(word);
    let undeclared = undeclared_in(scripts_of(found), expected);
    if undeclared.len() > 0 && !single_script(word) {
        mixed_view(word, offset, found, undeclared)
    } else {
        compat_from(word, offset, 0)
    }
}

/// The findings of the words listed, in order.
pub open spec fn judged(cs: Seq<char>, words: Seq<(int, int)>, expected: Seq<u8>) -> Seq<DraftView>
    decreases words.len(),
{
    if words.len() == 0 {
        seq![]
    } else {
        judged(cs, words.drop_last(), expected) + judge_view(
            cs.subrange(words.last().0, words.last().1),
            offset_of(cs, words.last().0),
            expected,
        )
    }
}

/// Every mixed-script and confusable finding in a document.
pub open spec fn script_drafts(cs: Seq<char>, escapes: Seq<Range<usize>>, expected: Seq<u8>) -> Seq<
    DraftView,
> {
    judged(cs, words_of(cs, escapes), expected)
}

proof fn lemma_offset_within(word: Seq<char>, i: int)
    requires
        0 <= i <= word.len(),
    ensures
        offset_of(word, i) <= byte_len(word),
{
    lemma_byte_len_monotone(word, i, word.len() as int);
    assert(word.take(word.len() as int) =~= word);
}

fn push_draft(out: &mut Vec<Draft>, found: Option<Draft>)
    ensures
        super::drafts_view(final(out)@) == super::drafts_view(old(out)@) + match found {
            Some(d) => seq![d@],
            None => Seq::<DraftView>::empty(),
        },
{
    let ghost before = out@;
    match found {
        Some(d) => {
            let ghost view = d@;
            out.push(d);
            proof {
                assert(super::drafts_view(out@) =~= super::drafts_view(before) + seq![view]);
            }
        },
        None => {
            proof {
                assert(super::drafts_view(out@) =~= super::drafts_view(before) + Seq::<
                    DraftView,
                >::empty());
            }
        },
    }
}

fn compatibility_drafts(offset: usize, word: &[char]) -> (r: Vec<Draft>)
    requires
        offset + byte_len(word@) <= usize::MAX,
    ensures
        super::drafts_view(r@) == compat_from(word@, offset as nat, 0),
{
    let mut out: Vec<Draft> = Vec::new();
    let mut i: usize = 0;
    let mut at: usize = 0;
    proof {
        assert(word@.take(0) =~= Seq::<char>::empty());
        assert(super::drafts_view(out@) + compat_from(word@, offset as nat, 0) =~= compat_from(
            word@,
            offset as nat,
            0,
        ));
    }
    while i < word.len()
        invariant
            offset + byte_len(word@) <= usize::MAX,
            0 <= i <= word.len(),
            at == offset_of(word@, i as int),
            super::drafts_view(out@) + compat_from(word@, offset as nat, i as int) == compat_from(
                word@,
                offset as nat,
                0,
            ),
        decreases word.len() - i,
    {
        let c = word[i];
        proof {
            lemma_offset_within(word@, i as int);
            lemma_byte_len_take(word@, i as int);
            lemma_offset_within(word@, i + 1);
        }
        let script = char_script(c);
        let ghost before = super::drafts_view(out@);
        if script == SCRIPT_LATIN || script == SCRIPT_COMMON {
            push_draft(&mut out, compatibility_draft(offset + at, c));
        } else {
            push_draft(&mut out, None);
        }
        proof {
            assert(super::drafts_view(out@) + compat_from(word@, offset as nat, i + 1) =~= before
                + compat_from(word@, offset as nat, i as int));
        }
        at = at + char_width(c);
        i = i + 1;
    }
    proof {
        assert(super::drafts_view(out@) + compat_from(word@, offset as nat, i as int)
            =~= super::drafts_view(out@));
    }
    out
}

fn homoglyph_drafts(offset: usize, word: &[char], undeclared: &Vec<u8>) -> (r: Vec<Draft>)
    requires
        offset + byte_len(word@) <= usize::MAX,
    ensures
        super::drafts_view(r@) == homoglyphs_from(word@, offset as nat, undeclared@, 0),
{
    let mut out: Vec<Draft> = Vec::new();
    let mut i: usize = 0;
    let mut at: usize = 0;
    proof {
        assert(word@.take(0) =~= Seq::<char>::empty());
        assert(super::drafts_view(out@) + homoglyphs_from(word@, offset as nat, undeclared@, 0)
            =~= homoglyphs_from(word@, offset as nat, undeclared@, 0));
    }
    while i < word.len()
        invariant
            offset + byte_len(word@) <= usize::MAX,
            0 <= i <= word.len(),
            at == offset_of(word@, i as int),
            super::drafts_view(out@) + homoglyphs_from(word@, offset as nat, undeclared@, i as int)
                == homoglyphs_from(word@, offset as nat, undeclared@, 0),
        decreases word.len() - i,
    {
        let c = word[i];
        proof {
            lemma_offset_within(word@, i as int);
            lemma_byte_len_take(word@, i as int);
            lemma_offset_within(word@, i + 1);
        }
        let ghost before = super::drafts_view(out@);
        if contains_script(undeclared.as_slice(), char_script(c)) {
            push_draft(&mut out, homoglyph_draft(offset + at, c));
        } else {
            push_draft(&mut out, None);
        }
        proof {
            assert(super::drafts_view(out@) + homoglyphs_from(word@, offset as nat, undeclared@, i + 1)
                =~= before + homoglyphs_from(word@, offset as nat, undeclared@, i as int));
        }
        at = at + char_width(c);
        i = i + 1;
    }
    proof {
        assert(super::drafts_view(out@) + homoglyphs_from(word@, offset as nat, undeclared@, i as int)
            =~= super::drafts_view(out@));
    }
    out
}

/// A word that no single script accounts for, and whose mixing the caller
/// did not declare.
pub fn mixed(offset: usize, word: &[char], found: &Vec<(u8, char, usize)>, undeclared: &Vec<u8>) -> (r:
    Vec<Draft>)
    requires
        offset + byte_len(word@) <= usize::MAX,
        faithful(tally_view(found@)),
    ensures
        super::drafts_view(r@) == mixed_view(word@, offset as nat, tally_view(found@), undeclared@),
{
    let ghost fv = tally_view(found@);
    let mut names: Vec<&str> = Vec::new();
    let mut scripts: Vec<String> = Vec::new();
    let mut k: usize = 0;
    while k < found.len()
        invariant
            fv == tally_view(found@),
            faithful(fv),
            0 <= k <= found.len(),
            names@.map_values(|n: &str| n@) == names_of(fv).take(k as int),
            scripts.deep_view() == names_of(fv).take(k as int),
        decreases found.len() - k,
    {
        let ghost before = names@;
        let ghost before_scripts = scripts.deep_view();
        let name = char_script_name(found[k].1);
        names.push(name);
        scripts.push(name.to_owned());
        proof {
            assert(fv[k as int].1 == found@[k as int].1);
            assert(script_of(fv[k as int].1) == fv[k as int].0);
            assert(names@.map_values(|n: &str| n@).drop_last() =~= before.map_values(|n: &str| n@));
            assert(names@.map_values(|n: &str| n@) =~= names_of(fv).take(k + 1));
            assert(scripts.deep_view() =~= before_scripts.push(script_name(fv[k as int].0)));
            assert(scripts.deep_view() =~= names_of(fv).take(k + 1));
        }
        k = k + 1;
    }
    proof {
        assert(names_of(fv).take(found.len() as int) =~= names_of(fv));
    }
    // Distinct, in the order they appear: the list is the reader's only
    // view of what is in the word.
    let mut foreign: Vec<char> = Vec::new();
    let mut i: usize = 0;
    proof {
        assert(word@.take(0) =~= Seq::<char>::empty());
    }
    while i < word.len()
        invariant
            0 <= i <= word.len(),
            foreign@ == foreign_chars(word@.take(i as int)),
        decreases word.len() - i,
    {
        let c = word[i];
        proof {
            let taken = word@.take(i + 1);
            assert(taken.drop_last() =~= word@.take(i as int));
            assert(taken.last() == c);
        }
        if (c as u32) >= 0x80 {
            let mut seen = false;
            let mut m: usize = 0;
            while m < foreign.len()
                invariant
                    0 <= m <= foreign.len(),
                    seen == foreign@.take(m as int).contains(c),
                decreases foreign.len() - m,
            {
                proof {
                    assert(foreign@.take(m + 1) =~= foreign@.take(m as int).push(foreign@[m as int]));
                }
                let ghost was = seen;
                if foreign[m] == c {
                    seen = true;
                }
                proof {
                    let next = foreign@.take(m + 1);
                    let prev = foreign@.take(m as int);
                    if foreign@[m as int] == c {
                        assert(next[m as int] == c);
                    } else if was {
                        let j = choose|j: int| 0 <= j < prev.len() && prev[j] == c;
                        assert(next[j] == c);
                    } else {
                        assert forall|j: int| 0 <= j < next.len() implies next[j] != c by {
                            if j < m {
                                assert(next[j] == prev[j]);
                            }
                        }
                    }
                }
                m = m + 1;
            }
            proof {
                assert(foreign@.take(foreign.len() as int) =~= foreign@);
            }
            if !seen {
                foreign.push(c);
            }
        }
        i = i + 1;
    }
    proof {
        assert(word@.take(word.len() as int) =~= word@);
    }
    let joined = join_names(names.as_slice());
    let mut detail: Vec<char> = Vec::new();
    push_str(&mut detail, "one word written in ");
    push_str(&mut detail, joined.as_str());
    push_str(
        &mut detail,
        ": no single script accounts for it, which is how a name that reads as familiar is forged",
    );
    let first = Draft {
        offset,
        kind: Kind::MixedScript,
        severity: Severity::High,
        codepoints: render_each(foreign.as_slice()),
        scripts,
        resembles: Vec::new(),
        detail: string_of(detail.as_slice()),
    };
    proof {
        assert(first@.resembles =~= Seq::<Seq<char>>::empty());
        assert(first@.detail =~= mixed_detail(names_of(fv)));
    }
    let mut drafts: Vec<Draft> = Vec::new();
    drafts.push(first);
    let mut rest = homoglyph_drafts(offset, word, undeclared);
    let ghost head = super::drafts_view(drafts@);
    let ghost tail = super::drafts_view(rest@);
    drafts.append(&mut rest);
    proof {
        assert(head =~= seq![first@]);
        assert(super::drafts_view(drafts@) =~= head + tail);
    }
    drafts
}

/// The findings one word makes.
pub fn judge(offset: usize, word: &[char], expected: &[u8]) -> (r: Vec<Draft>)
    requires
        offset + byte_len(word@) <= usize::MAX,
    ensures
        super::drafts_view(r@) == judge_view(word@, offset as nat, expected@),
{
    let found = scripts_in(word);
    let ghost fv = tally_view(found@);
    let mut undeclared: Vec<u8> = Vec::new();
    let mut k: usize = 0;
    proof {
        assert(scripts_of(fv).take(0) =~= Seq::<u8>::empty());
    }
    while k < found.len()
        invariant
            fv == tally_view(found@),
            0 <= k <= found.len(),
            undeclared@ == undeclared_in(scripts_of(fv).take(k as int), expected@),
        decreases found.len() - k,
    {
        let script = found[k].0;
        proof {
            let taken = scripts_of(fv).take(k + 1);
            assert(taken.drop_last() =~= scripts_of(fv).take(k as int));
            assert(taken.last() == script);
        }
        if script != SCRIPT_LATIN && !contains_script(expected, script) {
            undeclared.push(script);
        }
        k = k + 1;
    }
    proof {
        assert(scripts_of(fv).take(found.len() as int) =~= scripts_of(fv));
    }
    if undeclared.len() > 0 && !is_single_script(word) {
        return mixed(offset, word, &found, &undeclared);
    }
    compatibility_drafts(offset, word)
}

/// Every mixed-script and confusable finding in a document: each word
/// judged on its own.
pub fn scan(content: &str, expected: &[u8], escapes: &[Range<usize>]) -> (r: Vec<Draft>)
    requires
        escapes_ordered(escapes@),
    ensures
        super::drafts_view(r@) == script_drafts(content@, escapes@, expected@),
{
    let text = text_of(content);
    scan_text(&text, expected, escapes)
}

pub fn scan_text(text: &Text, expected: &[u8], escapes: &[Range<usize>]) -> (r: Vec<Draft>)
    requires
        text.wf(),
        escapes_ordered(escapes@),
    ensures
        super::drafts_view(r@) == script_drafts(text.chars@, escapes@, expected@),
{
    let ghost cs = text.chars@;
    let spans = word_spans(text, escapes);
    let ghost ws = words_of(cs, escapes@);
    proof {
        lemma_words_bounds(cs, escapes@, 0);
        assert forall|k: int| 0 <= k < spans.len() implies spans@[k].0 as int == (#[trigger] ws[k]).0
            && spans@[k].1 as int == ws[k].1 by {
            assert(spans@.map_values(|w: (usize, usize)| (w.0 as int, w.1 as int))[k] == ws[k]);
        }
        assert(ws.take(0) =~= Seq::<(int, int)>::empty());
    }
    let mut out: Vec<Draft> = Vec::new();
    let mut k: usize = 0;
    while k < spans.len()
        invariant
            text.wf(),
            cs == text.chars@,
            ws == words_of(cs, escapes@),
            spans.len() == ws.len(),
            forall|m: int| 0 <= m < spans.len() ==> spans@[m].0 as int == (#[trigger] ws[m]).0
                && spans@[m].1 as int == ws[m].1,
            forall|m: int| 0 <= m < ws.len() ==> 0 <= (#[trigger] ws[m]).0 < ws[m].1 <= cs.len(),
            0 <= k <= spans.len(),
            super::drafts_view(out@) == judged(cs, ws.take(k as int), expected@),
        decreases spans.len() - k,
    {
        let (a, b) = spans[k];
        proof {
            assert(ws[k as int].0 == a as int);
        }
        let mut word: Vec<char> = Vec::new();
        let mut m: usize = a;
        while m < b
            invariant
                text.wf(),
                cs == text.chars@,
                a <= m <= b <= cs.len(),
                word@ == cs.subrange(a as int, m as int),
            decreases b - m,
        {
            word.push(text.chars[m]);
            proof {
                assert(cs.subrange(a as int, m + 1) =~= cs.subrange(a as int, m as int).push(
                    cs[m as int],
                ));
            }
            m = m + 1;
        }
        proof {
            assert(text.offsets@[a as int] == offset_of(cs, a as int));
            assert(text.offsets@[b as int] == offset_of(cs, b as int));
            lemma_byte_len_concat(cs.take(a as int), word@);
            assert(cs.take(a as int) + word@ =~= cs.take(b as int));
        }
        let mut found = judge(text.offsets[a], word.as_slice(), expected);
        let ghost before = super::drafts_view(out@);
        let ghost more = super::drafts_view(found@);
        out.append(&mut found);
        proof {
            assert(super::drafts_view(out@) =~= before + more);
            let taken = ws.take(k + 1);
            assert(taken.drop_last() =~= ws.take(k as int));
            assert(taken.last() == ws[k as int]);
        }
        k = k + 1;
    }
    proof {
        assert(ws.take(spans.len() as int) =~= ws);
    }
    out
}

pub open spec fn is_separator(c: char) -> bool {
    c == '-' || c == '_'
}

/// The end of the segment that starts at `i`: the next separator, or the
/// end of the tag.
pub open spec fn segment_end(cs: Seq<char>, i: int) -> int
    decreases cs.len() - i,
{
    if i >= cs.len() || is_separator(cs[i]) {
        i
    } else {
        segment_end(cs, i + 1)
    }
}

/// One segment of a script name in canonical case: its first character
/// uppercased, the rest lowercased.
pub open spec fn canonical_segment(seg: Seq<char>) -> Seq<char> {
    if seg.len() == 0 {
        seq![]
    } else {
        uppercase(seg[0]) + lowercase(seg.drop_first())
    }
}

/// The canonical spelling of the segments from index `i` on, joined by
/// underscores.
pub open spec fn canonical_from(cs: Seq<char>, i: int) -> Seq<char>
    decreases cs.len() - i,
{
    if i < 0 || i > cs.len() {
        seq![]
    } else {
        proof {
            lemma_segment_end(cs, i);
        }
        let j = segment_end(cs, i);
        let seg = canonical_segment(cs.subrange(i, j));
        if j >= cs.len() {
            seg
        } else {
            seg + "_"@ + canonical_from(cs, j + 1)
        }
    }
}

/// A script tag in the case the crate's name tables use: segments split
/// on `-` and `_`, each capitalised, joined by `_`.
pub open spec fn canonical(tag: Seq<char>) -> Seq<char> {
    canonical_from(tag, 0)
}

/// The script a tag names, by full name or by ISO 15924 tag.
pub open spec fn named_script(tag: Seq<char>) -> Option<u8> {
    match script_by_full_name(canonical(tag)) {
        Some(script) => Some(script),
        None => script_by_short_name(canonical(tag)),
    }
}

pub proof fn lemma_segment_end(cs: Seq<char>, i: int)
    requires
        0 <= i <= cs.len(),
    ensures
        i <= segment_end(cs, i) <= cs.len(),
        forall|j: int| i <= j < segment_end(cs, i) ==> !is_separator(cs[j]),
        segment_end(cs, i) < cs.len() ==> is_separator(cs[segment_end(cs, i)]),
    decreases cs.len() - i,
{
    if i < cs.len() && !is_separator(cs[i]) {
        lemma_segment_end(cs, i + 1);
    }
}

/// A segment in canonical case.
fn canonical_segment_of(seg: &[char]) -> (r: Vec<char>)
    ensures
        r@ == canonical_segment(seg@),
{
    if seg.len() == 0 {
        return Vec::new();
    }
    let mut out = to_uppercase(seg[0]);
    let mut rest: Vec<char> = Vec::new();
    let mut i: usize = 1;
    while i < seg.len()
        invariant
            1 <= i <= seg.len(),
            rest@ == seg@.subrange(1, i as int),
        decreases seg.len() - i,
    {
        rest.push(seg[i]);
        proof {
            assert(seg@.subrange(1, i + 1) =~= seg@.subrange(1, i as int).push(seg@[i as int]));
        }
        i = i + 1;
    }
    proof {
        assert(rest@ =~= seg@.drop_first());
    }
    let lower = to_lowercase(rest.as_slice());
    push_chars(&mut out, lower.as_slice());
    out
}

/// A tag in the case the name tables use: `han` and `HAN` become `Han`,
/// `caucasian-albanian` becomes `Caucasian_Albanian`.
pub fn canonicalise(tag: &str) -> (r: String)
    ensures
        r@ == canonical(tag@),
{
    let cs = text_of(tag).chars;
    let n = cs.len();
    let mut out: Vec<char> = Vec::new();
    let mut i: usize = 0;
    proof {
        assert(out@ + canonical_from(tag@, 0) =~= canonical(tag@));
    }
    loop
        invariant
            cs@ == tag@,
            n == cs.len(),
            0 <= i <= n,
            out@ + canonical_from(tag@, i as int) == canonical(tag@),
        decreases n - i,
    {
        proof {
            lemma_segment_end(tag@, i as int);
        }
        let mut j: usize = i;
        while j < n && cs[j] != '-' && cs[j] != '_'
            invariant
                cs@ == tag@,
                n == cs.len(),
                i <= j <= n,
                segment_end(tag@, i as int) == segment_end(tag@, j as int),
            decreases n - j,
        {
            j = j + 1;
        }
        let mut seg: Vec<char> = Vec::new();
        let mut m: usize = i;
        while m < j
            invariant
                cs@ == tag@,
                i <= m <= j <= n,
                n == cs.len(),
                seg@ == tag@.subrange(i as int, m as int),
            decreases j - m,
        {
            seg.push(cs[m]);
            proof {
                assert(tag@.subrange(i as int, m + 1) =~= tag@.subrange(i as int, m as int).push(
                    tag@[m as int],
                ));
            }
            m = m + 1;
        }
        let piece = canonical_segment_of(seg.as_slice());
        let ghost before = out@;
        push_chars(&mut out, piece.as_slice());
        if j >= n {
            proof {
                assert(out@ =~= before + canonical_from(tag@, i as int));
            }
            return string_of(out.as_slice());
        }
        out.push('_');
        proof {
            reveal_strlit("_");
            assert(j as int == segment_end(tag@, i as int));
            assert(canonical_from(tag@, i as int) == canonical_segment(tag@.subrange(i as int, j as int))
                + "_"@ + canonical_from(tag@, j + 1));
            assert(out@ + canonical_from(tag@, j + 1) =~= before + canonical_from(tag@, i as int));
        }
        i = j + 1;
    }
}

pub open spec fn unknown_script_message(tag: Seq<char>) -> Seq<char> {
    tag + " is not a Unicode script; try a name like Han, Cyrillic or Devanagari"@
}

pub open spec fn placeholder_message(tag: Seq<char>) -> Seq<char> {
    tag
        + " is a Unicode script property value, not a writing system; name the script the text is actually written in"@
}

/// A script named by the caller: full UAX #24 name or ISO 15924 tag, in any
/// case. `Common`, `Inherited` and `Unknown` are refused: they would parse
/// and then do nothing, and the caller would believe they declared
/// something.
pub fn parse_script(tag: &str) -> (r: Result<u8, String>)
    ensures
        match r {
            Ok(script) => named_script(tag@) == Some(script) && !is_placeholder(script),
            Err(message) => match named_script(tag@) {
                None => message@ == unknown_script_message(tag@),
                Some(script) => is_placeholder(script) && message@ == placeholder_message(tag@),
            },
        },
{
    let canonical = canonicalise(tag);
    let script = match script_from_full_name(canonical.as_str()) {
        Some(script) => script,
        None => match script_from_short_name(canonical.as_str()) {
            Some(script) => script,
            None => {
                let mut message = text_of(tag).chars;
                push_str(
                    &mut message,
                    " is not a Unicode script; try a name like Han, Cyrillic or Devanagari",
                );
                return Err(string_of(message.as_slice()));
            },
        },
    };
    if script == SCRIPT_COMMON || script == SCRIPT_INHERITED || script == SCRIPT_UNKNOWN {
        let mut message = text_of(tag).chars;
        push_str(
            &mut message,
            " is a Unicode script property value, not a writing system; name the script the text is actually written in",
        );
        return Err(string_of(message.as_slice()));
    }
    Ok(script)
}

} // verus!
