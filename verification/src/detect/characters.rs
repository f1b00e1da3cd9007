//! The four findings that a single character decides on its own.
//!
//! Bidirectional controls, invisibles, spaces that are not the space, and
//! codepoints with no assigned meaning. None of these needs a word, a
//! script or a neighbour to judge, so none of them is gated by the script
//! context: a right-to-left override is the same override in a Chinese
//! file as in an English one.
//!
//! The tables are written out by hand rather than derived from a
//! property, and that is deliberate: each character here is *known* to do
//! something a reader cannot see.

use super::codepoint::{render, rendered};
use super::{Draft, DraftView, Kind, Severity};
use crate::text::{byte_len, is_ascii_char, push_decimal, push_str, string_of, text_of, Text};
use crate::unicode::{
    char_script, char_script_name, script_name, script_of, unicode_version, SCRIPT_UNKNOWN,
};
use vstd::prelude::*;
use vstd::utf8::is_ascii_chars;

verus! {

/// The Trojan Source class, CVE-2021-42574: these reorder how the rest of
/// the line renders.
pub open spec fn bidi_name(c: char) -> Option<Seq<char>> {
    let v = c as u32;
    if v == 0x061C {
        Some("arabic letter mark"@)
    } else if v == 0x202A {
        Some("left-to-right embedding"@)
    } else if v == 0x202B {
        Some("right-to-left embedding"@)
    } else if v == 0x202C {
        Some("pop directional formatting"@)
    } else if v == 0x202D {
        Some("left-to-right override"@)
    } else if v == 0x202E {
        Some("right-to-left override"@)
    } else if v == 0x2066 {
        Some("left-to-right isolate"@)
    } else if v == 0x2067 {
        Some("right-to-left isolate"@)
    } else if v == 0x2068 {
        Some("first strong isolate"@)
    } else if v == 0x2069 {
        Some("pop directional isolate"@)
    } else {
        None
    }
}

/// Characters that occupy a position and render as nothing.
pub open spec fn invisible_name(c: char) -> Option<Seq<char>> {
    let v = c as u32;
    if v == 0x00AD {
        Some("soft hyphen"@)
    } else if v == 0x180E {
        Some("mongolian vowel separator"@)
    } else if v == 0x200B {
        Some("zero width space"@)
    } else if v == 0x200C {
        Some("zero width non-joiner"@)
    } else if v == 0x200D {
        Some("zero width joiner"@)
    } else if v == 0x2060 {
        Some("word joiner"@)
    } else if v == 0xFEFF {
        Some("zero width no-break space"@)
    } else {
        None
    }
}

/// Spaces that are not U+0020: every one of them survives a trim, fails an
/// equality test and splits nothing.
pub open spec fn space_name(c: char) -> Option<Seq<char>> {
    let v = c as u32;
    if v == 0x00A0 {
        Some("no-break space"@)
    } else if v == 0x1680 {
        Some("ogham space mark"@)
    } else if v == 0x2000 {
        Some("en quad"@)
    } else if v == 0x2001 {
        Some("em quad"@)
    } else if v == 0x2002 {
        Some("en space"@)
    } else if v == 0x2003 {
        Some("em space"@)
    } else if v == 0x2004 {
        Some("three-per-em space"@)
    } else if v == 0x2005 {
        Some("four-per-em space"@)
    } else if v == 0x2006 {
        Some("six-per-em space"@)
    } else if v == 0x2007 {
        Some("figure space"@)
    } else if v == 0x2008 {
        Some("punctuation space"@)
    } else if v == 0x2009 {
        Some("thin space"@)
    } else if v == 0x200A {
        Some("hair space"@)
    } else if v == 0x202F {
        Some("narrow no-break space"@)
    } else if v == 0x205F {
        Some("medium mathematical space"@)
    } else if v == 0x3000 {
        Some("ideographic space"@)
    } else {
        None
    }
}

/// The three private-use areas. Fixed by the standard and never extended.
pub open spec fn is_private_use(c: char) -> bool {
    let v = c as u32;
    ||| 0xE000 <= v <= 0xF8FF
    ||| 0xF0000 <= v <= 0xFFFFD
    ||| 0x100000 <= v <= 0x10FFFD
}

pub open spec fn bidi_detail(name: Seq<char>) -> Seq<char> {
    name
        + ": a bidirectional control reorders how the rest of the line renders, so the text a reader sees is not the text that runs"@
}

pub open spec fn invisible_detail(name: Seq<char>) -> Seq<char> {
    name + ": takes up no width, so two strings that are not equal look identical"@
}

pub open spec fn space_detail(name: Seq<char>) -> Seq<char> {
    name
        + ": renders like a space and is not one, so a trim, a split or a comparison against U+0020 does not see it"@
}

pub open spec fn private_use_detail() -> Seq<char> {
    "a private-use codepoint: its meaning is whatever the system that produced it decided, and no other system agrees"@
}

/// The Unicode version the script table is for is 18.0.0.
pub open spec fn unassigned_detail() -> Seq<char> {
    "not assigned in Unicode 18.0.0: no renderer, no collation and no agreed meaning"@
}

/// What a single character is, if it is one of the four kinds decided
/// here.
pub open spec fn classified(c: char) -> Option<(Kind, Severity, Seq<char>)> {
    if is_ascii_char(c) {
        None
    } else if bidi_name(c) is Some {
        Some((Kind::BidiControl, Severity::High, bidi_detail(bidi_name(c)->0)))
    } else if invisible_name(c) is Some {
        Some((Kind::Invisible, Severity::Medium, invisible_detail(invisible_name(c)->0)))
    } else if space_name(c) is Some {
        Some((Kind::UnusualWhitespace, Severity::Low, space_detail(space_name(c)->0)))
    } else if script_of(c) == SCRIPT_UNKNOWN {
        Some(
            (
                Kind::UnassignedOrPrivateUse,
                Severity::Medium,
                if is_private_use(c) {
                    private_use_detail()
                } else {
                    unassigned_detail()
                },
            ),
        )
    } else {
        None
    }
}

/// The draft one character makes at one offset. A byte-order mark at the
/// very front is the file announcing its encoding and is not a finding;
/// the same character anywhere else is.
pub open spec fn char_draft(offset: nat, c: char) -> Option<DraftView> {
    if offset == 0 && (c as u32) == 0xFEFF {
        None
    } else {
        match classified(c) {
            Some((kind, severity, detail)) => Some(
                DraftView {
                    offset,
                    kind,
                    severity,
                    codepoints: seq![rendered(c)],
                    scripts: seq![script_name(script_of(c))],
                    resembles: seq![],
                    detail,
                },
            ),
            None => None,
        }
    }
}

/// Every draft the characters of a document make, in document order.
pub open spec fn char_drafts(cs: Seq<char>) -> Seq<DraftView>
    decreases cs.len(),
{
    if cs.len() == 0 {
        seq![]
    } else {
        let before = char_drafts(cs.drop_last());
        match char_draft(byte_len(cs.drop_last()), cs.last()) {
            Some(draft) => before.push(draft),
            None => before,
        }
    }
}

fn named_bidi(c: char) -> (r: Option<&'static str>)
    ensures
        match r {
            Some(name) => bidi_name(c) == Some(name@),
            None => bidi_name(c) is None,
        },
{
    let v = c as u32;
    if v == 0x061C {
        Some("arabic letter mark")
    } else if v == 0x202A {
        Some("left-to-right embedding")
    } else if v == 0x202B {
        Some("right-to-left embedding")
    } else if v == 0x202C {
        Some("pop directional formatting")
    } else if v == 0x202D {
        Some("left-to-right override")
    } else if v == 0x202E {
        Some("right-to-left override")
    } else if v == 0x2066 {
        Some("left-to-right isolate")
    } else if v == 0x2067 {
        Some("right-to-left isolate")
    } else if v == 0x2068 {
        Some("first strong isolate")
    } else if v == 0x2069 {
        Some("pop directional isolate")
    } else {
        None
    }
}

fn named_invisible(c: char) -> (r: Option<&'static str>)
    ensures
        match r {
            Some(name) => invisible_name(c) == Some(name@),
            None => invisible_name(c) is None,
        },
{
    let v = c as u32;
    if v == 0x00AD {
        Some("soft hyphen")
    } else if v == 0x180E {
        Some("mongolian vowel separator")
    } else if v == 0x200B {
        Some("zero width space")
    } else if v == 0x200C {
        Some("zero width non-joiner")
    } else if v == 0x200D {
        Some("zero width joiner")
    } else if v == 0x2060 {
        Some("word joiner")
    } else if v == 0xFEFF {
        Some("zero width no-break space")
    } else {
        None
    }
}

fn named_space(c: char) -> (r: Option<&'static str>)
    ensures
        match r {
            Some(name) => space_name(c) == Some(name@),
            None => space_name(c) is None,
        },
{
    let v = c as u32;
    if v == 0x00A0 {
        Some("no-break space")
    } else if v == 0x1680 {
        Some("ogham space mark")
    } else if v == 0x2000 {
        Some("en quad")
    } else if v == 0x2001 {
        Some("em quad")
    } else if v == 0x2002 {
        Some("en space")
    } else if v == 0x2003 {
        Some("em space")
    } else if v == 0x2004 {
        Some("three-per-em space")
    } else if v == 0x2005 {
        Some("four-per-em space")
    } else if v == 0x2006 {
        Some("six-per-em space")
    } else if v == 0x2007 {
        Some("figure space")
    } else if v == 0x2008 {
        Some("punctuation space")
    } else if v == 0x2009 {
        Some("thin space")
    } else if v == 0x200A {
        Some("hair space")
    } else if v == 0x202F {
        Some("narrow no-break space")
    } else if v == 0x205F {
        Some("medium mathematical space")
    } else if v == 0x3000 {
        Some("ideographic space")
    } else {
        None
    }
}

/// Whether a character sits in one of the three private-use areas.
pub fn in_private_use(c: char) -> (r: bool)
    ensures
        r == is_private_use(c),
{
    let v = c as u32;
    (0xE000 <= v && v <= 0xF8FF) || (0xF0000 <= v && v <= 0xFFFFD) || (0x100000 <= v && v
        <= 0x10FFFD)
}

fn detail_after(name: &str, tail: &str) -> (r: String)
    ensures
        r@ == name@ + tail@,
{
    let mut out = text_of(name).chars;
    push_str(&mut out, tail);
    string_of(out.as_slice())
}

/// Unassigned, private-use, noncharacter and surrogate all resolve to the
/// `Unknown` script in UAX #24, which is exactly this finding: it is asked
/// of the script table rather than of a range list.
fn unassigned_or_private_use(c: char) -> (r: Option<(Kind, Severity, String)>)
    requires
        !is_ascii_char(c),
        bidi_name(c) is None,
        invisible_name(c) is None,
        space_name(c) is None,
    ensures
        match r {
            Some((kind, severity, detail)) => classified(c) == Some((kind, severity, detail@)),
            None => classified(c) is None,
        },
{
    if char_script(c) != SCRIPT_UNKNOWN {
        return None;
    }
    let detail = if in_private_use(c) {
        "a private-use codepoint: its meaning is whatever the system that produced it decided, and no other system agrees".to_owned()
    } else {
        let (major, minor, patch) = unicode_version();
        let mut out: Vec<char> = Vec::new();
        push_str(&mut out, "not assigned in Unicode ");
        push_decimal(&mut out, major);
        out.push('.');
        push_decimal(&mut out, minor);
        out.push('.');
        push_decimal(&mut out, patch);
        push_str(&mut out, ": no renderer, no collation and no agreed meaning");
        proof {
            reveal_strlit("not assigned in Unicode ");
            reveal_strlit(": no renderer, no collation and no agreed meaning");
            reveal_strlit(
                "not assigned in Unicode 18.0.0: no renderer, no collation and no agreed meaning",
            );
            broadcast use vstd::utf8::char_u32_cast;

            assert(('1' as u32) == 0x31);
            assert(('8' as u32) == 0x38);
            assert(('0' as u32) == 0x30);
            assert(crate::text::decimal(1) =~= seq!['1']);
            assert(crate::text::decimal(18) =~= seq!['1', '8']);
            assert(crate::text::decimal(0) =~= seq!['0']);
            assert(out@ =~= unassigned_detail());
        }
        string_of(out.as_slice())
    };
    Some((Kind::UnassignedOrPrivateUse, Severity::Medium, detail))
}

/// What a single character is, if it is one of the four kinds decided
/// here, and the prose that says why.
pub fn classify(c: char) -> (r: Option<(Kind, Severity, String)>)
    ensures
        match r {
            Some((kind, severity, detail)) => classified(c) == Some((kind, severity, detail@)),
            None => classified(c) is None,
        },
{
    // ASCII carries none of these and is most of every file.
    if (c as u32) < 0x80 {
        return None;
    }
    if let Some(name) = named_bidi(c) {
        return Some(
            (
                Kind::BidiControl,
                Severity::High,
                detail_after(
                    name,
                    ": a bidirectional control reorders how the rest of the line renders, so the text a reader sees is not the text that runs",
                ),
            ),
        );
    }
    if let Some(name) = named_invisible(c) {
        return Some(
            (
                Kind::Invisible,
                Severity::Medium,
                detail_after(
                    name,
                    ": takes up no width, so two strings that are not equal look identical",
                ),
            ),
        );
    }
    if let Some(name) = named_space(c) {
        return Some(
            (
                Kind::UnusualWhitespace,
                Severity::Low,
                detail_after(
                    name,
                    ": renders like a space and is not one, so a trim, a split or a comparison against U+0020 does not see it",
                ),
            ),
        );
    }
    unassigned_or_private_use(c)
}

/// The draft one character makes at one byte offset, if any.
pub fn draft(offset: usize, c: char) -> (r: Option<Draft>)
    ensures
        match r {
            Some(d) => char_draft(offset as nat, c) == Some(d@),
            None => char_draft(offset as nat, c) is None,
        },
{
    if offset == 0 && (c as u32) == 0xFEFF {
        return None;
    }
    let (kind, severity, detail) = match classify(c) {
        Some(found) => found,
        None => return None,
    };
    let mut codepoints: Vec<String> = Vec::new();
    codepoints.push(render(c));
    let mut scripts: Vec<String> = Vec::new();
    scripts.push(char_script_name(c).to_owned());
    let d = Draft {
        offset,
        kind,
        severity,
        codepoints,
        scripts,
        resembles: Vec::new(),
        detail,
    };
    proof {
        assert(d@.codepoints =~= seq![rendered(c)]);
        assert(d@.scripts =~= seq![script_name(script_of(c))]);
        assert(d@.resembles =~= Seq::<Seq<char>>::empty());
    }
    Some(d)
}

/// Every character-level draft in a document, in document order.
pub fn scan(content: &str) -> (r: Vec<Draft>)
    ensures
        super::drafts_view(r@) == char_drafts(content@),
{
    let text = text_of(content);
    scan_text(&text)
}

pub fn scan_text(text: &Text) -> (r: Vec<Draft>)
    requires
        text.wf(),
    ensures
        super::drafts_view(r@) == char_drafts(text.chars@),
{
    let mut out: Vec<Draft> = Vec::new();
    let mut i: usize = 0;
    proof {
        assert(text.chars@.take(0) =~= Seq::<char>::empty());
    }
    while i < text.chars.len()
        invariant
            text.wf(),
            0 <= i <= text.chars.len(),
            super::drafts_view(out@) == char_drafts(text.chars@.take(i as int)),
        decreases text.chars.len() - i,
    {
        let c = text.chars[i];
        let offset = text.offsets[i];
        let found = draft(offset, c);
        proof {
            let taken = text.chars@.take(i + 1);
            assert(taken.drop_last() =~= text.chars@.take(i as int));
            assert(taken.last() == c);
        }
        match found {
            Some(d) => {
                let ghost before = out@;
                let ghost view = d@;
                out.push(d);
                proof {
                    assert(super::drafts_view(out@) =~= super::drafts_view(before).push(view));
                }
            },
            None => {},
        }
        i = i + 1;
    }
    proof {
        assert(text.chars@.take(text.chars.len() as int) =~= text.chars@);
    }
    out
}

/// The bidirectional controls, each with its name.
pub fn bidi_controls() -> (r: Vec<(char, &'static str)>)
    ensures
        r@.map_values(|e: (char, &'static str)| e.0) == seq![
            '\u{061C}', '\u{202A}', '\u{202B}', '\u{202C}', '\u{202D}',
            '\u{202E}', '\u{2066}', '\u{2067}', '\u{2068}', '\u{2069}',
        ],
        r.len() == 10,
        forall|i: int| 0 <= i < r.len() ==> bidi_name(#[trigger] r@[i].0) == Some(r@[i].1@),
{
    let table: Vec<char> = vec![
        '\u{061C}',
        '\u{202A}',
        '\u{202B}',
        '\u{202C}',
        '\u{202D}',
        '\u{202E}',
        '\u{2066}',
        '\u{2067}',
        '\u{2068}',
        '\u{2069}',
    ];
    let r = named_table(&table, 0);
    proof {
        assert(table@ =~= r@.map_values(|e: (char, &'static str)| e.0));
    }
    r
}

/// The invisibles, each with its name.
pub fn invisibles() -> (r: Vec<(char, &'static str)>)
    ensures
        r@.map_values(|e: (char, &'static str)| e.0) == seq![
            '\u{00AD}', '\u{180E}', '\u{200B}', '\u{200C}', '\u{200D}',
            '\u{2060}', '\u{FEFF}',
        ],
        r.len() == 7,
        forall|i: int| 0 <= i < r.len() ==> invisible_name(#[trigger] r@[i].0) == Some(r@[i].1@),
{
    let table: Vec<char> = vec![
        '\u{00AD}',
        '\u{180E}',
        '\u{200B}',
        '\u{200C}',
        '\u{200D}',
        '\u{2060}',
        '\u{FEFF}',
    ];
    let r = named_table(&table, 1);
    proof {
        assert(table@ =~= r@.map_values(|e: (char, &'static str)| e.0));
    }
    r
}

/// The spaces that are not the space, each with its name.
pub fn unusual_spaces() -> (r: Vec<(char, &'static str)>)
    ensures
        r@.map_values(|e: (char, &'static str)| e.0) == seq![
            '\u{00A0}', '\u{1680}', '\u{2000}', '\u{2001}', '\u{2002}',
            '\u{2003}', '\u{2004}', '\u{2005}', '\u{2006}', '\u{2007}',
            '\u{2008}', '\u{2009}', '\u{200A}', '\u{202F}', '\u{205F}',
            '\u{3000}',
        ],
        r.len() == 16,
        forall|i: int| 0 <= i < r.len() ==> space_name(#[trigger] r@[i].0) == Some(r@[i].1@),
{
    let table: Vec<char> = vec![
        '\u{00A0}',
        '\u{1680}',
        '\u{2000}',
        '\u{2001}',
        '\u{2002}',
        '\u{2003}',
        '\u{2004}',
        '\u{2005}',
        '\u{2006}',
        '\u{2007}',
        '\u{2008}',
        '\u{2009}',
        '\u{200A}',
        '\u{202F}',
        '\u{205F}',
        '\u{3000}',
    ];
    let r = named_table(&table, 2);
    proof {
        assert(table@ =~= r@.map_values(|e: (char, &'static str)| e.0));
    }
    r
}

pub open spec fn table_name(which: u8, c: char) -> Option<Seq<char>> {
    if which == 0 {
        bidi_name(c)
    } else if which == 1 {
        invisible_name(c)
    } else {
        space_name(c)
    }
}

fn named_table(table: &Vec<char>, which: u8) -> (r: Vec<(char, &'static str)>)
    requires
        forall|i: int| 0 <= i < table.len() ==> table_name(which, #[trigger] table@[i]) is Some,
    ensures
        r.len() == table.len(),
        forall|i: int| 0 <= i < r.len() ==> table_name(which, #[trigger] r@[i].0) == Some(r@[i].1@),
        r@.map_values(|e: (char, &'static str)| e.0) == table@,
{
    let mut out: Vec<(char, &'static str)> = Vec::new();
    let mut i: usize = 0;
    while i < table.len()
        invariant
            0 <= i <= table.len(),
            out.len() == i,
            forall|j: int| 0 <= j < table.len() ==> table_name(which, #[trigger] table@[j]) is Some,
            forall|j: int| 0 <= j < i ==> table_name(which, #[trigger] out@[j].0) == Some(out@[j].1@),
            forall|j: int| 0 <= j < i ==> (#[trigger] out@[j]).0 == table@[j],
        decreases table.len() - i,
    {
        let c = table[i];
        assert(table_name(which, table@[i as int]) is Some);
        let name = if which == 0 {
            named_bidi(c)
        } else if which == 1 {
            named_invisible(c)
        } else {
            named_space(c)
        };
        match name {
            Some(n) => out.push((c, n)),
            None => {
                assert(false);
                return out;
            },
        }
        i = i + 1;
    }
    proof {
        assert(out@.map_values(|e: (char, &'static str)| e.0) =~= table@);
    }
    out
}

/// The name a table gives a character: the first entry that lists it.
pub open spec fn lookup(table: Seq<(char, &'static str)>, c: char, i: int) -> Option<Seq<char>>
    decreases table.len() - i,
{
    if i < 0 || i >= table.len() {
        None
    } else if table[i].0 == c {
        Some(table[i].1@)
    } else {
        lookup(table, c, i + 1)
    }
}

/// The name a table gives a character, if it lists it.
pub fn named(table: &[(char, &'static str)], c: char) -> (r: Option<&'static str>)
    ensures
        match r {
            Some(name) => lookup(table@, c, 0) == Some(name@),
            None => lookup(table@, c, 0) is None,
        },
{
    let mut i: usize = 0;
    while i < table.len()
        invariant
            0 <= i <= table.len(),
            lookup(table@, c, 0) == lookup(table@, c, i as int),
        decreases table.len() - i,
    {
        if table[i].0 == c {
            return Some(table[i].1);
        }
        i = i + 1;
    }
    None
}

} // verus!
