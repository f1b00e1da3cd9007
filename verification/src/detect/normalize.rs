//! Which normalization form the document is in: reported, never fixed.
//!
//! Two strings that are canonically equivalent can have different bytes,
//! and almost every consumer compares bytes: a hash, a unique index, a map
//! key, a git path. A document that carries both forms is a lookup that
//! silently misses.
//!
//! One finding per line, at the first character where the line and its
//! NFC form part company. Per line rather than per file because "somewhere
//! in this file" is not a position; per line rather than per character
//! because a decomposed document would otherwise report every letter.

use super::codepoint::{render_each, rendered_each};
use super::{Draft, DraftView, Kind, Severity};
use crate::text::{
    byte_len, char_width, lemma_byte_len_concat, lemma_byte_len_monotone, lemma_byte_len_take,
    offset_of, push_str, string_of, text_of, utf8_width, Text,
};
use crate::unicode::{canonical_combining_class, combining_class, decomposed, is_nfc, is_nfd, nfc, nfc_of};
use vstd::prelude::*;

verus! {

/// The index just past the line that starts at `i`: past its line feed,
/// or the end of the document.
pub open spec fn line_end(cs: Seq<char>, i: int) -> int
    decreases cs.len() - i,
{
    if i >= cs.len() {
        cs.len() as int
    } else if cs[i] == '\n' {
        i + 1
    } else {
        line_end(cs, i + 1)
    }
}

pub proof fn lemma_line_end(cs: Seq<char>, i: int)
    requires
        0 <= i < cs.len(),
    ensures
        i < line_end(cs, i) <= cs.len(),
        forall|j: int| i <= j < line_end(cs, i) - 1 ==> cs[j] != '\n',
    decreases cs.len() - i,
{
    if cs[i] != '\n' {
        if i + 1 < cs.len() {
            lemma_line_end(cs, i + 1);
        } else {
            assert(line_end(cs, i + 1) == cs.len());
        }
    }
}

proof fn lemma_divergence_bounds(line: Seq<char>, norm: Seq<char>, i: int)
    requires
        0 <= i <= line.len(),
    ensures
        i <= divergence(line, norm, i) <= line.len(),
    decreases line.len() - i,
{
    if i < line.len() && !(i >= norm.len() || norm[i] != line[i]) {
        lemma_divergence_bounds(line, norm, i + 1);
    }
}

/// The first index at which `line` and `norm` disagree, from `i` on; the
/// line's length if they agree on all of it.
pub open spec fn divergence(line: Seq<char>, norm: Seq<char>, i: int) -> int
    decreases line.len() - i,
{
    if i >= line.len() {
        line.len() as int
    } else if i >= norm.len() || norm[i] != line[i] {
        i
    } else {
        divergence(line, norm, i + 1)
    }
}

/// The end of the run of combining marks that starts at `j`.
pub open spec fn combining_end(line: Seq<char>, j: int) -> int
    decreases line.len() - j,
{
    if j >= line.len() || combining_class(line[j]) == 0 {
        j
    } else {
        combining_end(line, j + 1)
    }
}

/// What `first_divergence` finds in a line: the byte offset of the first
/// character that differs from the line's NFC form, and the characters
/// from there to the end of their combining sequence. `(0, [])` when the
/// line agrees with its NFC form as far as the line goes.
pub open spec fn divergence_of(line: Seq<char>) -> (nat, Seq<char>) {
    let k = divergence(line, nfc(line), 0);
    if k >= line.len() {
        (0, seq![])
    } else {
        (offset_of(line, k), line.subrange(k, combining_end(line, k + 1)))
    }
}

pub open spec fn form_detail(is_decomposed: bool) -> Seq<char> {
    "this line is in "@ + (if is_decomposed {
        "NFD"@
    } else {
        "neither NFC nor NFD"@
    }) + ", not NFC: it compares unequal, hashes differently and indexes differently from the same text written in NFC"@
}

/// The finding one line makes, given the byte offset it starts at.
pub open spec fn line_draft(line: Seq<char>, start: nat) -> Option<DraftView> {
    if nfc(line) == line {
        None
    } else {
        let (offset, characters) = divergence_of(line);
        Some(
            DraftView {
                offset: start + offset,
                kind: Kind::NonNfc,
                severity: Severity::Low,
                codepoints: rendered_each(characters),
                scripts: seq![],
                resembles: seq![],
                detail: form_detail(decomposed(line)),
            },
        )
    }
}

/// The findings of the lines from index `i` on, in document order.
pub open spec fn nfc_drafts_from(cs: Seq<char>, i: int) -> Seq<DraftView>
    decreases cs.len() - i,
{
    if i < 0 || i >= cs.len() {
        seq![]
    } else {
        proof {
            lemma_line_end(cs, i);
        }
        let j = line_end(cs, i);
        let here = match line_draft(cs.subrange(i, j), offset_of(cs, i)) {
            Some(d) => seq![d],
            None => seq![],
        };
        here + nfc_drafts_from(cs, j)
    }
}

/// Every normalization finding in a document: one per line that is not
/// in NFC, lines split after each line feed.
pub open spec fn nfc_drafts(cs: Seq<char>) -> Seq<DraftView> {
    nfc_drafts_from(cs, 0)
}

/// Whether a character carries a nonzero canonical combining class.
pub fn is_combining(c: char) -> (r: bool)
    ensures
        r == (combining_class(c) != 0),
{
    canonical_combining_class(c) != 0
}

/// The byte offset of the first character that differs from the line's
/// NFC form, and the characters at that point.
///
/// The offset is into the original, which is the only offset a reader can
/// act on. The characters are the original's, from the divergence to the
/// end of the combining sequence: for `e` + U+0301 that is both of them.
pub fn first_divergence(line: &[char]) -> (r: (usize, Vec<char>))
    requires
        byte_len(line@) <= usize::MAX,
    ensures
        (r.0 as nat, r.1@) == divergence_of(line@),
{
    let normalized = nfc_of(line);
    let ghost norm = nfc(line@);
    let mut i: usize = 0;
    let mut offset: usize = 0;
    proof {
        assert(line@.take(0) =~= Seq::<char>::empty());
    }
    while i < line.len()
        invariant
            normalized@ == norm,
            norm == nfc(line@),
            0 <= i <= line.len(),
            offset == offset_of(line@, i as int),
            byte_len(line@) <= usize::MAX,
            divergence(line@, norm, 0) == divergence(line@, norm, i as int),
        decreases line.len() - i,
    {
        if i >= normalized.len() || normalized[i] != line[i] {
            // The run of combining marks that follows.
            let mut j: usize = i + 1;
            while j < line.len() && is_combining(line[j])
                invariant
                    i < j <= line.len(),
                    combining_end(line@, i + 1) == combining_end(line@, j as int),
                decreases line.len() - j,
            {
                j = j + 1;
            }
            let mut sequence: Vec<char> = Vec::new();
            let mut m: usize = i;
            while m < j
                invariant
                    i <= m <= j <= line.len(),
                    sequence@ == line@.subrange(i as int, m as int),
                decreases j - m,
            {
                sequence.push(line[m]);
                proof {
                    assert(line@.subrange(i as int, m + 1) =~= line@.subrange(
                        i as int,
                        m as int,
                    ).push(line@[m as int]));
                }
                m = m + 1;
            }
            return (offset, sequence);
        }
        proof {
            lemma_byte_len_take(line@, i as int);
            lemma_byte_len_monotone(line@, i + 1, line@.len() as int);
            assert(line@.take(line@.len() as int) =~= line@);
        }
        offset = offset + char_width(line[i]);
        i = i + 1;
    }
    (0, Vec::new())
}

/// The finding one line makes, if it is not in NFC.
pub fn draft(line: &[char], line_start: usize) -> (r: Option<Draft>)
    requires
        line_start + byte_len(line@) <= usize::MAX,
    ensures
        match r {
            Some(d) => line_draft(line@, line_start as nat) == Some(d@),
            None => line_draft(line@, line_start as nat) is None,
        },
{
    if is_nfc(line) {
        return None;
    }
    let (offset, characters) = first_divergence(line);
    proof {
        let k = divergence(line@, nfc(line@), 0);
        lemma_divergence_bounds(line@, nfc(line@), 0);
        if k < line@.len() {
            lemma_byte_len_monotone(line@, k, line@.len() as int);
            assert(line@.take(line@.len() as int) =~= line@);
        }
    }
    let mut detail: Vec<char> = Vec::new();
    push_str(&mut detail, "this line is in ");
    if is_nfd(line) {
        push_str(&mut detail, "NFD");
    } else {
        push_str(&mut detail, "neither NFC nor NFD");
    }
    push_str(
        &mut detail,
        ", not NFC: it compares unequal, hashes differently and indexes differently from the same text written in NFC",
    );
    let d = Draft {
        offset: line_start + offset,
        kind: Kind::NonNfc,
        severity: Severity::Low,
        codepoints: render_each(characters.as_slice()),
        scripts: Vec::new(),
        resembles: Vec::new(),
        detail: string_of(detail.as_slice()),
    };
    proof {
        assert(d@.scripts =~= Seq::<Seq<char>>::empty());
        assert(d@.resembles =~= Seq::<Seq<char>>::empty());
        assert(d@.detail =~= form_detail(decomposed(line@)));
    }
    Some(d)
}

/// One finding per line of the document that is not in NFC.
pub fn scan(content: &str) -> (r: Vec<Draft>)
    ensures
        super::drafts_view(r@) == nfc_drafts(content@),
{
    let text = text_of(content);
    scan_text(&text)
}

pub fn scan_text(text: &Text) -> (r: Vec<Draft>)
    requires
        text.wf(),
    ensures
        super::drafts_view(r@) == nfc_drafts(text.chars@),
{
    let ghost cs = text.chars@;
    let n = text.chars.len();
    let mut out: Vec<Draft> = Vec::new();
    let mut i: usize = 0;
    proof {
        assert(super::drafts_view(out@) + nfc_drafts_from(cs, 0) =~= nfc_drafts(cs));
    }
    while i < n
        invariant
            text.wf(),
            cs == text.chars@,
            n == cs.len(),
            0 <= i <= n,
            super::drafts_view(out@) + nfc_drafts_from(cs, i as int) == nfc_drafts(cs),
        decreases n - i,
    {
        proof {
            lemma_line_end(cs, i as int);
        }
        let mut j: usize = i;
        while j < n && text.chars[j] != '\n'
            invariant
                text.wf(),
                cs == text.chars@,
                n == cs.len(),
                i <= j <= n,
                line_end(cs, i as int) == line_end(cs, j as int),
            decreases n - j,
        {
            j = j + 1;
        }
        if j < n {
            j = j + 1;
        }
        let ghost line_seq = cs.subrange(i as int, j as int);
        let mut line: Vec<char> = Vec::new();
        let mut m: usize = i;
        while m < j
            invariant
                text.wf(),
                cs == text.chars@,
                i <= m <= j <= n,
                n == cs.len(),
                line@ == cs.subrange(i as int, m as int),
            decreases j - m,
        {
            line.push(text.chars[m]);
            proof {
                assert(cs.subrange(i as int, m + 1) =~= cs.subrange(i as int, m as int).push(
                    cs[m as int],
                ));
            }
            m = m + 1;
        }
        proof {
            assert(text.offsets@[i as int] == offset_of(cs, i as int));
            assert(text.offsets@[j as int] == offset_of(cs, j as int));
            lemma_byte_len_concat(cs.take(i as int), line_seq);
            assert(cs.take(i as int) + line_seq =~= cs.take(j as int));
        }
        let found = draft(line.as_slice(), text.offsets[i]);
        let ghost before = out@;
        proof {
            assert(j as int == line_end(cs, i as int));
        }
        match found {
            Some(d) => {
                let ghost view = d@;
                out.push(d);
                proof {
                    assert(super::drafts_view(out@) =~= super::drafts_view(before).push(view));
                    assert(super::drafts_view(out@) + nfc_drafts_from(cs, j as int)
                        =~= super::drafts_view(before) + nfc_drafts_from(cs, i as int));
                }
            },
            None => {
                proof {
                    assert(nfc_drafts_from(cs, i as int) =~= nfc_drafts_from(cs, j as int));
                }
            },
        }
        i = j;
    }
    proof {
        assert(super::drafts_view(out@) + nfc_drafts_from(cs, n as int) =~= super::drafts_view(
            out@,
        ));
    }
    out
}

} // verus!
