//! How an offending character reaches the report: as `U+XXXX`, and never
//! as itself.
//!
//! A report that pasted a raw U+202E would carry the attack out of the
//! file and into the terminal, the diff and the ticket of whoever read
//! it. So the codepoints of a finding are spelled here, in ASCII, and
//! `lemma_rendered_is_ascii` is the reason a finding can be printed.

use crate::text::{push_chars, string_of};
use vstd::prelude::*;
use vstd::utf8::is_ascii_chars;

verus! {

pub open spec fn hex_digit(d: nat) -> char {
    if d < 10 {
        ((d + 0x30) as u32) as char
    } else {
        ((d + 0x37) as u32) as char
    }
}

/// Upper-case hexadecimal, most significant digit first, no padding.
pub open spec fn hex(n: nat) -> Seq<char>
    decreases n,
{
    if n < 16 {
        seq![hex_digit(n)]
    } else {
        hex(n / 16).push(hex_digit(n % 16))
    }
}

/// Left-padded with `0` to at least four digits.
pub open spec fn hex4(n: nat) -> Seq<char> {
    let digits = hex(n);
    if digits.len() < 4 {
        Seq::new((4 - digits.len()) as nat, |i: int| '0') + digits
    } else {
        digits
    }
}

/// `U+XXXX`: upper-case hex, at least four digits.
pub open spec fn rendered(c: char) -> Seq<char> {
    seq!['U', '+'] + hex4(c as nat)
}

pub open spec fn rendered_each(cs: Seq<char>) -> Seq<Seq<char>> {
    cs.map_values(|c: char| rendered(c))
}

pub proof fn lemma_hex_is_ascii(n: nat)
    ensures
        is_ascii_chars(hex(n)),
        1 <= hex(n).len(),
    decreases n,
{
    if n >= 16 {
        lemma_hex_is_ascii(n / 16);
    }
}

/// The rendering is the barrier: whatever went in, what comes out is
/// ASCII.
pub proof fn lemma_rendered_is_ascii(c: char)
    ensures
        is_ascii_chars(rendered(c)),
{
    lemma_hex_is_ascii(c as nat);
}

fn push_hex(out: &mut Vec<char>, n: u32)
    ensures
        final(out)@ == old(out)@ + hex(n as nat),
    decreases n,
{
    if n >= 16 {
        push_hex(out, n / 16);
    }
    let d = n % 16;
    let c = if d < 10 {
        ((d + 0x30) as u8) as char
    } else {
        ((d + 0x37) as u8) as char
    };
    out.push(c);
    proof {
        if n >= 16 {
            assert(hex(n as nat) == hex((n / 16) as nat).push(hex_digit((n % 16) as nat)));
        }
    }
}

/// Appends the upper-case hex of `n`, left-padded with `0` to four digits.
pub fn push_hex4(out: &mut Vec<char>, n: u32)
    ensures
        final(out)@ == old(out)@ + hex4(n as nat),
{
    let mut digits: Vec<char> = Vec::new();
    push_hex(&mut digits, n);
    let ghost start = out@;
    let mut padding = digits.len();
    while padding < 4
        invariant
            digits@ == hex(n as nat),
            digits.len() <= padding <= 4 || (digits.len() >= 4 && padding == digits.len()),
            out@ == start + Seq::new((padding - digits.len()) as nat, |i: int| '0'),
        decreases 4 - padding,
    {
        out.push('0');
        proof {
            assert(start + Seq::new((padding + 1 - digits.len()) as nat, |i: int| '0') =~= (start
                + Seq::new((padding - digits.len()) as nat, |i: int| '0')).push('0'));
        }
        padding = padding + 1;
    }
    push_chars(out, digits.as_slice());
    proof {
        if digits.len() < 4 {
            assert(out@ =~= start + hex4(n as nat));
        } else {
            assert(out@ =~= start + hex4(n as nat));
        }
    }
}

/// The characters of `U+XXXX` for one codepoint.
pub fn render_chars(c: char) -> (r: Vec<char>)
    ensures
        r@ == rendered(c),
{
    let mut out: Vec<char> = Vec::new();
    out.push('U');
    out.push('+');
    push_hex4(&mut out, c as u32);
    proof {
        assert(out@ =~= rendered(c));
    }
    out
}

/// `U+XXXX`, upper-case hex, at least four digits: the spelling every
/// Unicode document uses, so a finding can be pasted into a search.
pub fn render(c: char) -> (r: String)
    ensures
        r@ == rendered(c),
{
    let chars = render_chars(c);
    string_of(chars.as_slice())
}

/// Each codepoint of a sequence, in order.
pub fn render_each(chars: &[char]) -> (r: Vec<String>)
    ensures
        r.deep_view() == rendered_each(chars@),
{
    let mut out: Vec<String> = Vec::new();
    let mut i: usize = 0;
    while i < chars.len()
        invariant
            0 <= i <= chars.len(),
            out.deep_view() == rendered_each(chars@.take(i as int)),
        decreases chars.len() - i,
    {
        out.push(render(chars[i]));
        proof {
            assert(rendered_each(chars@.take(i + 1)) =~= rendered_each(chars@.take(i as int)).push(
                rendered(chars@[i as int]),
            ));
            assert(out.deep_view() =~= rendered_each(chars@.take(i + 1)));
        }
        i = i + 1;
    }
    proof {
        assert(chars@.take(chars.len() as int) =~= chars@);
    }
    out
}

} // verus!
