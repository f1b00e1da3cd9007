//! Making the one string this library does not author safe to look at.
//!
//! Every field of a finding is written by the library, `U+XXXX` codepoints
//! and English prose, so it is ASCII by construction. The file path is the
//! exception: it is the path the caller handed in, echoed back so it can
//! be opened, and a file named `invoice`, U+202E, `fdp.ts` would otherwise
//! reorder the terminal of whoever read the report.
//!
//! Both escapes here rewrite every non-ASCII codepoint as JSON's own
//! `\uXXXX`, so a parser decodes a document back to the identical string,
//! and both leave ASCII untouched.

use crate::detect::codepoint::{hex, hex4, hex_digit, lemma_hex_is_ascii, push_hex4};
use crate::text::{string_of, text_of};
use vstd::prelude::*;
use vstd::utf8::{char_is_scalar, is_ascii_chars};

verus! {

/// The UTF-16 code units of a character: one below U+10000, a surrogate
/// pair above.
pub open spec fn utf16_units(c: char) -> Seq<nat> {
    let v = (c as u32) as nat;
    if v < 0x10000 {
        seq![v]
    } else {
        let w = (v - 0x10000) as nat;
        seq![0xD800 + w / 0x400, 0xDC00 + w % 0x400]
    }
}

/// `\uXXXX` for one code unit, upper-case hex.
pub open spec fn unit_escape(unit: nat) -> Seq<char> {
    seq!['\\', 'u'] + hex4(unit)
}

/// One character as it leaves the library: itself if ASCII, otherwise one
/// escape per UTF-16 code unit.
pub open spec fn escape_char(c: char) -> Seq<char> {
    if (c as u32) < 0x80 {
        seq![c]
    } else if (c as u32) < 0x10000 {
        unit_escape((c as u32) as nat)
    } else {
        unit_escape(utf16_units(c)[0]) + unit_escape(utf16_units(c)[1])
    }
}

/// A string with every non-ASCII codepoint escaped.
pub open spec fn escaped(cs: Seq<char>) -> Seq<char>
    decreases cs.len(),
{
    if cs.len() == 0 {
        seq![]
    } else {
        escaped(cs.drop_last()) + escape_char(cs.last())
    }
}

pub proof fn lemma_escape_char_is_ascii(c: char)
    ensures
        is_ascii_chars(escape_char(c)),
{
    let units = utf16_units(c);
    lemma_hex_is_ascii(c as nat);
    if (c as u32) >= 0x10000 {
        lemma_hex_is_ascii(units[0]);
        lemma_hex_is_ascii(units[1]);
    }
}

/// Whatever went in, what comes out is ASCII.
pub proof fn lemma_escaped_is_ascii(cs: Seq<char>)
    ensures
        is_ascii_chars(escaped(cs)),
    decreases cs.len(),
{
    if cs.len() > 0 {
        lemma_escaped_is_ascii(cs.drop_last());
        lemma_escape_char_is_ascii(cs.last());
    }
}

/// ASCII goes through unchanged, so every ordinary path is spelled exactly
/// as it was.
pub proof fn lemma_ascii_is_unchanged(cs: Seq<char>)
    requires
        is_ascii_chars(cs),
    ensures
        escaped(cs) == cs,
    decreases cs.len(),
{
    if cs.len() > 0 {
        lemma_ascii_is_unchanged(cs.drop_last());
        assert(cs.drop_last() + seq![cs.last()] =~= cs);
    }
}

fn push_unit(out: &mut Vec<char>, unit: u32)
    ensures
        final(out)@ == old(out)@ + unit_escape(unit as nat),
{
    out.push('\\');
    out.push('u');
    push_hex4(out, unit);
    proof {
        assert(final(out)@ =~= old(out)@ + unit_escape(unit as nat));
    }
}

/// Every non-ASCII codepoint rewritten as `\uXXXX`; astral codepoints as a
/// surrogate pair, because JSON's escape is sixteen bits.
pub fn rewrite(value: &str) -> (r: String)
    ensures
        r@ == escaped(value@),
{
    let cs = text_of(value).chars;
    let mut out: Vec<char> = Vec::new();
    let mut i: usize = 0;
    proof {
        assert(value@.take(0) =~= Seq::<char>::empty());
    }
    while i < cs.len()
        invariant
            cs@ == value@,
            0 <= i <= cs.len(),
            out@ == escaped(value@.take(i as int)),
        decreases cs.len() - i,
    {
        let c = cs[i];
        let v = c as u32;
        if v < 0x80 {
            out.push(c);
        } else if v < 0x10000 {
            push_unit(&mut out, v);
        } else {
            let w = v - 0x10000;
            proof {
                char_is_scalar(c);
                assert(v <= 0x10FFFF);
                assert(utf16_units(c)[0] == (0xD800 + w / 0x400) as nat);
                assert(utf16_units(c)[1] == (0xDC00 + w % 0x400) as nat);
            }
            push_unit(&mut out, 0xD800 + w / 0x400);
            push_unit(&mut out, 0xDC00 + w % 0x400);
        }
        proof {
            let taken = value@.take(i + 1);
            assert(taken.drop_last() =~= value@.take(i as int));
            assert(taken.last() == c);
            assert(out@ =~= escaped(taken));
        }
        i = i + 1;
    }
    proof {
        assert(value@.take(cs.len() as int) =~= value@);
    }
    string_of(out.as_slice())
}

/// Every non-ASCII codepoint of a serialized JSON document rewritten as a
/// `\uXXXX` escape. Sound on the finished document because JSON's own
/// syntax is ASCII: a non-ASCII codepoint can only occur inside a string,
/// which is exactly where `\uXXXX` means the same thing.
pub fn json(document: &str) -> (r: String)
    ensures
        r@ == escaped(document@),
        is_ascii_chars(r@),
{
    proof {
        lemma_escaped_is_ascii(document@);
    }
    rewrite(document)
}

/// A plain string rewritten the same way, for prose output where nothing
/// decodes it: a path in the summary reads as it does in the report.
pub fn text(value: &str) -> (r: String)
    ensures
        r@ == escaped(value@),
        is_ascii_chars(r@),
{
    proof {
        lemma_escaped_is_ascii(value@);
    }
    rewrite(value)
}

/// What one hexadecimal digit is worth, in either case, as JSON reads it.
pub open spec fn hex_value(c: char) -> Option<nat> {
    let v = (c as u32) as nat;
    if 0x30 <= v <= 0x39 {
        Some((v - 0x30) as nat)
    } else if 0x41 <= v <= 0x46 {
        Some((v - 0x37) as nat)
    } else if 0x61 <= v <= 0x66 {
        Some((v - 0x57) as nat)
    } else {
        None
    }
}

proof fn lemma_digit_value(d: nat)
    requires
        d < 16,
    ensures
        hex_value(hex_digit(d)) == Some(d),
{
    if d < 10 {
        assert(((d + 0x30) as u32) as char as u32 == (d + 0x30) as u32);
    } else {
        assert(((d + 0x37) as u32) as char as u32 == (d + 0x37) as u32);
    }
}

proof fn lemma_hex4_digits(n: nat)
    requires
        n < 0x10000,
    ensures
        hex4(n) == seq![
            hex_digit(n / 4096),
            hex_digit((n / 256) % 16),
            hex_digit((n / 16) % 16),
            hex_digit(n % 16),
        ],
{
    reveal_with_fuel(hex, 4);
    assert(hex_digit(0) == '0') by {
        assert(((0nat + 0x30) as u32) as char as u32 == 0x30u32);
    }
    if n < 16 {
        assert(hex(n) =~= seq![hex_digit(n)]);
        assert(hex4(n) =~= seq!['0', '0', '0', hex_digit(n)]);
    } else if n < 256 {
        assert(hex(n / 16) =~= seq![hex_digit(n / 16)]);
        assert(hex(n) =~= seq![hex_digit(n / 16), hex_digit(n % 16)]);
        assert(hex4(n) =~= seq!['0', '0', hex_digit(n / 16), hex_digit(n % 16)]);
        assert(n / 16 == (n / 16) % 16);
    } else if n < 4096 {
        assert(hex(n / 256) =~= seq![hex_digit(n / 256)]);
        assert((n / 16) / 16 == n / 256);
        assert(hex(n / 16) =~= seq![hex_digit(n / 256), hex_digit((n / 16) % 16)]);
        assert(hex(n) =~= seq![hex_digit(n / 256), hex_digit((n / 16) % 16), hex_digit(n % 16)]);
        assert(n / 256 == (n / 256) % 16);
    } else {
        assert((n / 16) / 16 == n / 256);
        assert((n / 256) / 16 == n / 4096);
        assert(hex(n / 4096) =~= seq![hex_digit(n / 4096)]);
        assert(hex(n / 256) =~= seq![hex_digit(n / 4096), hex_digit((n / 256) % 16)]);
        assert(hex(n / 16) =~= seq![
            hex_digit(n / 4096),
            hex_digit((n / 256) % 16),
            hex_digit((n / 16) % 16),
        ]);
    }
}

/// The code unit four hexadecimal digits spell.
pub open spec fn unit_value(ds: Seq<char>) -> Option<nat> {
    match (hex_value(ds[0]), hex_value(ds[1]), hex_value(ds[2]), hex_value(ds[3])) {
        (Some(a), Some(b), Some(c), Some(d)) => Some(4096 * a + 256 * b + 16 * c + d),
        _ => None,
    }
}

/// The character a surrogate pair encodes.
pub open spec fn paired(high: nat, low: nat) -> char {
    ((0x10000 + (high - 0xD800) * 0x400 + (low - 0xDC00)) as u32) as char
}

proof fn lemma_unit_escape(u: nat)
    requires
        u < 0x10000,
    ensures
        unit_escape(u).len() == 6,
        unit_escape(u)[0] == '\\',
        unit_escape(u)[1] == 'u',
        forall|k: int| 2 <= k < 6 ==> #[trigger] unit_escape(u)[k] != '\\',
        unit_value(unit_escape(u).subrange(2, 6)) == Some(u),
{
    lemma_hex4_digits(u);
    let a = u / 4096;
    let b = (u / 256) % 16;
    let c = (u / 16) % 16;
    let d = u % 16;
    lemma_digit_value(a);
    lemma_digit_value(b);
    lemma_digit_value(c);
    lemma_digit_value(d);
    let e = unit_escape(u);
    assert(e.subrange(2, 6) =~= hex4(u));
    assert(4096 * a + 256 * b + 16 * c + d == u) by (nonlinear_arith)
        requires
            u < 0x10000,
            a == u / 4096,
            b == (u / 256) % 16,
            c == (u / 16) % 16,
            d == u % 16,
    ;
    assert forall|k: int| 2 <= k < 6 implies #[trigger] e[k] != '\\' by {
        assert(hex_value(e[k]) is Some);
    }
}

proof fn lemma_surrogates(c: char)
    requires
        (c as u32) >= 0x10000,
    ensures
        0xD800 <= utf16_units(c)[0] < 0xDC00,
        0xDC00 <= utf16_units(c)[1] < 0xE000,
        paired(utf16_units(c)[0], utf16_units(c)[1]) == c,
{
    let v = (c as u32) as nat;
    let w = (v - 0x10000) as nat;
    assert(v <= 0x10FFFF) by {
        char_is_scalar(c);
    }
    assert(w / 0x400 < 0x400) by (nonlinear_arith)
        requires
            w < 0x100000,
    ;
    assert(0x10000 + (w / 0x400) * 0x400 + w % 0x400 == v) by (nonlinear_arith)
        requires
            w == v - 0x10000,
    ;
}

/// What the letter of a one-character JSON escape stands for.
pub open spec fn simple_escape(c: char) -> Option<char> {
    if c == '"' {
        Some('"')
    } else if c == '\\' {
        Some('\\')
    } else if c == '/' {
        Some('/')
    } else if c == 'b' {
        Some('\u{8}')
    } else if c == 'f' {
        Some('\u{c}')
    } else if c == 'n' {
        Some('\n')
    } else if c == 'r' {
        Some('\r')
    } else if c == 't' {
        Some('\t')
    } else {
        None
    }
}

pub open spec fn prepend(c: char, rest: Option<Seq<char>>) -> Option<Seq<char>> {
    match rest {
        Some(s) => Some(seq![c] + s),
        None => None,
    }
}

/// The contents of a JSON string as a JSON reader decodes them: `\"`,
/// `\\`, `\/`, `\b`, `\f`, `\n`, `\r` and `\t` are the characters they
/// name, `\uXXXX` is the code unit it spells (a surrogate pair the one
/// character it encodes), and any other escape, or a surrogate on its
/// own, decodes to nothing at all.
pub open spec fn json_decoded(cs: Seq<char>) -> Option<Seq<char>>
    decreases cs.len(),
{
    if cs.len() == 0 {
        Some(seq![])
    } else if cs[0] != '\\' {
        prepend(cs[0], json_decoded(cs.drop_first()))
    } else if cs.len() >= 2 && simple_escape(cs[1]) is Some {
        prepend(simple_escape(cs[1])->0, json_decoded(cs.skip(2)))
    } else if cs.len() >= 6 && cs[1] == 'u' && unit_value(cs.subrange(2, 6)) is Some {
        let unit = unit_value(cs.subrange(2, 6))->0;
        if unit < 0xD800 || unit >= 0xE000 {
            prepend((unit as u32) as char, json_decoded(cs.skip(6)))
        } else if unit < 0xDC00 && cs.len() >= 12 && cs[6] == '\\' && cs[7] == 'u' {
            match unit_value(cs.subrange(8, 12)) {
                Some(low) => if 0xDC00 <= low < 0xE000 {
                    prepend(paired(unit, low), json_decoded(cs.skip(12)))
                } else {
                    None
                },
                None => None,
            }
        } else {
            None
        }
    } else {
        None
    }
}

/// A prefix that decodes on its own decodes the same in front of
/// anything: no escape reaches past it.
#[verifier::spinoff_prover]
#[verifier::rlimit(40)]
proof fn lemma_decoded_concat(x: Seq<char>, y: Seq<char>)
    requires
        json_decoded(x) is Some,
    ensures
        json_decoded(x + y) == match json_decoded(y) {
            Some(b) => Some(json_decoded(x)->0 + b),
            None => None::<Seq<char>>,
        },
    decreases x.len(),
{
    let z = x + y;
    if x.len() == 0 {
        assert(z =~= y);
        assert(Seq::<char>::empty() + json_decoded(y)->0 =~= json_decoded(y)->0);
    } else {
        assert(z[0] == x[0]);
        if x[0] != '\\' {
            assert(z.drop_first() =~= x.drop_first() + y);
            lemma_decoded_concat(x.drop_first(), y);
            match json_decoded(y) {
                Some(b) => {
                    assert(seq![x[0]] + (json_decoded(x.drop_first())->0 + b) =~= (seq![x[0]]
                        + json_decoded(x.drop_first())->0) + b);
                },
                None => {},
            }
        } else if x.len() >= 2 && simple_escape(x[1]) is Some {
            assert(z[1] == x[1]);
            assert(z.skip(2) =~= x.skip(2) + y);
            lemma_decoded_concat(x.skip(2), y);
            match json_decoded(y) {
                Some(b) => {
                    let e = simple_escape(x[1])->0;
                    assert(seq![e] + (json_decoded(x.skip(2))->0 + b) =~= (seq![e]
                        + json_decoded(x.skip(2))->0) + b);
                },
                None => {},
            }
        } else {
            assert(x.len() >= 6 && x[1] == 'u' && unit_value(x.subrange(2, 6)) is Some);
            assert(z[1] == x[1]);
            assert(z.subrange(2, 6) =~= x.subrange(2, 6));
            let unit = unit_value(x.subrange(2, 6))->0;
            if unit < 0xD800 || unit >= 0xE000 {
                assert(z.skip(6) =~= x.skip(6) + y);
                lemma_decoded_concat(x.skip(6), y);
                match json_decoded(y) {
                    Some(b) => {
                        let e = (unit as u32) as char;
                        assert(seq![e] + (json_decoded(x.skip(6))->0 + b) =~= (seq![e]
                            + json_decoded(x.skip(6))->0) + b);
                    },
                    None => {},
                }
            } else {
                assert(x.len() >= 12);
                assert(z[6] == x[6] && z[7] == x[7]);
                assert(z.subrange(8, 12) =~= x.subrange(8, 12));
                let low = unit_value(x.subrange(8, 12))->0;
                assert(z.skip(12) =~= x.skip(12) + y);
                lemma_decoded_concat(x.skip(12), y);
                match json_decoded(y) {
                    Some(b) => {
                        let e = paired(unit, low);
                        assert(seq![e] + (json_decoded(x.skip(12))->0 + b) =~= (seq![e]
                            + json_decoded(x.skip(12))->0) + b);
                    },
                    None => {},
                }
            }
        }
    }
}

proof fn lemma_escaped_concat(a: Seq<char>, b: Seq<char>)
    ensures
        escaped(a + b) == escaped(a) + escaped(b),
    decreases b.len(),
{
    if b.len() == 0 {
        assert(a + b =~= a);
        assert(escaped(a) + escaped(b) =~= escaped(a));
    } else {
        lemma_escaped_concat(a, b.drop_last());
        assert((a + b).drop_last() =~= a + b.drop_last());
        assert((a + b).last() == b.last());
        assert(escaped(a) + escaped(b.drop_last()) + escape_char(b.last()) =~= escaped(a) + (
        escaped(b.drop_last()) + escape_char(b.last())));
    }
}

proof fn lemma_escape_char_decodes(c: char)
    requires
        c != '\\',
    ensures
        json_decoded(escape_char(c)) == Some(seq![c]),
{
    let v = (c as u32) as nat;
    reveal_with_fuel(json_decoded, 2);
    if v < 0x80 {
        assert(seq![c].drop_first() =~= Seq::<char>::empty());
        assert(seq![c] + Seq::<char>::empty() =~= seq![c]);
    } else if v < 0x10000 {
        let e = unit_escape(v);
        lemma_unit_escape(v);
        assert(v < 0xD800 || v >= 0xE000) by {
            char_is_scalar(c);
        }
        assert(e.skip(6) =~= Seq::<char>::empty());
        vstd::utf8::char_u32_cast(c, c as u32);
        assert(seq![c] + Seq::<char>::empty() =~= seq![c]);
    } else {
        lemma_surrogates(c);
        let hi = utf16_units(c)[0];
        let lo = utf16_units(c)[1];
        lemma_unit_escape(hi);
        lemma_unit_escape(lo);
        let e = unit_escape(hi) + unit_escape(lo);
        assert(e.subrange(2, 6) =~= unit_escape(hi).subrange(2, 6));
        assert(e.subrange(8, 12) =~= unit_escape(lo).subrange(2, 6));
        assert(e[0] == '\\' && e[1] == 'u' && e[6] == '\\' && e[7] == 'u');
        assert(e.skip(12) =~= Seq::<char>::empty());
        assert(seq![c] + Seq::<char>::empty() =~= seq![c]);
    }
}

proof fn lemma_hex_is_ascii_char(c: char)
    requires
        hex_value(c) is Some,
    ensures
        '\0' <= c <= '\u{7f}',
{
    let v = c as u32;
    vstd::utf8::char_u32_cast(c, v);
    assert((v as char) <= '\u{7f}');
}

proof fn lemma_token_escaped(cs: Seq<char>, k: int, d: char)
    requires
        0 < k <= cs.len(),
        is_ascii_chars(cs.take(k)),
        json_decoded(cs) == prepend(d, json_decoded(cs.skip(k))),
        json_decoded(cs.take(k)) == Some(seq![d]),
        json_decoded(cs.skip(k)) is Some,
        json_decoded(escaped(cs.skip(k))) == json_decoded(cs.skip(k)),
    ensures
        json_decoded(escaped(cs)) == json_decoded(cs),
{
    let t = cs.take(k);
    let rest = cs.skip(k);
    assert(cs =~= t + rest);
    lemma_escaped_concat(t, rest);
    lemma_ascii_is_unchanged(t);
    lemma_decoded_concat(t, escaped(rest));
}

proof fn lemma_plain_step(cs: Seq<char>)
    requires
        cs.len() > 0,
        cs[0] != '\\',
        json_decoded(cs) is Some,
        json_decoded(escaped(cs.drop_first())) == json_decoded(cs.drop_first()),
    ensures
        json_decoded(escaped(cs)) == json_decoded(cs),
{
    let c = cs[0];
    let rest = cs.drop_first();
    assert(cs =~= seq![c] + rest);
    lemma_escaped_concat(seq![c], rest);
    reveal_with_fuel(escaped, 2);
    assert(seq![c].drop_last() =~= Seq::<char>::empty());
    assert(escaped(seq![c]) =~= escape_char(c));
    lemma_escape_char_decodes(c);
    lemma_decoded_concat(escape_char(c), escaped(rest));
}

proof fn lemma_simple_step(cs: Seq<char>)
    requires
        cs.len() >= 2,
        cs[0] == '\\',
        simple_escape(cs[1]) is Some,
        json_decoded(cs) is Some,
        json_decoded(escaped(cs.skip(2))) == json_decoded(cs.skip(2)),
    ensures
        json_decoded(escaped(cs)) == json_decoded(cs),
{
    let t = cs.take(2);
    let d = simple_escape(cs[1])->0;
    assert(t[0] == '\\' && t[1] == cs[1]);
    reveal_with_fuel(json_decoded, 2);
    assert(t.skip(2) =~= Seq::<char>::empty());
    assert(seq![d] + Seq::<char>::empty() =~= seq![d]);
    assert(is_ascii_chars(t)) by {
        assert forall|i: int| 0 <= i < t.len() implies '\0' <= #[trigger] t[i] <= '\u{7f}' by {
            if i == 1 {
                assert(t[1] == cs[1]);
            }
        }
    }
    lemma_token_escaped(cs, 2, d);
}

proof fn lemma_unicode_token_ascii(cs: Seq<char>, k: int)
    requires
        k == 6 || k == 12,
        k <= cs.len(),
        cs[0] == '\\',
        cs[1] == 'u',
        unit_value(cs.subrange(2, 6)) is Some,
        k == 12 ==> cs[6] == '\\' && cs[7] == 'u' && unit_value(cs.subrange(8, 12)) is Some,
    ensures
        is_ascii_chars(cs.take(k)),
{
    let t = cs.take(k);
    assert forall|i: int| 0 <= i < t.len() implies '\0' <= #[trigger] t[i] <= '\u{7f}' by {
        if 2 <= i < 6 {
            assert(t[i] == cs.subrange(2, 6)[i - 2]);
            lemma_hex_is_ascii_char(cs.subrange(2, 6)[i - 2]);
        } else if 8 <= i < 12 {
            assert(t[i] == cs.subrange(8, 12)[i - 8]);
            lemma_hex_is_ascii_char(cs.subrange(8, 12)[i - 8]);
        } else {
            assert(t[i] == cs[i]);
        }
    }
}

proof fn lemma_unicode_step(cs: Seq<char>, k: int)
    requires
        cs.len() >= 6,
        cs[0] == '\\',
        simple_escape(cs[1]) is None,
        cs[1] == 'u',
        unit_value(cs.subrange(2, 6)) is Some,
        json_decoded(cs) is Some,
        k == if unit_value(cs.subrange(2, 6))->0 < 0xD800 || unit_value(cs.subrange(2, 6))->0 >= 0xE000 {
            6int
        } else {
            12int
        },
        json_decoded(escaped(cs.skip(k))) == json_decoded(cs.skip(k)),
    ensures
        json_decoded(escaped(cs)) == json_decoded(cs),
{
    let unit = unit_value(cs.subrange(2, 6))->0;
    let t = cs.take(k);
    let empty = Seq::<char>::empty();
    assert(json_decoded(empty) == Some(empty));
    assert(t.skip(k) =~= empty);
    assert(t[0] == '\\' && t[1] == 'u');
    assert(t.subrange(2, 6) =~= cs.subrange(2, 6));
    if k == 6 {
        let d = (unit as u32) as char;
        assert(json_decoded(t) == prepend(d, json_decoded(t.skip(6))));
        assert(seq![d] + empty =~= seq![d]);
        lemma_unicode_token_ascii(cs, 6);
        lemma_token_escaped(cs, 6, d);
    } else {
        assert(cs.len() >= 12 && cs[6] == '\\' && cs[7] == 'u');
        let low = unit_value(cs.subrange(8, 12))->0;
        let d = paired(unit, low);
        assert(t[6] == cs[6] && t[7] == cs[7]);
        assert(t.subrange(8, 12) =~= cs.subrange(8, 12));
        assert(json_decoded(t) == prepend(d, json_decoded(t.skip(12))));
        assert(seq![d] + empty =~= seq![d]);
        lemma_unicode_token_ascii(cs, 12);
        lemma_token_escaped(cs, 12, d);
    }
}

/// Escaping keeps what a JSON reader makes of a string: wherever the
/// contents of a string decode, the escaped contents decode to the same
/// characters. Each backslash of the contents already begins an escape,
/// which escaping leaves alone, and each character it rewrites comes back
/// from its `\uXXXX`, a surrogate pair above the basic plane.
pub proof fn lemma_escaped_keeps_json_meaning(cs: Seq<char>)
    requires
        json_decoded(cs) is Some,
    ensures
        json_decoded(escaped(cs)) == json_decoded(cs),
    decreases cs.len(),
{
    if cs.len() > 0 {
        if cs[0] != '\\' {
            lemma_escaped_keeps_json_meaning(cs.drop_first());
            lemma_plain_step(cs);
        } else if cs.len() >= 2 && simple_escape(cs[1]) is Some {
            lemma_escaped_keeps_json_meaning(cs.skip(2));
            lemma_simple_step(cs);
        } else {
            let unit = unit_value(cs.subrange(2, 6))->0;
            let k: int = if unit < 0xD800 || unit >= 0xE000 {
                6
            } else {
                12
            };
            lemma_escaped_keeps_json_meaning(cs.skip(k));
            lemma_unicode_step(cs, k);
        }
    }
}

proof fn lemma_plain_decodes(cs: Seq<char>)
    requires
        !cs.contains('\\'),
    ensures
        json_decoded(cs) == Some(cs),
    decreases cs.len(),
{
    if cs.len() > 0 {
        assert(cs[0] != '\\') by {
            if cs[0] == '\\' {
                assert(cs.contains(cs[0]));
            }
        }
        assert(!cs.drop_first().contains('\\')) by {
            if cs.drop_first().contains('\\') {
                let k = choose|k: int| 0 <= k < cs.drop_first().len() && cs.drop_first()[k] == '\\';
                assert(cs[k + 1] == '\\');
            }
        }
        lemma_plain_decodes(cs.drop_first());
        assert(seq![cs[0]] + cs.drop_first() =~= cs);
    }
}

/// Text with no backslash of its own comes back from its escaped form
/// exactly: every character escaping rewrites is decoded from its
/// `\uXXXX` (a surrogate pair above the basic plane) to itself.
pub proof fn lemma_escaped_decodes_back(cs: Seq<char>)
    requires
        !cs.contains('\\'),
    ensures
        json_decoded(escaped(cs)) == Some(cs),
{
    lemma_plain_decodes(cs);
    lemma_escaped_keeps_json_meaning(cs);
}

/// What a JSON reader makes of the text from just inside an opening quote:
/// the string's value, and how many characters it took up to and
/// including the closing quote. Nothing where the string never closes or
/// holds an escape JSON does not define.
pub open spec fn string_read(cs: Seq<char>) -> Option<(Seq<char>, nat)>
    decreases cs.len(),
{
    if cs.len() == 0 {
        None
    } else if cs[0] == '"' {
        Some((seq![], 1))
    } else if cs[0] != '\\' {
        match string_read(cs.drop_first()) {
            Some((v, n)) => Some((seq![cs[0]] + v, n + 1)),
            None => None,
        }
    } else if cs.len() >= 2 && simple_escape(cs[1]) is Some {
        match string_read(cs.skip(2)) {
            Some((v, n)) => Some((seq![simple_escape(cs[1])->0] + v, n + 2)),
            None => None,
        }
    } else if cs.len() >= 6 && cs[1] == 'u' && unit_value(cs.subrange(2, 6)) is Some {
        let unit = unit_value(cs.subrange(2, 6))->0;
        if unit < 0xD800 || unit >= 0xE000 {
            match string_read(cs.skip(6)) {
                Some((v, n)) => Some((seq![(unit as u32) as char] + v, n + 6)),
                None => None,
            }
        } else if unit < 0xDC00 && cs.len() >= 12 && cs[6] == '\\' && cs[7] == 'u' {
            match unit_value(cs.subrange(8, 12)) {
                Some(low) => if 0xDC00 <= low < 0xE000 {
                    match string_read(cs.skip(12)) {
                        Some((v, n)) => Some((seq![paired(unit, low)] + v, n + 12)),
                        None => None,
                    }
                } else {
                    None
                },
                None => None,
            }
        } else {
            None
        }
    } else {
        None
    }
}

/// A string read takes at least its closing quote and no more than there is.
pub proof fn lemma_string_read_len(cs: Seq<char>)
    ensures
        string_read(cs) matches Some((_, n)) ==> 1 <= n <= cs.len(),
    decreases cs.len(),
{
    if cs.len() > 0 && cs[0] != '"' {
        if cs[0] != '\\' {
            lemma_string_read_len(cs.drop_first());
        } else if cs.len() >= 2 && simple_escape(cs[1]) is Some {
            lemma_string_read_len(cs.skip(2));
        } else if cs.len() >= 6 {
            lemma_string_read_len(cs.skip(6));
            if cs.len() >= 12 {
                lemma_string_read_len(cs.skip(12));
            }
        }
    }
}

/// One piece of a JSON document as a reader sees it: a character of its
/// structure, or the value of a string.
pub ghost enum JsonPiece {
    Mark(char),
    Text(Seq<char>),
}

/// A JSON document as a reader sees it, piece by piece: the structure
/// outside strings, which JSON writes in ASCII, and the value of every
/// string. Nothing where a string does not read or a character outside
/// one is not ASCII.
pub open spec fn document_read(d: Seq<char>) -> Option<Seq<JsonPiece>>
    decreases d.len(),
{
    if d.len() == 0 {
        Some(seq![])
    } else if d[0] == '"' {
        match string_read(d.drop_first()) {
            Some((v, n)) => {
                proof {
                    lemma_string_read_len(d.drop_first());
                }
                match document_read(d.drop_first().skip(n as int)) {
                    Some(ps) => Some(seq![JsonPiece::Text(v)] + ps),
                    None => None,
                }
            },
            None => None,
        }
    } else if (d[0] as u32) < 0x80 {
        match document_read(d.drop_first()) {
            Some(ps) => Some(seq![JsonPiece::Mark(d[0])] + ps),
            None => None,
        }
    } else {
        None
    }
}

proof fn lemma_read_escape_char(c: char, y: Seq<char>)
    requires
        c != '\\',
        c != '"',
    ensures
        string_read(escape_char(c) + y) == match string_read(y) {
            Some((v, m)) => Some((seq![c] + v, escape_char(c).len() + m)),
            None => None::<(Seq<char>, nat)>,
        },
{
    let v = (c as u32) as nat;
    if v < 0x80 {
        let z = seq![c] + y;
        assert(z[0] == c);
        assert(z.drop_first() =~= y);
    } else if v < 0x10000 {
        let e = unit_escape(v);
        lemma_unit_escape(v);
        let z = e + y;
        assert(v < 0xD800 || v >= 0xE000) by {
            char_is_scalar(c);
        }
        assert(z[0] == '\\' && z[1] == 'u');
        assert(z.subrange(2, 6) =~= e.subrange(2, 6));
        assert(z.skip(6) =~= y);
        vstd::utf8::char_u32_cast(c, c as u32);
    } else {
        lemma_surrogates(c);
        let hi = utf16_units(c)[0];
        let lo = utf16_units(c)[1];
        lemma_unit_escape(hi);
        lemma_unit_escape(lo);
        let e = unit_escape(hi) + unit_escape(lo);
        let z = e + y;
        assert(z[0] == '\\' && z[1] == 'u' && z[6] == '\\' && z[7] == 'u');
        assert(z.subrange(2, 6) =~= unit_escape(hi).subrange(2, 6));
        assert(z.subrange(8, 12) =~= unit_escape(lo).subrange(2, 6));
        assert(z.skip(12) =~= y);
    }
}

proof fn lemma_read_quote_step(cs: Seq<char>)
    requires
        cs.len() > 0,
        cs[0] == '"',
    ensures
        string_read(escaped(cs)) == Some((Seq::<char>::empty(), escaped(cs.take(1)).len())),
{
    let rest = cs.drop_first();
    assert(cs =~= seq!['"'] + rest);
    lemma_escaped_concat(seq!['"'], rest);
    reveal_with_fuel(escaped, 2);
    assert(seq!['"'].drop_last() =~= Seq::<char>::empty());
    assert(escaped(seq!['"']) =~= seq!['"']);
    assert(cs.take(1) =~= seq!['"']);
    assert(escaped(cs)[0] == '"');
}

proof fn lemma_read_plain_step(cs: Seq<char>, v: Seq<char>, n: nat)
    requires
        cs.len() > 0,
        cs[0] != '"',
        cs[0] != '\\',
        string_read(cs.drop_first()) == Some((v, n)),
        string_read(escaped(cs.drop_first())) == Some((v, escaped(cs.drop_first().take(n as int)).len())),
    ensures
        string_read(escaped(cs)) == Some((seq![cs[0]] + v, escaped(cs.take(n + 1int)).len())),
{
    let c = cs[0];
    let rest = cs.drop_first();
    assert(cs =~= seq![c] + rest);
    lemma_escaped_concat(seq![c], rest);
    reveal_with_fuel(escaped, 2);
    assert(seq![c].drop_last() =~= Seq::<char>::empty());
    assert(escaped(seq![c]) =~= escape_char(c));
    lemma_read_escape_char(c, escaped(rest));
    lemma_string_read_len(rest);
    assert(cs.take(n + 1int) =~= seq![c] + rest.take(n as int));
    lemma_escaped_concat(seq![c], rest.take(n as int));
}

proof fn lemma_read_token_step(cs: Seq<char>, k: int, d: char, v: Seq<char>, n: nat)
    requires
        0 < k <= cs.len(),
        is_ascii_chars(cs.take(k)),
        forall|y: Seq<char>|
            #![trigger string_read(cs.take(k) + y)]
            string_read(cs.take(k) + y) == match string_read(y) {
                Some((w, m)) => Some((seq![d] + w, (m + k) as nat)),
                None => None::<(Seq<char>, nat)>,
            },
        string_read(cs.skip(k)) == Some((v, n)),
        string_read(escaped(cs.skip(k))) == Some((v, escaped(cs.skip(k).take(n as int)).len())),
    ensures
        string_read(escaped(cs)) == Some((seq![d] + v, escaped(cs.take(n + k)).len())),
{
    let t = cs.take(k);
    let rest = cs.skip(k);
    assert(cs =~= t + rest);
    lemma_escaped_concat(t, rest);
    lemma_ascii_is_unchanged(t);
    assert(string_read(t + escaped(rest)) == Some((seq![d] + v, (escaped(rest.take(n as int)).len() + k) as nat)));
    lemma_string_read_len(rest);
    assert(cs.take(n + k) =~= t + rest.take(n as int));
    lemma_escaped_concat(t, rest.take(n as int));
}

proof fn lemma_simple_token(cs: Seq<char>)
    requires
        cs.len() >= 2,
        cs[0] == '\\',
        simple_escape(cs[1]) is Some,
    ensures
        is_ascii_chars(cs.take(2)),
        forall|y: Seq<char>|
            #![trigger string_read(cs.take(2) + y)]
            string_read(cs.take(2) + y) == match string_read(y) {
                Some((w, m)) => Some((seq![simple_escape(cs[1])->0] + w, (m + 2) as nat)),
                None => None::<(Seq<char>, nat)>,
            },
{
    let t = cs.take(2);
    assert forall|y: Seq<char>|
        #![trigger string_read(cs.take(2) + y)]
        string_read(cs.take(2) + y) == match string_read(y) {
            Some((w, m)) => Some((seq![simple_escape(cs[1])->0] + w, (m + 2) as nat)),
            None => None::<(Seq<char>, nat)>,
        } by {
        let z = t + y;
        assert(z[0] == '\\' && z[1] == cs[1]);
        assert(z.skip(2) =~= y);
    }
    assert forall|i: int| 0 <= i < t.len() implies '\0' <= #[trigger] t[i] <= '\u{7f}' by {
        assert(t[i] == cs[i]);
    }
}

proof fn lemma_unit_token(cs: Seq<char>, k: int, d: char)
    requires
        cs.len() >= 6,
        cs[0] == '\\',
        cs[1] == 'u',
        unit_value(cs.subrange(2, 6)) is Some,
        k == 6 ==> {
            let u = unit_value(cs.subrange(2, 6))->0;
            &&& (u < 0xD800 || u >= 0xE000)
            &&& d == (u as u32) as char
        },
        k == 12 ==> {
            let u = unit_value(cs.subrange(2, 6))->0;
            &&& 0xD800 <= u < 0xDC00
            &&& cs.len() >= 12
            &&& cs[6] == '\\'
            &&& cs[7] == 'u'
            &&& unit_value(cs.subrange(8, 12)) matches Some(low) && 0xDC00 <= low < 0xE000 && d
                == paired(u, low)
        },
        k == 6 || k == 12,
    ensures
        is_ascii_chars(cs.take(k)),
        forall|y: Seq<char>|
            #![trigger string_read(cs.take(k) + y)]
            string_read(cs.take(k) + y) == match string_read(y) {
                Some((w, m)) => Some((seq![d] + w, (m + k) as nat)),
                None => None::<(Seq<char>, nat)>,
            },
{
    let t = cs.take(k);
    assert forall|y: Seq<char>|
        #![trigger string_read(cs.take(k) + y)]
        string_read(cs.take(k) + y) == match string_read(y) {
            Some((w, m)) => Some((seq![d] + w, (m + k) as nat)),
            None => None::<(Seq<char>, nat)>,
        } by {
        let z = t + y;
        assert(z[0] == '\\' && z[1] == 'u');
        assert(z.subrange(2, 6) =~= cs.subrange(2, 6));
        if k == 12 {
            assert(z[6] == cs[6] && z[7] == cs[7]);
            assert(z.subrange(8, 12) =~= cs.subrange(8, 12));
        }
        assert(z.skip(k) =~= y);
    }
    lemma_unicode_token_ascii(cs, k);
}

proof fn lemma_string_read_escaped(cs: Seq<char>)
    requires
        string_read(cs) is Some,
    ensures
        match string_read(cs) {
            Some((v, n)) => string_read(escaped(cs)) == Some((v, escaped(cs.take(n as int)).len())),
            None => true,
        },
    decreases cs.len(),
{
    if cs[0] == '"' {
        lemma_read_quote_step(cs);
    } else if cs[0] != '\\' {
        lemma_string_read_escaped(cs.drop_first());
        let (v, n) = string_read(cs.drop_first())->0;
        lemma_read_plain_step(cs, v, n);
    } else if cs.len() >= 2 && simple_escape(cs[1]) is Some {
        lemma_string_read_escaped(cs.skip(2));
        let (v, n) = string_read(cs.skip(2))->0;
        lemma_simple_token(cs);
        lemma_read_token_step(cs, 2, simple_escape(cs[1])->0, v, n);
    } else {
        let unit = unit_value(cs.subrange(2, 6))->0;
        if unit < 0xD800 || unit >= 0xE000 {
            lemma_string_read_escaped(cs.skip(6));
            let (v, n) = string_read(cs.skip(6))->0;
            lemma_unit_token(cs, 6, (unit as u32) as char);
            lemma_read_token_step(cs, 6, (unit as u32) as char, v, n);
        } else {
            let low = unit_value(cs.subrange(8, 12))->0;
            lemma_string_read_escaped(cs.skip(12));
            let (v, n) = string_read(cs.skip(12))->0;
            lemma_unit_token(cs, 12, paired(unit, low));
            lemma_read_token_step(cs, 12, paired(unit, low), v, n);
        }
    }
}

/// Escaping a JSON document leaves what a reader makes of it unchanged:
/// wherever a document reads, as JSON writes it with ASCII structure, the
/// escaped document reads to the same structure and the same string
/// values. `json` returns exactly the escaped document, so a parser reads
/// its result back as the value it was given.
pub proof fn lemma_escaped_document_reads_the_same(d: Seq<char>)
    requires
        document_read(d) is Some,
    ensures
        document_read(escaped(d)) == document_read(d),
    decreases d.len(),
{
    if d.len() > 0 {
        let tail = d.drop_first();
        assert(d =~= seq![d[0]] + tail);
        lemma_escaped_concat(seq![d[0]], tail);
        reveal_with_fuel(escaped, 2);
        assert(seq![d[0]].drop_last() =~= Seq::<char>::empty());
        let e = escaped(d);
        if d[0] == '"' {
            assert(escaped(seq![d[0]]) =~= seq!['"']);
            assert(e.drop_first() =~= escaped(tail));
            let (v, n) = string_read(tail)->0;
            lemma_string_read_len(tail);
            lemma_string_read_escaped(tail);
            let rest = tail.skip(n as int);
            lemma_escaped_document_reads_the_same(rest);
            assert(tail =~= tail.take(n as int) + rest);
            lemma_escaped_concat(tail.take(n as int), rest);
            assert(escaped(tail).skip(escaped(tail.take(n as int)).len() as int) =~= escaped(rest));
        } else {
            assert(escaped(seq![d[0]]) =~= seq![d[0]]);
            assert(e.drop_first() =~= escaped(tail));
            lemma_escaped_document_reads_the_same(tail);
        }
    }
}

} // verus!
