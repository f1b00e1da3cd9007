//! Bytes to text, or a refusal. Never a guess.
//!
//! Here a mis-decode **invents** findings: read a UTF-16 file as if it
//! were UTF-8 and every second byte is a NUL or a stray high byte, so a
//! tool that guessed would report a document full of invisible and
//! unassigned characters that do not exist. So the order is: byte-order
//! mark first, binary sniff second, UTF-8 last, and anything that is not
//! UTF-8 is refused by name.
//!
//! A leading UTF-8 byte-order mark is not stripped: the report carries
//! byte offsets into the file on disk, and deleting three bytes from the
//! front would make every one of them wrong by three.

use super::{Reason, Refusal};
use crate::text::{decimal, push_decimal, push_str, string_of};
use vstd::prelude::*;
use vstd::string::StringSliceAdditionalSpecFns;
use vstd::utf8::valid_utf8;

verus! {

/// How much of a file the binary test reads: a file that has made it
/// 8 KB without a NUL byte is text as far as any tool that greps it is
/// concerned.
pub const BINARY_SNIFF_BYTES: usize = 8192;

pub enum Decoded<'a> {
    Text(&'a str),
    Refused(Refusal),
}

pub open spec fn starts_with(bytes: Seq<u8>, prefix: Seq<u8>) -> bool {
    prefix.len() <= bytes.len() && bytes.take(prefix.len() as int) == prefix
}

/// The encoding a byte-order mark announces, longest mark first: `FF FE
/// 00 00` is UTF-32LE and also starts with the UTF-16LE mark.
pub open spec fn mark_of(bytes: Seq<u8>) -> Option<Seq<char>> {
    if starts_with(bytes, seq![0x00u8, 0x00u8, 0xFEu8, 0xFFu8]) {
        Some("UTF-32BE"@)
    } else if starts_with(bytes, seq![0xFFu8, 0xFEu8, 0x00u8, 0x00u8]) {
        Some("UTF-32LE"@)
    } else if starts_with(bytes, seq![0xFEu8, 0xFFu8]) {
        Some("UTF-16BE"@)
    } else if starts_with(bytes, seq![0xFFu8, 0xFEu8]) {
        Some("UTF-16LE"@)
    } else {
        None
    }
}

/// The index of the first NUL byte within the sniffed prefix.
pub open spec fn first_nul_in(bytes: Seq<u8>, at: int) -> bool {
    &&& 0 <= at < bytes.len()
    &&& at < BINARY_SNIFF_BYTES
    &&& bytes[at] == 0
    &&& forall|j: int| 0 <= j < at ==> bytes[j] != 0
}

pub open spec fn has_nul(bytes: Seq<u8>) -> bool {
    exists|at: int| first_nul_in(bytes, at)
}

/// `n` is where valid UTF-8 stops: the longest prefix that decodes.
pub open spec fn valid_up_to(bytes: Seq<u8>, n: nat) -> bool {
    &&& n <= bytes.len()
    &&& valid_utf8(bytes.take(n as int))
    &&& forall|m: int| n < m <= bytes.len() ==> !valid_utf8(#[trigger] bytes.take(m))
}

pub open spec fn mark_detail(encoding: Seq<char>) -> Seq<char> {
    "a "@ + encoding
        + " byte-order mark: this reads UTF-8 only, and decoding "@ + encoding
        + " as UTF-8 would invent invisible and unassigned characters that are not in the file"@
}

pub open spec fn nul_detail(at: nat) -> Seq<char> {
    "a NUL byte at byte "@ + decimal(at) + ": this was never a text candidate"@
}

pub open spec fn invalid_detail(at: nat) -> Seq<char> {
    "not valid UTF-8 at byte "@ + decimal(at)
        + ": the encoding is unknown and is not guessed"@
}

/// `std::str::from_utf8`, with the failure reduced to
/// `Utf8Error::valid_up_to`, which std documents as the longest prefix
/// that would itself decode.
#[verifier::external_body]
fn from_utf8(bytes: &[u8]) -> (r: Result<&str, usize>)
    ensures
        match r {
            Ok(text) => valid_utf8(bytes@) && text.spec_bytes() == bytes@,
            Err(at) => !valid_utf8(bytes@) && valid_up_to(bytes@, at as nat),
        },
{
    match std::str::from_utf8(bytes) {
        Ok(text) => Ok(text),
        Err(error) => Err(error.valid_up_to()),
    }
}

fn starts_with_bytes(bytes: &[u8], prefix: &[u8]) -> (r: bool)
    ensures
        r == starts_with(bytes@, prefix@),
{
    if prefix.len() > bytes.len() {
        return false;
    }
    let mut i: usize = 0;
    while i < prefix.len()
        invariant
            prefix.len() <= bytes.len(),
            0 <= i <= prefix.len(),
            forall|j: int| 0 <= j < i ==> bytes@[j] == prefix@[j],
        decreases prefix.len() - i,
    {
        if bytes[i] != prefix[i] {
            proof {
                assert(bytes@.take(prefix.len() as int)[i as int] != prefix@[i as int]);
            }
            return false;
        }
        i = i + 1;
    }
    proof {
        assert(bytes@.take(prefix.len() as int) =~= prefix@);
    }
    true
}

/// The encoding a byte-order mark at the front announces, if any.
pub fn byte_order_mark(bytes: &[u8]) -> (r: Option<&'static str>)
    ensures
        match r {
            Some(encoding) => mark_of(bytes@) == Some(encoding@),
            None => mark_of(bytes@) is None,
        },
{
    let utf32be: [u8; 4] = [0x00, 0x00, 0xFE, 0xFF];
    let utf32le: [u8; 4] = [0xFF, 0xFE, 0x00, 0x00];
    let utf16be: [u8; 2] = [0xFE, 0xFF];
    let utf16le: [u8; 2] = [0xFF, 0xFE];
    proof {
        assert(utf32be@ =~= seq![0x00u8, 0x00u8, 0xFEu8, 0xFFu8]);
        assert(utf32le@ =~= seq![0xFFu8, 0xFEu8, 0x00u8, 0x00u8]);
        assert(utf16be@ =~= seq![0xFEu8, 0xFFu8]);
        assert(utf16le@ =~= seq![0xFFu8, 0xFEu8]);
    }
    if starts_with_bytes(bytes, &utf32be) {
        Some("UTF-32BE")
    } else if starts_with_bytes(bytes, &utf32le) {
        Some("UTF-32LE")
    } else if starts_with_bytes(bytes, &utf16be) {
        Some("UTF-16BE")
    } else if starts_with_bytes(bytes, &utf16le) {
        Some("UTF-16LE")
    } else {
        None
    }
}

/// The first NUL byte within the first 8 KB, if there is one.
pub fn first_nul(bytes: &[u8]) -> (r: Option<usize>)
    ensures
        match r {
            Some(at) => first_nul_in(bytes@, at as int),
            None => !has_nul(bytes@),
        },
{
    let mut i: usize = 0;
    while i < bytes.len() && i < BINARY_SNIFF_BYTES
        invariant
            0 <= i <= bytes.len(),
            i <= BINARY_SNIFF_BYTES,
            forall|j: int| 0 <= j < i ==> bytes@[j] != 0,
        decreases bytes.len() - i,
    {
        if bytes[i] == 0 {
            return Some(i);
        }
        i = i + 1;
    }
    proof {
        assert forall|at: int| !first_nul_in(bytes@, at) by {
            if first_nul_in(bytes@, at) {
                assert(bytes@[at] != 0);
            }
        }
    }
    None
}

/// What `decode` makes of a sequence of bytes, for a refusal: its reason
/// and its detail.
pub open spec fn refusal_of(bytes: Seq<u8>, reason: Reason, detail: Seq<char>) -> bool {
    match mark_of(bytes) {
        Some(encoding) => reason == Reason::EncodingUnknown && detail == mark_detail(encoding),
        None => if has_nul(bytes) {
            &&& reason == Reason::BinaryOrUndecodable
            &&& exists|at: int| first_nul_in(bytes, at) && detail == nul_detail(at as nat)
        } else {
            &&& !valid_utf8(bytes)
            &&& reason == Reason::BinaryOrUndecodable
            &&& exists|n: nat| valid_up_to(bytes, n) && detail == invalid_detail(n)
        },
    }
}

/// Whether `decode` reads these bytes as text: no byte-order mark of
/// another encoding, no NUL in the sniffed prefix, and valid UTF-8.
pub open spec fn decodes(bytes: Seq<u8>) -> bool {
    mark_of(bytes) is None && !has_nul(bytes) && valid_utf8(bytes)
}

/// Bytes to text, or the refusal that says why not.
pub fn decode(bytes: &[u8]) -> (r: Decoded<'_>)
    ensures
        match r {
            Decoded::Text(text) => decodes(bytes@) && text.spec_bytes() == bytes@,
            Decoded::Refused(refusal) => !decodes(bytes@) && refusal_of(
                bytes@,
                refusal.reason,
                refusal.detail@,
            ),
        },
{
    if let Some(encoding) = byte_order_mark(bytes) {
        let mut out: Vec<char> = Vec::new();
        push_str(&mut out, "a ");
        push_str(&mut out, encoding);
        push_str(&mut out, " byte-order mark: this reads UTF-8 only, and decoding ");
        push_str(&mut out, encoding);
        push_str(
            &mut out,
            " as UTF-8 would invent invisible and unassigned characters that are not in the file",
        );
        proof {
            assert(out@ =~= mark_detail(encoding@));
        }
        return Decoded::Refused(
            Refusal { reason: Reason::EncodingUnknown, detail: string_of(out.as_slice()) },
        );
    }
    if let Some(at) = first_nul(bytes) {
        let mut out: Vec<char> = Vec::new();
        push_str(&mut out, "a NUL byte at byte ");
        push_decimal(&mut out, at as u64);
        push_str(&mut out, ": this was never a text candidate");
        proof {
            assert(out@ =~= nul_detail(at as nat));
            assert(first_nul_in(bytes@, at as int));
        }
        return Decoded::Refused(
            Refusal { reason: Reason::BinaryOrUndecodable, detail: string_of(out.as_slice()) },
        );
    }
    match from_utf8(bytes) {
        Ok(text) => Decoded::Text(text),
        Err(at) => {
            let mut out: Vec<char> = Vec::new();
            push_str(&mut out, "not valid UTF-8 at byte ");
            push_decimal(&mut out, at as u64);
            push_str(&mut out, ": the encoding is unknown and is not guessed");
            proof {
                assert(out@ =~= invalid_detail(at as nat));
                assert(valid_up_to(bytes@, at as nat));
            }
            Decoded::Refused(
                Refusal { reason: Reason::BinaryOrUndecodable, detail: string_of(out.as_slice()) },
            )
        },
    }
}

} // verus!
