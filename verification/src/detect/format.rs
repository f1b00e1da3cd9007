//! Which key-path reader a document gets.
//!
//! An unresolved format is not an error, and never a lost finding. A bidi
//! control is a bidi control in a `.md`, a `.json` and a file with no
//! extension, so the format decides exactly one thing: whether a finding
//! can be given the document's own name for where it sits. Everything
//! unrecognised falls through to the plain-text reader, which finds the
//! same findings and reports them without a key.

use crate::text::{equals_str, is_white_space, slice_chars, string_of, text_of, white_space};
use crate::unicode::{ascii_lowercase, lowercase, to_lowercase};
use vstd::utf8::is_ascii_chars;
use vstd::prelude::*;

verus! {

/// What the engine uses when it recognises nothing: `text`, which finds
/// exactly the findings any other reader finds and only has no keys.
pub open spec fn fallback() -> Seq<char> {
    "text"@
}

/// The reader key a name means, as a VS Code `languageId` or a file
/// extension; the fallback for anything else.
pub open spec fn canonical_key(name: Seq<char>) -> Seq<char> {
    if name == "json"@ || name == "jsonc"@ {
        "json"@
    } else if name == "yaml"@ || name == "yml"@ {
        "yaml"@
    } else if name == "csv"@ || name == "tsv"@ {
        "csv"@
    } else if name == "toml"@ {
        "toml"@
    } else if name == "ini"@ || name == "cfg"@ || name == "conf"@ || name == "properties"@ {
        "ini"@
    } else if name == "env"@ || name == "dotenv"@ {
        "env"@
    } else {
        fallback()
    }
}

/// Every alias, with the reader key it means.
pub open spec fn alias_table() -> Seq<(Seq<char>, Seq<char>)> {
    seq![
        ("json"@, "json"@),
        ("jsonc"@, "json"@),
        ("yaml"@, "yaml"@),
        ("yml"@, "yaml"@),
        ("csv"@, "csv"@),
        ("tsv"@, "csv"@),
        ("toml"@, "toml"@),
        ("ini"@, "ini"@),
        ("cfg"@, "ini"@),
        ("conf"@, "ini"@),
        ("properties"@, "ini"@),
        ("env"@, "env"@),
        ("dotenv"@, "env"@),
        ("text"@, "text"@),
        ("txt"@, "text"@),
    ]
}

/// The formats a caller can name.
pub open spec fn supported() -> Seq<Seq<char>> {
    seq!["json"@, "yaml"@, "csv"@, "toml"@, "ini"@, "env"@, "text"@]
}

pub open spec fn trim_start(s: Seq<char>) -> Seq<char>
    decreases s.len(),
{
    if s.len() > 0 && is_white_space(s[0]) {
        trim_start(s.drop_first())
    } else {
        s
    }
}

pub open spec fn trim_end(s: Seq<char>) -> Seq<char>
    decreases s.len(),
{
    if s.len() > 0 && is_white_space(s.last()) {
        trim_end(s.drop_last())
    } else {
        s
    }
}

pub open spec fn strip_dots(s: Seq<char>) -> Seq<char>
    decreases s.len(),
{
    if s.len() > 0 && s[0] == '.' {
        strip_dots(s.drop_first())
    } else {
        s
    }
}

/// Lower-cased: ASCII text by the ASCII mapping, anything else by the
/// Unicode one.
pub open spec fn lowered(s: Seq<char>) -> Seq<char> {
    if is_ascii_chars(s) {
        ascii_lowercase(s)
    } else {
        lowercase(s)
    }
}

/// Trimmed, lower-cased, and without leading dots: `  JSON ` and `.toml`
/// are `json` and `toml`.
pub open spec fn normalised(s: Seq<char>) -> Seq<char> {
    strip_dots(lowered(trim_end(trim_start(s))))
}

pub open spec fn is_path_separator(c: char) -> bool {
    c == '/' || c == '\\'
}

/// The last segment of a path, after the last `/` or `\`.
pub open spec fn last_segment(s: Seq<char>) -> Seq<char>
    decreases s.len(),
{
    if s.len() == 0 {
        s
    } else if is_path_separator(s.last()) {
        seq![]
    } else {
        last_segment(s.drop_last()).push(s.last())
    }
}

/// What follows the last `.`, if there is one.
pub open spec fn extension(s: Seq<char>) -> Option<Seq<char>>
    decreases s.len(),
{
    if s.len() == 0 {
        None
    } else if s.last() == '.' {
        Some(seq![])
    } else {
        match extension(s.drop_last()) {
            Some(e) => Some(e.push(s.last())),
            None => None,
        }
    }
}

/// The reader key for an explicit format, else for a filename's whole
/// last segment (a dotfile like `.env` has no extension to split on),
/// else for its extension, else the fallback.
pub open spec fn resolved(format: Option<Seq<char>>, filename: Option<Seq<char>>) -> Seq<char> {
    let direct = match format {
        Some(name) => canonical_key(normalised(name)),
        None => fallback(),
    };
    if direct != fallback() {
        direct
    } else {
        match filename {
            None => fallback(),
            Some(path) => {
                let base = last_segment(path);
                if canonical_key(normalised(base)) != fallback() {
                    canonical_key(normalised(base))
                } else {
                    match extension(base) {
                        Some(e) => canonical_key(normalised(e)),
                        None => fallback(),
                    }
                }
            },
        }
    }
}

/// The normalised name that decides a document's reader: the explicit
/// format where it names one, else the filename's whole last segment,
/// else its extension; `text` where nothing is named.
pub open spec fn deciding_name(format: Option<Seq<char>>, filename: Option<Seq<char>>) -> Seq<char> {
    let direct = match format {
        Some(name) => canonical_key(normalised(name)),
        None => fallback(),
    };
    if direct != fallback() {
        normalised(format->0)
    } else {
        match filename {
            None => fallback(),
            Some(path) => {
                let base = last_segment(path);
                if canonical_key(normalised(base)) != fallback() {
                    normalised(base)
                } else {
                    match extension(base) {
                        Some(e) => normalised(e),
                        None => fallback(),
                    }
                }
            },
        }
    }
}

/// The reader a document gets: the resolved format, except that a
/// tab-separated file, resolved as `csv`, is read on tabs under the key
/// `tsv`.
pub open spec fn reader(format: Option<Seq<char>>, filename: Option<Seq<char>>) -> Seq<char> {
    if deciding_name(format, filename) == "tsv"@ {
        "tsv"@
    } else {
        resolved(format, filename)
    }
}

/// Every offered format names itself, and nothing is offered that does
/// not resolve.
pub proof fn lemma_offered_formats_resolve_to_themselves()
    ensures
        forall|i: int|
            0 <= i < supported().len() ==> canonical_key(#[trigger] supported()[i]) == supported()[i],
{
    reveal_strlit("json");
    reveal_strlit("jsonc");
    reveal_strlit("yaml");
    reveal_strlit("yml");
    reveal_strlit("csv");
    reveal_strlit("tsv");
    reveal_strlit("toml");
    reveal_strlit("ini");
    reveal_strlit("cfg");
    reveal_strlit("conf");
    reveal_strlit("properties");
    reveal_strlit("env");
    reveal_strlit("dotenv");
    reveal_strlit("text");
    reveal_strlit("txt");
    assert("json"@[0] == 'j' && "json"@[1] == 's');
    assert("jsonc"@[0] == 'j' && "jsonc"@[1] == 's');
    assert("yaml"@[0] == 'y' && "yaml"@[1] == 'a');
    assert("yml"@[0] == 'y' && "yml"@[1] == 'm');
    assert("csv"@[0] == 'c' && "csv"@[1] == 's');
    assert("tsv"@[0] == 't' && "tsv"@[1] == 's');
    assert("toml"@[0] == 't' && "toml"@[1] == 'o');
    assert("ini"@[0] == 'i' && "ini"@[1] == 'n');
    assert("cfg"@[0] == 'c' && "cfg"@[1] == 'f');
    assert("conf"@[0] == 'c' && "conf"@[1] == 'o');
    assert("properties"@[0] == 'p' && "properties"@[1] == 'r');
    assert("env"@[0] == 'e' && "env"@[1] == 'n');
    assert("dotenv"@[0] == 'd' && "dotenv"@[1] == 'o');
    assert("text"@[0] == 't' && "text"@[1] == 'e');
    assert("txt"@[0] == 't' && "txt"@[1] == 'x');
    assert forall|i: int| 0 <= i < supported().len() implies canonical_key(
        #[trigger] supported()[i],
    ) == supported()[i] by {
        if i == 0 {
            assert(canonical_key(supported()[0]) == supported()[0]);
        } else if i == 1 {
            assert(canonical_key(supported()[1]) == supported()[1]);
        } else if i == 2 {
            assert(canonical_key(supported()[2]) == supported()[2]);
        } else if i == 3 {
            assert(canonical_key(supported()[3]) == supported()[3]);
        } else if i == 4 {
            assert(canonical_key(supported()[4]) == supported()[4]);
        } else if i == 5 {
            assert(canonical_key(supported()[5]) == supported()[5]);
        } else if i == 6 {
            assert(canonical_key(supported()[6]) == supported()[6]);
        }
    }
}

/// The alias table and the offered list agree: every alias means its key,
/// and every key an alias means is offered.
pub proof fn lemma_aliases_match_the_offered_list()
    ensures
        forall|i: int|
            0 <= i < alias_table().len() ==> canonical_key(#[trigger] alias_table()[i].0)
                == alias_table()[i].1,
        forall|i: int|
            0 <= i < alias_table().len() ==> supported().contains(#[trigger] alias_table()[i].1),
{
    reveal_strlit("json");
    reveal_strlit("jsonc");
    reveal_strlit("yaml");
    reveal_strlit("yml");
    reveal_strlit("csv");
    reveal_strlit("tsv");
    reveal_strlit("toml");
    reveal_strlit("ini");
    reveal_strlit("cfg");
    reveal_strlit("conf");
    reveal_strlit("properties");
    reveal_strlit("env");
    reveal_strlit("dotenv");
    reveal_strlit("text");
    reveal_strlit("txt");
    assert("json"@[0] == 'j' && "json"@[1] == 's');
    assert("jsonc"@[0] == 'j' && "jsonc"@[1] == 's');
    assert("yaml"@[0] == 'y' && "yaml"@[1] == 'a');
    assert("yml"@[0] == 'y' && "yml"@[1] == 'm');
    assert("csv"@[0] == 'c' && "csv"@[1] == 's');
    assert("tsv"@[0] == 't' && "tsv"@[1] == 's');
    assert("toml"@[0] == 't' && "toml"@[1] == 'o');
    assert("ini"@[0] == 'i' && "ini"@[1] == 'n');
    assert("cfg"@[0] == 'c' && "cfg"@[1] == 'f');
    assert("conf"@[0] == 'c' && "conf"@[1] == 'o');
    assert("properties"@[0] == 'p' && "properties"@[1] == 'r');
    assert("env"@[0] == 'e' && "env"@[1] == 'n');
    assert("dotenv"@[0] == 'd' && "dotenv"@[1] == 'o');
    assert("text"@[0] == 't' && "text"@[1] == 'e');
    assert("txt"@[0] == 't' && "txt"@[1] == 'x');
    assert(supported()[0] == "json"@);
    assert(supported()[1] == "yaml"@);
    assert(supported()[2] == "csv"@);
    assert(supported()[3] == "toml"@);
    assert(supported()[4] == "ini"@);
    assert(supported()[5] == "env"@);
    assert(supported()[6] == "text"@);
    assert forall|i: int| 0 <= i < alias_table().len() implies canonical_key(
        #[trigger] alias_table()[i].0,
    ) == alias_table()[i].1 && supported().contains(alias_table()[i].1) by {
        if i == 0 {
            assert(canonical_key(alias_table()[0].0) == alias_table()[0].1);
            assert(supported().contains(alias_table()[0].1));
        } else if i == 1 {
            assert(canonical_key(alias_table()[1].0) == alias_table()[1].1);
            assert(supported().contains(alias_table()[1].1));
        } else if i == 2 {
            assert(canonical_key(alias_table()[2].0) == alias_table()[2].1);
            assert(supported().contains(alias_table()[2].1));
        } else if i == 3 {
            assert(canonical_key(alias_table()[3].0) == alias_table()[3].1);
            assert(supported().contains(alias_table()[3].1));
        } else if i == 4 {
            assert(canonical_key(alias_table()[4].0) == alias_table()[4].1);
            assert(supported().contains(alias_table()[4].1));
        } else if i == 5 {
            assert(canonical_key(alias_table()[5].0) == alias_table()[5].1);
            assert(supported().contains(alias_table()[5].1));
        } else if i == 6 {
            assert(canonical_key(alias_table()[6].0) == alias_table()[6].1);
            assert(supported().contains(alias_table()[6].1));
        } else if i == 7 {
            assert(canonical_key(alias_table()[7].0) == alias_table()[7].1);
            assert(supported().contains(alias_table()[7].1));
        } else if i == 8 {
            assert(canonical_key(alias_table()[8].0) == alias_table()[8].1);
            assert(supported().contains(alias_table()[8].1));
        } else if i == 9 {
            assert(canonical_key(alias_table()[9].0) == alias_table()[9].1);
            assert(supported().contains(alias_table()[9].1));
        } else if i == 10 {
            assert(canonical_key(alias_table()[10].0) == alias_table()[10].1);
            assert(supported().contains(alias_table()[10].1));
        } else if i == 11 {
            assert(canonical_key(alias_table()[11].0) == alias_table()[11].1);
            assert(supported().contains(alias_table()[11].1));
        } else if i == 12 {
            assert(canonical_key(alias_table()[12].0) == alias_table()[12].1);
            assert(supported().contains(alias_table()[12].1));
        } else if i == 13 {
            assert(canonical_key(alias_table()[13].0) == alias_table()[13].1);
            assert(supported().contains(alias_table()[13].1));
        } else if i == 14 {
            assert(canonical_key(alias_table()[14].0) == alias_table()[14].1);
            assert(supported().contains(alias_table()[14].1));
        }
    }
}

/// A name of lower-case ASCII letters is its own normal form.
proof fn lemma_plain_name_is_normal(s: Seq<char>)
    requires
        s.len() > 0,
        forall|i: int| 0 <= i < s.len() ==> 0x61 <= (#[trigger] s[i] as u32) <= 0x7A,
    ensures
        normalised(s) == s,
{
    assert(0x61 <= (s[0] as u32) <= 0x7A);
    assert(0x61 <= (s[s.len() - 1] as u32) <= 0x7A);
    assert(trim_start(s) == s);
    assert(trim_end(s) == s);
    assert(is_ascii_chars(s)) by {
        assert forall|i: int| 0 <= i < s.len() implies '\0' <= #[trigger] s[i] <= '\u{7f}' by {
            let v = s[i] as u32;
            assert(0x61 <= v <= 0x7A);
            vstd::utf8::char_u32_cast(s[i], v);
            assert((v as char) <= '\u{7f}');
        }
    }
    assert(ascii_lowercase(s) =~= s) by {
        assert forall|i: int| 0 <= i < s.len() implies #[trigger] ascii_lowercase(s)[i] == s[i] by {
            assert(0x61 <= (s[i] as u32) <= 0x7A);
        }
    }
    assert(strip_dots(s) == s);
}

/// Every offered format, named as itself, resolves to itself.
pub proof fn lemma_offered_formats_name_themselves()
    ensures
        forall|i: int|
            0 <= i < supported().len() ==> resolved(Some(#[trigger] supported()[i]), None)
                == supported()[i],
{
    lemma_offered_formats_resolve_to_themselves();
    reveal_strlit("json");
    reveal_strlit("yaml");
    reveal_strlit("csv");
    reveal_strlit("toml");
    reveal_strlit("ini");
    reveal_strlit("env");
    reveal_strlit("text");
    assert forall|i: int| 0 <= i < supported().len() implies resolved(
        Some(#[trigger] supported()[i]),
        None,
    ) == supported()[i] by {
        let s = supported()[i];
        assert forall|k: int| 0 <= k < s.len() implies 0x61 <= (#[trigger] s[k] as u32) <= 0x7A by {
            if i == 0 {
            } else if i == 1 {
            } else if i == 2 {
            } else if i == 3 {
            } else if i == 4 {
            } else if i == 5 {
            } else {
            }
        }
        lemma_plain_name_is_normal(s);
        if canonical_key(s) == fallback() {
            assert(s == fallback());
        }
    }
}

/// The alias table, for callers that list it.
pub fn aliases() -> (r: Vec<(&'static str, &'static str)>)
    ensures
        r@.map_values(|e: (&'static str, &'static str)| (e.0@, e.1@)) == alias_table(),
{
    let r = vec![
        ("json", "json"),
        ("jsonc", "json"),
        ("yaml", "yaml"),
        ("yml", "yaml"),
        ("csv", "csv"),
        ("tsv", "csv"),
        ("toml", "toml"),
        ("ini", "ini"),
        ("cfg", "ini"),
        ("conf", "ini"),
        ("properties", "ini"),
        ("env", "env"),
        ("dotenv", "env"),
        ("text", "text"),
        ("txt", "text"),
    ];
    proof {
        assert(r@.map_values(|e: (&'static str, &'static str)| (e.0@, e.1@)) =~= alias_table());
    }
    r
}

/// The formats a caller can name, for a tool schema's enum.
pub fn supported_formats() -> (r: Vec<&'static str>)
    ensures
        r@.map_values(|f: &'static str| f@) == supported(),
{
    let r = vec!["json", "yaml", "csv", "toml", "ini", "env", "text"];
    proof {
        assert(r@.map_values(|f: &'static str| f@) =~= supported());
    }
    r
}

/// What the engine uses when it recognises nothing.
pub fn fallback_format() -> (r: &'static str)
    ensures
        r@ == fallback(),
{
    "text"
}

fn trimmed(cs: &[char]) -> (r: Vec<char>)
    ensures
        r@ == trim_end(trim_start(cs@)),
{
    let mut start: usize = 0;
    let end: usize = cs.len();
    proof {
        assert(cs@.subrange(0, cs@.len() as int) =~= cs@);
    }
    while start < end && white_space(cs[start])
        invariant
            0 <= start <= end == cs.len(),
            trim_start(cs@) == trim_start(cs@.subrange(start as int, end as int)),
        decreases end - start,
    {
        proof {
            assert(cs@.subrange(start as int, end as int).drop_first() =~= cs@.subrange(
                start + 1,
                end as int,
            ));
        }
        start = start + 1;
    }
    let mut stop: usize = end;
    while stop > start && white_space(cs[stop - 1])
        invariant
            0 <= start <= stop <= cs.len(),
            trim_end(trim_start(cs@)) == trim_end(cs@.subrange(start as int, stop as int)),
        decreases stop - start,
    {
        proof {
            assert(cs@.subrange(start as int, stop as int).drop_last() =~= cs@.subrange(
                start as int,
                stop - 1,
            ));
        }
        stop = stop - 1;
    }
    slice_chars(cs, start, stop)
}

fn without_leading_dots(cs: &[char]) -> (r: Vec<char>)
    ensures
        r@ == strip_dots(cs@),
{
    let mut k: usize = 0;
    proof {
        assert(cs@.subrange(0, cs@.len() as int) =~= cs@);
    }
    while k < cs.len() && cs[k] == '.'
        invariant
            0 <= k <= cs.len(),
            strip_dots(cs@) == strip_dots(cs@.subrange(k as int, cs@.len() as int)),
        decreases cs.len() - k,
    {
        proof {
            assert(cs@.subrange(k as int, cs@.len() as int).drop_first() =~= cs@.subrange(
                k + 1,
                cs@.len() as int,
            ));
        }
        k = k + 1;
    }
    slice_chars(cs, k, cs.len())
}

/// Trimmed, lower-cased, and without leading dots.
pub fn normalise(value: &str) -> (r: Vec<char>)
    ensures
        r@ == normalised(value@),
{
    let cs = text_of(value).chars;
    let trim = trimmed(cs.as_slice());
    let lower = to_lowercase(trim.as_slice());
    without_leading_dots(lower.as_slice())
}

/// The reader key for an already-normalised format name, or the fallback.
pub fn canonical(format: &[char]) -> (r: &'static str)
    ensures
        r@ == canonical_key(format@),
{
    if equals_str(format, "json") || equals_str(format, "jsonc") {
        "json"
    } else if equals_str(format, "yaml") || equals_str(format, "yml") {
        "yaml"
    } else if equals_str(format, "csv") || equals_str(format, "tsv") {
        "csv"
    } else if equals_str(format, "toml") {
        "toml"
    } else if equals_str(format, "ini") || equals_str(format, "cfg") || equals_str(format, "conf")
        || equals_str(format, "properties") {
        "ini"
    } else if equals_str(format, "env") || equals_str(format, "dotenv") {
        "env"
    } else {
        "text"
    }
}

fn is_fallback(key: &str) -> (r: bool)
    ensures
        r == (key@ == fallback()),
{
    let cs = text_of(key).chars;
    equals_str(cs.as_slice(), "text")
}

/// Resolve a reader key from an explicit format, else from a filename,
/// else the fallback. Only the last segment of a path decides: a directory
/// called `locales.json` does not make every file under it JSON.
pub fn resolve_format(format: Option<&str>, filename: Option<&str>) -> (r: &'static str)
    ensures
        r@ == resolved(
            match format {
                Some(f) => Some(f@),
                None => None,
            },
            match filename {
                Some(f) => Some(f@),
                None => None,
            },
        ),
{
    resolve_named(format, filename).0
}

/// The reader a document gets: its resolved format, with a tab-separated
/// file read on tabs.
pub fn reader_key(format: Option<&str>, filename: Option<&str>) -> (r: &'static str)
    ensures
        r@ == reader(
            match format {
                Some(f) => Some(f@),
                None => None,
            },
            match filename {
                Some(f) => Some(f@),
                None => None,
            },
        ),
{
    let (key, name) = resolve_named(format, filename);
    if equals_str(name.as_slice(), "tsv") {
        "tsv"
    } else {
        key
    }
}

/// The resolved format, and the normalised name that decided it.
fn resolve_named(format: Option<&str>, filename: Option<&str>) -> (r: (&'static str, Vec<char>))
    ensures
        r.0@ == resolved(
            match format {
                Some(f) => Some(f@),
                None => None,
            },
            match filename {
                Some(f) => Some(f@),
                None => None,
            },
        ),
        r.1@ == deciding_name(
            match format {
                Some(f) => Some(f@),
                None => None,
            },
            match filename {
                Some(f) => Some(f@),
                None => None,
            },
        ),
{
    if let Some(name) = format {
        let normal = normalise(name);
        let direct = canonical(normal.as_slice());
        if !is_fallback(direct) {
            return (direct, normal);
        }
    }
    let path = match filename {
        Some(path) => path,
        None => return ("text", text_of("text").chars),
    };
    let cs = text_of(path).chars;
    // The last segment: after the last `/` or `\`.
    let mut cut: usize = cs.len();
    proof {
        assert(path@.subrange(cut as int, cs.len() as int) =~= Seq::<char>::empty());
        assert(path@.take(cut as int) =~= path@);
    }
    while cut > 0 && cs[cut - 1] != '/' && cs[cut - 1] != '\\'
        invariant
            cs@ == path@,
            0 <= cut <= cs.len(),
            last_segment(path@) == last_segment(path@.take(cut as int)) + path@.subrange(
                cut as int,
                cs.len() as int,
            ),
        decreases cut,
    {
        proof {
            let t = path@.take(cut as int);
            assert(t.drop_last() =~= path@.take(cut - 1));
            assert(t.last() == path@[cut - 1]);
            assert(path@.subrange(cut - 1, cs.len() as int) =~= seq![path@[cut - 1]]
                + path@.subrange(cut as int, cs.len() as int));
            assert(last_segment(t) == last_segment(path@.take(cut - 1)).push(path@[cut - 1]));
            assert(last_segment(path@.take(cut - 1)).push(path@[cut - 1]) + path@.subrange(
                cut as int,
                cs.len() as int,
            ) =~= last_segment(path@.take(cut - 1)) + path@.subrange(cut - 1, cs.len() as int));
        }
        cut = cut - 1;
    }
    proof {
        if cut > 0 {
            assert(last_segment(path@.take(cut as int)) =~= Seq::<char>::empty());
        } else {
            assert(path@.take(0) =~= Seq::<char>::empty());
        }
    }
    let mut base: Vec<char> = Vec::new();
    let mut i: usize = cut;
    while i < cs.len()
        invariant
            cs@ == path@,
            cut <= i <= cs.len(),
            base@ == path@.subrange(cut as int, i as int),
        decreases cs.len() - i,
    {
        base.push(cs[i]);
        proof {
            assert(path@.subrange(cut as int, i + 1) =~= path@.subrange(cut as int, i as int).push(
                path@[i as int],
            ));
        }
        i = i + 1;
    }
    proof {
        assert(base@ =~= last_segment(path@));
    }
    let base_text = string_of(base.as_slice());
    let whole_name = normalise(base_text.as_str());
    let whole = canonical(whole_name.as_slice());
    if !is_fallback(whole) {
        return (whole, whole_name);
    }
    // The extension: after the last `.`.
    let mut dot: usize = base.len();
    proof {
        assert(base@.take(dot as int) =~= base@);
    }
    while dot > 0 && base[dot - 1] != '.'
        invariant
            0 <= dot <= base.len(),
            extension(base@) == match extension(base@.take(dot as int)) {
                Some(e) => Some(e + base@.subrange(dot as int, base@.len() as int)),
                None => None,
            },
        decreases dot,
    {
        proof {
            let t = base@.take(dot as int);
            assert(t.drop_last() =~= base@.take(dot - 1));
            assert(t.last() == base@[dot - 1]);
            match extension(base@.take(dot - 1)) {
                Some(e) => {
                    assert(e.push(base@[dot - 1]) + base@.subrange(dot as int, base@.len() as int)
                        =~= e + base@.subrange(dot - 1, base@.len() as int));
                },
                None => {},
            }
        }
        dot = dot - 1;
    }
    if dot == 0 {
        proof {
            assert(base@.take(0) =~= Seq::<char>::empty());
        }
        return ("text", text_of("text").chars);
    }
    proof {
        let t = base@.take(dot as int);
        assert(t.last() == '.');
        assert(extension(t) == Some(Seq::<char>::empty()));
        assert(Seq::<char>::empty() + base@.subrange(dot as int, base@.len() as int)
            =~= base@.subrange(dot as int, base@.len() as int));
    }
    let mut ext: Vec<char> = Vec::new();
    let mut m: usize = dot;
    while m < base.len()
        invariant
            dot <= m <= base.len(),
            ext@ == base@.subrange(dot as int, m as int),
        decreases base.len() - m,
    {
        ext.push(base[m]);
        proof {
            assert(base@.subrange(dot as int, m + 1) =~= base@.subrange(dot as int, m as int).push(
                base@[m as int],
            ));
        }
        m = m + 1;
    }
    let ext_text = string_of(ext.as_slice());
    let ext_name = normalise(ext_text.as_str());
    (canonical(ext_name.as_slice()), ext_name)
}

} // verus!
