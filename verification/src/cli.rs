//! The terminal surface's decisions: what the arguments mean, and what
//! the human half of the output says.
//!
//! stdout is always protocol, one JSON report for the run; stderr is for
//! the human and is a projection of that same report. Reading arguments
//! and writing streams is the program's job; everything they decide is
//! here.

use crate::detect::scripts::{is_placeholder, named_script, parse_script, placeholder_message, unknown_script_message};
use crate::detect::{kind_token, parse_kind, unknown_kind_message, Kind, Options, Reason};
use crate::detect::format::{trim_end, trim_start};
use crate::escape::{escaped, text as escape_text};
use crate::scan::{description, describe, FailOn, Report};
use crate::text::{
    back_white, decimal, equals_str, find_char, find_from, push_chars, push_decimal, push_str,
    skip_white, slice_chars, string_of, text_of,
};
use vstd::prelude::*;

verus! {

pub const USAGE: &'static str = "usage: unicode-le [options] <file|dir>...
       unicode-le [options] --stdin
       unicode-le mcp
       unicode-le --version | --help

Finds the Unicode characters in a tree that hide meaning: the Trojan
Source bidirectional controls, invisibles, homoglyphs, words that mix
scripts, text that is not in NFC, spaces that are not the space, and
codepoints with no assigned meaning.

It reports codepoints, never the characters themselves: a report that
quoted them would carry the attack to whoever read it. It never rewrites
a file: what form your text is in is reported, not corrected.

A file plainly written in another script is not judged for confusables,
and says so. Without being told which script to expect there is no way
to tell a forged name from a translated one, and guessing would bury the
real findings under every word of every translation.

Options:
  --kind <kind>     report only these kinds (repeatable, comma-separated):
                    bidi, invisible, confusable, mixed-script, non-nfc,
                    whitespace, unassigned
  --script <tag>    a non-Latin script this tree is expected to contain,
                    by Unicode name or ISO 15924 tag (repeatable,
                    comma-separated), e.g. Han or Cyrillic
  --fail-on <what>  what exits 1: any finding, or bidi for the Trojan
                    Source class alone (default any)
  --strict          exit 2 if any file was refused, rather than reporting
                    it and carrying on
  --stdin           read one document from stdin
  --hidden          walk hidden files and directories too
  --no-ignore       walk files that .gitignore excludes

Exit codes: 0 clean, 1 findings, 2 the question was malformed.";

/// Every flag the parser accepts.
pub open spec fn is_flag(arg: Seq<char>) -> bool {
    ||| arg == "--kind"@
    ||| arg == "--script"@
    ||| arg == "--fail-on"@
    ||| arg == "--strict"@
    ||| arg == "--stdin"@
    ||| arg == "--hidden"@
    ||| arg == "--no-ignore"@
}

/// The flags in the order the usage text lists them.
pub open spec fn flag_list() -> Seq<Seq<char>> {
    seq!["--kind"@, "--script"@, "--fail-on"@, "--strict"@, "--stdin"@, "--hidden"@, "--no-ignore"@]
}

/// Every flag the parser accepts, as the usage text lists them.
pub fn flags() -> (r: Vec<&'static str>)
    ensures
        r@.map_values(|f: &'static str| f@) == flag_list(),
        forall|i: int| 0 <= i < r.len() ==> is_flag(#[trigger] r@[i]@),
{
    let r = vec!["--kind", "--script", "--fail-on", "--strict", "--stdin", "--hidden", "--no-ignore"];
    proof {
        assert(r@.map_values(|f: &'static str| f@) =~= flag_list());
        assert forall|i: int| 0 <= i < r.len() implies is_flag(#[trigger] r@[i]@) by {
            assert(r@[i]@ == flag_list()[i]);
        }
    }
    r
}

/// The values `--fail-on` accepts.
pub fn fail_on_values() -> (r: Vec<&'static str>)
    ensures
        r@.map_values(|v: &'static str| v@) == seq!["any"@, "bidi"@],
{
    let r = vec!["any", "bidi"];
    proof {
        assert(r@.map_values(|v: &'static str| v@) =~= seq!["any"@, "bidi"@]);
    }
    r
}

/// How directories are walked.
#[derive(Debug)]
pub struct WalkOptions {
    pub hidden: bool,
    pub respect_ignore: bool,
}

impl Default for WalkOptions {
    fn default() -> (r: WalkOptions)
        ensures
            !r.hidden,
            r.respect_ignore,
    {
        WalkOptions { hidden: false, respect_ignore: true }
    }
}

/// What the command line asked for.
#[derive(Debug)]
pub struct Arguments {
    pub strict: bool,
    pub inputs: Vec<String>,
    pub stdin: bool,
    pub fail_on: FailOn,
    pub detect: Options,
    pub walk: WalkOptions,
}

/// The arguments read so far, as a value.
#[verifier::ext_equal]
pub ghost struct ParseView {
    pub strict: bool,
    pub inputs: Seq<Seq<char>>,
    pub stdin: bool,
    pub fail_on: FailOn,
    pub kinds: Seq<Kind>,
    pub scripts: Seq<u8>,
    pub hidden: bool,
    pub respect_ignore: bool,
}

impl View for Arguments {
    type V = ParseView;

    open spec fn view(&self) -> ParseView {
        ParseView {
            strict: self.strict,
            inputs: self.inputs@.map_values(|s: String| s@),
            stdin: self.stdin,
            fail_on: self.fail_on,
            kinds: self.detect.kinds@,
            scripts: self.detect.expected_scripts@,
            hidden: self.walk.hidden,
            respect_ignore: self.walk.respect_ignore,
        }
    }
}

pub open spec fn initial_arguments() -> ParseView {
    ParseView {
        strict: false,
        inputs: seq![],
        stdin: false,
        fail_on: FailOn::Any,
        kinds: seq![],
        scripts: seq![],
        hidden: false,
        respect_ignore: true,
    }
}

/// The comma-separated pieces of `s` from index `i` on.
pub open spec fn pieces_from(s: Seq<char>, i: int) -> Seq<Seq<char>>
    decreases s.len() - i,
{
    if i < 0 || i > s.len() {
        seq![]
    } else {
        let j = find_from(s, ',', i);
        if j >= s.len() || j < i {
            seq![s.subrange(i, s.len() as int)]
        } else {
            seq![s.subrange(i, j)] + pieces_from(s, j + 1)
        }
    }
}

/// The trimmed, non-empty pieces of a comma-separated value.
pub open spec fn tokens_of(pieces: Seq<Seq<char>>) -> Seq<Seq<char>>
    decreases pieces.len(),
{
    if pieces.len() == 0 {
        seq![]
    } else {
        let before = tokens_of(pieces.drop_last());
        let t = trim_end(trim_start(pieces.last()));
        if t.len() > 0 {
            before.push(t)
        } else {
            before
        }
    }
}

pub open spec fn needs_value(flag: Seq<char>) -> Seq<char> {
    flag + " needs a value"@
}

/// The values after a flag: comma-separated, trimmed, empty ones dropped;
/// none at all is a refusal, since `--kind ""` asking for nothing is a
/// typo every time.
pub open spec fn values_of(raw: Option<Seq<char>>, flag: Seq<char>) -> Result<Seq<Seq<char>>, Seq<char>> {
    match raw {
        None => Err(needs_value(flag)),
        Some(text) => {
            let tokens = tokens_of(pieces_from(text, 0));
            if tokens.len() == 0 {
                Err(needs_value(flag))
            } else {
                Ok(tokens)
            }
        },
    }
}

/// The tokens joined by commas.
pub open spec fn comma_joined(tokens: Seq<Seq<char>>) -> Seq<char>
    decreases tokens.len(),
{
    if tokens.len() == 0 {
        seq![]
    } else if tokens.len() == 1 {
        tokens[0]
    } else {
        comma_joined(tokens.drop_last()) + ","@ + tokens.last()
    }
}

pub open spec fn fail_on_of(value: Seq<char>) -> Result<FailOn, Seq<char>> {
    if value == "any"@ {
        Ok(FailOn::Any)
    } else if value == "bidi"@ {
        Ok(FailOn::Bidi)
    } else {
        Err(value + " is not something to fail on; one of: any, bidi"@)
    }
}

/// The kinds named by the tokens, or the refusal of the first that names
/// none.
pub open spec fn kinds_of(tokens: Seq<Seq<char>>) -> Result<Seq<Kind>, Seq<char>>
    decreases tokens.len(),
{
    if tokens.len() == 0 {
        Ok(seq![])
    } else {
        match kinds_of(tokens.drop_last()) {
            Err(e) => Err(e),
            Ok(kinds) => match kind_token(tokens.last()) {
                Some(k) => Ok(kinds.push(k)),
                None => Err(unknown_kind_message(tokens.last())),
            },
        }
    }
}

pub open spec fn script_result(tag: Seq<char>) -> Result<u8, Seq<char>> {
    match named_script(tag) {
        None => Err(unknown_script_message(tag)),
        Some(s) => if is_placeholder(s) {
            Err(placeholder_message(tag))
        } else {
            Ok(s)
        },
    }
}

/// The scripts named by the tokens, or the refusal of the first that
/// names none.
pub open spec fn scripts_of_tokens(tokens: Seq<Seq<char>>) -> Result<Seq<u8>, Seq<char>>
    decreases tokens.len(),
{
    if tokens.len() == 0 {
        Ok(seq![])
    } else {
        match scripts_of_tokens(tokens.drop_last()) {
            Err(e) => Err(e),
            Ok(scripts) => match script_result(tokens.last()) {
                Ok(s) => Ok(scripts.push(s)),
                Err(e) => Err(e),
            },
        }
    }
}

pub open spec fn next_arg(args: Seq<Seq<char>>, i: int) -> Option<Seq<char>> {
    if 0 <= i + 1 < args.len() {
        Some(args[i + 1])
    } else {
        None
    }
}

/// The whole command line read, checked for the two ways it can name
/// nothing or too much.
pub open spec fn finished(st: ParseView) -> Result<ParseView, Seq<char>> {
    if st.stdin && st.inputs.len() > 0 {
        Err("reading from stdin takes no file arguments"@)
    } else if !st.stdin && st.inputs.len() == 0 {
        Err("name a file or a directory to scan. Try --help."@)
    } else {
        Ok(st)
    }
}

/// What the arguments from index `i` on make of the state so far. Parsing
/// is strict, never a silent default: an unknown flag is refused by name.
pub open spec fn parse_from(args: Seq<Seq<char>>, i: int, st: ParseView) -> Result<ParseView, Seq<char>>
    decreases args.len() - i,
{
    if i < 0 || i >= args.len() {
        finished(st)
    } else {
        let arg = args[i];
        if arg.len() > 0 && arg[0] == '-' && !is_flag(arg) {
            Err(arg + " is not an option. Try --help."@)
        } else if arg == "--stdin"@ {
            parse_from(args, i + 1, ParseView { stdin: true, ..st })
        } else if arg == "--strict"@ {
            parse_from(args, i + 1, ParseView { strict: true, ..st })
        } else if arg == "--hidden"@ {
            parse_from(args, i + 1, ParseView { hidden: true, ..st })
        } else if arg == "--no-ignore"@ {
            parse_from(args, i + 1, ParseView { respect_ignore: false, ..st })
        } else if arg == "--kind"@ {
            match values_of(next_arg(args, i), arg) {
                Err(e) => Err(e),
                Ok(tokens) => match kinds_of(tokens) {
                    Err(e) => Err(e),
                    Ok(kinds) => parse_from(args, i + 2, ParseView { kinds: st.kinds + kinds, ..st }),
                },
            }
        } else if arg == "--script"@ {
            match values_of(next_arg(args, i), arg) {
                Err(e) => Err(e),
                Ok(tokens) => match scripts_of_tokens(tokens) {
                    Err(e) => Err(e),
                    Ok(scripts) => parse_from(
                        args,
                        i + 2,
                        ParseView { scripts: st.scripts + scripts, ..st },
                    ),
                },
            }
        } else if arg == "--fail-on"@ {
            match values_of(next_arg(args, i), arg) {
                Err(e) => Err(e),
                Ok(tokens) => match fail_on_of(comma_joined(tokens)) {
                    Err(e) => Err(e),
                    Ok(f) => parse_from(args, i + 2, ParseView { fail_on: f, ..st }),
                },
            }
        } else {
            parse_from(args, i + 1, ParseView { inputs: st.inputs.push(arg), ..st })
        }
    }
}

/// What a command line asks for.
pub open spec fn parsed(args: Seq<Seq<char>>) -> Result<ParseView, Seq<char>> {
    parse_from(args, 0, initial_arguments())
}

proof fn lemma_find_bounds(s: Seq<char>, i: int)
    requires
        0 <= i <= s.len(),
    ensures
        i <= find_from(s, ',', i) <= s.len(),
{
    crate::text::lemma_find_from(s, ',', i);
}

/// The comma-separated values after a flag.
pub fn values(raw: Option<&str>, flag: &str) -> (r: Result<Vec<String>, String>)
    ensures
        match values_of(
            match raw {
                Some(t) => Some(t@),
                None => None,
            },
            flag@,
        ) {
            Ok(tokens) => r matches Ok(v) && v.deep_view() == tokens,
            Err(e) => r matches Err(m) && m@ == e,
        },
{
    let text = match raw {
        Some(text) => text,
        None => {
            let mut message = text_of(flag).chars;
            push_str(&mut message, " needs a value");
            return Err(string_of(message.as_slice()));
        },
    };
    let cs = text_of(text).chars;
    let n = cs.len();
    let mut tokens: Vec<String> = Vec::new();
    let ghost mut pieces_seen: Seq<Seq<char>> = seq![];
    let mut i: usize = 0;
    proof {
        assert(pieces_from(text@, 0) =~= pieces_seen + pieces_from(text@, 0));
    }
    loop
        invariant_except_break
            cs@ == text@,
            n == cs.len(),
            0 <= i <= n,
            pieces_seen + pieces_from(text@, i as int) == pieces_from(text@, 0),
            tokens.deep_view() == tokens_of(pieces_seen),
        ensures
            tokens.deep_view() == tokens_of(pieces_from(text@, 0)),
        decreases n - i,
    {
        proof {
            lemma_find_bounds(text@, i as int);
        }
        let j = find_char(cs.as_slice(), ',', i);
        let s = skip_white(cs.as_slice(), i, j);
        let e = back_white(cs.as_slice(), s, j);
        let ghost piece = text@.subrange(i as int, j as int);
        proof {
            lemma_trim_bounds(text@, i as int, j as int);
        }
        if s < e {
            tokens.push(string_of(slice_chars(cs.as_slice(), s, e).as_slice()));
        }
        proof {
            let seen = pieces_seen.push(piece);
            assert(seen.drop_last() =~= pieces_seen);
            assert(seen.last() == piece);
            assert(tokens.deep_view() =~= tokens_of(seen));
        }
        if j >= n {
            proof {
                assert(pieces_from(text@, i as int) =~= seq![piece]);
                assert(pieces_seen.push(piece) =~= pieces_from(text@, 0));
            }
            break;
        }
        proof {
            assert(pieces_from(text@, i as int) =~= seq![piece] + pieces_from(text@, j + 1));
            assert(pieces_seen.push(piece) + pieces_from(text@, j + 1) =~= pieces_seen + pieces_from(
                text@,
                i as int,
            ));
            pieces_seen = pieces_seen.push(piece);
        }
        i = j + 1;
    }
    if tokens.len() == 0 {
        let mut message = text_of(flag).chars;
        push_str(&mut message, " needs a value");
        return Err(string_of(message.as_slice()));
    }
    Ok(tokens)
}

/// `trim` of the characters `[i, j)` is the characters `[s, e)` that the
/// white-space scans find.
proof fn lemma_trim_bounds(s: Seq<char>, i: int, j: int)
    requires
        0 <= i <= j <= s.len(),
    ensures
        trim_end(trim_start(s.subrange(i, j))) == s.subrange(
            crate::text::skip_ws(s, i, j),
            crate::text::back_ws(s, crate::text::skip_ws(s, i, j), j),
        ),
{
    lemma_trim_start(s, i, j);
    let a = crate::text::skip_ws(s, i, j);
    crate::text::lemma_skip_ws(s, i, j);
    lemma_trim_end(s, a, j);
}

proof fn lemma_trim_start(s: Seq<char>, i: int, j: int)
    requires
        0 <= i <= j <= s.len(),
    ensures
        trim_start(s.subrange(i, j)) == s.subrange(crate::text::skip_ws(s, i, j), j),
    decreases j - i,
{
    if i < j && crate::text::is_white_space(s[i]) {
        assert(s.subrange(i, j).drop_first() =~= s.subrange(i + 1, j));
        lemma_trim_start(s, i + 1, j);
    }
}

proof fn lemma_trim_end(s: Seq<char>, a: int, j: int)
    requires
        0 <= a <= j <= s.len(),
    ensures
        trim_end(s.subrange(a, j)) == s.subrange(a, crate::text::back_ws(s, a, j)),
    decreases j - a,
{
    if j > a && crate::text::is_white_space(s[j - 1]) {
        assert(s.subrange(a, j).drop_last() =~= s.subrange(a, j - 1));
        lemma_trim_end(s, a, j - 1);
    }
}

/// What `--fail-on` accepts: any finding, or the Trojan Source class.
pub fn fail_on(value: &str) -> (r: Result<FailOn, String>)
    ensures
        match fail_on_of(value@) {
            Ok(f) => r matches Ok(g) && g == f,
            Err(e) => r matches Err(m) && m@ == e,
        },
{
    let cs = text_of(value).chars;
    if equals_str(cs.as_slice(), "any") {
        Ok(FailOn::Any)
    } else if equals_str(cs.as_slice(), "bidi") {
        Ok(FailOn::Bidi)
    } else {
        let mut message = cs;
        push_str(&mut message, " is not something to fail on; one of: any, bidi");
        Err(string_of(message.as_slice()))
    }
}

fn join_commas(tokens: &Vec<String>) -> (r: String)
    ensures
        r@ == comma_joined(tokens.deep_view()),
{
    let mut out: Vec<char> = Vec::new();
    let mut i: usize = 0;
    proof {
        assert(tokens.deep_view().take(0) =~= Seq::<Seq<char>>::empty());
    }
    while i < tokens.len()
        invariant
            0 <= i <= tokens.len(),
            out@ == comma_joined(tokens.deep_view().take(i as int)),
        decreases tokens.len() - i,
    {
        if i > 0 {
            out.push(',');
        }
        push_str(&mut out, tokens[i].as_str());
        proof {
            reveal_strlit(",");
            let all = tokens.deep_view();
            let t = all.take(i + 1);
            assert(t.drop_last() =~= all.take(i as int));
            assert(t.last() == tokens@[i as int]@);
            assert(out@ =~= comma_joined(t));
        }
        i = i + 1;
    }
    proof {
        assert(tokens.deep_view().take(tokens.len() as int) =~= tokens.deep_view());
    }
    string_of(out.as_slice())
}

fn next_raw(args: &[String], i: usize) -> (r: Option<&str>)
    requires
        i < args.len(),
    ensures
        match r {
            Some(t) => next_arg(args@.map_values(|s: String| s@), i as int) == Some(t@),
            None => next_arg(args@.map_values(|s: String| s@), i as int) is None,
        },
{
    if i + 1 < args.len() {
        Some(args[i + 1].as_str())
    } else {
        None
    }
}

/// Reads the command line. Every flag is checked against the list the
/// usage text documents, and one that is not on it is refused by name.
pub fn parse(args: &[String]) -> (r: Result<Arguments, String>)
    ensures
        match parsed(args@.map_values(|s: String| s@)) {
            Ok(v) => r matches Ok(a) && a@ == v,
            Err(e) => r matches Err(m) && m@ == e,
        },
{
    let ghost all = args@.map_values(|s: String| s@);
    let mut arguments = Arguments {
        inputs: Vec::new(),
        stdin: false,
        strict: false,
        fail_on: FailOn::Any,
        detect: Options { kinds: Vec::new(), expected_scripts: Vec::new() },
        walk: WalkOptions { hidden: false, respect_ignore: true },
    };
    let mut i: usize = 0;
    proof {
        assert(arguments@ =~= initial_arguments());
    }
    while i < args.len()
        invariant
            all == args@.map_values(|s: String| s@),
            0 <= i <= args.len(),
            parse_from(all, i as int, arguments@) == parsed(all),
        decreases args.len() - i,
    {
        let arg = args[i].as_str();
        let cs = text_of(arg).chars;
        proof {
            assert(all[i as int] == arg@);
        }
        let known = equals_str(cs.as_slice(), "--kind") || equals_str(cs.as_slice(), "--script")
            || equals_str(cs.as_slice(), "--fail-on") || equals_str(cs.as_slice(), "--strict")
            || equals_str(cs.as_slice(), "--stdin") || equals_str(cs.as_slice(), "--hidden")
            || equals_str(cs.as_slice(), "--no-ignore");
        if cs.len() > 0 && cs[0] == '-' && !known {
            let mut message = cs;
            push_str(&mut message, " is not an option. Try --help.");
            return Err(string_of(message.as_slice()));
        }
        let ghost before = arguments@;
        if equals_str(cs.as_slice(), "--stdin") {
            arguments.stdin = true;
            proof {
                assert(arguments@ =~= ParseView { stdin: true, ..before });
            }
            i = i + 1;
        } else if equals_str(cs.as_slice(), "--strict") {
            arguments.strict = true;
            proof {
                assert(arguments@ =~= ParseView { strict: true, ..before });
            }
            i = i + 1;
        } else if equals_str(cs.as_slice(), "--hidden") {
            arguments.walk.hidden = true;
            proof {
                assert(arguments@ =~= ParseView { hidden: true, ..before });
            }
            i = i + 1;
        } else if equals_str(cs.as_slice(), "--no-ignore") {
            arguments.walk.respect_ignore = false;
            proof {
                assert(arguments@ =~= ParseView { respect_ignore: false, ..before });
            }
            i = i + 1;
        } else if equals_str(cs.as_slice(), "--kind") {
            let tokens = match values(next_raw(args, i), arg) {
                Ok(tokens) => tokens,
                Err(e) => return Err(e),
            };
            let ghost tv = tokens.deep_view();
            let mut k: usize = 0;
            let ghost kinds_before = arguments.detect.kinds@;
            proof {
                assert(tv.take(0) =~= Seq::<Seq<char>>::empty());
                assert(kinds_before =~= kinds_before + Seq::<Kind>::empty());
            }
            while k < tokens.len()
                invariant
                    tv == tokens.deep_view(),
                    0 <= k <= tokens.len(),
                    kinds_of(tv.take(k as int)) matches Ok(ks) && arguments.detect.kinds@ == kinds_before + ks,
                    arguments@ == (ParseView { kinds: arguments.detect.kinds@, ..before }),
                    kinds_before == before.kinds,
                    all == args@.map_values(|s: String| s@),
                    i < args.len(),
                    all[i as int] == "--kind"@,
                    values_of(next_arg(all, i as int), "--kind"@) == Ok::<Seq<Seq<char>>, Seq<char>>(tv),
                    parse_from(all, i as int, before) == parsed(all),
                decreases tokens.len() - k,
            {
                proof {
                    let t = tv.take(k + 1);
                    assert(t.drop_last() =~= tv.take(k as int));
                    assert(t.last() == tokens@[k as int]@);
                    lemma_kinds_prefix_ok(tv, k as int);
                }
                match parse_kind(tokens[k].as_str()) {
                    Ok(kind) => {
                        let ghost kb = arguments.detect.kinds@;
                        arguments.detect.kinds.push(kind);
                        proof {
                            let ks = kinds_of(tv.take(k as int))->Ok_0;
                            assert(arguments.detect.kinds@ =~= kinds_before + ks.push(kind));
                            assert(arguments@ =~= ParseView { kinds: arguments.detect.kinds@, ..before });
                        }
                    },
                    Err(e) => {
                        proof {
                            lemma_kinds_error_stays(tv, k as int);
                            lemma_flags_distinct();
                            assert(kinds_of(tv) == Err::<Seq<Kind>, Seq<char>>(e@));
                        }
                        return Err(e);
                    },
                }
                k = k + 1;
            }
            proof {
                assert(tv.take(tokens.len() as int) =~= tv);
                assert(arguments@ =~= ParseView { kinds: before.kinds + kinds_of(tv)->Ok_0, ..before });
            }
            i = i + 2;
        } else if equals_str(cs.as_slice(), "--script") {
            let tokens = match values(next_raw(args, i), arg) {
                Ok(tokens) => tokens,
                Err(e) => return Err(e),
            };
            let ghost tv = tokens.deep_view();
            let mut k: usize = 0;
            let ghost scripts_before = arguments.detect.expected_scripts@;
            proof {
                assert(tv.take(0) =~= Seq::<Seq<char>>::empty());
                assert(scripts_before =~= scripts_before + Seq::<u8>::empty());
            }
            while k < tokens.len()
                invariant
                    tv == tokens.deep_view(),
                    0 <= k <= tokens.len(),
                    scripts_of_tokens(tv.take(k as int)) matches Ok(ss)
                        && arguments.detect.expected_scripts@ == scripts_before + ss,
                    arguments@ == (ParseView { scripts: arguments.detect.expected_scripts@, ..before }),
                    scripts_before == before.scripts,
                    all == args@.map_values(|s: String| s@),
                    i < args.len(),
                    all[i as int] == "--script"@,
                    values_of(next_arg(all, i as int), "--script"@) == Ok::<Seq<Seq<char>>, Seq<char>>(tv),
                    parse_from(all, i as int, before) == parsed(all),
                decreases tokens.len() - k,
            {
                proof {
                    let t = tv.take(k + 1);
                    assert(t.drop_last() =~= tv.take(k as int));
                    assert(t.last() == tokens@[k as int]@);
                    lemma_scripts_prefix_ok(tv, k as int);
                }
                match parse_script(tokens[k].as_str()) {
                    Ok(script) => {
                        arguments.detect.expected_scripts.push(script);
                        proof {
                            let ss = scripts_of_tokens(tv.take(k as int))->Ok_0;
                            assert(arguments.detect.expected_scripts@ =~= scripts_before + ss.push(script));
                            assert(arguments@ =~= ParseView { scripts: arguments.detect.expected_scripts@, ..before });
                        }
                    },
                    Err(e) => {
                        proof {
                            lemma_scripts_error_stays(tv, k as int);
                            lemma_flags_distinct();
                            assert(scripts_of_tokens(tv) == Err::<Seq<u8>, Seq<char>>(e@));
                        }
                        return Err(e);
                    },
                }
                k = k + 1;
            }
            proof {
                assert(tv.take(tokens.len() as int) =~= tv);
                assert(arguments@ =~= ParseView { scripts: before.scripts + scripts_of_tokens(tv)->Ok_0, ..before });
            }
            i = i + 2;
        } else if equals_str(cs.as_slice(), "--fail-on") {
            let tokens = match values(next_raw(args, i), arg) {
                Ok(tokens) => tokens,
                Err(e) => return Err(e),
            };
            let joined = join_commas(&tokens);
            match fail_on(joined.as_str()) {
                Ok(f) => {
                    arguments.fail_on = f;
                    proof {
                        assert(arguments@ =~= ParseView { fail_on: f, ..before });
                    }
                },
                Err(e) => return Err(e),
            }
            i = i + 2;
        } else {
            arguments.inputs.push(string_of(cs.as_slice()));
            proof {
                assert(arguments@ =~= ParseView { inputs: before.inputs.push(arg@), ..before });
            }
            i = i + 1;
        }
    }
    if arguments.stdin && arguments.inputs.len() > 0 {
        return Err(string_of(text_of("reading from stdin takes no file arguments").chars.as_slice()));
    }
    if !arguments.stdin && arguments.inputs.len() == 0 {
        return Err(string_of(text_of("name a file or a directory to scan. Try --help.").chars.as_slice()));
    }
    Ok(arguments)
}


/// A parse with kinds `k` put before the ones it found.
pub open spec fn kinds_put_before(r: Result<ParseView, Seq<char>>, k: Seq<Kind>) -> Result<
    ParseView,
    Seq<char>,
> {
    match r {
        Ok(v) => Ok(ParseView { kinds: k + v.kinds, ..v }),
        Err(e) => Err(e),
    }
}

/// Kinds already chosen only ever stand before the ones still to come:
/// nothing the rest of a command line says removes or reorders them.
proof fn lemma_parse_keeps_kinds(args: Seq<Seq<char>>, i: int, st: ParseView, k: Seq<Kind>)
    ensures
        parse_from(args, i, ParseView { kinds: k + st.kinds, ..st }) == kinds_put_before(
            parse_from(args, i, st),
            k,
        ),
    decreases args.len() - i,
{
    let ks = ParseView { kinds: k + st.kinds, ..st };
    if i < 0 || i >= args.len() {
    } else {
        let arg = args[i];
        if arg.len() > 0 && arg[0] == '-' && !is_flag(arg) {
        } else if arg == "--stdin"@ {
            lemma_parse_keeps_kinds(args, i + 1, ParseView { stdin: true, ..st }, k);
        } else if arg == "--strict"@ {
            lemma_parse_keeps_kinds(args, i + 1, ParseView { strict: true, ..st }, k);
        } else if arg == "--hidden"@ {
            lemma_parse_keeps_kinds(args, i + 1, ParseView { hidden: true, ..st }, k);
        } else if arg == "--no-ignore"@ {
            lemma_parse_keeps_kinds(args, i + 1, ParseView { respect_ignore: false, ..st }, k);
        } else if arg == "--kind"@ {
            match values_of(next_arg(args, i), arg) {
                Err(e) => {},
                Ok(tokens) => match kinds_of(tokens) {
                    Err(e) => {},
                    Ok(kinds) => {
                        let st2 = ParseView { kinds: st.kinds + kinds, ..st };
                        assert(ks.kinds + kinds =~= k + st2.kinds);
                        assert(ParseView { kinds: ks.kinds + kinds, ..ks } == ParseView {
                            kinds: k + st2.kinds,
                            ..st2
                        });
                        lemma_parse_keeps_kinds(args, i + 2, st2, k);
                    },
                },
            }
        } else if arg == "--script"@ {
            match values_of(next_arg(args, i), arg) {
                Err(e) => {},
                Ok(tokens) => match scripts_of_tokens(tokens) {
                    Err(e) => {},
                    Ok(scripts) => {
                        lemma_parse_keeps_kinds(
                            args,
                            i + 2,
                            ParseView { scripts: st.scripts + scripts, ..st },
                            k,
                        );
                    },
                },
            }
        } else if arg == "--fail-on"@ {
            match values_of(next_arg(args, i), arg) {
                Err(e) => {},
                Ok(tokens) => match fail_on_of(comma_joined(tokens)) {
                    Err(e) => {},
                    Ok(f) => {
                        lemma_parse_keeps_kinds(args, i + 2, ParseView { fail_on: f, ..st }, k);
                    },
                },
            }
        } else {
            lemma_parse_keeps_kinds(args, i + 1, ParseView { inputs: st.inputs.push(arg), ..st }, k);
        }
    }
}

/// A parse with scripts `k` put before the ones it found.
pub open spec fn scripts_put_before(r: Result<ParseView, Seq<char>>, k: Seq<u8>) -> Result<
    ParseView,
    Seq<char>,
> {
    match r {
        Ok(v) => Ok(ParseView { scripts: k + v.scripts, ..v }),
        Err(e) => Err(e),
    }
}

/// Scripts already declared only ever stand before the ones still to come.
proof fn lemma_parse_keeps_scripts(args: Seq<Seq<char>>, i: int, st: ParseView, k: Seq<u8>)
    ensures
        parse_from(args, i, ParseView { scripts: k + st.scripts, ..st }) == scripts_put_before(
            parse_from(args, i, st),
            k,
        ),
    decreases args.len() - i,
{
    let ks = ParseView { scripts: k + st.scripts, ..st };
    if i < 0 || i >= args.len() {
    } else {
        let arg = args[i];
        if arg.len() > 0 && arg[0] == '-' && !is_flag(arg) {
        } else if arg == "--stdin"@ {
            lemma_parse_keeps_scripts(args, i + 1, ParseView { stdin: true, ..st }, k);
        } else if arg == "--strict"@ {
            lemma_parse_keeps_scripts(args, i + 1, ParseView { strict: true, ..st }, k);
        } else if arg == "--hidden"@ {
            lemma_parse_keeps_scripts(args, i + 1, ParseView { hidden: true, ..st }, k);
        } else if arg == "--no-ignore"@ {
            lemma_parse_keeps_scripts(args, i + 1, ParseView { respect_ignore: false, ..st }, k);
        } else if arg == "--kind"@ {
            match values_of(next_arg(args, i), arg) {
                Err(e) => {},
                Ok(tokens) => match kinds_of(tokens) {
                    Err(e) => {},
                    Ok(kinds) => {
                        lemma_parse_keeps_scripts(args, i + 2, ParseView { kinds: st.kinds + kinds, ..st }, k);
                    },
                },
            }
        } else if arg == "--script"@ {
            match values_of(next_arg(args, i), arg) {
                Err(e) => {},
                Ok(tokens) => match scripts_of_tokens(tokens) {
                    Err(e) => {},
                    Ok(scripts) => {
                        let st2 = ParseView { scripts: st.scripts + scripts, ..st };
                        assert(ks.scripts + scripts =~= k + st2.scripts);
                        assert(ParseView { scripts: ks.scripts + scripts, ..ks } == ParseView {
                            scripts: k + st2.scripts,
                            ..st2
                        });
                        lemma_parse_keeps_scripts(args, i + 2, st2, k);
                    },
                },
            }
        } else if arg == "--fail-on"@ {
            match values_of(next_arg(args, i), arg) {
                Err(e) => {},
                Ok(tokens) => match fail_on_of(comma_joined(tokens)) {
                    Err(e) => {},
                    Ok(f) => {
                        lemma_parse_keeps_scripts(args, i + 2, ParseView { fail_on: f, ..st }, k);
                    },
                },
            }
        } else {
            lemma_parse_keeps_scripts(args, i + 1, ParseView { inputs: st.inputs.push(arg), ..st }, k);
        }
    }
}

/// What follows some arguments is parsed as it would be on its own, from
/// the state those arguments left.
proof fn lemma_parse_after(pre: Seq<Seq<char>>, rest: Seq<Seq<char>>, j: int, st: ParseView)
    requires
        0 <= j,
    ensures
        parse_from(pre + rest, pre.len() + j, st) == parse_from(rest, j, st),
    decreases rest.len() - j,
{
    let args = pre + rest;
    let i = pre.len() + j;
    if j < rest.len() {
        assert(args[i] == rest[j]);
        assert(next_arg(args, i) == next_arg(rest, j)) by {
            if j + 1 < rest.len() {
                assert(args[i + 1] == rest[j + 1]);
            }
        }
        let arg = rest[j];
        if arg.len() > 0 && arg[0] == '-' && !is_flag(arg) {
        } else if arg == "--stdin"@ {
            lemma_parse_after(pre, rest, j + 1, ParseView { stdin: true, ..st });
        } else if arg == "--strict"@ {
            lemma_parse_after(pre, rest, j + 1, ParseView { strict: true, ..st });
        } else if arg == "--hidden"@ {
            lemma_parse_after(pre, rest, j + 1, ParseView { hidden: true, ..st });
        } else if arg == "--no-ignore"@ {
            lemma_parse_after(pre, rest, j + 1, ParseView { respect_ignore: false, ..st });
        } else if arg == "--kind"@ {
            match values_of(next_arg(rest, j), arg) {
                Err(e) => {},
                Ok(tokens) => match kinds_of(tokens) {
                    Err(e) => {},
                    Ok(kinds) => {
                        lemma_parse_after(pre, rest, j + 2, ParseView { kinds: st.kinds + kinds, ..st });
                    },
                },
            }
        } else if arg == "--script"@ {
            match values_of(next_arg(rest, j), arg) {
                Err(e) => {},
                Ok(tokens) => match scripts_of_tokens(tokens) {
                    Err(e) => {},
                    Ok(scripts) => {
                        lemma_parse_after(
                            pre,
                            rest,
                            j + 2,
                            ParseView { scripts: st.scripts + scripts, ..st },
                        );
                    },
                },
            }
        } else if arg == "--fail-on"@ {
            match values_of(next_arg(rest, j), arg) {
                Err(e) => {},
                Ok(tokens) => match fail_on_of(comma_joined(tokens)) {
                    Err(e) => {},
                    Ok(f) => {
                        lemma_parse_after(pre, rest, j + 2, ParseView { fail_on: f, ..st });
                    },
                },
            }
        } else {
            lemma_parse_after(pre, rest, j + 1, ParseView { inputs: st.inputs.push(arg), ..st });
        }
    }
}

/// A parse with switches turned on: `strict`, `hidden`, and for
/// `no_ignore` the ignore files no longer respected.
pub open spec fn switched_on(r: Result<ParseView, Seq<char>>, strict: bool, hidden: bool, no_ignore: bool) -> Result<
    ParseView,
    Seq<char>,
> {
    match r {
        Ok(v) => Ok(
            ParseView {
                strict: v.strict || strict,
                hidden: v.hidden || hidden,
                respect_ignore: v.respect_ignore && !no_ignore,
                ..v
            },
        ),
        Err(e) => Err(e),
    }
}

/// Switches once on stay on: nothing later on a command line turns them
/// off again, and they change nothing else.
proof fn lemma_parse_keeps_switches(
    args: Seq<Seq<char>>,
    i: int,
    st: ParseView,
    strict: bool,
    hidden: bool,
    no_ignore: bool,
)
    ensures
        parse_from(
            args,
            i,
            ParseView {
                strict: st.strict || strict,
                hidden: st.hidden || hidden,
                respect_ignore: st.respect_ignore && !no_ignore,
                ..st
            },
        ) == switched_on(parse_from(args, i, st), strict, hidden, no_ignore),
    decreases args.len() - i,
{
    if i < 0 || i >= args.len() {
    } else {
        let arg = args[i];
        if arg.len() > 0 && arg[0] == '-' && !is_flag(arg) {
        } else if arg == "--stdin"@ {
            lemma_parse_keeps_switches(args, i + 1, ParseView { stdin: true, ..st }, strict, hidden, no_ignore);
        } else if arg == "--strict"@ {
            lemma_parse_keeps_switches(args, i + 1, ParseView { strict: true, ..st }, strict, hidden, no_ignore);
        } else if arg == "--hidden"@ {
            lemma_parse_keeps_switches(args, i + 1, ParseView { hidden: true, ..st }, strict, hidden, no_ignore);
        } else if arg == "--no-ignore"@ {
            lemma_parse_keeps_switches(
                args,
                i + 1,
                ParseView { respect_ignore: false, ..st },
                strict,
                hidden,
                no_ignore,
            );
        } else if arg == "--kind"@ {
            match values_of(next_arg(args, i), arg) {
                Err(e) => {},
                Ok(tokens) => match kinds_of(tokens) {
                    Err(e) => {},
                    Ok(kinds) => {
                        lemma_parse_keeps_switches(
                            args,
                            i + 2,
                            ParseView { kinds: st.kinds + kinds, ..st },
                            strict,
                            hidden,
                            no_ignore,
                        );
                    },
                },
            }
        } else if arg == "--script"@ {
            match values_of(next_arg(args, i), arg) {
                Err(e) => {},
                Ok(tokens) => match scripts_of_tokens(tokens) {
                    Err(e) => {},
                    Ok(scripts) => {
                        lemma_parse_keeps_switches(
                            args,
                            i + 2,
                            ParseView { scripts: st.scripts + scripts, ..st },
                            strict,
                            hidden,
                            no_ignore,
                        );
                    },
                },
            }
        } else if arg == "--fail-on"@ {
            match values_of(next_arg(args, i), arg) {
                Err(e) => {},
                Ok(tokens) => match fail_on_of(comma_joined(tokens)) {
                    Err(e) => {},
                    Ok(f) => {
                        lemma_parse_keeps_switches(
                            args,
                            i + 2,
                            ParseView { fail_on: f, ..st },
                            strict,
                            hidden,
                            no_ignore,
                        );
                    },
                },
            }
        } else {
            lemma_parse_keeps_switches(
                args,
                i + 1,
                ParseView { inputs: st.inputs.push(arg), ..st },
                strict,
                hidden,
                no_ignore,
            );
        }
    }
}

/// `--strict`, `--hidden` and `--no-ignore` are switches: a command line
/// that starts with one parses as the rest of it does on its own, with
/// that switch on and nothing else changed.
pub proof fn lemma_switches(rest: Seq<Seq<char>>)
    ensures
        parsed(seq!["--strict"@] + rest) == switched_on(parsed(rest), true, false, false),
        parsed(seq!["--hidden"@] + rest) == switched_on(parsed(rest), false, true, false),
        parsed(seq!["--no-ignore"@] + rest) == switched_on(parsed(rest), false, false, true),
{
    let start = initial_arguments();
    lemma_flags_distinct();
    reveal_strlit("--strict");
    reveal_strlit("--hidden");
    reveal_strlit("--no-ignore");
    let a1 = seq!["--strict"@] + rest;
    assert(a1[0] == "--strict"@);
    assert(is_flag("--strict"@));
    let s1 = ParseView { strict: true, ..start };
    assert(parsed(a1) == parse_from(a1, 1, s1));
    lemma_parse_after(seq!["--strict"@], rest, 0, s1);
    lemma_parse_keeps_switches(rest, 0, start, true, false, false);
    assert(s1 == ParseView {
        strict: start.strict || true,
        hidden: start.hidden || false,
        respect_ignore: start.respect_ignore && !false,
        ..start
    });
    let a2 = seq!["--hidden"@] + rest;
    assert(a2[0] == "--hidden"@);
    assert(is_flag("--hidden"@));
    let s2 = ParseView { hidden: true, ..start };
    assert(parsed(a2) == parse_from(a2, 1, s2));
    lemma_parse_after(seq!["--hidden"@], rest, 0, s2);
    lemma_parse_keeps_switches(rest, 0, start, false, true, false);
    assert(s2 == ParseView {
        strict: start.strict || false,
        hidden: start.hidden || true,
        respect_ignore: start.respect_ignore && !false,
        ..start
    });
    let a3 = seq!["--no-ignore"@] + rest;
    assert(a3[0] == "--no-ignore"@);
    assert(is_flag("--no-ignore"@));
    let s3 = ParseView { respect_ignore: false, ..start };
    assert(parsed(a3) == parse_from(a3, 1, s3));
    lemma_parse_after(seq!["--no-ignore"@], rest, 0, s3);
    lemma_parse_keeps_switches(rest, 0, start, false, false, true);
    assert(s3 == ParseView {
        strict: start.strict || false,
        hidden: start.hidden || false,
        respect_ignore: start.respect_ignore && !true,
        ..start
    });
}

/// `--kind` adds to the filter and never replaces it. A command line that
/// starts with `--kind` and a value it accepts parses as the rest of the
/// line does on its own, with the kinds of that value put before the
/// rest's: every use of the flag counts, in command-line order.
pub proof fn lemma_kind_flags_accumulate(value: Seq<char>, rest: Seq<Seq<char>>)
    requires
        values_of(Some(value), "--kind"@) is Ok,
        kinds_of(values_of(Some(value), "--kind"@)->Ok_0) is Ok,
    ensures
        parsed(seq!["--kind"@, value] + rest) == kinds_put_before(
            parsed(rest),
            kinds_of(values_of(Some(value), "--kind"@)->Ok_0)->Ok_0,
        ),
{
    let pre = seq!["--kind"@, value];
    let args = pre + rest;
    let ks = kinds_of(values_of(Some(value), "--kind"@)->Ok_0)->Ok_0;
    let start = initial_arguments();
    reveal_strlit("--kind");
    lemma_flags_distinct();
    assert(args[0] == "--kind"@);
    assert(next_arg(args, 0) == Some(value));
    assert(is_flag("--kind"@));
    let st = ParseView { kinds: start.kinds + ks, ..start };
    assert(parsed(args) == parse_from(args, 2, st));
    lemma_parse_after(pre, rest, 0, st);
    assert(start.kinds + ks =~= ks + start.kinds);
    lemma_parse_keeps_kinds(rest, 0, start, ks);
}

proof fn lemma_find_after(s: Seq<char>, t: Seq<char>, j: int)
    requires
        0 <= j <= t.len(),
    ensures
        find_from(s + t, ',', s.len() + j) == s.len() + find_from(t, ',', j),
    decreases t.len() - j,
{
    if j < t.len() {
        assert((s + t)[s.len() + j] == t[j]);
        lemma_find_after(s, t, j + 1);
    }
}

proof fn lemma_find_before(s: Seq<char>, t: Seq<char>, i: int)
    requires
        0 <= i <= s.len(),
    ensures
        find_from(s + t, ',', i) == if find_from(s, ',', i) < s.len() {
            find_from(s, ',', i)
        } else {
            s.len() + find_from(t, ',', 0)
        },
    decreases s.len() - i,
{
    if i < s.len() {
        assert((s + t)[i] == s[i]);
        lemma_find_before(s, t, i + 1);
    } else {
        lemma_find_after(s, t, 0);
    }
}

proof fn lemma_pieces_after(s: Seq<char>, t: Seq<char>, j: int)
    requires
        0 <= j <= t.len(),
    ensures
        pieces_from(s + t, s.len() + j) == pieces_from(t, j),
    decreases t.len() - j,
{
    lemma_find_after(s, t, j);
    crate::text::lemma_find_from(t, ',', j);
    let f = find_from(t, ',', j);
    if f < t.len() {
        assert((s + t).subrange(s.len() + j, s.len() + f) =~= t.subrange(j, f));
        lemma_pieces_after(s, t, f + 1);
    } else {
        assert((s + t).subrange(s.len() + j, (s + t).len() as int) =~= t.subrange(j, t.len() as int));
    }
}

/// Two values joined by a comma have the pieces of the one and then those
/// of the other.
proof fn lemma_pieces_join(a: Seq<char>, b: Seq<char>, i: int)
    requires
        0 <= i <= a.len(),
    ensures
        pieces_from(a + seq![','] + b, i) == pieces_from(a, i) + pieces_from(b, 0),
    decreases a.len() - i,
{
    let u = seq![','] + b;
    let s = a + seq![','] + b;
    assert(s =~= a + u);
    lemma_find_before(a, u, i);
    assert(u[0] == ',');
    crate::text::lemma_find_from(a, ',', i);
    let fa = find_from(a, ',', i);
    if fa < a.len() {
        assert(s.subrange(i, fa) =~= a.subrange(i, fa));
        lemma_pieces_join(a, b, fa + 1);
        assert(seq![a.subrange(i, fa)] + (pieces_from(a, fa + 1) + pieces_from(b, 0)) =~= (seq![
            a.subrange(i, fa),
        ] + pieces_from(a, fa + 1)) + pieces_from(b, 0));
    } else {
        assert(s.subrange(i, a.len() as int) =~= a.subrange(i, a.len() as int));
        assert(s =~= (a + seq![',']) + b);
        lemma_pieces_after(a + seq![','], b, 0);
    }
}

proof fn lemma_tokens_concat(p: Seq<Seq<char>>, q: Seq<Seq<char>>)
    ensures
        tokens_of(p + q) == tokens_of(p) + tokens_of(q),
    decreases q.len(),
{
    if q.len() == 0 {
        assert(p + q =~= p);
        assert(tokens_of(p) + tokens_of(q) =~= tokens_of(p));
    } else {
        lemma_tokens_concat(p, q.drop_last());
        assert((p + q).drop_last() =~= p + q.drop_last());
        assert((p + q).last() == q.last());
        let t = trim_end(trim_start(q.last()));
        if t.len() > 0 {
            assert(tokens_of(p) + tokens_of(q.drop_last()).push(t) =~= (tokens_of(p) + tokens_of(
                q.drop_last(),
            )).push(t));
        }
    }
}

proof fn lemma_kinds_concat(t: Seq<Seq<char>>, u: Seq<Seq<char>>)
    requires
        kinds_of(t) is Ok,
        kinds_of(u) is Ok,
    ensures
        kinds_of(t + u) == Ok::<Seq<Kind>, Seq<char>>(kinds_of(t)->Ok_0 + kinds_of(u)->Ok_0),
    decreases u.len(),
{
    if u.len() == 0 {
        assert(t + u =~= t);
        assert(kinds_of(t)->Ok_0 + kinds_of(u)->Ok_0 =~= kinds_of(t)->Ok_0);
    } else {
        lemma_kinds_concat(t, u.drop_last());
        assert((t + u).drop_last() =~= t + u.drop_last());
        assert((t + u).last() == u.last());
        let k = kind_token(u.last())->Some_0;
        assert(kinds_of(t)->Ok_0 + kinds_of(u.drop_last())->Ok_0.push(k) =~= (kinds_of(t)->Ok_0
            + kinds_of(u.drop_last())->Ok_0).push(k));
    }
}

/// Repeating `--kind` is the same as listing its values once: `--kind A
/// --kind B` parses as `--kind A,B` does, whatever follows, so the kinds
/// of both uses are kept, those of the first one first.
pub proof fn lemma_repeated_kind_is_a_list(a: Seq<char>, b: Seq<char>, rest: Seq<Seq<char>>)
    requires
        values_of(Some(a), "--kind"@) is Ok,
        kinds_of(values_of(Some(a), "--kind"@)->Ok_0) is Ok,
        values_of(Some(b), "--kind"@) is Ok,
        kinds_of(values_of(Some(b), "--kind"@)->Ok_0) is Ok,
    ensures
        parsed(seq!["--kind"@, a, "--kind"@, b] + rest) == parsed(
            seq!["--kind"@, a + seq![','] + b] + rest,
        ),
{
    let ab = a + seq![','] + b;
    let ta = values_of(Some(a), "--kind"@)->Ok_0;
    let tb = values_of(Some(b), "--kind"@)->Ok_0;
    lemma_pieces_join(a, b, 0);
    lemma_tokens_concat(pieces_from(a, 0), pieces_from(b, 0));
    assert(values_of(Some(ab), "--kind"@) == Ok::<Seq<Seq<char>>, Seq<char>>(ta + tb));
    lemma_kinds_concat(ta, tb);
    let ka = kinds_of(ta)->Ok_0;
    let kb = kinds_of(tb)->Ok_0;
    lemma_kind_flags_accumulate(a, seq!["--kind"@, b] + rest);
    assert(seq!["--kind"@, a] + (seq!["--kind"@, b] + rest) =~= seq!["--kind"@, a, "--kind"@, b]
        + rest);
    lemma_kind_flags_accumulate(b, rest);
    lemma_kind_flags_accumulate(ab, rest);
    match parsed(rest) {
        Ok(v) => {
            assert(ka + (kb + v.kinds) =~= (ka + kb) + v.kinds);
        },
        Err(e) => {},
    }
}

/// `--script` adds to the declared scripts and never replaces them. A
/// command line that starts with `--script` and a value it accepts parses
/// as the rest of the line does on its own, with the scripts of that value
/// put before the rest's.
pub proof fn lemma_script_flags_accumulate(value: Seq<char>, rest: Seq<Seq<char>>)
    requires
        values_of(Some(value), "--script"@) is Ok,
        scripts_of_tokens(values_of(Some(value), "--script"@)->Ok_0) is Ok,
    ensures
        parsed(seq!["--script"@, value] + rest) == scripts_put_before(
            parsed(rest),
            scripts_of_tokens(values_of(Some(value), "--script"@)->Ok_0)->Ok_0,
        ),
{
    let pre = seq!["--script"@, value];
    let args = pre + rest;
    let sc = scripts_of_tokens(values_of(Some(value), "--script"@)->Ok_0)->Ok_0;
    let start = initial_arguments();
    reveal_strlit("--script");
    lemma_flags_distinct();
    assert(args[0] == "--script"@);
    assert(next_arg(args, 0) == Some(value));
    assert(is_flag("--script"@));
    let st = ParseView { scripts: start.scripts + sc, ..start };
    assert(parsed(args) == parse_from(args, 2, st));
    lemma_parse_after(pre, rest, 0, st);
    assert(start.scripts + sc =~= sc + start.scripts);
    lemma_parse_keeps_scripts(rest, 0, start, sc);
}

/// The flags are seven different words.
proof fn lemma_flags_distinct()
    ensures
        "--kind"@ != "--script"@,
        "--kind"@ != "--fail-on"@,
        "--kind"@ != "--strict"@,
        "--kind"@ != "--stdin"@,
        "--kind"@ != "--hidden"@,
        "--kind"@ != "--no-ignore"@,
        "--script"@ != "--fail-on"@,
        "--script"@ != "--strict"@,
        "--script"@ != "--stdin"@,
        "--script"@ != "--hidden"@,
        "--script"@ != "--no-ignore"@,
        "--fail-on"@ != "--strict"@,
        "--fail-on"@ != "--stdin"@,
        "--fail-on"@ != "--hidden"@,
        "--fail-on"@ != "--no-ignore"@,
        "--strict"@ != "--stdin"@,
        "--strict"@ != "--hidden"@,
        "--strict"@ != "--no-ignore"@,
        "--stdin"@ != "--hidden"@,
        "--stdin"@ != "--no-ignore"@,
        "--hidden"@ != "--no-ignore"@,
{
    reveal_strlit("--kind");
    reveal_strlit("--script");
    reveal_strlit("--fail-on");
    reveal_strlit("--strict");
    reveal_strlit("--stdin");
    reveal_strlit("--hidden");
    reveal_strlit("--no-ignore");
    assert("--kind"@[2] == 'k' && "--kind"@[3] == 'i' && "--kind"@[4] == 'n');
    assert("--script"@[2] == 's' && "--script"@[3] == 'c' && "--script"@[4] == 'r');
    assert("--fail-on"@[2] == 'f' && "--fail-on"@[3] == 'a' && "--fail-on"@[4] == 'i');
    assert("--strict"@[2] == 's' && "--strict"@[3] == 't' && "--strict"@[4] == 'r');
    assert("--stdin"@[2] == 's' && "--stdin"@[3] == 't' && "--stdin"@[4] == 'd');
    assert("--hidden"@[2] == 'h' && "--hidden"@[3] == 'i' && "--hidden"@[4] == 'd');
    assert("--no-ignore"@[2] == 'n' && "--no-ignore"@[3] == 'o' && "--no-ignore"@[4] == '-');
}

proof fn lemma_kinds_prefix_ok(tv: Seq<Seq<char>>, k: int)
    requires
        0 <= k < tv.len(),
        kinds_of(tv.take(k)) is Ok,
    ensures
        kinds_of(tv.take(k + 1)) == match kind_token(tv[k]) {
            Some(kd) => Ok(kinds_of(tv.take(k))->Ok_0.push(kd)),
            None => Err::<Seq<Kind>, Seq<char>>(unknown_kind_message(tv[k])),
        },
{
    assert(tv.take(k + 1).drop_last() =~= tv.take(k));
}

/// Once the tokens so far are refused, more tokens keep the refusal.
pub proof fn lemma_kinds_error_stays(tv: Seq<Seq<char>>, k: int)
    requires
        0 <= k < tv.len(),
        kinds_of(tv.take(k + 1)) is Err,
    ensures
        kinds_of(tv) == kinds_of(tv.take(k + 1)),
    decreases tv.len() - k,
{
    if k + 1 < tv.len() {
        assert(tv.take(k + 2).drop_last() =~= tv.take(k + 1));
        lemma_kinds_error_stays(tv, k + 1);
    } else {
        assert(tv.take(k + 1) =~= tv);
    }
}

proof fn lemma_scripts_prefix_ok(tv: Seq<Seq<char>>, k: int)
    requires
        0 <= k < tv.len(),
        scripts_of_tokens(tv.take(k)) is Ok,
    ensures
        scripts_of_tokens(tv.take(k + 1)) == match script_result(tv[k]) {
            Ok(s) => Ok(scripts_of_tokens(tv.take(k))->Ok_0.push(s)),
            Err(e) => Err::<Seq<u8>, Seq<char>>(e),
        },
{
    assert(tv.take(k + 1).drop_last() =~= tv.take(k));
}

pub proof fn lemma_scripts_error_stays(tv: Seq<Seq<char>>, k: int)
    requires
        0 <= k < tv.len(),
        scripts_of_tokens(tv.take(k + 1)) is Err,
    ensures
        scripts_of_tokens(tv) == scripts_of_tokens(tv.take(k + 1)),
    decreases tv.len() - k,
{
    if k + 1 < tv.len() {
        assert(tv.take(k + 2).drop_last() =~= tv.take(k + 1));
        lemma_scripts_error_stays(tv, k + 1);
    } else {
        assert(tv.take(k + 1) =~= tv);
    }
}

/// `1 file`, `2 files`.
pub open spec fn plural_text(count: nat, one: Seq<char>, many: Seq<char>) -> Seq<char> {
    decimal(count) + " "@ + if count == 1 {
        one
    } else {
        many
    }
}

pub fn plural(count: usize, one: &str, many: &str) -> (r: String)
    ensures
        r@ == plural_text(count as nat, one@, many@),
{
    let mut out: Vec<char> = Vec::new();
    push_decimal(&mut out, count as u64);
    push_str(&mut out, " ");
    if count == 1 {
        push_str(&mut out, one);
    } else {
        push_str(&mut out, many);
    }
    proof {
        assert(out@ =~= plural_text(count as nat, one@, many@));
    }
    string_of(out.as_slice())
}

/// The line that totals a run.
pub open spec fn totals_line(s: crate::scan::RunCounts) -> Seq<char> {
    plural_text(s.findings as nat, "finding"@, "findings"@) + " in "@ + plural_text(
        s.files as nat,
        "file"@,
        "files"@,
    ) + if s.refusals == 0 {
        seq![]
    } else {
        ", "@ + decimal(s.refusals as nat) + " refused ("@ + decimal(s.unexamined as nat)
            + " not read at all)"@
    }
}

pub open spec fn hint_line() -> Seq<char> {
    "name the expected script with --script to have those files judged too"@
}

/// One file's lines: each refusal with the path it concerns, escaped, and
/// each finding as a human line.
pub open spec fn file_lines(file: crate::scan::FileReport) -> Seq<Seq<char>> {
    file.refusals@.map_values(|r: crate::detect::Refusal| escaped(file.file@) + ": "@ + r.detail@)
        + file.findings@.map_values(|f: crate::detect::Finding| description(file.file@, f@))
}

pub open spec fn files_lines(files: Seq<crate::scan::FileReport>) -> Seq<Seq<char>>
    decreases files.len(),
{
    if files.len() == 0 {
        seq![]
    } else {
        files_lines(files.drop_last()) + file_lines(files.last())
    }
}

/// Whether some file was refused for its script context.
pub open spec fn context_refused(files: Seq<crate::scan::FileReport>) -> bool {
    exists|i: int, j: int|
        0 <= i < files.len() && 0 <= j < files[i].refusals@.len() && (#[trigger] files[i].refusals@[j]).reason
            == Reason::IntentionalScriptContext
}

/// The human half of the output: every line restates something in the
/// report, except the hint about naming a script, which belongs to this
/// surface only because the other one has no flags.
pub open spec fn summary_text(report: Report) -> Seq<Seq<char>> {
    files_lines(report.files@) + seq![totals_line(report.summary)] + if context_refused(report.files@) {
        seq![hint_line()]
    } else {
        seq![]
    }
}

fn totals(summary: &crate::scan::RunCounts) -> (r: String)
    ensures
        r@ == totals_line(*summary),
{
    let mut out = text_of(plural(summary.findings, "finding", "findings").as_str()).chars;
    push_str(&mut out, " in ");
    push_str(&mut out, plural(summary.files, "file", "files").as_str());
    if summary.refusals != 0 {
        push_str(&mut out, ", ");
        push_decimal(&mut out, summary.refusals as u64);
        push_str(&mut out, " refused (");
        push_decimal(&mut out, summary.unexamined as u64);
        push_str(&mut out, " not read at all)");
    }
    proof {
        assert(out@ =~= totals_line(*summary));
    }
    string_of(out.as_slice())
}

/// The lines the human half of the output prints, in order.
pub fn summary_lines(report: &Report) -> (r: Vec<String>)
    ensures
        r.deep_view() == summary_text(*report),
{
    let mut out: Vec<String> = Vec::new();
    let mut i: usize = 0;
    let mut context = false;
    proof {
        assert(report.files@.take(0) =~= Seq::<crate::scan::FileReport>::empty());
    }
    while i < report.files.len()
        invariant
            0 <= i <= report.files.len(),
            out.deep_view() == files_lines(report.files@.take(i as int)),
            context == context_refused(report.files@.take(i as int)),
        decreases report.files.len() - i,
    {
        let file = &report.files[i];
        let ghost start = out.deep_view();
        let ghost was = context;
        let path = escape_text(file.file.as_str());
        let mut j: usize = 0;
        while j < file.refusals.len()
            invariant
                0 <= j <= file.refusals.len(),
                path@ == escaped(file.file@),
                out.deep_view() == start + file.refusals@.take(j as int).map_values(
                    |r: crate::detect::Refusal| escaped(file.file@) + ": "@ + r.detail@,
                ),
                context == (was || exists|m: int| 0 <= m < j && (#[trigger] file.refusals@[m]).reason
                    == Reason::IntentionalScriptContext),
            decreases file.refusals.len() - j,
        {
            let mut line = text_of(path.as_str()).chars;
            push_str(&mut line, ": ");
            push_str(&mut line, file.refusals[j].detail.as_str());
            let ghost before = out.deep_view();
            out.push(string_of(line.as_slice()));
            if file.refusals[j].reason == Reason::IntentionalScriptContext {
                context = true;
            }
            proof {
                let f = |r: crate::detect::Refusal| escaped(file.file@) + ": "@ + r.detail@;
                assert(file.refusals@.take(j + 1).map_values(f) =~= file.refusals@.take(j as int).map_values(f).push(f(file.refusals@[j as int])));
                assert(out.deep_view() =~= before.push(f(file.refusals@[j as int])));
                if file.refusals@[j as int].reason == Reason::IntentionalScriptContext {
                    assert(exists|m: int| 0 <= m < j + 1 && (#[trigger] file.refusals@[m]).reason
                        == Reason::IntentionalScriptContext);
                }
            }
            j = j + 1;
        }
        let ghost mid = out.deep_view();
        let mut k: usize = 0;
        while k < file.findings.len()
            invariant
                0 <= k <= file.findings.len(),
                out.deep_view() == mid + file.findings@.take(k as int).map_values(
                    |f: crate::detect::Finding| description(file.file@, f@),
                ),
            decreases file.findings.len() - k,
        {
            let ghost before = out.deep_view();
            out.push(describe(file, &file.findings[k]));
            proof {
                let g = |f: crate::detect::Finding| description(file.file@, f@);
                assert(file.findings@.take(k + 1).map_values(g) =~= file.findings@.take(k as int).map_values(g).push(g(file.findings@[k as int])));
                assert(out.deep_view() =~= before.push(g(file.findings@[k as int])));
            }
            k = k + 1;
        }
        proof {
            let t = report.files@.take(i + 1);
            assert(t.drop_last() =~= report.files@.take(i as int));
            assert(t.last() == report.files@[i as int]);
            assert(file.refusals@.take(file.refusals.len() as int) =~= file.refusals@);
            assert(file.findings@.take(file.findings.len() as int) =~= file.findings@);
            assert(out.deep_view() =~= files_lines(t));
            if context {
                if was {
                    let (a, b) = choose|a: int, b: int|
                        0 <= a < report.files@.take(i as int).len() && 0 <= b < report.files@.take(i as int)[a].refusals@.len()
                            && (#[trigger] report.files@.take(i as int)[a].refusals@[b]).reason == Reason::IntentionalScriptContext;
                    assert(t[a] == report.files@.take(i as int)[a]);
                    assert(context_refused(t));
                } else {
                    let m = choose|m: int| 0 <= m < file.refusals.len() && (#[trigger] file.refusals@[m]).reason
                        == Reason::IntentionalScriptContext;
                    assert(t[i as int] == *file);
                    assert(t[i as int].refusals@[m].reason == Reason::IntentionalScriptContext);
                    assert(context_refused(t));
                }
            } else {
                if context_refused(t) {
                    let (a, b) = choose|a: int, b: int|
                        0 <= a < t.len() && 0 <= b < t[a].refusals@.len() && (#[trigger] t[a].refusals@[b]).reason
                            == Reason::IntentionalScriptContext;
                    if a < i {
                        assert(report.files@.take(i as int)[a] == t[a]);
                        assert(context_refused(report.files@.take(i as int)));
                    } else {
                        assert(t[a] == *file);
                        assert(file.refusals@[b].reason == Reason::IntentionalScriptContext);
                    }
                }
            }
        }
        i = i + 1;
    }
    proof {
        assert(report.files@.take(report.files.len() as int) =~= report.files@);
    }
    let ghost body = out.deep_view();
    out.push(totals(&report.summary));
    if context {
        out.push(string_of(text_of("name the expected script with --script to have those files judged too").chars.as_slice()));
    }
    proof {
        assert(out.deep_view() =~= summary_text(*report));
    }
    out
}

} // verus!
