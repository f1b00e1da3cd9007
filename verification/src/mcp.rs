//! The tool server's decisions: how a caller's arguments become options
//! and a cap on the answer.
//!
//! The protocol itself, JSON on stdio, is the program's job. What it reads
//! out of a request is handed here as plain values.

use crate::cli::{kinds_of, script_result, lemma_kinds_error_stays, lemma_scripts_error_stays, scripts_of_tokens};
use crate::detect::scripts::parse_script;
use crate::detect::{parse_kind, Finding, Kind, Options};
use crate::text::{equals_str, push_str, string_of, text_of};
use vstd::prelude::*;

verus! {

/// How many findings an answer carries unless the caller says otherwise.
pub const DEFAULT_MAX_RESULTS: usize = 500;

/// The most an answer ever carries.
pub const MAX_MAX_RESULTS: usize = 5000;

/// What a request's `maxResults` held.
pub enum MaxResultsArg {
    Absent,
    /// Present, and not a non-negative integer.
    NotAnInteger,
    Integer(u64),
}

pub open spec fn invalid_cap() -> Seq<char> {
    "maxResults must be a positive integer"@
}

/// The cap on an answer: the default when none was asked for, refused
/// when it is not a positive integer, and clamped quietly above the most
/// an answer carries.
pub open spec fn cap_of(raw: MaxResultsArg) -> Result<nat, Seq<char>> {
    match raw {
        MaxResultsArg::Absent => Ok(DEFAULT_MAX_RESULTS as nat),
        MaxResultsArg::NotAnInteger => Err(invalid_cap()),
        MaxResultsArg::Integer(v) => if v < 1 {
            Err(invalid_cap())
        } else if v > MAX_MAX_RESULTS {
            Ok(MAX_MAX_RESULTS as nat)
        } else {
            Ok(v as nat)
        },
    }
}

/// Clamp quietly, reject loudly.
pub fn read_max_results(raw: MaxResultsArg) -> (r: Result<usize, String>)
    ensures
        match cap_of(raw) {
            Ok(n) => r matches Ok(m) && m == n,
            Err(e) => r matches Err(m) && m@ == e,
        },
{
    match raw {
        MaxResultsArg::Absent => Ok(DEFAULT_MAX_RESULTS),
        MaxResultsArg::NotAnInteger => Err(
            string_of(text_of("maxResults must be a positive integer").chars.as_slice()),
        ),
        MaxResultsArg::Integer(v) => {
            if v < 1 {
                Err(string_of(text_of("maxResults must be a positive integer").chars.as_slice()))
            } else if v > 5000 {
                Ok(MAX_MAX_RESULTS)
            } else {
                Ok(v as usize)
            }
        },
    }
}

/// The options a request names: its kinds, then its scripts, each refused
/// by name when it names nothing.
pub fn read_options(kinds: &[String], scripts: &[String]) -> (r: Result<Options, String>)
    ensures
        match (kinds_of(kinds@.map_values(|s: String| s@)), scripts_of_tokens(
            scripts@.map_values(|s: String| s@),
        )) {
            (Err(e), _) => r matches Err(m) && m@ == e,
            (Ok(_), Err(e)) => r matches Err(m) && m@ == e,
            (Ok(ks), Ok(ss)) => r matches Ok(o) && o.kinds@ == ks && o.expected_scripts@ == ss,
        },
{
    let ghost kv = kinds@.map_values(|s: String| s@);
    let ghost sv = scripts@.map_values(|s: String| s@);
    let mut options = Options { kinds: Vec::new(), expected_scripts: Vec::new() };
    let mut k: usize = 0;
    proof {
        assert(kv.take(0) =~= Seq::<Seq<char>>::empty());
    }
    while k < kinds.len()
        invariant
            kv == kinds@.map_values(|s: String| s@),
            0 <= k <= kinds.len(),
            kinds_of(kv.take(k as int)) == Ok::<Seq<Kind>, Seq<char>>(options.kinds@),
            options.expected_scripts@.len() == 0,
        decreases kinds.len() - k,
    {
        proof {
            let t = kv.take(k + 1);
            assert(t.drop_last() =~= kv.take(k as int));
            assert(t.last() == kinds@[k as int]@);
        }
        match parse_kind(kinds[k].as_str()) {
            Ok(kind) => {
                options.kinds.push(kind);
            },
            Err(e) => {
                proof {
                    lemma_kinds_error_stays(kv, k as int);
                }
                return Err(e);
            },
        }
        k = k + 1;
    }
    proof {
        assert(kv.take(kinds.len() as int) =~= kv);
        assert(sv.take(0) =~= Seq::<Seq<char>>::empty());
        assert(options.expected_scripts@ =~= Seq::<u8>::empty());
    }
    let mut m: usize = 0;
    while m < scripts.len()
        invariant
            sv == scripts@.map_values(|s: String| s@),
            kv == kinds@.map_values(|s: String| s@),
            kinds_of(kv) == Ok::<Seq<Kind>, Seq<char>>(options.kinds@),
            0 <= m <= scripts.len(),
            scripts_of_tokens(sv.take(m as int)) == Ok::<Seq<u8>, Seq<char>>(options.expected_scripts@),
        decreases scripts.len() - m,
    {
        proof {
            let t = sv.take(m + 1);
            assert(t.drop_last() =~= sv.take(m as int));
            assert(t.last() == scripts@[m as int]@);
        }
        match parse_script(scripts[m].as_str()) {
            Ok(script) => {
                options.expected_scripts.push(script);
            },
            Err(e) => {
                proof {
                    assert(script_result(scripts@[m as int]@) == Err::<u8, Seq<char>>(e@));
                    assert(scripts_of_tokens(sv.take(m + 1)) == Err::<Seq<u8>, Seq<char>>(e@));
                    lemma_scripts_error_stays(sv, m as int);
                }
                return Err(e);
            },
        }
        m = m + 1;
    }
    proof {
        assert(sv.take(scripts.len() as int) =~= sv);
    }
    Ok(options)
}

/// JSON-RPC's code for a method the server does not implement.
pub const METHOD_NOT_FOUND: i64 = -32601;

/// JSON-RPC's code for a call whose parameters name nothing usable.
pub const INVALID_PARAMS: i64 = -32602;

/// The methods this server answers.
#[derive(Clone, Copy, Debug, PartialEq, Eq, Structural)]
pub enum Method {
    Initialize,
    ToolsList,
    ToolsCall,
    Ping,
}

pub open spec fn method_named(name: Seq<char>) -> Option<Method> {
    if name == "initialize"@ {
        Some(Method::Initialize)
    } else if name == "tools/list"@ {
        Some(Method::ToolsList)
    } else if name == "tools/call"@ {
        Some(Method::ToolsCall)
    } else if name == "ping"@ {
        Some(Method::Ping)
    } else {
        None
    }
}

/// What a method the server does not implement is answered.
pub open spec fn unknown_method(name: Seq<char>) -> Seq<char> {
    "this server does not implement "@ + name
}

/// The method a request names, or the protocol error that answers it.
pub fn method(name: &str) -> (r: Result<Method, (i64, String)>)
    ensures
        match method_named(name@) {
            Some(m) => r == Ok::<Method, (i64, String)>(m),
            None => r matches Err((code, message)) && code == METHOD_NOT_FOUND && message@
                == unknown_method(name@),
        },
{
    let chars = text_of(name).chars;
    if equals_str(chars.as_slice(), "initialize") {
        Ok(Method::Initialize)
    } else if equals_str(chars.as_slice(), "tools/list") {
        Ok(Method::ToolsList)
    } else if equals_str(chars.as_slice(), "tools/call") {
        Ok(Method::ToolsCall)
    } else if equals_str(chars.as_slice(), "ping") {
        Ok(Method::Ping)
    } else {
        let mut message = text_of("this server does not implement ").chars;
        push_str(&mut message, name);
        Err((METHOD_NOT_FOUND, string_of(message.as_slice())))
    }
}

/// The tools this server offers.
#[derive(Clone, Copy, Debug, PartialEq, Eq, Structural)]
pub enum Tool {
    /// One document, handed over as text; no filesystem.
    Detect,
    /// Files and directories, read from disk.
    Scan,
}

pub open spec fn tool_named(name: Seq<char>) -> Option<Tool> {
    if name == "detect_unicode_risks"@ {
        Some(Tool::Detect)
    } else if name == "unicode_le_scan"@ {
        Some(Tool::Scan)
    } else {
        None
    }
}

pub open spec fn unknown_tool(name: Seq<char>) -> Seq<char> {
    "this server offers no tool named "@ + name
}

/// The name each tool is offered under.
pub fn tool_name(tool: Tool) -> (r: &'static str)
    ensures
        tool_named(r@) == Some(tool),
{
    proof {
        reveal_strlit("detect_unicode_risks");
        reveal_strlit("unicode_le_scan");
        assert("detect_unicode_risks"@[0] != "unicode_le_scan"@[0]);
    }
    match tool {
        Tool::Detect => "detect_unicode_risks",
        Tool::Scan => "unicode_le_scan",
    }
}

/// The tool a call names, or the protocol error that answers it.
pub fn tool(name: &str) -> (r: Result<Tool, (i64, String)>)
    ensures
        match tool_named(name@) {
            Some(t) => r == Ok::<Tool, (i64, String)>(t),
            None => r matches Err((code, message)) && code == INVALID_PARAMS && message@
                == unknown_tool(name@),
        },
{
    let chars = text_of(name).chars;
    if equals_str(chars.as_slice(), "detect_unicode_risks") {
        Ok(Tool::Detect)
    } else if equals_str(chars.as_slice(), "unicode_le_scan") {
        Ok(Tool::Scan)
    } else {
        let mut message = text_of("this server offers no tool named ").chars;
        push_str(&mut message, name);
        Err((INVALID_PARAMS, string_of(message.as_slice())))
    }
}

/// The strings among a list's items, in order.
pub open spec fn present(items: Seq<Option<Seq<char>>>) -> Seq<Seq<char>>
    decreases items.len(),
{
    if items.len() == 0 {
        seq![]
    } else {
        present(items.drop_last()) + match items.last() {
            Some(s) => seq![s],
            None => seq![],
        }
    }
}

pub open spec fn no_paths() -> Seq<char> {
    "no file or directory was supplied to scan"@
}

pub open spec fn empty_paths() -> Seq<char> {
    "the list of paths was empty"@
}

/// What a scan call asks to read: `path` when it is a string, else the
/// strings of `paths`, which may not come to nothing.
pub open spec fn paths_requested(
    path: Option<Seq<char>>,
    paths: Option<Seq<Option<Seq<char>>>>,
) -> Result<Seq<Seq<char>>, Seq<char>> {
    match path {
        Some(p) => Ok(seq![p]),
        None => match paths {
            Some(items) => if present(items).len() == 0 {
                Err(empty_paths())
            } else {
                Ok(present(items))
            },
            None => Err(no_paths()),
        },
    }
}

/// The paths a scan call names. `path` is its string value, if it has
/// one; `paths` is its list, if it is one, with each item's string value.
pub fn requested_paths(path: Option<String>, paths: Option<Vec<Option<String>>>) -> (r: Result<
    Vec<String>,
    String,
>)
    ensures
        match paths_requested(
            match path {
                Some(p) => Some(p@),
                None => None,
            },
            match paths {
                Some(items) => Some(
                    items@.map_values(
                        |item: Option<String>|
                            match item {
                                Some(s) => Some(s@),
                                None => None,
                            },
                    ),
                ),
                None => None,
            },
        ) {
            Ok(ps) => r matches Ok(v) && v.deep_view() == ps,
            Err(e) => r matches Err(m) && m@ == e,
        },
{
    match path {
        Some(p) => {
            let mut out: Vec<String> = Vec::new();
            out.push(p);
            proof {
                assert(out.deep_view() =~= seq![out@[0]@]);
            }
            Ok(out)
        },
        None => match paths {
            Some(items) => {
                let ghost view = items@.map_values(
                    |item: Option<String>|
                        match item {
                            Some(s) => Some(s@),
                            None => None,
                        },
                );
                let mut items = items;
                let mut rest: Vec<Option<String>> = Vec::new();
                let count = items.len();
                proof {
                    assert(view.len() == count);
                }
                while items.len() > 0
                    invariant
                        view.len() == items@.len() + rest@.len(),
                        view.len() <= usize::MAX,
                        forall|k: int| 0 <= k < items@.len() ==> #[trigger] view[k] == match items@[k] {
                            Some(s) => Some(s@),
                            None => None,
                        },
                        forall|k: int| 0 <= k < rest@.len() ==> #[trigger] view[view.len() - 1 - k] == match rest@[k] {
                            Some(s) => Some(s@),
                            None => None,
                        },
                    decreases items.len(),
                {
                    let item = items.pop().unwrap();
                    proof {
                        assert(view[items@.len() as int] == match item {
                            Some(s) => Some(s@),
                            None => None,
                        });
                    }
                    rest.push(item);
                }
                let mut out: Vec<String> = Vec::new();
                let mut i: usize = 0;
                proof {
                    assert(view.take(0) =~= Seq::<Option<Seq<char>>>::empty());
                    assert(out.deep_view() =~= present(view.take(0)));
                }
                while rest.len() > 0
                    invariant
                        i + rest@.len() == view.len(),
                        view.len() <= usize::MAX,
                        forall|k: int| 0 <= k < rest@.len() ==> #[trigger] view[view.len() - 1 - k] == match rest@[k] {
                            Some(s) => Some(s@),
                            None => None,
                        },
                        out.deep_view() == present(view.take(i as int)),
                    decreases rest.len(),
                {
                    let ghost last = rest@.len() - 1;
                    proof {
                        assert(view[view.len() - 1 - last] == match rest@[last] {
                            Some(s) => Some(s@),
                            None => None,
                        });
                    }
                    let item = rest.pop().unwrap();
                    proof {
                        assert(view[i as int] == match item {
                            Some(s) => Some(s@),
                            None => None,
                        });
                        let t = view.take(i + 1);
                        assert(t.drop_last() =~= view.take(i as int));
                        assert(t.last() == view[i as int]);
                    }
                    match item {
                        Some(s) => {
                            let ghost before = out.deep_view();
                            out.push(s);
                            proof {
                                assert(out.deep_view() =~= before + seq![out@[out@.len() - 1]@]);
                            }
                        },
                        None => {
                            proof {
                                assert(present(view.take(i + 1)) =~= present(view.take(i as int)));
                            }
                        },
                    }
                    i = i + 1;
                }
                proof {
                    assert(view.take(view.len() as int) =~= view);
                }
                if out.len() == 0 {
                    Err(string_of(text_of("the list of paths was empty").chars.as_slice()))
                } else {
                    Ok(out)
                }
            },
            None => Err(string_of(text_of("no file or directory was supplied to scan").chars.as_slice())),
        },
    }
}

/// The findings an answer carries under its cap, and whether any were
/// left out: a silently incomplete answer is the expensive kind of wrong.
pub fn capped(findings: Vec<Finding>, max: usize) -> (r: (Vec<Finding>, bool))
    ensures
        r.1 == (findings@.len() > max),
        r.0@ == if r.1 {
            findings@.take(max as int)
        } else {
            findings@
        },
{
    let truncated = findings.len() > max;
    let mut findings = findings;
    findings.truncate(max);
    (findings, truncated)
}

} // verus!
