//! The detection layer: document text in, located findings out.
//!
//! Nothing in here touches the filesystem: every rule the tool decides by
//! is a function of a string, so every one of them is stated and proved
//! over a string.


pub mod ascii;
pub mod characters;
pub mod codepoint;
pub mod csv;
pub mod dotenv;
pub mod encoding;
pub mod format;
pub mod ini;
pub mod json;
pub mod laws;
pub mod locate;
pub mod normalize;
pub mod position;
pub mod scripts;
pub mod toml;
pub mod yaml;

use characters::char_drafts;
use locate::{format_escapes, format_spans, key_at, path_at, KeySpan, KeySpanView};
use normalize::nfc_drafts;
use position::{position_at, Position, PositionIndex};
use scripts::{context_of, escapes_ordered, refusal_detail, script_drafts};
use std::ops::Range;
use vstd::prelude::*;

verus! {

/// The seven things this tool reports.
#[derive(Clone, Copy, Debug, PartialEq, Eq, Structural, PartialOrd, Ord, Hash)]
pub enum Kind {
    /// The Trojan Source class, CVE-2021-42574.
    BidiControl,
    Invisible,
    Confusable,
    MixedScript,
    NonNfc,
    UnusualWhitespace,
    UnassignedOrPrivateUse,
}

/// The name a kind carries in the report.
pub open spec fn kind_name(kind: Kind) -> Seq<char> {
    match kind {
        Kind::BidiControl => "bidi-control"@,
        Kind::Invisible => "invisible"@,
        Kind::Confusable => "confusable"@,
        Kind::MixedScript => "mixed-script"@,
        Kind::NonNfc => "non-nfc"@,
        Kind::UnusualWhitespace => "unusual-whitespace"@,
        Kind::UnassignedOrPrivateUse => "unassigned-or-private-use"@,
    }
}

/// The short word a caller may filter on.
pub open spec fn kind_short(kind: Kind) -> Seq<char> {
    match kind {
        Kind::BidiControl => "bidi"@,
        Kind::Invisible => "invisible"@,
        Kind::Confusable => "confusable"@,
        Kind::MixedScript => "mixed-script"@,
        Kind::NonNfc => "non-nfc"@,
        Kind::UnusualWhitespace => "whitespace"@,
        Kind::UnassignedOrPrivateUse => "unassigned"@,
    }
}

/// The order kinds are declared in, which breaks ties between findings at
/// one offset.
pub open spec fn kind_rank(kind: Kind) -> nat {
    match kind {
        Kind::BidiControl => 0,
        Kind::Invisible => 1,
        Kind::Confusable => 2,
        Kind::MixedScript => 3,
        Kind::NonNfc => 4,
        Kind::UnusualWhitespace => 5,
        Kind::UnassignedOrPrivateUse => 6,
    }
}

pub fn rank(kind: Kind) -> (r: u8)
    ensures
        r == kind_rank(kind),
{
    match kind {
        Kind::BidiControl => 0,
        Kind::Invisible => 1,
        Kind::Confusable => 2,
        Kind::MixedScript => 3,
        Kind::NonNfc => 4,
        Kind::UnusualWhitespace => 5,
        Kind::UnassignedOrPrivateUse => 6,
    }
}

impl Kind {
    pub fn name(self) -> (r: &'static str)
        ensures
            r@ == kind_name(self),
    {
        match self {
            Kind::BidiControl => "bidi-control",
            Kind::Invisible => "invisible",
            Kind::Confusable => "confusable",
            Kind::MixedScript => "mixed-script",
            Kind::NonNfc => "non-nfc",
            Kind::UnusualWhitespace => "unusual-whitespace",
            Kind::UnassignedOrPrivateUse => "unassigned-or-private-use",
        }
    }

    pub fn short(self) -> (r: &'static str)
        ensures
            r@ == kind_short(self),
    {
        match self {
            Kind::BidiControl => "bidi",
            Kind::Invisible => "invisible",
            Kind::Confusable => "confusable",
            Kind::MixedScript => "mixed-script",
            Kind::NonNfc => "non-nfc",
            Kind::UnusualWhitespace => "whitespace",
            Kind::UnassignedOrPrivateUse => "unassigned",
        }
    }
}

/// Every kind, in declaration order.
pub open spec fn all_kinds() -> Seq<Kind> {
    seq![
        Kind::BidiControl,
        Kind::Invisible,
        Kind::Confusable,
        Kind::MixedScript,
        Kind::NonNfc,
        Kind::UnusualWhitespace,
        Kind::UnassignedOrPrivateUse,
    ]
}

pub fn kinds() -> (r: Vec<Kind>)
    ensures
        r@ == all_kinds(),
{
    let r = vec![
        Kind::BidiControl,
        Kind::Invisible,
        Kind::Confusable,
        Kind::MixedScript,
        Kind::NonNfc,
        Kind::UnusualWhitespace,
        Kind::UnassignedOrPrivateUse,
    ];
    proof {
        assert(r@ =~= all_kinds());
    }
    r
}

/// The words `parse_kind` offers when it refuses one.
pub open spec fn offered_kinds() -> Seq<char> {
    "bidi, invisible, confusable, mixed-script, non-nfc, whitespace, unassigned"@
}

pub open spec fn names_kind(token: Seq<char>, kind: Kind) -> bool {
    token == kind_name(kind) || token == kind_short(kind)
}

/// The kind a token names, trying the kinds in declaration order.
pub open spec fn kind_token(token: Seq<char>) -> Option<Kind> {
    if names_kind(token, Kind::BidiControl) {
        Some(Kind::BidiControl)
    } else if names_kind(token, Kind::Invisible) {
        Some(Kind::Invisible)
    } else if names_kind(token, Kind::Confusable) {
        Some(Kind::Confusable)
    } else if names_kind(token, Kind::MixedScript) {
        Some(Kind::MixedScript)
    } else if names_kind(token, Kind::NonNfc) {
        Some(Kind::NonNfc)
    } else if names_kind(token, Kind::UnusualWhitespace) {
        Some(Kind::UnusualWhitespace)
    } else if names_kind(token, Kind::UnassignedOrPrivateUse) {
        Some(Kind::UnassignedOrPrivateUse)
    } else {
        None
    }
}

pub open spec fn unknown_kind_message(token: Seq<char>) -> Seq<char> {
    token + " is not a kind; one of: "@ + offered_kinds()
}

/// Resolve a kind from its report name or its short filter word.
pub fn parse_kind(token: &str) -> (r: Result<Kind, String>)
    ensures
        match r {
            Ok(kind) => names_kind(token@, kind) && kind_token(token@) == Some(kind),
            Err(message) => {
                &&& forall|kind: Kind| !names_kind(token@, kind)
                &&& message@ == token@ + " is not a kind; one of: "@ + offered_kinds()
            },
        },
{
    let every = kinds();
    let chars = crate::text::text_of(token).chars;
    let mut i: usize = 0;
    while i < every.len()
        invariant
            every@ == all_kinds(),
            chars@ == token@,
            0 <= i <= every.len(),
            forall|j: int| 0 <= j < i ==> !names_kind(token@, #[trigger] all_kinds()[j]),
        decreases every.len() - i,
    {
        let kind = every[i];
        if crate::text::equals_str(chars.as_slice(), kind.name()) || crate::text::equals_str(
            chars.as_slice(),
            kind.short(),
        ) {
            proof {
                assert(forall|j: int| 0 <= j < i ==> !names_kind(token@, #[trigger] all_kinds()[j]));
                if i >= 1 { assert(!names_kind(token@, all_kinds()[0])); }
                if i >= 2 { assert(!names_kind(token@, all_kinds()[1])); }
                if i >= 3 { assert(!names_kind(token@, all_kinds()[2])); }
                if i >= 4 { assert(!names_kind(token@, all_kinds()[3])); }
                if i >= 5 { assert(!names_kind(token@, all_kinds()[4])); }
                if i >= 6 { assert(!names_kind(token@, all_kinds()[5])); }
            }
            return Ok(kind);
        }
        i = i + 1;
    }
    proof {
        assert forall|kind: Kind| !names_kind(token@, kind) by {
            match kind {
                Kind::BidiControl => assert(all_kinds()[0] == kind),
                Kind::Invisible => assert(all_kinds()[1] == kind),
                Kind::Confusable => assert(all_kinds()[2] == kind),
                Kind::MixedScript => assert(all_kinds()[3] == kind),
                Kind::NonNfc => assert(all_kinds()[4] == kind),
                Kind::UnusualWhitespace => assert(all_kinds()[5] == kind),
                Kind::UnassignedOrPrivateUse => assert(all_kinds()[6] == kind),
            }
        }
    }
    let mut message = chars;
    crate::text::push_str(&mut message, " is not a kind; one of: ");
    crate::text::push_str(
        &mut message,
        "bidi, invisible, confusable, mixed-script, non-nfc, whitespace, unassigned",
    );
    Err(crate::text::string_of(message.as_slice()))
}

#[derive(Clone, Copy, Debug, PartialEq, Eq, Structural, PartialOrd, Ord, Hash)]
pub enum Severity {
    Low,
    Medium,
    High,
}

/// Why a file, or part of one, was not judged.
#[derive(Clone, Copy, Debug, PartialEq, Eq, Structural, Hash)]
pub enum Reason {
    /// Not text, or not UTF-8. No encoding is guessed.
    BinaryOrUndecodable,
    /// A byte-order mark for an encoding this does not read.
    EncodingUnknown,
    /// The file is written in another script and it was not declared, so
    /// the confusable and mixed-script checks did not run on it.
    IntentionalScriptContext,
}

/// A refusal is a first-class result rather than an error: the run
/// carries on, and nothing is reported as clean that was never looked at.
#[derive(Clone, Debug, PartialEq, Eq)]
pub struct Refusal {
    pub reason: Reason,
    pub detail: String,
}

impl Refusal {
    /// Whether the rest of the file was still examined. Only the script
    /// context refuses *part* of a file.
    pub fn is_partial(&self) -> (r: bool)
        ensures
            r == (self.reason == Reason::IntentionalScriptContext),
    {
        self.reason == Reason::IntentionalScriptContext
    }
}

/// A finding before it knows where it is, as a value.
pub ghost struct DraftView {
    pub offset: nat,
    pub kind: Kind,
    pub severity: Severity,
    pub codepoints: Seq<Seq<char>>,
    pub scripts: Seq<Seq<char>>,
    pub resembles: Seq<Seq<char>>,
    pub detail: Seq<char>,
}

/// A finding before it knows where it is. Every scanner returns these;
/// positions are attached in one place.
#[derive(Debug)]
pub struct Draft {
    pub offset: usize,
    pub kind: Kind,
    pub severity: Severity,
    pub codepoints: Vec<String>,
    pub scripts: Vec<String>,
    pub resembles: Vec<String>,
    pub detail: String,
}

impl View for Draft {
    type V = DraftView;

    open spec fn view(&self) -> DraftView {
        DraftView {
            offset: self.offset as nat,
            kind: self.kind,
            severity: self.severity,
            codepoints: self.codepoints.deep_view(),
            scripts: self.scripts.deep_view(),
            resembles: self.resembles.deep_view(),
            detail: self.detail@,
        }
    }
}

pub open spec fn drafts_view(drafts: Seq<Draft>) -> Seq<DraftView> {
    drafts.map_values(|d: Draft| d@)
}

/// One located finding.
///
/// `codepoints` and `resembles` are `U+XXXX` strings and are the only
/// representation of the characters involved: there is no field holding
/// the source text, and adding one is the single change that would turn
/// the report into a way of carrying the attack to whoever reads it.
#[derive(Debug)]
pub struct Finding {
    pub kind: Kind,
    pub severity: Severity,
    pub position: Position,
    pub offset: usize,
    /// The document's own name for where the finding sits, where the
    /// format is readable and the path is not the root.
    pub key: Option<String>,
    pub codepoints: Vec<String>,
    pub scripts: Vec<String>,
    pub resembles: Vec<String>,
    pub detail: String,
}

pub ghost struct FindingView {
    pub kind: Kind,
    pub severity: Severity,
    pub line: nat,
    pub column: nat,
    pub offset: nat,
    pub key: Option<Seq<char>>,
    pub codepoints: Seq<Seq<char>>,
    pub scripts: Seq<Seq<char>>,
    pub resembles: Seq<Seq<char>>,
    pub detail: Seq<char>,
}

impl View for Finding {
    type V = FindingView;

    open spec fn view(&self) -> FindingView {
        FindingView {
            kind: self.kind,
            severity: self.severity,
            line: self.position.line as nat,
            column: self.position.column as nat,
            offset: self.offset as nat,
            key: match &self.key {
                Some(k) => Some(k@),
                None => None,
            },
            codepoints: self.codepoints.deep_view(),
            scripts: self.scripts.deep_view(),
            resembles: self.resembles.deep_view(),
            detail: self.detail@,
        }
    }
}

pub open spec fn findings_view(findings: Seq<Finding>) -> Seq<FindingView> {
    findings.map_values(|f: Finding| f@)
}

/// The key a finding at `offset` carries: the path of the value it sits
/// in, unless that is the document's root, which names nothing.
pub open spec fn key_for(spans: Seq<KeySpanView>, offset: nat) -> Option<Seq<char>> {
    match path_at(spans, offset) {
        Some(path) => if path.len() > 0 {
            Some(path)
        } else {
            None
        },
        None => None,
    }
}

/// A draft, placed: its line and column in the document, and its key.
pub open spec fn located(d: DraftView, cs: Seq<char>, spans: Seq<KeySpanView>) -> FindingView {
    FindingView {
        kind: d.kind,
        severity: d.severity,
        line: position_at(cs, d.offset).0,
        column: position_at(cs, d.offset).1,
        offset: d.offset,
        key: key_for(spans, d.offset),
        codepoints: d.codepoints,
        scripts: d.scripts,
        resembles: d.resembles,
        detail: d.detail,
    }
}

impl Draft {
    /// Attaches the position and the key path. Positions are attached in
    /// one place, so no scanner can invent its own idea of a column.
    pub fn locate(self, index: &PositionIndex, spans: &[KeySpan]) -> (r: Finding)
        requires
            index.wf(),
            locate::ordered(locate::spans_view(spans@)),
        ensures
            r@ == located(self@, index.chars(), locate::spans_view(spans@)),
    {
        let position = index.at(self.offset);
        let key = match key_at(spans, self.offset) {
            Some(path) => {
                if crate::text::text_of(path).chars.len() > 0 {
                    Some(path.to_owned())
                } else {
                    None
                }
            },
            None => None,
        };
        Finding {
            kind: self.kind,
            severity: self.severity,
            position,
            offset: self.offset,
            key,
            codepoints: self.codepoints,
            scripts: self.scripts,
            resembles: self.resembles,
            detail: self.detail,
        }
    }
}

/// What a caller asks for.
#[derive(Debug)]
pub struct Options {
    /// Which kinds to report. Empty means every kind: the default, and the
    /// only setting under which a clean report means "clean".
    pub kinds: Vec<Kind>,
    /// The non-Latin scripts this tree is expected to contain, as
    /// `unicode-script` discriminants.
    pub expected_scripts: Vec<u8>,
}

impl Default for Options {
    fn default() -> (r: Options)
        ensures
            r.kinds@.len() == 0,
            r.expected_scripts@.len() == 0,
    {
        Options { kinds: Vec::new(), expected_scripts: Vec::new() }
    }
}

pub open spec fn wanted(kinds: Seq<Kind>, kind: Kind) -> bool {
    kinds.len() == 0 || kinds.contains(kind)
}

impl Options {
    pub fn wants(&self, kind: Kind) -> (r: bool)
        ensures
            r == wanted(self.kinds@, kind),
    {
        if self.kinds.len() == 0 {
            return true;
        }
        let mut i: usize = 0;
        while i < self.kinds.len()
            invariant
                0 <= i <= self.kinds.len(),
                forall|j: int| 0 <= j < i ==> self.kinds@[j] != kind,
            decreases self.kinds.len() - i,
        {
            if self.kinds[i] == kind {
                proof {
                    assert(self.kinds@[i as int] == kind);
                }
                return true;
            }
            i = i + 1;
        }
        false
    }
}

/// Whether one draft sorts strictly before another: document order, and
/// the declaration order of kinds within one offset.
pub open spec fn sorts_before(a: DraftView, b: DraftView) -> bool {
    a.offset < b.offset || (a.offset == b.offset && kind_rank(a.kind) < kind_rank(b.kind))
}

/// Where a draft goes in a sorted list: before the first entry it sorts
/// strictly before, so equal keys keep the order they came in.
pub open spec fn draft_slot(s: Seq<DraftView>, d: DraftView, i: int) -> int
    decreases s.len() - i,
{
    if i >= s.len() {
        s.len() as int
    } else if sorts_before(d, s[i]) {
        i
    } else {
        draft_slot(s, d, i + 1)
    }
}

/// Drafts sorted by offset and then kind, stably.
pub open spec fn sort_drafts(s: Seq<DraftView>) -> Seq<DraftView>
    decreases s.len(),
{
    if s.len() == 0 {
        s
    } else {
        let sorted = sort_drafts(s.drop_last());
        sorted.insert(draft_slot(sorted, s.last(), 0), s.last())
    }
}

/// The drafts of the kinds a caller asked for.
pub open spec fn wanted_only(s: Seq<DraftView>, kinds: Seq<Kind>) -> Seq<DraftView>
    decreases s.len(),
{
    if s.len() == 0 {
        s
    } else {
        let before = wanted_only(s.drop_last(), kinds);
        if wanted(kinds, s.last().kind) {
            before.push(s.last())
        } else {
            before
        }
    }
}

/// The escape ranges of a document as the word splitter takes them.
pub open spec fn escape_ranges(cs: Seq<char>, format: Seq<char>) -> Seq<Range<usize>> {
    format_escapes(cs, format).map_values(
        |e: (nat, nat)| Range { start: e.0 as usize, end: e.1 as usize },
    )
}

/// The script pair is asked for together or not at all.
pub open spec fn script_checks_wanted(kinds: Seq<Kind>) -> bool {
    wanted(kinds, Kind::Confusable) || wanted(kinds, Kind::MixedScript)
}

/// Every draft a document makes, before filtering and sorting: character
/// findings, normalization findings, and, where the script checks are
/// wanted and the document is not refused, mixed-script and confusable
/// findings.
pub open spec fn raw_drafts(cs: Seq<char>, format: Seq<char>, kinds: Seq<Kind>, expected: Seq<u8>) -> Seq<
    DraftView,
> {
    let base = char_drafts(cs) + nfc_drafts(cs);
    if script_checks_wanted(kinds) && context_of(cs, expected) is None {
        base + script_drafts(cs, escape_ranges(cs, format), expected)
    } else {
        base
    }
}

/// The findings of a document, in document order.
pub open spec fn examined(cs: Seq<char>, format: Seq<char>, kinds: Seq<Kind>, expected: Seq<u8>) -> Seq<
    FindingView,
> {
    sort_drafts(wanted_only(raw_drafts(cs, format, kinds, expected), kinds)).map_values(
        |d: DraftView| located(d, cs, format_spans(cs, format)),
    )
}

/// The refusals of a document: the script-context refusal, when the
/// script checks were asked for and the document is refused.
pub open spec fn refused(cs: Seq<char>, kinds: Seq<Kind>, expected: Seq<u8>) -> Seq<(Reason, Seq<char>)> {
    if script_checks_wanted(kinds) {
        match context_of(cs, expected) {
            Some((share, names)) => seq![
                (Reason::IntentionalScriptContext, refusal_detail(share, names, expected.len() > 0)),
            ],
            None => seq![],
        }
    } else {
        seq![]
    }
}

#[derive(Debug)]
pub struct Examination {
    pub findings: Vec<Finding>,
    pub refusals: Vec<Refusal>,
}

pub open spec fn refusals_view(refusals: Seq<Refusal>) -> Seq<(Reason, Seq<char>)> {
    refusals.map_values(|r: Refusal| (r.reason, r.detail@))
}

fn reversed<T>(v: Vec<T>) -> (r: Vec<T>)
    ensures
        r@ == v@.reverse(),
{
    let mut v = v;
    let ghost original = v@;
    let mut out: Vec<T> = Vec::new();
    while v.len() > 0
        invariant
            v@ == original.take(v.len() as int),
            v.len() <= original.len(),
            out@ == original.reverse().take(original.len() - v.len()),
        decreases v.len(),
    {
        let ghost n = v.len();
        let x = v.pop().unwrap();
        out.push(x);
        proof {
            assert(x == original[n - 1]);
            assert(v@ =~= original.take(n - 1));
            assert(out@ =~= original.reverse().take(original.len() - (n - 1)));
        }
    }
    proof {
        assert(original.reverse().take(original.len() as int) =~= original.reverse());
    }
    out
}

fn sorts_before_exec(a: &Draft, b: &Draft) -> (r: bool)
    ensures
        r == sorts_before(a@, b@),
{
    a.offset < b.offset || (a.offset == b.offset && rank(a.kind) < rank(b.kind))
}

/// The drafts of the wanted kinds, in document order.
pub fn wanted_in_order(drafts: Vec<Draft>, options: &Options) -> (r: Vec<Draft>)
    ensures
        drafts_view(r@) == sort_drafts(wanted_only(drafts_view(drafts@), options.kinds@)),
{
    let ghost dv = drafts_view(drafts@);
    let ghost n = drafts@.len();
    let mut rest = reversed(drafts);
    let mut sorted: Vec<Draft> = Vec::new();
    let ghost mut i: int = 0;
    proof {
        assert(dv.take(0) =~= Seq::<DraftView>::empty());
    }
    while rest.len() > 0
        invariant
            0 <= i <= n,
            n == dv.len(),
            rest.len() == n - i,
            forall|k: int| 0 <= k < rest.len() ==> (#[trigger] rest@[k])@ == dv[n - 1 - k],
            drafts_view(sorted@) == sort_drafts(wanted_only(dv.take(i), options.kinds@)),
        decreases rest.len(),
    {
        let ghost len_before = rest.len();
        let d = rest.pop().unwrap();
        proof {
            assert(d@ == dv[i]);
            let t = dv.take(i + 1);
            assert(t.drop_last() =~= dv.take(i));
            assert(t.last() == dv[i]);
        }
        if options.wants(d.kind) {
            let ghost sv = drafts_view(sorted@);
            let mut p: usize = 0;
            while p < sorted.len() && !sorts_before_exec(&d, &sorted[p])
                invariant
                    sv == drafts_view(sorted@),
                    0 <= p <= sorted.len(),
                    draft_slot(sv, d@, 0) == draft_slot(sv, d@, p as int),
                decreases sorted.len() - p,
            {
                p = p + 1;
            }
            proof {
                lemma_draft_slot(sv, d@, 0);
            }
            let ghost view = d@;
            sorted.insert(p, d);
            proof {
                assert(drafts_view(sorted@) =~= sv.insert(p as int, view));
                assert(wanted_only(dv.take(i + 1), options.kinds@) =~= wanted_only(dv.take(i), options.kinds@).push(view));
                assert(wanted_only(dv.take(i + 1), options.kinds@).drop_last() =~= wanted_only(dv.take(i), options.kinds@));
            }
        }
        proof {
            i = i + 1;
            assert forall|k: int| 0 <= k < rest.len() implies (#[trigger] rest@[k])@ == dv[n - 1 - k] by {
            }
        }
    }
    proof {
        assert(dv.take(n as int) =~= dv);
    }
    sorted
}

proof fn lemma_draft_slot(s: Seq<DraftView>, d: DraftView, i: int)
    requires
        0 <= i <= s.len(),
    ensures
        i <= draft_slot(s, d, i) <= s.len(),
    decreases s.len() - i,
{
    if i < s.len() && !sorts_before(d, s[i]) {
        lemma_draft_slot(s, d, i + 1);
    }
}

fn append_drafts(out: &mut Vec<Draft>, more: Vec<Draft>)
    ensures
        drafts_view(final(out)@) == drafts_view(old(out)@) + drafts_view(more@),
{
    let mut more = more;
    let ghost a = drafts_view(out@);
    let ghost b = drafts_view(more@);
    out.append(&mut more);
    proof {
        assert(drafts_view(out@) =~= a + b);
    }
}

/// Examines a document read as the given format: every finding, located
/// and keyed, in document order, and the refusals.
pub fn examine(content: &str, format: &str, options: &Options) -> (r: Examination)
    requires
        crate::text::byte_len(content@) < usize::MAX,
    ensures
        findings_view(r.findings@) == examined(content@, format@, options.kinds@, options.expected_scripts@),
        refusals_view(r.refusals@) == refused(content@, options.kinds@, options.expected_scripts@),
        forall|i: int| 0 <= i < r.findings.len() ==> ascii::finding_ascii(#[trigger] r.findings@[i]@),
        forall|i: int| 0 <= i < r.refusals.len() ==> vstd::utf8::is_ascii_chars(#[trigger] r.refusals@[i].detail@),
{
    let text = crate::text::text_of(content);
    ascii::check_script_names(&text.chars);
    let mut drafts = characters::scan_text(&text);
    append_drafts(&mut drafts, normalize::scan_text(&text));
    let mut refusals: Vec<Refusal> = Vec::new();
    if options.wants(Kind::Confusable) || options.wants(Kind::MixedScript) {
        match scripts::context_text(&text, options.expected_scripts.as_slice()) {
            Some(refusal) => {
                refusals.push(refusal);
                proof {
                    assert(refusals_view(refusals@) =~= refused(content@, options.kinds@, options.expected_scripts@));
                }
            },
            None => {
                let escapes = locate::escape_spans(content, format);
                proof {
                    let v = escapes@.map_values(|e: Range<usize>| (e.start as nat, e.end as nat));
                    assert forall|k: int| 0 <= k < escapes@.len() implies #[trigger] escapes@[k] == escape_ranges(content@, format@)[k] by {
                        assert(v[k] == (escapes@[k].start as nat, escapes@[k].end as nat));
                    }
                    assert(escapes@ =~= escape_ranges(content@, format@));
                }
                append_drafts(&mut drafts, scripts::scan_text(&text, options.expected_scripts.as_slice(), escapes.as_slice()));
                proof {
                    assert(refusals_view(refusals@) =~= refused(content@, options.kinds@, options.expected_scripts@));
                }
            },
        }
    } else {
        proof {
            assert(refusals_view(refusals@) =~= refused(content@, options.kinds@, options.expected_scripts@));
        }
    }
    proof {
        assert(drafts_view(drafts@) == raw_drafts(content@, format@, options.kinds@, options.expected_scripts@));
    }
    let ordered = wanted_in_order(drafts, options);
    let index = PositionIndex::new(content);
    let spans = locate::key_spans(content, format);
    let ghost sorted = drafts_view(ordered@);
    let ghost sv = locate::spans_view(spans@);
    let mut rest = reversed(ordered);
    let ghost n = sorted.len();
    let mut findings: Vec<Finding> = Vec::new();
    let ghost mut i: int = 0;
    while rest.len() > 0
        invariant
            index.wf(),
            index.chars() == content@,
            sv == locate::spans_view(spans@),
            sv == format_spans(content@, format@),
            locate::ordered(sv),
            0 <= i <= n,
            n == sorted.len(),
            rest.len() == n - i,
            forall|k: int| 0 <= k < rest.len() ==> (#[trigger] rest@[k])@ == sorted[n - 1 - k],
            findings_view(findings@) == sorted.take(i).map_values(|d: DraftView| located(d, content@, sv)),
        decreases rest.len(),
    {
        let d = rest.pop().unwrap();
        let ghost view = d@;
        proof {
            assert(view == sorted[i]);
        }
        let ghost before = findings_view(findings@);
        findings.push(d.locate(&index, spans.as_slice()));
        proof {
            assert(sorted.take(i + 1).map_values(|d: DraftView| located(d, content@, sv)) =~= sorted.take(i).map_values(|d: DraftView| located(d, content@, sv)).push(located(view, content@, sv)));
            assert(findings_view(findings@) =~= before.push(located(view, content@, sv)));
            i = i + 1;
            assert forall|k: int| 0 <= k < rest.len() implies (#[trigger] rest@[k])@ == sorted[n - 1 - k] by {
            }
        }
    }
    proof {
        assert(sorted.take(n as int) =~= sorted);
        assert(findings_view(findings@) =~= examined(content@, format@, options.kinds@, options.expected_scripts@));
        ascii::lemma_report_is_ascii(content@, format@, options.kinds@, options.expected_scripts@);
        assert forall|i: int| 0 <= i < findings.len() implies ascii::finding_ascii(#[trigger] findings@[i]@) by {
            assert(findings_view(findings@)[i] == findings@[i]@);
        }
        assert forall|i: int| 0 <= i < refusals.len() implies vstd::utf8::is_ascii_chars(#[trigger] refusals@[i].detail@) by {
            assert(refusals_view(refusals@)[i] == (refusals@[i].reason, refusals@[i].detail@));
        }
    }
    Examination { findings, refusals }
}

} // verus!
