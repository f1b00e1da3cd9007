//! One file end to end, and the run as one report.
//!
//! The command line and the tool server both come through here, so a rule
//! is only written once.

use crate::detect::ascii::{all_ascii, finding_ascii, lemma_concat_ascii};
use crate::detect::encoding::{decode, decodes, refusal_of, Decoded};
use crate::detect::format::{reader, reader_key};
use crate::detect::{
    examine, examined, findings_view, kind_name, refused as refused_by, refusals_view, Finding,
    FindingView, Kind, Options, Reason, Refusal, Severity,
};
use crate::text::{byte_len, decimal, lemma_byte_len_is_encoding_length, lemma_decimal_is_ascii, push_decimal, push_str, string_of, text_of};
use crate::escape::{escaped, lemma_escaped_is_ascii, rewrite};
use vstd::prelude::*;
use vstd::utf8::{decode_utf8, encode_utf8_decode_utf8, is_ascii_chars};

verus! {

/// The version of the report shape. Bumped only when a consumer would
/// have to change to keep reading it.
pub const SCHEMA: u8 = 1;

#[derive(Clone, Copy, Debug, PartialEq, Eq, Structural)]
pub struct Counts {
    pub findings: usize,
    /// The Trojan Source class on its own: the one a pipeline is most
    /// likely to fail on.
    pub bidi: usize,
    pub refusals: usize,
}

#[derive(Debug)]
pub struct FileReport {
    pub file: String,
    pub findings: Vec<Finding>,
    pub refusals: Vec<Refusal>,
    pub summary: Counts,
}

/// Whether nothing in a file was examined: some refusal is not the
/// partial, script-context one.
pub open spec fn unexamined(refusals: Seq<Refusal>) -> bool {
    exists|i: int| 0 <= i < refusals.len() && (#[trigger] refusals[i]).reason != Reason::IntentionalScriptContext
}

impl FileReport {
    /// Whether nothing in this file was examined. A script-context refusal
    /// does not count: the rest of the file was read, so "no findings"
    /// still means something there.
    pub fn was_unexamined(&self) -> (r: bool)
        ensures
            r == unexamined(self.refusals@),
    {
        let mut i: usize = 0;
        while i < self.refusals.len()
            invariant
                0 <= i <= self.refusals.len(),
                forall|j: int| 0 <= j < i ==> (#[trigger] self.refusals@[j]).reason == Reason::IntentionalScriptContext,
            decreases self.refusals.len() - i,
        {
            if !self.refusals[i].is_partial() {
                return true;
            }
            i = i + 1;
        }
        false
    }
}

#[derive(Clone, Copy, Debug, PartialEq, Eq, Structural)]
pub struct RunCounts {
    pub files: usize,
    pub findings: usize,
    pub bidi: usize,
    pub refusals: usize,
    /// Files where nothing was read, which is not the same number as the
    /// refusals: a file refused for its script context was still screened
    /// for bidi controls and invisibles.
    pub unexamined: usize,
}

/// The whole run, as one document.
#[derive(Debug)]
pub struct Report {
    pub schema: u8,
    pub files: Vec<FileReport>,
    pub summary: RunCounts,
}

/// What makes the run fail.
#[derive(Clone, Copy, Debug, PartialEq, Eq, Structural)]
pub enum FailOn {
    Any,
    /// Only the Trojan Source class: the security screen without the
    /// cleanliness pass.
    Bidi,
}

impl Default for FailOn {
    fn default() -> (r: FailOn)
        ensures
            r == FailOn::Any,
    {
        FailOn::Any
    }
}

pub open spec fn count_bidi(findings: Seq<FindingView>) -> nat
    decreases findings.len(),
{
    if findings.len() == 0 {
        0
    } else {
        count_bidi(findings.drop_last()) + if findings.last().kind == Kind::BidiControl {
            1nat
        } else {
            0nat
        }
    }
}

pub open spec fn total_findings(files: Seq<FileReport>) -> nat
    decreases files.len(),
{
    if files.len() == 0 {
        0
    } else {
        total_findings(files.drop_last()) + files.last().summary.findings as nat
    }
}

pub open spec fn total_bidi(files: Seq<FileReport>) -> nat
    decreases files.len(),
{
    if files.len() == 0 {
        0
    } else {
        total_bidi(files.drop_last()) + files.last().summary.bidi as nat
    }
}

pub open spec fn total_refusals(files: Seq<FileReport>) -> nat
    decreases files.len(),
{
    if files.len() == 0 {
        0
    } else {
        total_refusals(files.drop_last()) + files.last().summary.refusals as nat
    }
}

pub open spec fn total_unexamined(files: Seq<FileReport>) -> nat
    decreases files.len(),
{
    if files.len() == 0 {
        0
    } else {
        total_unexamined(files.drop_last()) + if unexamined(files.last().refusals@) {
            1nat
        } else {
            0nat
        }
    }
}

proof fn lemma_unexamined_bound(files: Seq<FileReport>)
    ensures
        total_unexamined(files) <= files.len(),
    decreases files.len(),
{
    if files.len() > 0 {
        lemma_unexamined_bound(files.drop_last());
    }
}

/// The run as one report: its totals are the sums of the files' totals,
/// and a file counts as unexamined when nothing in it was read.
pub fn report(files: Vec<FileReport>) -> (r: Report)
    requires
        total_findings(files@) <= usize::MAX,
        total_bidi(files@) <= usize::MAX,
        total_refusals(files@) <= usize::MAX,
    ensures
        r.schema == SCHEMA,
        r.files@ == files@,
        r.summary.files == files@.len(),
        r.summary.findings == total_findings(files@),
        r.summary.bidi == total_bidi(files@),
        r.summary.refusals == total_refusals(files@),
        r.summary.unexamined == total_unexamined(files@),
{
    let mut findings: usize = 0;
    let mut bidi: usize = 0;
    let mut refusals: usize = 0;
    let mut unexamined_files: usize = 0;
    let mut i: usize = 0;
    proof {
        assert(files@.take(0) =~= Seq::<FileReport>::empty());
    }
    while i < files.len()
        invariant
            0 <= i <= files.len(),
            total_findings(files@) <= usize::MAX,
            total_bidi(files@) <= usize::MAX,
            total_refusals(files@) <= usize::MAX,
            findings == total_findings(files@.take(i as int)),
            bidi == total_bidi(files@.take(i as int)),
            refusals == total_refusals(files@.take(i as int)),
            unexamined_files == total_unexamined(files@.take(i as int)),
            unexamined_files <= i,
        decreases files.len() - i,
    {
        proof {
            let t = files@.take(i + 1);
            assert(t.drop_last() =~= files@.take(i as int));
            assert(t.last() == files@[i as int]);
            lemma_totals_prefix(files@, i + 1);
        }
        findings = findings + files[i].summary.findings;
        bidi = bidi + files[i].summary.bidi;
        refusals = refusals + files[i].summary.refusals;
        if files[i].was_unexamined() {
            unexamined_files = unexamined_files + 1;
        }
        i = i + 1;
    }
    proof {
        assert(files@.take(files.len() as int) =~= files@);
    }
    let summary = RunCounts {
        files: files.len(),
        findings,
        bidi,
        refusals,
        unexamined: unexamined_files,
    };
    Report { schema: SCHEMA, files, summary }
}

proof fn lemma_totals_prefix(files: Seq<FileReport>, n: int)
    requires
        0 <= n <= files.len(),
    ensures
        total_findings(files.take(n)) <= total_findings(files),
        total_bidi(files.take(n)) <= total_bidi(files),
        total_refusals(files.take(n)) <= total_refusals(files),
    decreases files.len() - n,
{
    if n < files.len() {
        lemma_totals_prefix(files, n + 1);
        assert(files.take(n + 1).drop_last() =~= files.take(n));
    } else {
        assert(files.take(n) =~= files);
    }
}

/// What a file that could not be examined reports: the refusal, and
/// nothing else. A file that vanished from the report would read as a
/// file that was clean.
pub fn refused(file: String, refusal: Refusal) -> (r: FileReport)
    ensures
        r.file@ == file@,
        r.findings@.len() == 0,
        r.refusals@ == seq![refusal],
        r.summary == (Counts { findings: 0, bidi: 0, refusals: 1 }),
{
    let mut refusals: Vec<Refusal> = Vec::new();
    refusals.push(refusal);
    proof {
        assert(refusals@ =~= seq![refusal]);
    }
    FileReport {
        file,
        findings: Vec::new(),
        refusals,
        summary: Counts { findings: 0, bidi: 0, refusals: 1 },
    }
}

/// What a file that could not be read says: the system's own words, after
/// a fixed preface.
pub open spec fn unreadable_detail(error: Seq<char>) -> Seq<char> {
    "could not be read: "@ + error
}

/// A file that could not be read, reported rather than dropped, with the
/// reason the system gave.
pub fn unreadable(file: String, error: &str) -> (r: FileReport)
    ensures
        r.file@ == file@,
        r.findings@.len() == 0,
        r.refusals@.len() == 1,
        r.refusals@[0].reason == Reason::BinaryOrUndecodable,
        r.refusals@[0].detail@ == unreadable_detail(error@),
        unexamined(r.refusals@),
        r.summary == (Counts { findings: 0, bidi: 0, refusals: 1 }),
{
    let mut detail = text_of("could not be read: ").chars;
    push_str(&mut detail, error);
    let r = refused(
        file,
        Refusal { reason: Reason::BinaryOrUndecodable, detail: string_of(detail.as_slice()) },
    );
    proof {
        assert(r.refusals@[0].reason != Reason::IntentionalScriptContext);
    }
    r
}

/// The findings of one document, read by the reader its name resolves
/// to, with the counts a report sums.
pub fn scan_content(content: &str, file: String, options: &Options) -> (r: FileReport)
    requires
        byte_len(content@) < usize::MAX,
    ensures
        r.file@ == file@,
        findings_view(r.findings@) == examined(
            content@,
            reader(None, Some(file@)),
            options.kinds@,
            options.expected_scripts@,
        ),
        refusals_view(r.refusals@) == refused_by(content@, options.kinds@, options.expected_scripts@),
        r.summary.findings == r.findings@.len(),
        r.summary.bidi == count_bidi(findings_view(r.findings@)),
        r.summary.refusals == r.refusals@.len(),
        forall|i: int| 0 <= i < r.findings.len() ==> finding_ascii(#[trigger] r.findings@[i]@),
        forall|i: int| 0 <= i < r.refusals.len() ==> is_ascii_chars(#[trigger] r.refusals@[i].detail@),
{
    let format = reader_key(None, Some(file.as_str()));
    let examination = examine(content, format, options);
    let mut bidi: usize = 0;
    let mut i: usize = 0;
    proof {
        assert(findings_view(examination.findings@).take(0) =~= Seq::<FindingView>::empty());
    }
    while i < examination.findings.len()
        invariant
            0 <= i <= examination.findings.len(),
            bidi == count_bidi(findings_view(examination.findings@).take(i as int)),
            bidi <= i,
        decreases examination.findings.len() - i,
    {
        proof {
            let t = findings_view(examination.findings@).take(i + 1);
            assert(t.drop_last() =~= findings_view(examination.findings@).take(i as int));
            assert(t.last() == examination.findings@[i as int]@);
        }
        if examination.findings[i].kind == Kind::BidiControl {
            bidi = bidi + 1;
        }
        i = i + 1;
    }
    proof {
        assert(findings_view(examination.findings@).take(examination.findings.len() as int)
            =~= findings_view(examination.findings@));
    }
    let summary = Counts {
        findings: examination.findings.len(),
        bidi,
        refusals: examination.refusals.len(),
    };
    FileReport { file, findings: examination.findings, refusals: examination.refusals, summary }
}

/// The bytes of one file: decoded and examined as its name's format, or
/// refused by name with nothing else reported.
pub fn scan_bytes(bytes: &[u8], file: String, options: &Options) -> (r: FileReport)
    requires
        bytes.len() < usize::MAX,
    ensures
        r.file@ == file@,
        decodes(bytes@) ==> {
            &&& findings_view(r.findings@) == examined(
                decode_utf8(bytes@),
                reader(None, Some(file@)),
                options.kinds@,
                options.expected_scripts@,
            )
            &&& refusals_view(r.refusals@) == refused_by(
                decode_utf8(bytes@),
                options.kinds@,
                options.expected_scripts@,
            )
            &&& r.summary.findings == r.findings@.len()
            &&& r.summary.bidi == count_bidi(findings_view(r.findings@))
            &&& r.summary.refusals == r.refusals@.len()
        },
        !decodes(bytes@) ==> {
            &&& r.findings@.len() == 0
            &&& r.refusals@.len() == 1
            &&& refusal_of(bytes@, r.refusals@[0].reason, r.refusals@[0].detail@)
            &&& unexamined(r.refusals@)
            &&& r.summary == (Counts { findings: 0, bidi: 0, refusals: 1 })
        },
{
    match decode(bytes) {
        Decoded::Text(content) => {
            proof {
                lemma_byte_len_is_encoding_length(content@);
                encode_utf8_decode_utf8(content@);
            }
            scan_content(content, file, options)
        },
        Decoded::Refused(refusal) => {
            let r = refused(file, refusal);
            proof {
                assert(r.refusals@[0].reason != Reason::IntentionalScriptContext);
            }
            r
        },
    }
}

/// 0 clean, 1 findings, 2 the question could not be answered.
pub open spec fn exit_status(summary: RunCounts, fail_on: FailOn, strict: bool) -> u8 {
    if strict && summary.refusals > 0 {
        2
    } else {
        let counted = match fail_on {
            FailOn::Any => summary.findings,
            FailOn::Bidi => summary.bidi,
        };
        if counted > 0 {
            1
        } else {
            0
        }
    }
}

/// 0 clean, 1 findings, 2 the question could not be answered. `strict`
/// is the only way a refusal reaches the exit code.
pub fn exit_code(report: &Report, fail_on: FailOn, strict: bool) -> (r: u8)
    ensures
        r == exit_status(report.summary, fail_on, strict),
{
    if strict && report.summary.refusals > 0 {
        return 2;
    }
    let counted = match fail_on {
        FailOn::Any => report.summary.findings,
        FailOn::Bidi => report.summary.bidi,
    };
    if counted > 0 {
        1
    } else {
        0
    }
}

/// A file's bidi count is the number of its findings of the bidi-control
/// kind.
pub proof fn lemma_count_bidi_is_the_bidi_findings(findings: Seq<FindingView>)
    ensures
        count_bidi(findings) == findings.filter(|f: FindingView| f.kind == Kind::BidiControl).len(),
    decreases findings.len(),
{
    reveal(Seq::filter);
    if findings.len() > 0 {
        lemma_count_bidi_is_the_bidi_findings(findings.drop_last());
    }
}

/// A run's totals are sums over its files: those of two runs taken
/// together are the sums of each run's, and a run of one file has that
/// file's own counts, with the file unexamined exactly when nothing in it
/// was read.
pub proof fn lemma_totals_add_up(first: Seq<FileReport>, second: Seq<FileReport>, file: FileReport)
    ensures
        total_findings(first + second) == total_findings(first) + total_findings(second),
        total_bidi(first + second) == total_bidi(first) + total_bidi(second),
        total_refusals(first + second) == total_refusals(first) + total_refusals(second),
        total_unexamined(first + second) == total_unexamined(first) + total_unexamined(second),
        total_findings(seq![file]) == file.summary.findings,
        total_bidi(seq![file]) == file.summary.bidi,
        total_refusals(seq![file]) == file.summary.refusals,
        total_unexamined(seq![file]) == if unexamined(file.refusals@) {
            1nat
        } else {
            0nat
        },
    decreases second.len(),
{
    let one = seq![file];
    assert(one.drop_last() =~= Seq::<FileReport>::empty());
    assert(one.last() == file);
    assert(total_findings(one.drop_last()) == 0 && total_bidi(one.drop_last()) == 0);
    assert(total_findings(one) == file.summary.findings);
    assert(total_bidi(one) == file.summary.bidi);
    assert(total_refusals(one.drop_last()) == 0 && total_unexamined(one.drop_last()) == 0);
    assert(total_refusals(one) == file.summary.refusals);
    assert(total_unexamined(one) == total_unexamined(one.drop_last()) + if unexamined(file.refusals@) {
        1nat
    } else {
        0nat
    });
    if second.len() == 0 {
        assert(first + second =~= first);
    } else {
        lemma_totals_add_up(first, second.drop_last(), file);
        assert((first + second).drop_last() =~= first + second.drop_last());
        assert((first + second).last() == second.last());
    }
}

proof fn lemma_count_bidi_positive(findings: Seq<FindingView>)
    ensures
        count_bidi(findings) > 0 <==> exists|j: int|
            0 <= j < findings.len() && (#[trigger] findings[j]).kind == Kind::BidiControl,
    decreases findings.len(),
{
    if findings.len() > 0 {
        let p = findings.drop_last();
        lemma_count_bidi_positive(p);
        if count_bidi(p) > 0 {
            let j = choose|j: int| 0 <= j < p.len() && (#[trigger] p[j]).kind == Kind::BidiControl;
            assert(findings[j] == p[j]);
        }
        if exists|j: int| 0 <= j < findings.len() && (#[trigger] findings[j]).kind == Kind::BidiControl {
            let j = choose|j: int|
                0 <= j < findings.len() && (#[trigger] findings[j]).kind == Kind::BidiControl;
            if j < p.len() {
                assert(p[j] == findings[j]);
            }
        }
    }
}

proof fn lemma_total_bidi_positive(files: Seq<FileReport>)
    ensures
        total_bidi(files) > 0 <==> exists|i: int|
            0 <= i < files.len() && (#[trigger] files[i]).summary.bidi > 0,
    decreases files.len(),
{
    if files.len() > 0 {
        let p = files.drop_last();
        lemma_total_bidi_positive(p);
        if total_bidi(p) > 0 {
            let i = choose|i: int| 0 <= i < p.len() && (#[trigger] p[i]).summary.bidi > 0;
            assert(files[i] == p[i]);
        }
        if exists|i: int| 0 <= i < files.len() && (#[trigger] files[i]).summary.bidi > 0 {
            let i = choose|i: int| 0 <= i < files.len() && (#[trigger] files[i]).summary.bidi > 0;
            if i < p.len() {
                assert(p[i] == files[i]);
            }
        }
    }
}

proof fn lemma_total_findings_positive(files: Seq<FileReport>)
    ensures
        total_findings(files) > 0 <==> exists|i: int|
            0 <= i < files.len() && (#[trigger] files[i]).summary.findings > 0,
    decreases files.len(),
{
    if files.len() > 0 {
        let p = files.drop_last();
        lemma_total_findings_positive(p);
        if total_findings(p) > 0 {
            let i = choose|i: int| 0 <= i < p.len() && (#[trigger] p[i]).summary.findings > 0;
            assert(files[i] == p[i]);
        }
        if exists|i: int| 0 <= i < files.len() && (#[trigger] files[i]).summary.findings > 0 {
            let i = choose|i: int| 0 <= i < files.len() && (#[trigger] files[i]).summary.findings > 0;
            if i < p.len() {
                assert(p[i] == files[i]);
            }
        }
    }
}

/// Whether some file of a run holds a finding of the bidi-control kind.
pub open spec fn run_has_bidi(files: Seq<FileReport>) -> bool {
    exists|i: int, j: int|
        0 <= i < files.len() && 0 <= j < files[i].findings@.len()
            && (#[trigger] files[i].findings@[j])@.kind == Kind::BidiControl
}

/// Whether some file of a run holds any finding.
pub open spec fn run_has_findings(files: Seq<FileReport>) -> bool {
    exists|i: int| 0 <= i < files.len() && (#[trigger] files[i]).findings@.len() > 0
}

/// What fails a run. With `strict` and a refusal anywhere the answer is 2,
/// whatever was found. Otherwise `--fail-on bidi` fails the run (1)
/// exactly when some file holds a bidi-control finding and passes it (0)
/// when none does, and `--fail-on any` fails it exactly when some file
/// holds any finding at all. The files are the ones a report was made of,
/// each counted as scanning counts it.
pub proof fn lemma_what_fails_a_run(files: Seq<FileReport>, summary: RunCounts, strict: bool)
    requires
        summary.findings == total_findings(files),
        summary.bidi == total_bidi(files),
        summary.refusals == total_refusals(files),
        forall|i: int|
            0 <= i < files.len() ==> (#[trigger] files[i]).summary.bidi == count_bidi(
                findings_view(files[i].findings@),
            ) && files[i].summary.findings == files[i].findings@.len(),
    ensures
        strict && total_refusals(files) > 0 ==> exit_status(summary, FailOn::Bidi, strict) == 2
            && exit_status(summary, FailOn::Any, strict) == 2,
        !(strict && total_refusals(files) > 0) ==> exit_status(summary, FailOn::Bidi, strict) == (
        if run_has_bidi(files) {
            1u8
        } else {
            0u8
        }),
        !(strict && total_refusals(files) > 0) ==> exit_status(summary, FailOn::Any, strict) == (
        if run_has_findings(files) {
            1u8
        } else {
            0u8
        }),
{
    lemma_total_bidi_positive(files);
    lemma_total_findings_positive(files);
    if run_has_bidi(files) {
        let (i, j) = choose|i: int, j: int|
            0 <= i < files.len() && 0 <= j < files[i].findings@.len()
                && (#[trigger] files[i].findings@[j])@.kind == Kind::BidiControl;
        let fv = findings_view(files[i].findings@);
        lemma_count_bidi_positive(fv);
        assert(fv[j].kind == Kind::BidiControl);
        assert(files[i].summary.bidi > 0);
    }
    if total_bidi(files) > 0 {
        let i = choose|i: int| 0 <= i < files.len() && (#[trigger] files[i]).summary.bidi > 0;
        let fv = findings_view(files[i].findings@);
        lemma_count_bidi_positive(fv);
        let j = choose|j: int| 0 <= j < fv.len() && (#[trigger] fv[j]).kind == Kind::BidiControl;
        assert(files[i].findings@[j]@.kind == Kind::BidiControl);
    }
    if total_findings(files) > 0 {
        let i = choose|i: int| 0 <= i < files.len() && (#[trigger] files[i]).summary.findings > 0;
        assert(files[i].findings@.len() > 0);
    }
}

pub open spec fn severity_text(severity: Severity) -> Seq<char> {
    match severity {
        Severity::Low => "low"@,
        Severity::Medium => "medium"@,
        Severity::High => "high"@,
    }
}

pub fn severity_name(severity: Severity) -> (r: &'static str)
    ensures
        r@ == severity_text(severity),
{
    match severity {
        Severity::Low => "low",
        Severity::Medium => "medium",
        Severity::High => "high",
    }
}

/// The items joined by single spaces.
pub open spec fn spaced(items: Seq<Seq<char>>) -> Seq<char>
    decreases items.len(),
{
    if items.len() == 0 {
        seq![]
    } else if items.len() == 1 {
        items[0]
    } else {
        spaced(items.drop_last()) + " "@ + items.last()
    }
}

/// Where in the document a finding sits, as the human line says it: the
/// key path, escaped, when there is one.
pub open spec fn key_note(key: Option<Seq<char>>) -> Seq<char> {
    match key {
        Some(k) => "  at "@ + escaped(k),
        None => seq![],
    }
}

/// One finding as a human line: `file:line:column  [severity] kind
/// codepoints  at key  detail`. The path and the key are the two strings
/// the library does not author, and both are escaped as the report
/// escapes them.
pub open spec fn description(file: Seq<char>, f: FindingView) -> Seq<char> {
    escaped(file) + ":"@ + decimal(f.line) + ":"@ + decimal(f.column) + "  ["@ + severity_text(
        f.severity,
    ) + "] "@ + kind_name(f.kind) + " "@ + spaced(f.codepoints) + key_note(f.key) + "  "@
        + f.detail
}

/// One finding as a human line.
pub fn describe(report: &FileReport, finding: &Finding) -> (r: String)
    ensures
        r@ == description(report.file@, finding@),
{
    let mut out = text_of(rewrite(report.file.as_str()).as_str()).chars;
    push_str(&mut out, ":");
    push_decimal(&mut out, finding.position.line as u64);
    push_str(&mut out, ":");
    push_decimal(&mut out, finding.position.column as u64);
    push_str(&mut out, "  [");
    push_str(&mut out, severity_name(finding.severity));
    push_str(&mut out, "] ");
    push_str(&mut out, finding.kind.name());
    push_str(&mut out, " ");
    let mut i: usize = 0;
    let ghost head = out@;
    proof {
        assert(finding.codepoints.deep_view().take(0) =~= Seq::<Seq<char>>::empty());
        assert(out@ =~= head + spaced(finding.codepoints.deep_view().take(0)));
    }
    while i < finding.codepoints.len()
        invariant
            0 <= i <= finding.codepoints.len(),
            out@ == head + spaced(finding.codepoints.deep_view().take(i as int)),
        decreases finding.codepoints.len() - i,
    {
        if i > 0 {
            push_str(&mut out, " ");
        }
        push_str(&mut out, finding.codepoints[i].as_str());
        proof {
            reveal_strlit(" ");
            let all = finding.codepoints.deep_view();
            let t = all.take(i + 1);
            assert(t.drop_last() =~= all.take(i as int));
            assert(t.last() == finding.codepoints@[i as int]@);
            assert(out@ =~= head + spaced(t));
        }
        i = i + 1;
    }
    proof {
        assert(finding.codepoints.deep_view().take(finding.codepoints.len() as int)
            =~= finding.codepoints.deep_view());
    }
    match &finding.key {
        Some(key) => {
            push_str(&mut out, "  at ");
            push_str(&mut out, rewrite(key.as_str()).as_str());
        },
        None => {},
    }
    push_str(&mut out, "  ");
    push_str(&mut out, finding.detail.as_str());
    proof {
        assert(out@ =~= description(report.file@, finding@));
    }
    string_of(out.as_slice())
}

proof fn lemma_spaced_ascii(items: Seq<Seq<char>>)
    requires
        all_ascii(items),
    ensures
        is_ascii_chars(spaced(items)),
    decreases items.len(),
{
    reveal_strlit(" ");
    if items.len() > 1 {
        assert(all_ascii(items.drop_last())) by {
            assert forall|i: int| 0 <= i < items.drop_last().len() implies is_ascii_chars(
                #[trigger] items.drop_last()[i],
            ) by {
                assert(items.drop_last()[i] == items[i]);
            }
        }
        lemma_spaced_ascii(items.drop_last());
        assert(is_ascii_chars(items.last()));
        lemma_concat_ascii(spaced(items.drop_last()), " "@);
        lemma_concat_ascii(spaced(items.drop_last()) + " "@, items.last());
    } else if items.len() == 1 {
        assert(is_ascii_chars(items[0]));
    }
}

/// The human line is a projection of the report, and the report's safety
/// rule survives the projection: whatever the path and the key hold, the
/// line is ASCII.
pub proof fn lemma_description_is_ascii(file: Seq<char>, f: FindingView)
    requires
        finding_ascii(f),
    ensures
        is_ascii_chars(description(file, f)),
{
    reveal_strlit(":");
    reveal_strlit("  [");
    reveal_strlit("] ");
    reveal_strlit(" ");
    reveal_strlit("  ");
    reveal_strlit("low");
    reveal_strlit("medium");
    reveal_strlit("high");
    reveal_strlit("bidi-control");
    reveal_strlit("invisible");
    reveal_strlit("confusable");
    reveal_strlit("mixed-script");
    reveal_strlit("non-nfc");
    reveal_strlit("unusual-whitespace");
    reveal_strlit("unassigned-or-private-use");
    lemma_decimal_is_ascii(f.line);
    lemma_decimal_is_ascii(f.column);
    lemma_spaced_ascii(f.codepoints);
    lemma_escaped_is_ascii(file);
    reveal_strlit("  at ");
    match f.key {
        Some(k) => {
            lemma_escaped_is_ascii(k);
            lemma_concat_ascii("  at "@, escaped(k));
        },
        None => {},
    }
    let a0 = escaped(file);
    lemma_concat_ascii(a0, ":"@);
    let a1 = a0 + ":"@;
    lemma_concat_ascii(a1, decimal(f.line));
    let a2 = a1 + decimal(f.line);
    lemma_concat_ascii(a2, ":"@);
    let a3 = a2 + ":"@;
    lemma_concat_ascii(a3, decimal(f.column));
    let a4 = a3 + decimal(f.column);
    lemma_concat_ascii(a4, "  ["@);
    let a5 = a4 + "  ["@;
    lemma_concat_ascii(a5, severity_text(f.severity));
    let a6 = a5 + severity_text(f.severity);
    lemma_concat_ascii(a6, "] "@);
    let a7 = a6 + "] "@;
    lemma_concat_ascii(a7, kind_name(f.kind));
    let a8 = a7 + kind_name(f.kind);
    lemma_concat_ascii(a8, " "@);
    let a9 = a8 + " "@;
    lemma_concat_ascii(a9, spaced(f.codepoints));
    let a10 = a9 + spaced(f.codepoints);
    lemma_concat_ascii(a10, key_note(f.key));
    let a10k = a10 + key_note(f.key);
    lemma_concat_ascii(a10k, "  "@);
    let a11 = a10k + "  "@;
    lemma_concat_ascii(a11, f.detail);
    assert(a11 + f.detail == description(file, f));
}

} // verus!
