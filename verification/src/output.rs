//! The `verify --json` output envelope: per-severity summary, family
//! activity, the exit-code rule, and per-finding fingerprints.
use std::collections::BTreeMap;
use vstd::prelude::*;

use crate::diagnostic::{forward_slashed, to_forward_slash, Finding, QuotedRegion, Severity};
use crate::digest::{hex_bytes, lemma_hex_bytes_len, sha256, sha256_hex};
use crate::text::{
    all_digits, byte_len, decimal, is_digit, lemma_byte_len_take_mono, lemma_byte_len_take_step,
    lemma_decimal, lemma_decimal_injective, owned, push_char, push_decimal, push_str, utf8_len,
    views,
};

verus! {

/// Output-version contract value (SemVer: additive changes bump the minor,
/// breaking ones the major).
pub const OUTPUT_VERSION: &'static str = "3.1.0";

/// The published envelope schema's `$id`, emitted verbatim as the envelope's
/// `envelope_schema` field.
pub const ENVELOPE_SCHEMA_ID: &'static str =
    "https://github.com/magnificentlycursed/mdatron/schema/mdatron-output/3.1.0";

/// Per-family activity: ran this pass (`Active`), configured but did no work
/// (`Inert`), or not configured (`Inactive`), each with its reason.
#[derive(Debug, Clone, PartialEq, Eq)]
pub enum FamilyActivity {
    /// Data supplied and the check ran this pass.
    Active { reason: String },
    /// Data supplied but the check did no work this pass.
    Inert { reason: String },
    /// No data supplied: the family is not part of this project's config.
    Inactive { reason: String },
}

impl FamilyActivity {
    pub fn active(reason: &str) -> (a: Self)
        ensures
            a matches FamilyActivity::Active { reason: r } && r@ == reason@,
    {
        FamilyActivity::Active { reason: owned(reason) }
    }

    pub fn inert(reason: &str) -> (a: Self)
        ensures
            a matches FamilyActivity::Inert { reason: r } && r@ == reason@,
    {
        FamilyActivity::Inert { reason: owned(reason) }
    }

    pub fn inactive(reason: &str) -> (a: Self)
        ensures
            a matches FamilyActivity::Inactive { reason: r } && r@ == reason@,
    {
        FamilyActivity::Inactive { reason: owned(reason) }
    }

    /// True when the check ran this pass: the primary audit signal.
    pub fn is_active(&self) -> (b: bool)
        ensures
            b == (*self is Active),
    {
        match self {
            FamilyActivity::Active { .. } => true,
            _ => false,
        }
    }
}

/// Per-verify activity of the check families, emitted under `families`.
#[derive(Debug, Clone, PartialEq, Eq)]
pub struct Families {
    pub schema: FamilyActivity,
    pub route: FamilyActivity,
    pub pin: FamilyActivity,
    pub vocabulary: FamilyActivity,
    pub citation: FamilyActivity,
    pub link: FamilyActivity,
    pub marker: FamilyActivity,
    pub code_catalog: FamilyActivity,
    pub section: FamilyActivity,
    /// The rule-DSL lane (adopter pattern-file rules), reported beside the
    /// check families.
    pub rule_dsl: FamilyActivity,
}

/// The activity of a family the pipeline never reached.
pub open spec fn not_run(a: FamilyActivity) -> bool {
    a matches FamilyActivity::Inactive { reason } && reason@ == "the pipeline did not run"@
}

impl Families {
    /// All families inactive: the state when the pipeline did not run.
    pub fn all_inactive() -> (f: Self)
        ensures
            not_run(f.schema),
            not_run(f.route),
            not_run(f.pin),
            not_run(f.vocabulary),
            not_run(f.citation),
            not_run(f.link),
            not_run(f.marker),
            not_run(f.code_catalog),
            not_run(f.section),
            not_run(f.rule_dsl),
    {
        Families {
            schema: FamilyActivity::inactive("the pipeline did not run"),
            route: FamilyActivity::inactive("the pipeline did not run"),
            pin: FamilyActivity::inactive("the pipeline did not run"),
            vocabulary: FamilyActivity::inactive("the pipeline did not run"),
            citation: FamilyActivity::inactive("the pipeline did not run"),
            link: FamilyActivity::inactive("the pipeline did not run"),
            marker: FamilyActivity::inactive("the pipeline did not run"),
            code_catalog: FamilyActivity::inactive("the pipeline did not run"),
            section: FamilyActivity::inactive("the pipeline did not run"),
            rule_dsl: FamilyActivity::inactive("the pipeline did not run"),
        }
    }
}

/// Pipeline status, emitted as `pipeline_status`.
#[derive(Debug, Clone, Copy, PartialEq, Eq, Structural)]
pub enum PipelineStatus {
    /// The pipeline ran to completion (emitted as `ok`).
    Completed,
    /// The pipeline did not run to completion (emitted as `failed`).
    Failed,
}

/// The structured reason a pipeline failed, emitted as `pipeline_error`.
#[derive(Debug, Clone, PartialEq, Eq)]
pub struct PipelineError {
    /// The namespace code (`MDATRON-E0080`); stable across kinds.
    pub code: String,
    /// The failure class (e.g. `config`, `io`, `schema_load`, `glob`).
    pub kind: String,
    /// The rendered failure reason.
    pub message: String,
}

/// Run-phase wall-clock timings in milliseconds, emitted only on request.
#[derive(Debug, Clone, Copy, Default, PartialEq, Eq)]
pub struct Timings {
    pub total_ms: u64,
    pub load_ms: u64,
    pub capture_ms: u64,
    pub check_ms: u64,
}

/// Per-severity finding counts, emitted under `summary`.
#[derive(Debug, Clone, PartialEq, Eq, Structural)]
pub struct Summary {
    pub error_count: u32,
    pub warning_count: u32,
    pub lint_count: u32,
    pub files_checked: u32,
}

/// The number of findings of severity `s`.
pub open spec fn count_severity(fs: Seq<Finding>, s: Severity) -> nat
    decreases fs.len(),
{
    if fs.len() == 0 {
        0
    } else {
        count_severity(fs.drop_last(), s) + if fs.last().severity == s {
            1nat
        } else {
            0nat
        }
    }
}

proof fn lemma_count_bounds(fs: Seq<Finding>)
    ensures
        count_severity(fs, Severity::Error) + count_severity(fs, Severity::Warning)
            + count_severity(fs, Severity::Lint) == fs.len(),
    decreases fs.len(),
{
    if fs.len() > 0 {
        lemma_count_bounds(fs.drop_last());
    }
}

/// There are errors exactly when some finding has error severity.
pub proof fn lemma_error_count_positive(fs: Seq<Finding>)
    ensures
        count_severity(fs, Severity::Error) > 0 <==> exists|i: int|
            0 <= i < fs.len() && (#[trigger] fs[i]).severity == Severity::Error,
    decreases fs.len(),
{
    if fs.len() > 0 {
        lemma_error_count_positive(fs.drop_last());
        if count_severity(fs.drop_last(), Severity::Error) > 0 {
            let i = choose|i: int|
                0 <= i < fs.drop_last().len() && (#[trigger] fs.drop_last()[i]).severity
                    == Severity::Error;
            assert(fs[i] == fs.drop_last()[i]);
        }
        if exists|i: int| 0 <= i < fs.len() && (#[trigger] fs[i]).severity == Severity::Error {
            let i = choose|i: int| 0 <= i < fs.len() && (#[trigger] fs[i]).severity == Severity::Error;
            if i < fs.len() - 1 {
                assert(fs.drop_last()[i] == fs[i]);
            }
        }
    }
}

/// The summary of `fs` for `files_checked` files.
pub open spec fn summary_of(fs: Seq<Finding>, files_checked: u32) -> Summary {
    Summary {
        error_count: count_severity(fs, Severity::Error) as u32,
        warning_count: count_severity(fs, Severity::Warning) as u32,
        lint_count: count_severity(fs, Severity::Lint) as u32,
        files_checked,
    }
}

impl Summary {
    /// Count the findings per severity. Every finding is counted exactly once.
    pub fn from_findings(findings: &[Finding], files_checked: u32) -> (s: Self)
        requires
            findings@.len() <= u32::MAX,
        ensures
            s == summary_of(findings@, files_checked),
            s.error_count + s.warning_count + s.lint_count == findings@.len(),
    {
        let mut s = Summary { error_count: 0, warning_count: 0, lint_count: 0, files_checked };
        let mut i: usize = 0;
        while i < findings.len()
            invariant
                i <= findings@.len() <= u32::MAX,
                s.error_count == count_severity(findings@.take(i as int), Severity::Error),
                s.warning_count == count_severity(findings@.take(i as int), Severity::Warning),
                s.lint_count == count_severity(findings@.take(i as int), Severity::Lint),
                s.files_checked == files_checked,
            decreases findings.len() - i,
        {
            proof {
                assert(findings@.take(i + 1).drop_last() =~= findings@.take(i as int));
                lemma_count_bounds(findings@.take(i as int));
            }
            match findings[i].severity {
                Severity::Error => s.error_count = s.error_count + 1,
                Severity::Warning => s.warning_count = s.warning_count + 1,
                Severity::Lint => s.lint_count = s.lint_count + 1,
            }
            i = i + 1;
        }
        proof {
            assert(findings@.take(findings@.len() as int) =~= findings@);
            lemma_count_bounds(findings@);
        }
        s
    }
}

/// Top-level output object emitted on stdout by `verify --json`.
#[derive(Debug, Clone, PartialEq, Eq)]
pub struct Output {
    pub mdatron_output_version: String,
    /// The published envelope schema's `$id`.
    pub envelope_schema: String,
    pub mdatron_version: String,
    pub pipeline_status: PipelineStatus,
    /// Present only on a failed pipeline.
    pub pipeline_error: Option<PipelineError>,
    pub summary: Summary,
    pub families: Families,
    /// Governance-input lineage: each input the run consumed mapped to the
    /// `sha256:<hex>` digest of the bytes it read.
    pub inputs: BTreeMap<String, String>,
    /// Run-phase timings, present only on request.
    pub timings: Option<Timings>,
    pub findings: Vec<Finding>,
}

/// The exit code for a pipeline status and error count: 2 when the pipeline
/// did not complete, 1 when it did with errors, 0 otherwise.
pub open spec fn exit_code(status: PipelineStatus, error_count: u32) -> u8 {
    match status {
        PipelineStatus::Failed => 2,
        PipelineStatus::Completed => if error_count > 0 {
            1
        } else {
            0
        },
    }
}

impl Output {
    /// Construct an output object from findings, files checked and the
    /// pipeline status; the summary is counted from the findings, the inputs
    /// start empty and timings absent.
    pub fn build(
        findings: Vec<Finding>,
        files_checked: u32,
        pipeline_status: PipelineStatus,
        pipeline_error: Option<PipelineError>,
        families: Families,
        mdatron_version: &str,
    ) -> (o: Self)
        requires
            findings@.len() <= u32::MAX,
        ensures
            o.mdatron_output_version@ == OUTPUT_VERSION@,
            o.envelope_schema@ == ENVELOPE_SCHEMA_ID@,
            o.mdatron_version@ == mdatron_version@,
            o.pipeline_status == pipeline_status,
            o.pipeline_error == pipeline_error,
            o.summary == summary_of(findings@, files_checked),
            o.families == families,
            o.inputs@ == Map::<String, String>::empty(),
            o.timings is None,
            o.findings@ == findings@,
    {
        let summary = Summary::from_findings(findings.as_slice(), files_checked);
        Output {
            mdatron_output_version: owned(OUTPUT_VERSION),
            envelope_schema: owned(ENVELOPE_SCHEMA_ID),
            mdatron_version: owned(mdatron_version),
            pipeline_status,
            pipeline_error,
            summary,
            families,
            inputs: BTreeMap::new(),
            timings: None,
            findings,
        }
    }

    /// Attach the run's governance-input lineage.
    pub fn with_inputs(self, inputs: BTreeMap<String, String>) -> (o: Self)
        ensures
            o == (Output { inputs, ..self }),
    {
        let mut o = self;
        o.inputs = inputs;
        o
    }

    /// Attach run-phase timings (`None` keeps the deterministic envelope).
    pub fn with_timings(self, timings: Option<Timings>) -> (o: Self)
        ensures
            o == (Output { timings, ..self }),
    {
        let mut o = self;
        o.timings = timings;
        o
    }

    /// The exit code under `--deny-warnings` (alias `--strict`) when
    /// `deny_warnings` is set: a completed run with no errors but at least one
    /// warning exits 1 instead of 0; otherwise as [`Output::derive_exit_code`].
    pub fn exit_code_with(&self, deny_warnings: bool) -> (c: u8)
        ensures
            c == (if deny_warnings && exit_code(self.pipeline_status, self.summary.error_count) == 0
                && self.summary.warning_count > 0 {
                1u8
            } else {
                exit_code(self.pipeline_status, self.summary.error_count)
            }),
    {
        let base = self.derive_exit_code();
        if deny_warnings && base == 0 && self.summary.warning_count > 0 {
            1
        } else {
            base
        }
    }

    /// The exit code: 0 when the pipeline ran with no errors (warnings and
    /// lints may exist), 1 when it ran with at least one error, 2 when it did
    /// not run to completion.
    pub fn derive_exit_code(&self) -> (c: u8)
        ensures
            c == exit_code(self.pipeline_status, self.summary.error_count),
    {
        match self.pipeline_status {
            PipelineStatus::Failed => 2,
            PipelineStatus::Completed => if self.summary.error_count > 0 {
                1
            } else {
                0
            },
        }
    }
}

/// A completed run exits 1 exactly when one of its findings is an error, and
/// 0 otherwise; warnings and lints alone never fail it. A failed run exits 2.
pub proof fn lemma_exit_code_reflects_errors(
    fs: Seq<Finding>,
    files_checked: u32,
    status: PipelineStatus,
)
    requires
        fs.len() <= u32::MAX,
    ensures
        exit_code(status, summary_of(fs, files_checked).error_count) == (match status {
            PipelineStatus::Failed => 2u8,
            PipelineStatus::Completed => if exists|i: int|
                0 <= i < fs.len() && (#[trigger] fs[i]).severity == Severity::Error {
                1u8
            } else {
                0u8
            },
        }),
{
    lemma_count_bounds(fs);
    lemma_error_count_positive(fs);
}


// ── Fingerprints ────────────────────────────────────────────────────────────

/// One length-prefixed field of a fingerprint identity: `{byte_len}:{text}`.
pub open spec fn netstring(s: Seq<char>) -> Seq<char> {
    decimal(byte_len(s)) + seq![':'] + s
}

/// The identity-bearing quoted regions: all but the platform-variant ones,
/// in order.
pub open spec fn identity_regions(rs: Seq<QuotedRegion>) -> Seq<QuotedRegion>
    decreases rs.len(),
{
    if rs.len() == 0 {
        seq![]
    } else if rs.last().platform_variant {
        identity_regions(rs.drop_last())
    } else {
        identity_regions(rs.drop_last()).push(rs.last())
    }
}

/// The label and content text of each region.
pub open spec fn region_texts(rs: Seq<QuotedRegion>) -> Seq<(Seq<char>, Seq<char>)> {
    rs.map_values(|q: QuotedRegion| (q.label@, q.content@))
}

/// Each label/content pair as two length-prefixed fields.
pub open spec fn pairs_encoding(ps: Seq<(Seq<char>, Seq<char>)>) -> Seq<char>
    decreases ps.len(),
{
    if ps.len() == 0 {
        seq![]
    } else {
        pairs_encoding(ps.drop_last()) + netstring(ps.last().0) + netstring(ps.last().1)
    }
}

/// What a fingerprint identifies a finding by.
pub struct IdentityKey {
    pub code: Seq<char>,
    /// The forward-slashed file path.
    pub path: Seq<char>,
    pub summary: Seq<char>,
    /// Label and content of each identity-bearing quoted region.
    pub regions: Seq<(Seq<char>, Seq<char>)>,
}

/// The identity key of a finding: its position (line, column) and its
/// platform-variant regions take no part.
pub open spec fn identity_key(f: Finding) -> IdentityKey {
    IdentityKey {
        code: f.code@,
        path: forward_slashed(f.location.file@),
        summary: f.summary@,
        regions: region_texts(identity_regions(f.quoted@)),
    }
}

/// The identity encoding: code, path and summary as length-prefixed fields,
/// the region count as `{n};`, then each region's label and content.
pub open spec fn encode_key(k: IdentityKey) -> Seq<char> {
    netstring(k.code) + netstring(k.path) + netstring(k.summary) + decimal(k.regions.len())
        + seq![';'] + pairs_encoding(k.regions)
}

/// The identity text of a finding.
pub open spec fn identity(f: Finding) -> Seq<char> {
    encode_key(identity_key(f))
}

/// How many entries of `ids` equal `x`.
pub open spec fn occurrences(ids: Seq<Seq<char>>, x: Seq<char>) -> nat
    decreases ids.len(),
{
    if ids.len() == 0 {
        0
    } else {
        occurrences(ids.drop_last(), x) + if ids.last() == x {
            1nat
        } else {
            0nat
        }
    }
}

/// The identities of a list of findings.
pub open spec fn identities(fs: Seq<Finding>) -> Seq<Seq<char>> {
    fs.map_values(|f: Finding| identity(f))
}

/// The 0-based occurrence ordinal of finding `i` among the earlier findings
/// with the same identity.
pub open spec fn ordinal(fs: Seq<Finding>, i: int) -> nat {
    occurrences(identities(fs.take(i)), identity(fs[i]))
}

/// The text hashed for finding `i`: its identity, then its ordinal.
pub open spec fn fingerprint_input(fs: Seq<Finding>, i: int) -> Seq<char> {
    identity(fs[i]) + decimal(ordinal(fs, i))
}

/// The `v1` fingerprint of finding `i`: `v1:` and the first 32 lowercase hex
/// digits of the SHA-256 of its fingerprint input.
pub open spec fn fingerprint(fs: Seq<Finding>, i: int) -> Seq<char> {
    "v1:"@ + hex_bytes(sha256(vstd::utf8::encode_utf8(fingerprint_input(fs, i)))).take(32)
}

fn push_netstring(out: &mut String, s: &str)
    ensures
        final(out)@ == old(out)@ + netstring(s@),
{
    let n = utf8_len(s);
    let ghost base = out@;
    push_decimal(out, n as u64);
    push_char(out, ':');
    push_str(out, s);
    assert(out@ =~= base + netstring(s@));
}

fn identity_text(f: &Finding) -> (s: String)
    ensures
        s@ == identity(*f),
{
    let q = &f.quoted;
    let mut s = String::new();
    push_netstring(&mut s, f.code.as_str());
    let path = to_forward_slash(f.location.file.as_str());
    push_netstring(&mut s, path.as_str());
    push_netstring(&mut s, f.summary.as_str());
    let mut n: usize = 0;
    let mut i: usize = 0;
    while i < q.len()
        invariant
            i <= q@.len(),
            n == identity_regions(q@.take(i as int)).len(),
            n <= i,
        decreases q.len() - i,
    {
        proof {
            assert(q@.take(i + 1).drop_last() =~= q@.take(i as int));
        }
        if !q[i].platform_variant {
            n = n + 1;
        }
        i = i + 1;
    }
    proof {
        assert(q@.take(q@.len() as int) =~= q@);
    }
    push_decimal(&mut s, n as u64);
    push_char(&mut s, ';');
    let ghost base = s@;
    let mut i: usize = 0;
    proof {
        assert(q@.take(0) =~= Seq::<QuotedRegion>::empty());
        assert(region_texts(Seq::<QuotedRegion>::empty()) =~= Seq::<(Seq<char>, Seq<char>)>::empty());
        assert(s@ =~= base + pairs_encoding(region_texts(identity_regions(q@.take(0)))));
    }
    while i < q.len()
        invariant
            i <= q@.len(),
            s@ == base + pairs_encoding(region_texts(identity_regions(q@.take(i as int)))),
        decreases q.len() - i,
    {
        proof {
            assert(q@.take(i + 1).drop_last() =~= q@.take(i as int));
        }
        let r = &q[i];
        if !r.platform_variant {
            let ghost prev = identity_regions(q@.take(i as int));
            push_netstring(&mut s, r.label.as_str());
            push_netstring(&mut s, r.content.as_str());
            proof {
                assert(region_texts(prev.push(*r)) =~= region_texts(prev).push((r.label@, r.content@)));
                assert(region_texts(prev.push(*r)).drop_last() =~= region_texts(prev));
            }
        }
        i = i + 1;
    }
    proof {
        assert(q@.take(q@.len() as int) =~= q@);
        assert(s@ =~= identity(*f));
    }
    s
}

/// The `v1` fingerprints of a run's findings, positionally aligned: the
/// SHA-256 of each finding's injective identity encoding followed by its
/// occurrence ordinal, cut to 32 lowercase hex digits and prefixed `v1:`.
pub fn fingerprints(findings: &[Finding]) -> (r: Vec<String>)
    ensures
        r@.len() == findings@.len(),
        forall|i: int| 0 <= i < r@.len() ==> (#[trigger] r@[i])@ == fingerprint(findings@, i),
        forall|i: int| 0 <= i < r@.len() ==> (#[trigger] r@[i])@.len() == 35,
{
    let mut ids: Vec<String> = Vec::new();
    let mut out: Vec<String> = Vec::new();
    let mut i: usize = 0;
    while i < findings.len()
        invariant
            i <= findings@.len(),
            views(ids@) == identities(findings@.take(i as int)),
            ids@.len() == i,
            out@.len() == i,
            forall|k: int| 0 <= k < i ==> (#[trigger] out@[k])@ == fingerprint(findings@, k),
            forall|k: int| 0 <= k < i ==> (#[trigger] out@[k])@.len() == 35,
        decreases findings.len() - i,
    {
        let id = identity_text(&findings[i]);
        let mut n: u64 = 0;
        let mut j: usize = 0;
        while j < ids.len()
            invariant
                j <= ids@.len(),
                n <= j,
                n == occurrences(views(ids@).take(j as int), id@),
                ids@.len() <= findings@.len(),
            decreases ids.len() - j,
        {
            proof {
                assert(views(ids@).take(j + 1).drop_last() =~= views(ids@).take(j as int));
                assert(views(ids@)[j as int] == ids@[j as int]@);
            }
            if ids[j] == id {
                n = n + 1;
            }
            j = j + 1;
        }
        proof {
            assert(views(ids@).take(ids@.len() as int) =~= views(ids@));
            assert(n == ordinal(findings@, i as int));
        }
        let ghost before_ids = ids@;
        let id_copy = id.clone();
        ids.push(id_copy);
        proof {
            assert(views(ids@) =~= views(before_ids).push(id@));
            assert(identities(findings@.take(i + 1)) =~= identities(findings@.take(i as int)).push(
                identity(findings@[i as int]),
            ));
        }
        let mut input = id;
        push_decimal(&mut input, n);
        let h = sha256_hex(input.as_str().as_bytes());
        let hv = crate::text::chars_of(h.as_str());
        let mut fp = String::new();
        push_str(&mut fp, "v1:");
        crate::text::push_chars(&mut fp, &hv, 0, 32);
        proof {
            assert(hv@.subrange(0, 32) =~= hv@.take(32));
            assert(fp@ == fingerprint(findings@, i as int));
            reveal_strlit("v1:");
        }
        out.push(fp);
        i = i + 1;
    }
    out
}


// ── Laws of the fingerprint ─────────────────────────────────────────────────

proof fn lemma_digits_then_sep(a: Seq<char>, r1: Seq<char>, b: Seq<char>, r2: Seq<char>, sep: char)
    requires
        all_digits(a),
        all_digits(b),
        !is_digit(sep),
        a + seq![sep] + r1 == b + seq![sep] + r2,
    ensures
        a == b,
        r1 == r2,
{
    let x = a + seq![sep] + r1;
    let y = b + seq![sep] + r2;
    if a.len() < b.len() {
        assert(x[a.len() as int] == sep);
        assert(y[a.len() as int] == b[a.len() as int]);
        assert(is_digit(b[a.len() as int]));
    } else if b.len() < a.len() {
        assert(y[b.len() as int] == sep);
        assert(x[b.len() as int] == a[b.len() as int]);
        assert(is_digit(a[b.len() as int]));
    }
    assert(a =~= x.take(a.len() as int));
    assert(b =~= y.take(b.len() as int));
    assert(r1 =~= x.skip(a.len() as int + 1));
    assert(r2 =~= y.skip(b.len() as int + 1));
}

proof fn lemma_byte_len_take_strict(t: Seq<char>, i: int, j: int)
    requires
        0 <= i < j <= t.len(),
    ensures
        byte_len(t.take(i)) < byte_len(t.take(j)),
{
    lemma_byte_len_take_step(t, i);
    lemma_byte_len_take_mono(t, i + 1, j);
}

/// A length-prefixed field is read back unambiguously from the front of a
/// text: the field and the rest both.
pub proof fn lemma_netstring_prefix(s1: Seq<char>, r1: Seq<char>, s2: Seq<char>, r2: Seq<char>)
    requires
        netstring(s1) + r1 == netstring(s2) + r2,
    ensures
        s1 == s2,
        r1 == r2,
{
    lemma_decimal(byte_len(s1));
    lemma_decimal(byte_len(s2));
    assert(netstring(s1) + r1 =~= decimal(byte_len(s1)) + seq![':'] + (s1 + r1));
    assert(netstring(s2) + r2 =~= decimal(byte_len(s2)) + seq![':'] + (s2 + r2));
    lemma_digits_then_sep(decimal(byte_len(s1)), s1 + r1, decimal(byte_len(s2)), s2 + r2, ':');
    lemma_decimal_injective(byte_len(s1), byte_len(s2));
    let t = s1 + r1;
    assert(s1 =~= t.take(s1.len() as int));
    assert(s2 =~= t.take(s2.len() as int));
    if s1.len() < s2.len() {
        lemma_byte_len_take_strict(t, s1.len() as int, s2.len() as int);
    } else if s2.len() < s1.len() {
        lemma_byte_len_take_strict(t, s2.len() as int, s1.len() as int);
    }
    assert(r1 =~= t.skip(s1.len() as int));
    assert(r2 =~= t.skip(s2.len() as int));
}

proof fn lemma_pairs_encoding_front(ps: Seq<(Seq<char>, Seq<char>)>)
    requires
        ps.len() > 0,
    ensures
        pairs_encoding(ps) == netstring(ps[0].0) + netstring(ps[0].1) + pairs_encoding(
            ps.drop_first(),
        ),
    decreases ps.len(),
{
    if ps.len() == 1 {
        assert(ps.drop_last() =~= Seq::<(Seq<char>, Seq<char>)>::empty());
        assert(ps.drop_first() =~= Seq::<(Seq<char>, Seq<char>)>::empty());
        assert(pairs_encoding(ps.drop_last()) =~= Seq::<char>::empty());
        assert(pairs_encoding(ps.drop_first()) =~= Seq::<char>::empty());
        assert(ps.last() == ps[0]);
        assert(pairs_encoding(ps) =~= netstring(ps[0].0) + netstring(ps[0].1) + pairs_encoding(
            ps.drop_first(),
        ));
    } else {
        lemma_pairs_encoding_front(ps.drop_last());
        assert(ps.drop_last().drop_first() =~= ps.drop_first().drop_last());
        assert(ps.drop_first().last() == ps.last());
        assert(pairs_encoding(ps) =~= netstring(ps[0].0) + netstring(ps[0].1) + pairs_encoding(
            ps.drop_first(),
        ));
    }
}

proof fn lemma_pairs_prefix(
    p1: Seq<(Seq<char>, Seq<char>)>,
    r1: Seq<char>,
    p2: Seq<(Seq<char>, Seq<char>)>,
    r2: Seq<char>,
)
    requires
        p1.len() == p2.len(),
        pairs_encoding(p1) + r1 == pairs_encoding(p2) + r2,
    ensures
        p1 == p2,
        r1 == r2,
    decreases p1.len(),
{
    if p1.len() == 0 {
        assert(p1 =~= p2);
        assert(pairs_encoding(p1) + r1 =~= r1);
        assert(pairs_encoding(p2) + r2 =~= r2);
    } else {
        lemma_pairs_encoding_front(p1);
        lemma_pairs_encoding_front(p2);
        let t1 = netstring(p1[0].1) + (pairs_encoding(p1.drop_first()) + r1);
        let t2 = netstring(p2[0].1) + (pairs_encoding(p2.drop_first()) + r2);
        assert(pairs_encoding(p1) + r1 =~= netstring(p1[0].0) + t1);
        assert(pairs_encoding(p2) + r2 =~= netstring(p2[0].0) + t2);
        lemma_netstring_prefix(p1[0].0, t1, p2[0].0, t2);
        lemma_netstring_prefix(
            p1[0].1,
            pairs_encoding(p1.drop_first()) + r1,
            p2[0].1,
            pairs_encoding(p2.drop_first()) + r2,
        );
        lemma_pairs_prefix(p1.drop_first(), r1, p2.drop_first(), r2);
        assert(p1 =~= p2) by {
            assert forall|i: int| 0 <= i < p1.len() implies p1[i] == p2[i] by {
                if i > 0 {
                    assert(p1[i] == p1.drop_first()[i - 1]);
                    assert(p2[i] == p2.drop_first()[i - 1]);
                }
            }
        }
    }
}

/// The identity encoding followed by an ordinal is injective: equal texts
/// come only from equal identity keys with equal ordinals, whatever bytes
/// (NULs, separators, digits) the fields hold.
pub proof fn lemma_identity_encoding_injective(f1: Finding, o1: nat, f2: Finding, o2: nat)
    requires
        identity(f1) + decimal(o1) == identity(f2) + decimal(o2),
    ensures
        identity_key(f1) == identity_key(f2),
        o1 == o2,
{
    let k1 = identity_key(f1);
    let k2 = identity_key(f2);
    let d1 = decimal(o1);
    let d2 = decimal(o2);
    let c1 = decimal(k1.regions.len()) + seq![';'] + (pairs_encoding(k1.regions) + d1);
    let c2 = decimal(k2.regions.len()) + seq![';'] + (pairs_encoding(k2.regions) + d2);
    assert(identity(f1) + d1 =~= netstring(k1.code) + (netstring(k1.path) + (netstring(k1.summary)
        + c1)));
    assert(identity(f2) + d2 =~= netstring(k2.code) + (netstring(k2.path) + (netstring(k2.summary)
        + c2)));
    lemma_netstring_prefix(
        k1.code,
        netstring(k1.path) + (netstring(k1.summary) + c1),
        k2.code,
        netstring(k2.path) + (netstring(k2.summary) + c2),
    );
    lemma_netstring_prefix(k1.path, netstring(k1.summary) + c1, k2.path, netstring(k2.summary) + c2);
    lemma_netstring_prefix(k1.summary, c1, k2.summary, c2);
    lemma_decimal(k1.regions.len());
    lemma_decimal(k2.regions.len());
    lemma_digits_then_sep(
        decimal(k1.regions.len()),
        pairs_encoding(k1.regions) + d1,
        decimal(k2.regions.len()),
        pairs_encoding(k2.regions) + d2,
        ';',
    );
    lemma_decimal_injective(k1.regions.len(), k2.regions.len());
    lemma_pairs_prefix(k1.regions, d1, k2.regions, d2);
    lemma_decimal_injective(o1, o2);
}

proof fn lemma_occurrences_take(ids: Seq<Seq<char>>, x: Seq<char>, i: int, j: int)
    requires
        0 <= i < j <= ids.len(),
        ids[i] == x,
    ensures
        occurrences(ids.take(i), x) < occurrences(ids.take(j), x),
    decreases j - i,
{
    if j == i + 1 {
        assert(ids.take(j).drop_last() =~= ids.take(i));
    } else {
        lemma_occurrences_take(ids, x, i, j - 1);
        assert(ids.take(j).drop_last() =~= ids.take(j - 1));
    }
}

/// Within one run no two findings hash the same text: identical siblings
/// differ by their occurrence ordinal, and any other pair by identity.
pub proof fn lemma_fingerprint_inputs_distinct(fs: Seq<Finding>, i: int, j: int)
    requires
        0 <= i < j < fs.len(),
    ensures
        fingerprint_input(fs, i) != fingerprint_input(fs, j),
{
    if fingerprint_input(fs, i) == fingerprint_input(fs, j) {
        lemma_identity_encoding_injective(fs[i], ordinal(fs, i), fs[j], ordinal(fs, j));
        let ids = identities(fs);
        assert(identities(fs.take(i)) =~= ids.take(i));
        assert(identities(fs.take(j)) =~= ids.take(j));
        assert(ids[i] == identity(fs[j]));
        lemma_occurrences_take(ids, identity(fs[j]), i, j);
        assert(ordinal(fs, i) <= occurrences(ids.take(i), identity(fs[i])));
    }
}

/// Fingerprints depend on the findings only through their identity keys:
/// moving a finding to another line or column, or changing the text of a
/// platform-variant region, leaves every fingerprint of the run unchanged.
pub proof fn lemma_fingerprints_follow_identity(fs: Seq<Finding>, gs: Seq<Finding>)
    requires
        fs.len() == gs.len(),
        forall|k: int| 0 <= k < fs.len() ==> identity_key(#[trigger] fs[k]) == identity_key(gs[k]),
    ensures
        forall|i: int| 0 <= i < fs.len() ==> fingerprint(fs, i) == fingerprint(gs, i),
{
    assert(identities(fs) =~= identities(gs)) by {
        assert forall|k: int| 0 <= k < fs.len() implies identities(fs)[k] == identities(gs)[k] by {
            assert(identity_key(fs[k]) == identity_key(gs[k]));
        }
    }
    assert forall|i: int| 0 <= i < fs.len() implies fingerprint(fs, i) == fingerprint(gs, i) by {
        assert(identity_key(fs[i]) == identity_key(gs[i]));
        assert(identities(fs.take(i)) =~= identities(fs).take(i));
        assert(identities(gs.take(i)) =~= identities(gs).take(i));
    }
}


/// Later findings never change an earlier fingerprint: the prints of a
/// prefix of the run are the prefix of the run's prints.
pub proof fn lemma_fingerprints_prefix(fs: Seq<Finding>, k: int)
    requires
        0 <= k <= fs.len(),
    ensures
        forall|i: int| 0 <= i < k ==> fingerprint(fs.take(k), i) == fingerprint(fs, i),
{
    assert forall|i: int| 0 <= i < k implies fingerprint(fs.take(k), i) == fingerprint(fs, i) by {
        assert(fs.take(k)[i] == fs[i]);
        assert(fs.take(k).take(i) =~= fs.take(i));
    }
}


/// `f` with its explain reference withdrawn when it names a code outside
/// `known`: a pointer to a page that does not resolve is dropped, not shown.
pub open spec fn resolvable_ref(f: Finding, known: Seq<Seq<char>>) -> Finding {
    match f.explain_ref {
        Some(c) => if known.contains(c@) {
            f
        } else {
            Finding { explain_ref: None, ..f }
        },
        None => f,
    }
}

/// Withdraw every explain reference that names a code outside `known` (the
/// codes whose explain page resolves); each finding keeps everything else,
/// and the findings keep their order.
pub fn drop_unresolvable_refs(findings: &mut Vec<Finding>, known: &Vec<String>)
    ensures
        final(findings)@.len() == old(findings)@.len(),
        forall|i: int|
            0 <= i < old(findings)@.len() ==> #[trigger] final(findings)@[i] == resolvable_ref(
                old(findings)@[i],
                views(known@),
            ),
{
    let ghost orig = findings@;
    let mut out: Vec<Finding> = Vec::new();
    let mut i: usize = 0;
    let n = findings.len();
    proof {
        assert(findings@ =~= orig.skip(0));
    }
    while i < n
        invariant
            n == orig.len(),
            i <= n,
            findings@ == orig.skip(i as int),
            out@.len() == i,
            forall|k: int| 0 <= k < i ==> #[trigger] out@[k] == resolvable_ref(orig[k], views(known@)),
        decreases n - i,
    {
        proof {
            assert(findings@.len() > 0);
        }
        let mut f = findings.remove(0);
        proof {
            assert(f == orig[i as int]);
            assert(findings@ =~= orig.skip(i + 1));
        }
        let unresolvable = match &f.explain_ref {
            Some(c) => !crate::link::contains_text(known, c),
            None => false,
        };
        if unresolvable {
            f.explain_ref = None;
        }
        out.push(f);
        i = i + 1;
    }
    *findings = out;
}

} // verus!
