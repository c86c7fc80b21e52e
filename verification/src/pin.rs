//! The pin family's record: governing documents pin a sha256 content hash
//! over the files they govern, in `.mdatron/pins.yaml`.
//!
//! Loading the record validates it: an entry whose `governed_by` or `file`
//! escapes the governed tree is dropped fail-closed under `E0010`/`E0011`;
//! every justified `unpinned:` tombstone emits its standing `L0001` lint (the
//! weakening stays loud for as long as it stands), and a tombstone missing its
//! reason or owner is flagged `W0042`. The record's own digest is kept as its
//! input lineage.
use vstd::prelude::*;

use crate::confine::{confine_lexically, confinement, describe_reparse, reparse_text, LexicalViolation};
use crate::frontmatter::{body_text, frontmatter_fails, parse};
use crate::markup::{atx_heading, atx_heading_of, live_lines, non_fenced_lines};
use crate::snapshot::{content_bytes, decode_utf8, Captured, Content, Snapshot};
use crate::text::{byte_len, decimal, push_decimal, same_text, utf8_len};
use crate::error::Error;
use vstd::utf8::{decode_utf8 as utf8_chars, encode_utf8, valid_utf8};
use crate::diagnostic::{escape_path_text, escape_text, Finding, Location, QuotedRegion, Severity};
use crate::digest::{hex_bytes, sha256, sha256_hex};
use crate::text::{chars_of, owned, push_str, trim, trim_bounds};

verus! {

/// File name of the pin record under `.mdatron/`.
pub const PINS_NAME: &'static str = "pins.yaml";

/// One `pins:` entry as written in the record.
#[derive(Debug, Clone)]
pub struct RawPin {
    pub governed_by: String,
    pub file: String,
    /// A heading scoping the pin to that section's span; `None` pins the
    /// whole file.
    pub section: Option<String>,
    pub sha256: String,
}

/// One `unpinned:` tombstone as written in the record.
#[derive(Debug, Clone)]
pub struct RawUnpinned {
    pub file: String,
    pub governed_by: String,
    pub reason: String,
    pub owner: String,
}

/// A validated, active pin entry.
#[derive(Debug, Clone)]
pub struct Pin {
    pub governed_by: String,
    pub file: String,
    /// The section this pin scopes to (a heading spec), or `None` for the
    /// whole file.
    pub section: Option<String>,
    pub sha256: String,
}

/// The loaded pin record: active pins plus the findings produced while
/// loading it.
#[derive(Debug)]
pub struct LoadedPins {
    pub pins: Vec<Pin>,
    pub findings: Vec<Finding>,
    /// sha256 (lowercase hex) of the exact record bytes that were read.
    pub digest: String,
}

// ── What loading decides ────────────────────────────────────────────────────

/// The confinement refusal of one field, as (field, value, violation).
pub open spec fn field_issue(field: Seq<char>, value: Seq<char>) -> Seq<(Seq<char>, Seq<char>, LexicalViolation)> {
    match confinement(value) {
        Err(v) => seq![(field, value, v)],
        Ok(_) => Seq::empty(),
    }
}

/// The confinement refusals of one entry: `governed_by`, then `file`.
pub open spec fn entry_issues(p: RawPin) -> Seq<(Seq<char>, Seq<char>, LexicalViolation)> {
    field_issue("governed_by"@, p.governed_by@) + field_issue("file"@, p.file@)
}

/// Whether an entry stays active: both its paths are confined.
pub open spec fn pin_confined(p: RawPin) -> bool {
    confinement(p.governed_by@) is Ok && confinement(p.file@) is Ok
}

/// The confinement refusals of all entries, in order.
pub open spec fn pin_issues(ps: Seq<RawPin>) -> Seq<(Seq<char>, Seq<char>, LexicalViolation)>
    decreases ps.len(),
{
    if ps.len() == 0 {
        Seq::empty()
    } else {
        pin_issues(ps.drop_last()) + entry_issues(ps.last())
    }
}

/// The entries that stay active, in order.
pub open spec fn kept_pins(ps: Seq<RawPin>) -> Seq<RawPin>
    decreases ps.len(),
{
    if ps.len() == 0 {
        Seq::empty()
    } else if pin_confined(ps.last()) {
        kept_pins(ps.drop_last()).push(ps.last())
    } else {
        kept_pins(ps.drop_last())
    }
}

/// Loading is fail-closed and loud: every entry it drops is reported by at
/// least one confinement finding, so the active pins and the refusals
/// together account for every entry.
pub proof fn lemma_no_entry_dropped_silently(ps: Seq<RawPin>)
    ensures
        kept_pins(ps).len() + pin_issues(ps).len() >= ps.len(),
        kept_pins(ps).len() <= ps.len(),
    decreases ps.len(),
{
    if ps.len() > 0 {
        lemma_no_entry_dropped_silently(ps.drop_last());
        let p = ps.last();
        if !pin_confined(p) {
            assert(entry_issues(p).len() >= 1);
        }
    }
}

/// `p` carries the fields of `raw`.
pub open spec fn pin_of(p: Pin, raw: RawPin) -> bool {
    &&& p.governed_by@ == raw.governed_by@
    &&& p.file@ == raw.file@
    &&& p.sha256@ == raw.sha256@
    &&& match (p.section, raw.section) {
        (Some(a), Some(b)) => a@ == b@,
        (None, None) => true,
        _ => false,
    }
}

/// A tombstone lacks its justification: its reason or its owner is blank.
pub open spec fn unjustified(t: RawUnpinned) -> bool {
    trim(t.reason@).len() == 0 || trim(t.owner@).len() == 0
}

/// Whether region `r` is the plain quotation of `content` under `label`.
pub open spec fn quotes(r: QuotedRegion, label: Seq<char>, content: Seq<char>) -> bool {
    !r.platform_variant && r.label@ == label && r.content@ == content
}

/// `f` is the whole-file finding on `path` refusing `field = value`.
pub open spec fn is_pin_confinement_finding(
    f: Finding,
    path: Seq<char>,
    issue: (Seq<char>, Seq<char>, LexicalViolation),
) -> bool {
    let code = match issue.2 {
        LexicalViolation::Absolute => "MDATRON-E0010"@,
        LexicalViolation::ParentSegment => "MDATRON-E0011"@,
    };
    &&& f.code@ == code
    &&& f.severity == Severity::Error
    &&& f.summary@ == (match issue.2 {
        LexicalViolation::Absolute => "absolute-path-refused"@,
        LexicalViolation::ParentSegment => "parent-segment-refused"@,
    })
    &&& f.message@ == "a pin's "@ + issue.0 + " escapes the governed tree; the entry is dropped (fail-closed)"@
    &&& f.help matches Some(h) && h@
        == "pin paths are relative to the project root and may not carry parent segments or absolute prefixes"@
    &&& f.location.file@ == path && f.location.line == 1 && f.location.column == 0
    &&& f.explain_ref matches Some(e) && e@ == code
    &&& f.quoted@.len() == 1 && quotes(f.quoted@[0], issue.0, issue.1)
}

/// `f` is the finding a tombstone earns: `W0042` when unjustified, the
/// standing `L0001` lint otherwise.
pub open spec fn is_tombstone_finding(f: Finding, path: Seq<char>, t: RawUnpinned) -> bool {
    &&& f.location.file@ == path && f.location.line == 1 && f.location.column == 0
    &&& if unjustified(t) {
        &&& f.code@ == "MDATRON-W0042"@
        &&& f.severity == Severity::Warning
        &&& f.summary@ == "governance-weakening-unjustified"@
        &&& f.message@
            == "an unpinned entry carries no justification (reason and owner are required); a weakening that cannot say why it stands is not a tombstone, it is an erasure"@
        &&& f.help matches Some(h) && h@ == "add reason and owner to the unpinned entry"@
        &&& f.explain_ref matches Some(e) && e@ == "MDATRON-W0042"@
        &&& f.quoted@.len() == 1 && quotes(f.quoted@[0], "file"@, t.file@)
    } else {
        &&& f.code@ == "MDATRON-L0001"@
        &&& f.severity == Severity::Lint
        &&& f.summary@ == "governance-weakening-standing"@
        &&& f.message@
            == "a file was un-pinned from its governing document; the tombstone below is the standing record of that weakening"@
        &&& f.help is None
        &&& f.explain_ref matches Some(e) && e@ == "MDATRON-L0001"@
        &&& f.quoted@.len() == 3
        &&& quotes(f.quoted@[0], "file"@, t.file@)
        &&& quotes(f.quoted@[1], "reason"@, t.reason@)
        &&& quotes(f.quoted@[2], "owner"@, t.owner@)
    }
}

// ── Building the findings ───────────────────────────────────────────────────

fn quoted(label: &str, content: &str) -> (r: QuotedRegion)
    ensures
        quotes(r, label@, content@),
{
    QuotedRegion { platform_variant: false, label: owned(label), content: owned(content) }
}

fn confinement_finding(pins_path: &str, field: &str, value: &str, v: LexicalViolation) -> (f: Finding)
    ensures
        is_pin_confinement_finding(f, pins_path@, (field@, value@, v)),
{
    let (code, summary) = match v {
        LexicalViolation::Absolute => ("MDATRON-E0010", "absolute-path-refused"),
        LexicalViolation::ParentSegment => ("MDATRON-E0011", "parent-segment-refused"),
    };
    let mut message = owned("a pin's ");
    push_str(&mut message, field);
    push_str(&mut message, " escapes the governed tree; the entry is dropped (fail-closed)");
    Finding {
        code: owned(code),
        severity: Severity::Error,
        summary: owned(summary),
        message,
        help: Some(
            owned(
                "pin paths are relative to the project root and may not carry parent segments or absolute prefixes",
            ),
        ),
        location: Location::whole_file(pins_path),
        explain_ref: Some(owned(code)),
        quoted: vec![quoted(field, value)],
    }
}

/// Whether a string is empty once trimmed.
fn blank(s: &str) -> (b: bool)
    ensures
        b == (trim(s@).len() == 0),
{
    let v = chars_of(s);
    let (a, z) = trim_bounds(&v, 0, v.len());
    proof {
        assert(v@.subrange(0, v@.len() as int) =~= v@);
    }
    a == z
}

fn tombstone_finding(pins_path: &str, t: &RawUnpinned) -> (f: Finding)
    ensures
        is_tombstone_finding(f, pins_path@, *t),
{
    if blank(t.reason.as_str()) || blank(t.owner.as_str()) {
        Finding {
            code: owned("MDATRON-W0042"),
            severity: Severity::Warning,
            summary: owned("governance-weakening-unjustified"),
            message: owned(
                "an unpinned entry carries no justification (reason and owner are required); a weakening that cannot say why it stands is not a tombstone, it is an erasure",
            ),
            help: Some(owned("add reason and owner to the unpinned entry")),
            location: Location::whole_file(pins_path),
            explain_ref: Some(owned("MDATRON-W0042")),
            quoted: vec![quoted("file", t.file.as_str())],
        }
    } else {
        Finding {
            code: owned("MDATRON-L0001"),
            severity: Severity::Lint,
            summary: owned("governance-weakening-standing"),
            message: owned(
                "a file was un-pinned from its governing document; the tombstone below is the standing record of that weakening",
            ),
            help: None,
            location: Location::whole_file(pins_path),
            explain_ref: Some(owned("MDATRON-L0001")),
            quoted: vec![
                quoted("file", t.file.as_str()),
                quoted("reason", t.reason.as_str()),
                quoted("owner", t.owner.as_str()),
            ],
        }
    }
}

fn copy_pin(p: &RawPin) -> (r: Pin)
    ensures
        pin_of(r, *p),
{
    Pin {
        governed_by: owned(p.governed_by.as_str()),
        file: owned(p.file.as_str()),
        section: match &p.section {
            Some(t) => Some(owned(t.as_str())),
            None => None,
        },
        sha256: owned(p.sha256.as_str()),
    }
}

/// Admit one entry: its refusals are appended to `findings`, and the entry
/// joins `pins` when both of its paths are confined.
fn admit_entry(pins_path: &str, p: &RawPin, pins: &mut Vec<Pin>, findings: &mut Vec<Finding>)
    ensures
        final(findings)@.len() == old(findings)@.len() + entry_issues(*p).len(),
        final(findings)@.take(old(findings)@.len() as int) == old(findings)@,
        forall|j: int|
            0 <= j < entry_issues(*p).len() ==> is_pin_confinement_finding(
                #[trigger] final(findings)@[old(findings)@.len() + j],
                pins_path@,
                entry_issues(*p)[j],
            ),
        pin_confined(*p) ==> final(pins)@.len() == old(pins)@.len() + 1
            && final(pins)@.take(old(pins)@.len() as int) == old(pins)@
            && pin_of(final(pins)@.last(), *p),
        !pin_confined(*p) ==> final(pins)@ == old(pins)@,
{
    let ghost f0 = findings@;
    let ghost gi = field_issue("governed_by"@, p.governed_by@);
    let ghost fi = field_issue("file"@, p.file@);
    let mut ok = true;
    match confine_lexically(p.governed_by.as_str()) {
        Err(v) => {
            findings.push(confinement_finding(pins_path, "governed_by", p.governed_by.as_str(), v));
            ok = false;
        },
        Ok(_) => {},
    }
    let ghost f1 = findings@;
    match confine_lexically(p.file.as_str()) {
        Err(v) => {
            findings.push(confinement_finding(pins_path, "file", p.file.as_str(), v));
            ok = false;
        },
        Ok(_) => {},
    }
    proof {
        assert(f1.len() == f0.len() + gi.len());
        assert(findings@.len() == f1.len() + fi.len());
        assert(findings@.take(f0.len() as int) =~= f0);
        assert forall|j: int| 0 <= j < entry_issues(*p).len() implies is_pin_confinement_finding(
            #[trigger] findings@[f0.len() + j],
            pins_path@,
            entry_issues(*p)[j],
        ) by {
            if j < gi.len() {
                assert(findings@[f0.len() + j] == f1[f0.len() + j]);
                assert(entry_issues(*p)[j] == gi[j]);
            } else {
                assert(entry_issues(*p)[j] == fi[j - gi.len()]);
            }
        }
    }
    if ok {
        pins.push(copy_pin(p));
        proof {
            assert(pins@.take(old(pins)@.len() as int) =~= old(pins)@);
        }
    }
}

/// Validate a pin record read from `pins_path`, whose exact bytes were
/// `content`: confinement-violating entries are dropped with their
/// `E0010`/`E0011` findings (in entry order, `governed_by` before `file`),
/// then each tombstone earns its `W0042` or `L0001`; the digest is the
/// lowercase-hex sha256 of `content`.
pub fn compile_pins(pins_path: &str, pins: &[RawPin], unpinned: &[RawUnpinned], content: &[u8]) -> (r: LoadedPins)
    ensures
        r.pins@.len() == kept_pins(pins@).len(),
        forall|k: int| 0 <= k < r.pins@.len() ==> pin_of(#[trigger] r.pins@[k], kept_pins(pins@)[k]),
        r.findings@.len() == pin_issues(pins@).len() + unpinned@.len(),
        forall|k: int|
            0 <= k < pin_issues(pins@).len() ==> is_pin_confinement_finding(
                #[trigger] r.findings@[k],
                pins_path@,
                pin_issues(pins@)[k],
            ),
        forall|k: int|
            0 <= k < unpinned@.len() ==> is_tombstone_finding(
                #[trigger] r.findings@[pin_issues(pins@).len() + k],
                pins_path@,
                unpinned@[k],
            ),
        r.digest@ == hex_bytes(sha256(content@)),
{
    let mut active: Vec<Pin> = Vec::new();
    let mut findings: Vec<Finding> = Vec::new();
    let mut i: usize = 0;
    proof {
        assert(pins@.take(0) =~= Seq::<RawPin>::empty());
    }
    while i < pins.len()
        invariant
            i <= pins@.len(),
            active@.len() == kept_pins(pins@.take(i as int)).len(),
            forall|k: int| 0 <= k < active@.len() ==> pin_of(#[trigger] active@[k], kept_pins(pins@.take(i as int))[k]),
            findings@.len() == pin_issues(pins@.take(i as int)).len(),
            forall|k: int|
                0 <= k < findings@.len() ==> is_pin_confinement_finding(
                    #[trigger] findings@[k],
                    pins_path@,
                    pin_issues(pins@.take(i as int))[k],
                ),
        decreases pins.len() - i,
    {
        let ghost pre = pins@.take(i as int);
        let ghost cur = pins@.take(i + 1);
        let ghost a0 = active@;
        let ghost f0 = findings@;
        proof {
            assert(cur.drop_last() =~= pre);
            assert(cur.last() == pins@[i as int]);
        }
        admit_entry(pins_path, &pins[i], &mut active, &mut findings);
        proof {
            let ip = pin_issues(pre);
            let ic = pin_issues(cur);
            let e = entry_issues(pins@[i as int]);
            assert(ic == ip + e);
            assert forall|k: int| 0 <= k < findings@.len() implies is_pin_confinement_finding(
                #[trigger] findings@[k],
                pins_path@,
                ic[k],
            ) by {
                if k < f0.len() {
                    assert(findings@[k] == findings@.take(f0.len() as int)[k]);
                    assert(ic[k] == ip[k]);
                } else {
                    let j = k - f0.len();
                    assert(ic[k] == e[j]);
                    assert(findings@[f0.len() + j] == findings@[k]);
                }
            }
            let kp = kept_pins(pre);
            let kc = kept_pins(cur);
            assert forall|k: int| 0 <= k < active@.len() implies pin_of(#[trigger] active@[k], kc[k]) by {
                if pin_confined(pins@[i as int]) {
                    if k < a0.len() {
                        assert(active@[k] == active@.take(a0.len() as int)[k]);
                        assert(kc[k] == kp[k]);
                    } else {
                        assert(kc[k] == pins@[i as int]);
                    }
                } else {
                    assert(kc == kp);
                }
            }
        }
        i = i + 1;
    }
    proof {
        assert(pins@.take(pins@.len() as int) =~= pins@);
    }
    let ghost base = findings@;
    let mut t: usize = 0;
    while t < unpinned.len()
        invariant
            t <= unpinned@.len(),
            base.len() == pin_issues(pins@).len(),
            findings@.len() == base.len() + t,
            findings@.take(base.len() as int) == base,
            forall|k: int|
                0 <= k < t ==> is_tombstone_finding(
                    #[trigger] findings@[base.len() + k],
                    pins_path@,
                    unpinned@[k],
                ),
        decreases unpinned.len() - t,
    {
        let ghost f0 = findings@;
        findings.push(tombstone_finding(pins_path, &unpinned[t]));
        proof {
            assert(findings@.take(base.len() as int) =~= f0.take(base.len() as int));
            assert forall|k: int| 0 <= k < t + 1 implies is_tombstone_finding(
                #[trigger] findings@[base.len() + k],
                pins_path@,
                unpinned@[k],
            ) by {
                if k < t {
                    assert(findings@[base.len() + k] == f0[base.len() + k]);
                }
            }
        }
        t = t + 1;
    }
    proof {
        assert forall|k: int| 0 <= k < pin_issues(pins@).len() implies is_pin_confinement_finding(
            #[trigger] findings@[k],
            pins_path@,
            pin_issues(pins@)[k],
        ) by {
            assert(findings@[k] == findings@.take(base.len() as int)[k]);
        }
    }
    LoadedPins { pins: active, findings, digest: sha256_hex(content) }
}

// ── Checking pins against the run's snapshot ──────────────────────────────

/// The text a section pin reads: the body after the frontmatter when the
/// file's frontmatter parses, otherwise the whole content.
pub open spec fn pin_body(content: Seq<char>) -> Seq<char> {
    match body_text(content) {
        Some(b) => if frontmatter_fails(content) {
            content
        } else {
            b
        },
        None => content,
    }
}

/// Scanning the live (non-fenced) lines of a body for the section headed by
/// `want` (level, text): the start of the span still open, and the spans
/// closed so far, as byte offsets. A matching heading opens a span (or keeps
/// the open one); another heading of the same or a higher level closes it.
pub open spec fn span_scan(ls: Seq<(nat, Seq<char>)>, want: (nat, Seq<char>)) -> (Option<nat>, Seq<(nat, nat)>)
    decreases ls.len(),
{
    if ls.len() == 0 {
        (None, Seq::empty())
    } else {
        let (open, done) = span_scan(ls.drop_last(), want);
        let off = ls.last().0;
        match atx_heading_of(ls.last().1) {
            Some((lvl, txt)) => if lvl == want.0 && txt == want.1 {
                if open is Some {
                    (open, done)
                } else {
                    (Some(off), done)
                }
            } else if lvl <= want.0 {
                match open {
                    Some(st) => (None, done.push((st, off))),
                    None => (None, done),
                }
            } else {
                (open, done)
            },
            None => (open, done),
        }
    }
}

/// The byte ranges of every span of `body` under the heading `section`
/// (the heading line through just before the next heading of the same or a
/// higher level, or the end), in document order; none when `section` is
/// not a heading.
pub open spec fn section_ranges(body: Seq<char>, section: Seq<char>) -> Seq<(nat, nat)> {
    match atx_heading_of(section) {
        None => Seq::empty(),
        Some(want) => {
            let (open, done) = span_scan(live_lines(body), want);
            match open {
                Some(st) => done.push((st, byte_len(body))),
                None => done,
            }
        },
    }
}

/// The bytes of `b` in the ranges `rs`, concatenated in order.
pub open spec fn ranges_bytes(b: Seq<u8>, rs: Seq<(nat, nat)>) -> Seq<u8>
    decreases rs.len(),
{
    if rs.len() == 0 {
        Seq::empty()
    } else {
        ranges_bytes(b, rs.drop_last()) + if rs.last().0 <= rs.last().1 <= b.len() {
            b.subrange(rs.last().0 as int, rs.last().1 as int)
        } else {
            Seq::empty()
        }
    }
}

/// The bytes a section pin hashes: every span under its heading,
/// concatenated; `None` when the heading is not found.
pub open spec fn section_bytes(content: Seq<char>, section: Seq<char>) -> Option<Seq<u8>> {
    let body = pin_body(content);
    let rs = section_ranges(body, section);
    if rs.len() == 0 {
        None
    } else {
        Some(ranges_bytes(encode_utf8(body), rs))
    }
}

/// What checking one pin finds.
pub enum PinVerdict {
    /// The pin's path escapes the tree (refused at load); nothing to check.
    Skipped,
    /// The hash matches.
    Fresh,
    /// The hash differs; the digest found.
    Stale(Seq<char>),
    /// The section heading cannot be located.
    SectionMissing(Seq<char>),
    /// The target resolves through a symlink or reparse point (its tag).
    Symlink(Option<u32>),
    /// The target cannot be opened or read, or is over the size bound.
    Unopenable,
    /// The target was never captured.
    NotCaptured,
}

/// The verdict on pin `p` against the captured states `snap`.
pub open spec fn pin_verdict(snap: Map<Seq<char>, Captured>, p: Pin) -> PinVerdict {
    match confinement(p.file@) {
        Err(_) => PinVerdict::Skipped,
        Ok(key) => if !snap.contains_key(key) {
            PinVerdict::NotCaptured
        } else {
            match snap[key] {
                Captured::Content(c) => {
                    let hashed = match p.section {
                        None => Some(content_bytes(c)),
                        Some(sec) => match c {
                            Content::Utf8(t) => section_bytes(t@, sec@),
                            Content::Raw(_) => None,
                        },
                    };
                    match hashed {
                        None => PinVerdict::SectionMissing(p.section->Some_0@),
                        Some(b) => if hex_bytes(sha256(b)) == p.sha256@ {
                            PinVerdict::Fresh
                        } else {
                            PinVerdict::Stale(hex_bytes(sha256(b)))
                        },
                    }
                },
                Captured::SymlinkRefused { tag, .. } => PinVerdict::Symlink(tag),
                _ => PinVerdict::Unopenable,
            }
        },
    }
}

/// Whether a verdict is reported.
pub open spec fn reported(v: PinVerdict) -> bool {
    !(v is Skipped || v is Fresh)
}

/// The pins whose verdicts are reported, with their verdicts, in order.
pub open spec fn pin_reports(snap: Map<Seq<char>, Captured>, pins: Seq<Pin>) -> Seq<(Pin, PinVerdict)>
    decreases pins.len(),
{
    if pins.len() == 0 {
        Seq::empty()
    } else {
        let v = pin_verdict(snap, pins.last());
        pin_reports(snap, pins.drop_last()) + if reported(v) {
            seq![(pins.last(), v)]
        } else {
            Seq::empty()
        }
    }
}

/// `f` is the whole-file finding on `path` reporting verdict `v` on pin `p`.
pub open spec fn is_pin_finding(f: Finding, path: Seq<char>, p: Pin, v: PinVerdict) -> bool {
    &&& f.severity == Severity::Error
    &&& f.location.file@ == path && f.location.line == 1 && f.location.column == 0
    &&& f.explain_ref matches Some(e) && e@ == f.code@
    &&& match v {
        PinVerdict::Stale(found) => {
            &&& f.code@ == "MDATRON-E0061"@
            &&& f.summary@ == "pin-stale"@
            &&& f.message@
                == "the governed file changed after its pin was recorded; re-read the governing document, then re-pin with `mdatron pin --update`"@
            &&& f.help matches Some(h) && h@
                == "the stale pin is the attention loop working: the governing relationship must be reviewed, not just the hash refreshed"@
            &&& f.quoted@.len() == 4
            &&& quotes(f.quoted@[0], "file"@, p.file@)
            &&& quotes(f.quoted@[1], "governed_by"@, p.governed_by@)
            &&& quotes(f.quoted@[2], "recorded"@, p.sha256@)
            &&& quotes(f.quoted@[3], "found"@, found)
        },
        PinVerdict::SectionMissing(section) => {
            &&& f.code@ == "MDATRON-E0063"@
            &&& f.summary@ == "pin-section-not-found"@
            &&& f.message@
                == "a section pin names a heading that is not present in its target file (a section pinned over nothing cannot be verified); the heading is matched by level and text, and a `#` inside a code fence is not a heading"@
            &&& f.help matches Some(h) && h@
                == "correct the pin's `section` heading to match one in the file, or remove `section` to pin the whole file"@
            &&& f.quoted@.len() == 2
            &&& quotes(f.quoted@[0], "file"@, p.file@)
            &&& quotes(f.quoted@[1], "section"@, section)
        },
        PinVerdict::Symlink(tag) => {
            &&& f.code@ == "MDATRON-E0012"@
            &&& f.summary@ == "symlinked-component-refused"@
            &&& f.message@ == "a pinned file resolves through "@ + reparse_text(tag).0
                + "; no-follow resolution refuses it"@
            &&& f.help matches Some(h) && h@ == (match reparse_text(tag).1 {
                Some(t) => t,
                None => "pin the real file inside the governed tree"@,
            })
            &&& f.quoted@.len() == 1
            &&& quotes(f.quoted@[0], "file"@, p.file@)
        },
        PinVerdict::Unopenable => {
            &&& f.code@ == "MDATRON-E0062"@
            &&& f.summary@ == "pin-target-missing"@
            &&& f.message@
                == "a pinned file cannot be opened in the governed tree; a pin over nothing is a dangling governance edge"@
            &&& f.help matches Some(h) && h@
                == "restore the file, correct the pin's path, or un-pin it with a justified tombstone (unpinned: entry with reason and owner)"@
            &&& f.quoted@.len() == 2
            &&& quotes(f.quoted@[0], "file"@, p.file@)
            &&& quotes(f.quoted@[1], "governed_by"@, p.governed_by@)
        },
        PinVerdict::NotCaptured => {
            &&& f.code@ == "MDATRON-E0081"@
            &&& f.summary@ == "reference-target-not-captured"@
            &&& f.message@
                == "this pin's target was never captured into the run snapshot \u{2014} an engine defect in target discovery, not a defect in the pin record; please report it upstream"@
            &&& f.help is None
            &&& f.quoted@.len() == 1
            &&& quotes(f.quoted@[0], "file"@, p.file@)
        },
        _ => false,
    }
}

/// `after` is `before` followed by one finding per reported pin, in pin
/// order.
pub open spec fn pin_check(
    before: Seq<Finding>,
    after: Seq<Finding>,
    path: Seq<char>,
    snap: Map<Seq<char>, Captured>,
    pins: Seq<Pin>,
) -> bool {
    let rs = pin_reports(snap, pins);
    &&& after.len() == before.len() + rs.len()
    &&& after.take(before.len() as int) == before
    &&& forall|k: int| 0 <= k < rs.len() ==> is_pin_finding(#[trigger] after[before.len() + k], path, rs[k].0, rs[k].1)
}

fn pin_body_of(content: &str) -> (b: &str)
    ensures
        b@ == pin_body(content@),
{
    match parse(content) {
        Ok(Some((_, b))) => b,
        _ => content,
    }
}

/// The `(nat, nat)` form of executable byte ranges.
pub open spec fn ranges_view(rs: Seq<(usize, usize)>) -> Seq<(nat, nat)> {
    rs.map_values(|r: (usize, usize)| (r.0 as nat, r.1 as nat))
}

pub open spec fn open_view(o: Option<usize>) -> Option<nat> {
    match o {
        Some(x) => Some(x as nat),
        None => None,
    }
}

fn section_ranges_of(body: &str, section: &str) -> (r: Vec<(usize, usize)>)
    ensures
        ranges_view(r@) == section_ranges(body@, section@),
{
    let want = match atx_heading(section) {
        Some(w) => w,
        None => {
            let r: Vec<(usize, usize)> = Vec::new();
            proof {
                assert(ranges_view(r@) =~= Seq::<(nat, nat)>::empty());
            }
            return r;
        },
    };
    let ghost wv = (want.0 as nat, want.1@);
    let lines = non_fenced_lines(body);
    let ghost ls = live_lines(body@);
    let mut open: Option<usize> = None;
    let mut done: Vec<(usize, usize)> = Vec::new();
    let mut i: usize = 0;
    proof {
        assert(ls.take(0) =~= Seq::<(nat, Seq<char>)>::empty());
        assert(ranges_view(done@) =~= Seq::<(nat, nat)>::empty());
    }
    while i < lines.len()
        invariant
            i <= lines@.len(),
            lines@.map_values(|p: (usize, &str)| (p.0 as nat, p.1@)) == ls,
            atx_heading_of(section@) == Some(wv),
            wv == (want.0 as nat, want.1@),
            (open_view(open), ranges_view(done@)) == span_scan(ls.take(i as int), wv),
        decreases lines.len() - i,
    {
        let (off, line) = lines[i];
        proof {
            assert(ls.take(i + 1).drop_last() =~= ls.take(i as int));
            assert(ls.take(i + 1).last() == ls[i as int]);
            assert(ls[i as int] == (off as nat, line@));
        }
        let ghost d0 = done@;
        match atx_heading(line) {
            Some((lvl, txt)) => {
                if lvl == want.0 && same_text(txt, want.1) {
                    if open.is_none() {
                        open = Some(off);
                    }
                } else if lvl <= want.0 {
                    match open {
                        Some(st) => {
                            done.push((st, off));
                            proof {
                                assert(ranges_view(done@) =~= ranges_view(d0).push((st as nat, off as nat)));
                            }
                        },
                        None => {},
                    }
                    open = None;
                }
            },
            None => {},
        }
        i = i + 1;
    }
    proof {
        assert(ls.take(lines@.len() as int) =~= ls);
    }
    let ghost d1 = done@;
    match open {
        Some(st) => {
            let end = utf8_len(body);
            done.push((st, end));
            proof {
                assert(ranges_view(done@) =~= ranges_view(d1).push((st as nat, end as nat)));
            }
        },
        None => {},
    }
    done
}

fn ranges_bytes_of(b: &[u8], rs: &Vec<(usize, usize)>) -> (r: Vec<u8>)
    ensures
        r@ == ranges_bytes(b@, ranges_view(rs@)),
{
    let ghost rv = ranges_view(rs@);
    let mut out: Vec<u8> = Vec::new();
    let mut k: usize = 0;
    proof {
        assert(rv.take(0) =~= Seq::<(nat, nat)>::empty());
    }
    while k < rs.len()
        invariant
            k <= rs@.len(),
            rv == ranges_view(rs@),
            out@ == ranges_bytes(b@, rv.take(k as int)),
        decreases rs.len() - k,
    {
        let (s0, e0) = rs[k];
        proof {
            assert(rv.take(k + 1).drop_last() =~= rv.take(k as int));
            assert(rv.take(k + 1).last() == (s0 as nat, e0 as nat));
        }
        let ghost base = out@;
        if s0 <= e0 && e0 <= b.len() {
            let mut j: usize = s0;
            proof {
                assert(b@.subrange(s0 as int, s0 as int) =~= Seq::<u8>::empty());
                assert(out@ =~= base + b@.subrange(s0 as int, s0 as int));
            }
            while j < e0
                invariant
                    s0 <= j <= e0 <= b@.len(),
                    out@ == base + b@.subrange(s0 as int, j as int),
                decreases e0 - j,
            {
                out.push(b[j]);
                proof {
                    assert(b@.subrange(s0 as int, j + 1) =~= b@.subrange(s0 as int, j as int).push(b@[j as int]));
                }
                j = j + 1;
            }
        } else {
            proof {
                assert(out@ =~= base + Seq::<u8>::empty());
            }
        }
        k = k + 1;
    }
    proof {
        assert(rv.take(rs@.len() as int) =~= rv);
    }
    out
}

/// The bytes a section pin hashes (see [`section_bytes`]).
fn section_bytes_of(content: &str, section: &str) -> (r: Option<Vec<u8>>)
    ensures
        match r {
            Some(b) => section_bytes(content@, section@) == Some(b@),
            None => section_bytes(content@, section@) is None,
        },
{
    let body = pin_body_of(content);
    let rs = section_ranges_of(body, section);
    if rs.len() == 0 {
        return None;
    }
    Some(ranges_bytes_of(body.as_bytes(), &rs))
}

fn pin_finding(
    pins_path: &str,
    code: &str,
    summary: &str,
    message: String,
    help: Option<String>,
    quoted: Vec<QuotedRegion>,
) -> (f: Finding)
    ensures
        f.code@ == code@,
        f.severity == Severity::Error,
        f.summary@ == summary@,
        f.message == message,
        f.help == help,
        f.location.file@ == pins_path@ && f.location.line == 1 && f.location.column == 0,
        f.explain_ref matches Some(e) && e@ == code@,
        f.quoted == quoted,
{
    Finding {
        code: owned(code),
        severity: Severity::Error,
        summary: owned(summary),
        message,
        help,
        location: Location::whole_file(pins_path),
        explain_ref: Some(owned(code)),
        quoted,
    }
}

/// The finding verdict `v` on `p` earns, if it is reported.
fn verdict_finding(pins_path: &str, p: &Pin, snapshot: &Snapshot) -> (r: Option<Finding>)
    requires
        snapshot.wf(),
    ensures
        reported(pin_verdict(snapshot@, *p)) ==> (r matches Some(f) && is_pin_finding(
            f,
            pins_path@,
            *p,
            pin_verdict(snapshot@, *p),
        )),
        !reported(pin_verdict(snapshot@, *p)) ==> r is None,
{
    let confined = match confine_lexically(p.file.as_str()) {
        Ok(c) => c,
        Err(_) => return None,
    };
    match snapshot.get(confined.as_path()) {
        Some(Captured::Content(c)) => {
            let actual = match &p.section {
                None => sha256_hex(c.bytes()),
                Some(section) => {
                    let spans = match c.text() {
                        Some(t) => section_bytes_of(t, section.as_str()),
                        None => None,
                    };
                    match spans {
                        Some(b) => sha256_hex(b.as_slice()),
                        None => {
                            return Some(
                                pin_finding(
                                    pins_path,
                                    "MDATRON-E0063",
                                    "pin-section-not-found",
                                    owned(
                                        "a section pin names a heading that is not present in its target file (a section pinned over nothing cannot be verified); the heading is matched by level and text, and a `#` inside a code fence is not a heading",
                                    ),
                                    Some(
                                        owned(
                                            "correct the pin's `section` heading to match one in the file, or remove `section` to pin the whole file",
                                        ),
                                    ),
                                    vec![quoted("file", p.file.as_str()), quoted("section", section.as_str())],
                                ),
                            );
                        },
                    }
                },
            };
            if actual == p.sha256 {
                return None;
            }
            Some(
                pin_finding(
                    pins_path,
                    "MDATRON-E0061",
                    "pin-stale",
                    owned(
                        "the governed file changed after its pin was recorded; re-read the governing document, then re-pin with `mdatron pin --update`",
                    ),
                    Some(
                        owned(
                            "the stale pin is the attention loop working: the governing relationship must be reviewed, not just the hash refreshed",
                        ),
                    ),
                    vec![
                        quoted("file", p.file.as_str()),
                        quoted("governed_by", p.governed_by.as_str()),
                        quoted("recorded", p.sha256.as_str()),
                        quoted("found", actual.as_str()),
                    ],
                ),
            )
        },
        Some(Captured::SymlinkRefused { tag, .. }) => {
            let reparse = describe_reparse(*tag);
            let mut message = owned("a pinned file resolves through ");
            push_str(&mut message, reparse.what.as_str());
            push_str(&mut message, "; no-follow resolution refuses it");
            let help = match reparse.help {
                Some(h) => h,
                None => owned("pin the real file inside the governed tree"),
            };
            Some(
                pin_finding(
                    pins_path,
                    "MDATRON-E0012",
                    "symlinked-component-refused",
                    message,
                    Some(help),
                    vec![quoted("file", p.file.as_str())],
                ),
            )
        },
        Some(_) => Some(
            pin_finding(
                pins_path,
                "MDATRON-E0062",
                "pin-target-missing",
                owned(
                    "a pinned file cannot be opened in the governed tree; a pin over nothing is a dangling governance edge",
                ),
                Some(
                    owned(
                        "restore the file, correct the pin's path, or un-pin it with a justified tombstone (unpinned: entry with reason and owner)",
                    ),
                ),
                vec![quoted("file", p.file.as_str()), quoted("governed_by", p.governed_by.as_str())],
            ),
        ),
        None => Some(
            pin_finding(
                pins_path,
                "MDATRON-E0081",
                "reference-target-not-captured",
                owned(
                    "this pin's target was never captured into the run snapshot \u{2014} an engine defect in target discovery, not a defect in the pin record; please report it upstream",
                ),
                None,
                vec![quoted("file", p.file.as_str())],
            ),
        ),
    }
}

/// Verify every active pin against the run's snapshot, reporting on the
/// record at `pins_path`: the pinned file's captured bytes (or, for a
/// section pin, the spans under its heading) are hashed and compared with
/// the record. Stale `E0061`; section not found `E0063`; symlinked target
/// `E0012`; unopenable, unreadable or oversized target `E0062`; a target
/// never captured `E0081`. A pin whose path escapes the tree was refused at
/// load and is skipped.
pub fn check(pins_path: &str, pins: &[Pin], snapshot: &Snapshot, findings: &mut Vec<Finding>)
    requires
        snapshot.wf(),
    ensures
        pin_check(old(findings)@, final(findings)@, pins_path@, snapshot@, pins@),
{
    let ghost f0 = findings@;
    let mut i: usize = 0;
    proof {
        assert(pins@.take(0) =~= Seq::<Pin>::empty());
        assert(findings@.take(f0.len() as int) =~= f0);
    }
    while i < pins.len()
        invariant
            i <= pins@.len(),
            snapshot.wf(),
            pin_check(f0, findings@, pins_path@, snapshot@, pins@.take(i as int)),
        decreases pins.len() - i,
    {
        let ghost before = findings@;
        let ghost rp = pin_reports(snapshot@, pins@.take(i as int));
        proof {
            assert(pins@.take(i + 1).drop_last() =~= pins@.take(i as int));
            assert(pins@.take(i + 1).last() == pins@[i as int]);
        }
        match verdict_finding(pins_path, &pins[i], snapshot) {
            Some(f) => {
                findings.push(f);
                proof {
                    let rc = pin_reports(snapshot@, pins@.take(i + 1));
                    assert(rc == rp.push((pins@[i as int], pin_verdict(snapshot@, pins@[i as int]))));
                    assert(findings@.take(f0.len() as int) =~= before.take(f0.len() as int));
                    assert forall|k: int| 0 <= k < rc.len() implies is_pin_finding(
                        #[trigger] findings@[f0.len() + k],
                        pins_path@,
                        rc[k].0,
                        rc[k].1,
                    ) by {
                        if k < rp.len() {
                            assert(findings@[f0.len() + k] == before[f0.len() + k]);
                        }
                    }
                }
            },
            None => {
                proof {
                    let rc = pin_reports(snapshot@, pins@.take(i + 1));
                    assert(rc =~= rp);
                }
            },
        }
        i = i + 1;
    }
    proof {
        assert(pins@.take(pins@.len() as int) =~= pins@);
    }
}

// ── Recomputing pins ────────────────────────────────────────────────────────

/// What opening and reading one pin's target gave, for recomputing it.
#[derive(Debug)]
pub enum RepinTarget {
    /// The bytes read (the whole file, or more than the bound).
    Bytes(Vec<u8>),
    /// Absent, routed through a file, an invalid name, a symlink or not a
    /// regular file: left for the next check to report.
    Unresolved,
    /// Any other open failure, with its text.
    OpenFailed(String),
    /// The open succeeded and the read failed, with its text.
    ReadFailed(String),
}

/// The `Debug` name of a confinement violation.
pub open spec fn violation_name(v: LexicalViolation) -> Seq<char> {
    match v {
        LexicalViolation::Absolute => "Absolute"@,
        LexicalViolation::ParentSegment => "ParentSegment"@,
    }
}

/// The refusal of a target over the per-file bound.
pub open spec fn over_bound_message(file: Seq<char>, limit: usize) -> Seq<char> {
    "cannot re-pin '"@ + escape_text(file) + "': the file exceeds the "@ + decimal(limit as nat)
        + "-byte per-file limit (max-input-size-per-file) \u{2014} verify refuses to check a pin over an out-of-bounds file, so recording one would mint an uncheckable pin"@
}

/// Recomputing one entry: `Err` with the refusal, `Ok(Some(new))` when its
/// recorded hash changes, `Ok(None)` when it stays (unchanged, unresolved, or
/// a section that cannot be located).
pub open spec fn repin_step(p: RawPin, t: RepinTarget, limit: usize) -> Result<Option<Seq<char>>, Seq<char>> {
    match confinement(p.file@) {
        Err(v) => Err("pin file '"@ + escape_text(p.file@) + "' escapes: "@ + violation_name(v)),
        Ok(_) => match t {
            RepinTarget::Unresolved => Ok(None),
            RepinTarget::OpenFailed(e) => Err("cannot re-pin '"@ + escape_text(p.file@) + "': "@ + e@),
            RepinTarget::ReadFailed(e) => Err("cannot read '"@ + escape_text(p.file@) + "': "@ + e@),
            RepinTarget::Bytes(b) => if b@.len() > limit {
                Err(over_bound_message(p.file@, limit))
            } else {
                let hashed = match p.section {
                    None => Some(b@),
                    Some(sec) => if valid_utf8(b@) {
                        section_bytes(utf8_chars(b@), sec@)
                    } else {
                        None
                    },
                };
                match hashed {
                    None => Ok(None),
                    Some(h) => if hex_bytes(sha256(h)) == p.sha256@ {
                        Ok(None)
                    } else {
                        Ok(Some(hex_bytes(sha256(h))))
                    },
                }
            },
        },
    }
}

/// Recomputing every entry in order: the first refusal, else the changed
/// entries as (index, file, old hash, new hash).
pub open spec fn repins(ps: Seq<RawPin>, ts: Seq<RepinTarget>, limit: usize) -> Result<Seq<(int, Seq<char>, Seq<char>, Seq<char>)>, Seq<char>>
    decreases ps.len(),
{
    if ps.len() == 0 {
        Ok(Seq::empty())
    } else {
        match repins(ps.drop_last(), ts, limit) {
            Err(m) => Err(m),
            Ok(done) => match repin_step(ps.last(), ts[ps.len() - 1], limit) {
                Err(m) => Err(m),
                Ok(None) => Ok(done),
                Ok(Some(h)) => Ok(done.push((ps.len() - 1, ps.last().file@, ps.last().sha256@, h))),
            },
        }
    }
}

/// The (index, file, old, new) of changed entries.
pub open spec fn changes_view(cs: Seq<(usize, String, String, String)>) -> Seq<(int, Seq<char>, Seq<char>, Seq<char>)> {
    cs.map_values(|c: (usize, String, String, String)| (c.0 as int, c.1@, c.2@, c.3@))
}

fn refusal_text(prefix: &str, file: &str, mid: &str, tail: &str) -> (m: String)
    ensures
        m@ == prefix@ + escape_text(file@) + mid@ + tail@,
{
    let mut m = owned(prefix);
    let e = escape_path_text(file);
    push_str(&mut m, e.as_str());
    push_str(&mut m, mid);
    push_str(&mut m, tail);
    m
}

fn repin_one(p: &RawPin, t: &RepinTarget, limit: usize) -> (r: Result<Option<String>, String>)
    ensures
        match r {
            Err(m) => repin_step(*p, *t, limit) == Err::<Option<Seq<char>>, Seq<char>>(m@),
            Ok(None) => repin_step(*p, *t, limit) == Ok::<Option<Seq<char>>, Seq<char>>(None),
            Ok(Some(h)) => repin_step(*p, *t, limit) == Ok::<Option<Seq<char>>, Seq<char>>(Some(h@)),
        },
{
    match confine_lexically(p.file.as_str()) {
        Err(v) => {
            let name = match v {
                LexicalViolation::Absolute => "Absolute",
                LexicalViolation::ParentSegment => "ParentSegment",
            };
            return Err(refusal_text("pin file '", p.file.as_str(), "' escapes: ", name));
        },
        Ok(_) => {},
    }
    match t {
        RepinTarget::Unresolved => Ok(None),
        RepinTarget::OpenFailed(e) => Err(refusal_text("cannot re-pin '", p.file.as_str(), "': ", e.as_str())),
        RepinTarget::ReadFailed(e) => Err(refusal_text("cannot read '", p.file.as_str(), "': ", e.as_str())),
        RepinTarget::Bytes(b) => {
            if b.len() > limit {
                let mut m = owned("cannot re-pin '");
                let e = escape_path_text(p.file.as_str());
                push_str(&mut m, e.as_str());
                push_str(&mut m, "': the file exceeds the ");
                push_decimal(&mut m, limit as u64);
                push_str(
                    &mut m,
                    "-byte per-file limit (max-input-size-per-file) \u{2014} verify refuses to check a pin over an out-of-bounds file, so recording one would mint an uncheckable pin",
                );
                proof {
                    assert(m@ =~= over_bound_message(p.file@, limit));
                }
                return Err(m);
            }
            let actual = match &p.section {
                None => sha256_hex(b.as_slice()),
                Some(section) => {
                    let copy = copy_bytes(b);
                    match decode_utf8(copy) {
                        Ok(text) => {
                            proof {
                                vstd::utf8::encode_utf8_decode_utf8(text@);
                            }
                            match section_bytes_of(text.as_str(), section.as_str()) {
                                Some(h) => sha256_hex(h.as_slice()),
                                None => return Ok(None),
                            }
                        },
                        Err(_) => return Ok(None),
                    }
                },
            };
            if actual == p.sha256 {
                Ok(None)
            } else {
                Ok(Some(actual))
            }
        },
    }
}

fn copy_bytes(b: &Vec<u8>) -> (r: Vec<u8>)
    ensures
        r@ == b@,
{
    let mut r: Vec<u8> = Vec::new();
    let mut i: usize = 0;
    while i < b.len()
        invariant
            i <= b@.len(),
            r@ == b@.take(i as int),
        decreases b.len() - i,
    {
        r.push(b[i]);
        proof {
            assert(b@.take(i + 1) =~= b@.take(i as int).push(b@[i as int]));
        }
        i = i + 1;
    }
    proof {
        assert(b@.take(b@.len() as int) =~= b@);
    }
    r
}

/// Recompute each entry's hash from what reading its target gave (`targets`
/// one per entry, in order), with `limit` the per-file byte bound: the
/// entries whose recorded hash changes, as (file, old hash, new hash), or
/// the first refusal (an escaping path, a failed open or read, a target over
/// the bound). An unresolved target, or a section that cannot be located, is
/// left as it is for the next check to report.
pub fn repin(pins: &[RawPin], targets: &[RepinTarget], limit: usize) -> (r: Result<Vec<(usize, String, String, String)>, Error>)
    requires
        targets@.len() == pins@.len(),
    ensures
        match r {
            Ok(cs) => repins(pins@, targets@, limit) == Ok::<Seq<(int, Seq<char>, Seq<char>, Seq<char>)>, Seq<char>>(
                changes_view(cs@),
            ),
            Err(Error::Config(m)) => repins(pins@, targets@, limit) == Err::<
                Seq<(int, Seq<char>, Seq<char>, Seq<char>)>,
                Seq<char>,
            >(m@),
        },
{
    let mut out: Vec<(usize, String, String, String)> = Vec::new();
    let mut i: usize = 0;
    proof {
        assert(pins@.take(0) =~= Seq::<RawPin>::empty());
        assert(changes_view(out@) =~= Seq::<(int, Seq<char>, Seq<char>, Seq<char>)>::empty());
    }
    while i < pins.len()
        invariant
            i <= pins@.len(),
            targets@.len() == pins@.len(),
            repins(pins@.take(i as int), targets@, limit) == Ok::<Seq<(int, Seq<char>, Seq<char>, Seq<char>)>, Seq<char>>(
                changes_view(out@),
            ),
        decreases pins.len() - i,
    {
        proof {
            assert(pins@.take(i + 1).drop_last() =~= pins@.take(i as int));
            assert(pins@.take(i + 1).last() == pins@[i as int]);
        }
        let ghost before = out@;
        match repin_one(&pins[i], &targets[i], limit) {
            Err(m) => {
                proof {
                    lemma_repins_failure_prefix(pins@, targets@, limit, i + 1);
                }
                return Err(Error::Config(m));
            },
            Ok(None) => {},
            Ok(Some(h)) => {
                out.push((i, owned(pins[i].file.as_str()), owned(pins[i].sha256.as_str()), h));
                proof {
                    assert(changes_view(out@) =~= changes_view(before).push(
                        (i as int, pins@[i as int].file@, pins@[i as int].sha256@, out@.last().3@),
                    ));
                }
            },
        }
        i = i + 1;
    }
    proof {
        assert(pins@.take(pins@.len() as int) =~= pins@);
    }
    Ok(out)
}

/// A refusal in a prefix is the refusal of the whole.
proof fn lemma_repins_failure_prefix(ps: Seq<RawPin>, ts: Seq<RepinTarget>, limit: usize, n: int)
    requires
        0 <= n <= ps.len(),
        repins(ps.take(n), ts, limit) is Err,
    ensures
        repins(ps, ts, limit) == repins(ps.take(n), ts, limit),
    decreases ps.len() - n,
{
    if n < ps.len() {
        assert(ps.take(n + 1).drop_last() =~= ps.take(n));
        lemma_repins_failure_prefix(ps, ts, limit, n + 1);
    } else {
        assert(ps.take(n) =~= ps);
    }
}

} // verus!
