//! Citation family: file-and-line citations in governed prose are verified
//! against the snapshot of the working tree.
//!
//! The engine recognizes `path.ext:line` and `path.ext:start-end` tokens in
//! prose; a citation naming absent content is rejected (`MDATRON-E0100`),
//! one past the target's end is rejected (`MDATRON-E0101`), and citation
//! paths are held to the confinement contract (escapes under
//! `E0010`/`E0011`, symlinked targets refused `E0012`).
use vstd::prelude::*;

use crate::confine::{confine_lexically, confinement, ConfinedPath, LexicalViolation};
use crate::diagnostic::{Finding, Location, QuotedRegion, Severity};
use crate::link::{lf_count, line_at, on_boundary, text_after};
use crate::pattern::{regex_scan, LinePattern};
use crate::snapshot::{Captured, Content, Snapshot};
use crate::text::{byte_len, chars_of, decimal, fit_count, lines_of, owned, parse_u64, push_decimal, push_str};

verus! {

/// The citation detector: a path carrying an extension, `:`, a line, and an
/// optional `-line`. Three path shapes so confinement sees escapes intact:
/// parent-prefixed, absolute, and word-start relative.
pub const CITATION_PATTERN: &'static str = "((?:\\.\\./)+[A-Za-z0-9_/.-]*\\.[A-Za-z][A-Za-z0-9]{0,7}|/[A-Za-z0-9_][A-Za-z0-9_/.-]*\\.[A-Za-z][A-Za-z0-9]{0,7}|\\b[A-Za-z0-9_][A-Za-z0-9_/.-]*\\.[A-Za-z][A-Za-z0-9]{0,7}):([0-9]{1,6})(?:-([0-9]{1,6}))?";

/// One detected citation token in a file's prose.
#[derive(Debug, Clone, PartialEq, Eq)]
pub struct Citation {
    pub token: String,
    pub cited_path: String,
    pub start_line: u64,
    pub end_line: Option<u64>,
    /// Byte offset of the token in the whole file content.
    pub at: usize,
}

/// A citation as values: token, path, first line, last line, offset.
pub type CiteSpec = (Seq<char>, Seq<char>, u64, Option<u64>, int);

pub open spec fn cite_view(c: Citation) -> CiteSpec {
    (c.token@, c.cited_path@, c.start_line, c.end_line, c.at as int)
}

/// The text of group `i`, when it participated.
pub open spec fn group(gs: Seq<Option<Seq<char>>>, i: int) -> Option<Seq<char>> {
    if 0 <= i < gs.len() {
        gs[i]
    } else {
        None
    }
}

/// The citation one detector match makes, if any: a match whose text starts
/// right after `/` or `:` is a URL tail, not a citation; a match lacking its
/// whole or path group (which this detector never produces) is skipped.
pub open spec fn cite_of(body: Seq<char>, m: (int, Seq<Option<Seq<char>>>), body_offset: int) -> Option<CiteSpec> {
    let (start, gs) = m;
    let prefix = body.take(fit_count(body, start) as int);
    if group(gs, 0) is None || group(gs, 1) is None {
        None
    } else if prefix.len() > 0 && (prefix.last() == '/' || prefix.last() == ':') {
        None
    } else {
        Some(
            (
                group(gs, 0).unwrap(),
                group(gs, 1).unwrap(),
                match group(gs, 2) {
                    Some(t) => match parse_u64(t) {
                        Some(n) => n,
                        None => 0,
                    },
                    None => 0,
                },
                match group(gs, 3) {
                    Some(t) => parse_u64(t),
                    None => None,
                },
                body_offset + start,
            ),
        )
    }
}

/// The citations of a sequence of detector matches, in order.
pub open spec fn cites_of(body: Seq<char>, ms: Seq<(int, Seq<Option<Seq<char>>>)>, body_offset: int) -> Seq<CiteSpec>
    decreases ms.len(),
{
    if ms.len() == 0 {
        Seq::empty()
    } else {
        cites_of(body, ms.drop_last(), body_offset) + match cite_of(body, ms.last(), body_offset) {
            Some(c) => seq![c],
            None => Seq::empty(),
        }
    }
}

/// The citations of `content`'s prose after `body_offset`.
pub open spec fn citation_list(content: Seq<char>, body_offset: int) -> Seq<CiteSpec> {
    let body = text_after(content, body_offset);
    cites_of(body, regex_scan(CITATION_PATTERN@, body), body_offset)
}

/// Extract every citation token from the prose of `content` after
/// `body_offset`, with its byte offset in the whole content. `detector` is
/// the compiled [`CITATION_PATTERN`].
pub fn citations(detector: &LinePattern, content: &str, body_offset: usize) -> (r: Vec<Citation>)
    requires
        detector.source() == CITATION_PATTERN@,
        on_boundary(content@, body_offset as int),
    ensures
        r@.map_values(|c: Citation| cite_view(c)) == citation_list(content@, body_offset as int),
        forall|k: int| 0 <= k < r@.len() ==> on_boundary(content@, (#[trigger] r@[k]).at as int),
{
    let ghost body_s = text_after(content@, body_offset as int);
    let cv = chars_of(content);
    let total = crate::text::utf8_len(content);
    let kb = crate::text::fit_chars(&cv, body_offset);
    proof {
        crate::text::lemma_fit(cv@, body_offset as int);
        assert(cv@.subrange(kb as int, cv@.len() as int) =~= body_s);
        crate::text::lemma_byte_len_concat(content@.take(kb as int), body_s);
        assert(content@.take(kb as int) + body_s =~= content@);
        if body_offset < byte_len(content@) {
            assert(byte_len(content@.take(kb as int)) == body_offset);
        }
    }
    let body = content.substring_char(kb, cv.len());
    let bv = chars_of(body);
    let ms = detector.scan(body);
    let ghost msv = regex_scan(CITATION_PATTERN@, body_s);
    let mut out: Vec<Citation> = Vec::new();
    let mut i: usize = 0;
    while i < ms.len()
        invariant
            i <= ms@.len(),
            bv@ == body_s,
            body_s == content@.skip(kb as int),
            kb <= content@.len(),
            total == byte_len(content@),
            byte_len(content@) == byte_len(content@.take(kb as int)) + byte_len(body_s),
            body_offset < byte_len(content@) ==> byte_len(content@.take(kb as int)) == body_offset,
            body_offset >= byte_len(content@) ==> body_s.len() == 0,
            crate::pattern::scan_view(ms@) == msv,
            forall|k: int| 0 <= k < ms@.len() ==> on_boundary(body_s, (#[trigger] ms@[k]).0 as int) && ms@[k].0 <= byte_len(body_s),
            out@.map_values(|c: Citation| cite_view(c)) == cites_of(body_s, msv.take(i as int), body_offset as int),
            forall|k: int| 0 <= k < out@.len() ==> on_boundary(content@, (#[trigger] out@[k]).at as int),
        decreases ms.len() - i,
    {
        let (start, groups) = (ms[i].0, &ms[i].1);
        let ghost m = msv[i as int];
        proof {
            assert(msv.take(i + 1).drop_last() =~= msv.take(i as int));
            assert(msv.take(i + 1).last() == msv[i as int]);
            assert(m.0 == start as int);
            assert(m.1 == groups@.map_values(|g: Option<&str>| match g {
                Some(t) => Some(t@),
                None => None,
            }));
        }
        let ks = crate::text::fit_chars(&bv, start);
        proof {
            crate::text::lemma_fit(bv@, start as int);
        }
        let url_tail = ks > 0 && (bv[ks - 1] == '/' || bv[ks - 1] == ':');
        let whole: Option<&str> = if groups.len() > 0 {
            groups[0]
        } else {
            None
        };
        let path_text: Option<&str> = if groups.len() > 1 {
            groups[1]
        } else {
            None
        };
        let ghost prefix = body_s.take(fit_count(body_s, start as int) as int);
        proof {
            assert(prefix.len() == ks);
            if ks > 0 {
                assert(prefix.last() == bv@[ks - 1]);
            }
        }
        match (whole, path_text) {
            (Some(token), Some(cited)) => {
                if url_tail {
                    proof {
                        assert(cite_of(body_s, m, body_offset as int) is None);
                        assert(cites_of(body_s, msv.take(i + 1), body_offset as int) =~= cites_of(body_s, msv.take(i as int), body_offset as int));
                    }
                } else {
                    let start_line: u64 = if groups.len() > 2 {
                        match groups[2] {
                            Some(t) => match crate::text::parse_u64_text(t) {
                                Some(n) => n,
                                None => 0,
                            },
                            None => 0,
                        }
                    } else {
                        0
                    };
                    let end_line: Option<u64> = if groups.len() > 3 {
                        match groups[3] {
                            Some(t) => crate::text::parse_u64_text(t),
                            None => None,
                        }
                    } else {
                        None
                    };
                    proof {
                        assert(on_boundary(body_s, start as int));
                        lemma_shifted_boundary(content@, kb as int, body_offset as int, start as int);
                        if body_offset >= byte_len(content@) {
                            assert(byte_len(body_s) == 0) by {
                                assert(body_s =~= Seq::<char>::empty());
                            }
                        }
                    }
                    let at = body_offset + start;
                    let c = Citation { token: owned(token), cited_path: owned(cited), start_line, end_line, at };
                    let ghost before = out@;
                    out.push(c);
                    proof {
                        let cs = cite_of(body_s, m, body_offset as int);
                        assert(cs == Some(cite_view(c)));
                        assert(out@.map_values(|c: Citation| cite_view(c)) =~= before.map_values(|c: Citation| cite_view(c)).push(cite_view(c)));
                        assert(cites_of(body_s, msv.take(i + 1), body_offset as int) =~= cites_of(body_s, msv.take(i as int), body_offset as int).push(cite_view(c)));
                    }
                }
            },
            _ => {
                proof {
                    assert(cite_of(body_s, m, body_offset as int) is None);
                    assert(cites_of(body_s, msv.take(i + 1), body_offset as int) =~= cites_of(body_s, msv.take(i as int), body_offset as int));
                }
            },
        }
        i = i + 1;
    }
    proof {
        assert(msv.take(msv.len() as int) =~= msv);
        assert(ms@.len() == msv.len());
    }
    out
}

/// A boundary of the text after a boundary is, shifted, a boundary of the
/// whole.
proof fn lemma_shifted_boundary(content: Seq<char>, kb: int, body_offset: int, s: int)
    requires
        0 <= kb <= content.len(),
        0 <= s,
        on_boundary(content.skip(kb), s),
        s <= byte_len(content.skip(kb)),
        body_offset < byte_len(content) ==> byte_len(content.take(kb)) == body_offset,
        body_offset >= byte_len(content) ==> content.skip(kb).len() == 0,
        body_offset >= 0,
        byte_len(content) == byte_len(content.take(kb)) + byte_len(content.skip(kb)),
    ensures
        on_boundary(content, body_offset + s),
        body_offset < byte_len(content) ==> body_offset + s <= byte_len(content),
        body_offset >= byte_len(content) ==> s == 0,
{
    let body = content.skip(kb);
    if body_offset >= byte_len(content) {
        assert(body =~= Seq::<char>::empty());
        assert(s == 0);
    } else {
        let c: int = if s >= byte_len(body) {
            body.len() as int
        } else {
            fit_count(body, s) as int
        };
        if s >= byte_len(body) {
            assert(body.take(body.len() as int) =~= body);
        } else {
            crate::text::lemma_fit(body, s);
        }
        assert(0 <= c <= body.len());
        assert(byte_len(body.take(c)) == s);
        assert(content.take(kb + c) =~= content.take(kb) + body.take(c));
        crate::text::lemma_byte_len_concat(content.take(kb), body.take(c));
        crate::link::lemma_boundary_of_prefix(content, kb + c);
    }
}

/// The confinement-accepted citation targets of one file's prose: the paths
/// captured before the seam. Escaping citations are reported on their text
/// alone and never reach the filesystem, so they are not returned.
pub fn cited_targets(detector: &LinePattern, content: &str, body_offset: usize) -> (r: Vec<ConfinedPath>)
    requires
        detector.source() == CITATION_PATTERN@,
        on_boundary(content@, body_offset as int),
    ensures
        r@.map_values(|p: ConfinedPath| p@) == confined_paths(citation_list(content@, body_offset as int)),
{
    let cs = citations(detector, content, body_offset);
    let ghost cl = citation_list(content@, body_offset as int);
    let mut out: Vec<ConfinedPath> = Vec::new();
    let mut i: usize = 0;
    while i < cs.len()
        invariant
            i <= cs@.len(),
            cs@.map_values(|c: Citation| cite_view(c)) == cl,
            out@.map_values(|p: ConfinedPath| p@) == confined_paths(cl.take(i as int)),
        decreases cs.len() - i,
    {
        proof {
            assert(cl.take(i + 1).drop_last() =~= cl.take(i as int));
            assert(cl.take(i + 1).last() == cl[i as int]);
            assert(cl[i as int] == cite_view(cs@[i as int]));
        }
        let ghost before = out@;
        match confine_lexically(cs[i].cited_path.as_str()) {
            Ok(p) => {
                out.push(p);
                proof {
                    assert(out@.map_values(|p: ConfinedPath| p@) =~= before.map_values(|p: ConfinedPath| p@).push(p@));
                }
            },
            Err(_) => {},
        }
        i = i + 1;
    }
    proof {
        assert(cl.take(cl.len() as int) =~= cl);
    }
    out
}

/// The confined forms of the citation paths that confine, in order.
pub open spec fn confined_paths(cs: Seq<CiteSpec>) -> Seq<Seq<char>>
    decreases cs.len(),
{
    if cs.len() == 0 {
        Seq::empty()
    } else {
        confined_paths(cs.drop_last()) + match confinement(cs.last().1) {
            Ok(p) => seq![p],
            Err(_) => Seq::empty(),
        }
    }
}

/// What one citation reports, if anything: its code, summary, message and
/// severity.
pub open spec fn cite_outcome(snap: Map<Seq<char>, Captured>, c: CiteSpec) -> Option<
    (Seq<char>, Seq<char>, Seq<char>, Severity),
> {
    let (_, cited, start, end, _) = c;
    match confinement(cited) {
        Err(LexicalViolation::Absolute) => Some(
            ("MDATRON-E0010"@, "absolute-path-refused"@, "a citation's path escapes the governed tree"@, Severity::Error),
        ),
        Err(LexicalViolation::ParentSegment) => Some(
            ("MDATRON-E0011"@, "parent-segment-refused"@, "a citation's path escapes the governed tree"@, Severity::Error),
        ),
        Ok(p) => if !snap.contains_key(p) {
            Some(
                (
                    "MDATRON-E0080"@,
                    "pipeline-orchestration-failure"@,
                    "this citation's target was never captured into the run snapshot \u{2014} an engine defect in target discovery, not a defect in this document; please report it upstream"@,
                    Severity::Error,
                ),
            )
        } else {
            match snap[p] {
                Captured::Content(Content::Utf8(t)) => {
                    let n = lines_of(t@).len();
                    let last: u64 = match end {
                        Some(e) => e,
                        None => start,
                    };
                    if start == 0 || last > n || start > last {
                        Some(
                            (
                                "MDATRON-E0101"@,
                                "citation-line-out-of-range"@,
                                "the cited target has "@ + decimal(n)
                                    + " line(s); the citation names content past its end (lines are 1-based)"@,
                                Severity::Error,
                            ),
                        )
                    } else {
                        None
                    }
                },
                Captured::Content(Content::Raw(_)) => None,
                Captured::OpenedUnreadable { .. } => None,
                Captured::TooLarge { .. } => Some(
                    (
                        "MDATRON-W0048"@,
                        "reference-target-unverified"@,
                        "this citation's target exceeds the input size budget, so its line range was NOT verified \u{2014} existence only; raise attention on the reference or shrink the target"@,
                        Severity::Warning,
                    ),
                ),
                Captured::SymlinkRefused { .. } => Some(
                    (
                        "MDATRON-E0012"@,
                        "symlinked-component-refused"@,
                        "a citation's target resolves through a symbolic link; no-follow resolution refuses it"@,
                        Severity::Error,
                    ),
                ),
                Captured::OpenIo { .. } => Some(
                    (
                        "MDATRON-E0100"@,
                        "dead-citation"@,
                        "the citation names content that does not exist in the working-tree snapshot (uncommitted content counts; no git history is consulted)"@,
                        Severity::Error,
                    ),
                ),
            }
        },
    }
}

/// The finding for a citation outcome.
pub open spec fn is_cite_finding(
    f: Finding,
    path: Seq<char>,
    content: Seq<char>,
    c: CiteSpec,
    o: (Seq<char>, Seq<char>, Seq<char>, Severity),
) -> bool {
    &&& f.code@ == o.0
    &&& f.severity == o.3
    &&& f.summary@ == o.1
    &&& f.message@ == o.2
    &&& f.help is None
    &&& f.location.file@ == path
    &&& f.location.line == line_at(content, c.4)
    &&& f.location.column == 0
    &&& f.explain_ref matches Some(e) && e@ == o.0
    &&& f.quoted@.len() == 1
    &&& !f.quoted@[0].platform_variant
    &&& f.quoted@[0].label@ == "citation"@
    &&& f.quoted@[0].content@ == c.0
}

/// The findings of a list of citations, in order.
pub open spec fn cite_findings(snap: Map<Seq<char>, Captured>, cs: Seq<CiteSpec>) -> Seq<(CiteSpec, (Seq<char>, Seq<char>, Seq<char>, Severity))>
    decreases cs.len(),
{
    if cs.len() == 0 {
        Seq::empty()
    } else {
        cite_findings(snap, cs.drop_last()) + match cite_outcome(snap, cs.last()) {
            Some(o) => seq![(cs.last(), o)],
            None => Seq::empty(),
        }
    }
}

fn cite_finding(
    path: &str,
    content: &str,
    at: usize,
    code: &str,
    summary: &str,
    message: String,
    severity: Severity,
    token: &str,
) -> (f: Finding)
    requires
        on_boundary(content@, at as int),
        lf_count(content@) < u32::MAX,
    ensures
        f.code@ == code@,
        f.severity == severity,
        f.summary@ == summary@,
        f.message@ == message@,
        f.help is None,
        f.location.file@ == path@,
        f.location.line == line_at(content@, at as int),
        f.location.column == 0,
        f.explain_ref matches Some(e) && e@ == code@,
        f.quoted@.len() == 1,
        !f.quoted@[0].platform_variant,
        f.quoted@[0].label@ == "citation"@,
        f.quoted@[0].content@ == token@,
{
    let line = crate::link::count_lines_before(content, at);
    let mut quoted: Vec<QuotedRegion> = Vec::new();
    quoted.push(QuotedRegion { platform_variant: false, label: owned("citation"), content: owned(token) });
    Finding {
        code: owned(code),
        severity,
        summary: owned(summary),
        message,
        help: None,
        location: Location { file: owned(path), line, column: 0 },
        explain_ref: Some(owned(code)),
        quoted,
    }
}

/// The outcome of one citation against the snapshot, computed.
fn outcome(snapshot: &Snapshot, c: &Citation) -> (r: Option<(&'static str, &'static str, String, Severity)>)
    requires
        snapshot.wf(),
    ensures
        match cite_outcome(snapshot@, cite_view(*c)) {
            Some(o) => r matches Some(x) && x.0@ == o.0 && x.1@ == o.1 && x.2@ == o.2 && x.3 == o.3,
            None => r is None,
        },
{
    let confined = match confine_lexically(c.cited_path.as_str()) {
        Ok(p) => p,
        Err(LexicalViolation::Absolute) => {
            return Some(("MDATRON-E0010", "absolute-path-refused", owned("a citation's path escapes the governed tree"), Severity::Error));
        },
        Err(LexicalViolation::ParentSegment) => {
            return Some(("MDATRON-E0011", "parent-segment-refused", owned("a citation's path escapes the governed tree"), Severity::Error));
        },
    };
    match snapshot.get(confined.as_path()) {
        Some(Captured::Content(content)) => match content.text() {
            Some(target) => {
                let lines = crate::text::text_lines(target);
                let n = lines.len() as u64;
                let last = match c.end_line {
                    Some(e) => e,
                    None => c.start_line,
                };
                if c.start_line == 0 || last > n || c.start_line > last {
                    let mut m = owned("the cited target has ");
                    push_decimal(&mut m, n);
                    push_str(&mut m, " line(s); the citation names content past its end (lines are 1-based)");
                    Some(("MDATRON-E0101", "citation-line-out-of-range", m, Severity::Error))
                } else {
                    None
                }
            },
            None => None,
        },
        Some(Captured::OpenedUnreadable { .. }) => None,
        Some(Captured::TooLarge { .. }) => Some(
            (
                "MDATRON-W0048",
                "reference-target-unverified",
                owned("this citation's target exceeds the input size budget, so its line range was NOT verified \u{2014} existence only; raise attention on the reference or shrink the target"),
                Severity::Warning,
            ),
        ),
        Some(Captured::SymlinkRefused { .. }) => Some(
            (
                "MDATRON-E0012",
                "symlinked-component-refused",
                owned("a citation's target resolves through a symbolic link; no-follow resolution refuses it"),
                Severity::Error,
            ),
        ),
        Some(Captured::OpenIo { .. }) => Some(
            (
                "MDATRON-E0100",
                "dead-citation",
                owned("the citation names content that does not exist in the working-tree snapshot (uncommitted content counts; no git history is consulted)"),
                Severity::Error,
            ),
        ),
        None => Some(
            (
                "MDATRON-E0080",
                "pipeline-orchestration-failure",
                owned("this citation's target was never captured into the run snapshot \u{2014} an engine defect in target discovery, not a defect in this document; please report it upstream"),
                Severity::Error,
            ),
        ),
    }
}

/// Scan one opted-in file's prose for `file:line` citations and verify each
/// against the captured snapshot: escapes are refused on their text, and a
/// confined target is judged by its captured state. `content` is the whole
/// file; `body_offset` is where prose begins; `detector` is the compiled
/// [`CITATION_PATTERN`].
pub fn check_file(
    snapshot: &Snapshot,
    detector: &LinePattern,
    path: &str,
    content: &str,
    body_offset: usize,
    findings: &mut Vec<Finding>,
)
    requires
        snapshot.wf(),
        detector.source() == CITATION_PATTERN@,
        on_boundary(content@, body_offset as int),
        lf_count(content@) < u32::MAX,
    ensures
        ({
            let items = cite_findings(snapshot@, citation_list(content@, body_offset as int));
            &&& final(findings)@.len() == old(findings)@.len() + items.len()
            &&& final(findings)@.take(old(findings)@.len() as int) == old(findings)@
            &&& forall|k: int| 0 <= k < items.len() ==> is_cite_finding(
                #[trigger] final(findings)@[old(findings)@.len() + k],
                path@,
                content@,
                items[k].0,
                items[k].1,
            )
        }),
{
    let cs = citations(detector, content, body_offset);
    let ghost cl = citation_list(content@, body_offset as int);
    let ghost base = findings@;
    let mut i: usize = 0;
    proof {
        assert(findings@.take(base.len() as int) =~= base);
    }
    while i < cs.len()
        invariant
            i <= cs@.len(),
            snapshot.wf(),
            lf_count(content@) < u32::MAX,
            cs@.map_values(|c: Citation| cite_view(c)) == cl,
            forall|k: int| 0 <= k < cs@.len() ==> on_boundary(content@, (#[trigger] cs@[k]).at as int),
            findings@.len() == base.len() + cite_findings(snapshot@, cl.take(i as int)).len(),
            findings@.take(base.len() as int) == base,
            forall|k: int| 0 <= k < cite_findings(snapshot@, cl.take(i as int)).len() ==> is_cite_finding(
                #[trigger] findings@[base.len() + k],
                path@,
                content@,
                cite_findings(snapshot@, cl.take(i as int))[k].0,
                cite_findings(snapshot@, cl.take(i as int))[k].1,
            ),
        decreases cs.len() - i,
    {
        let c = &cs[i];
        proof {
            assert(cl.take(i + 1).drop_last() =~= cl.take(i as int));
            assert(cl.take(i + 1).last() == cl[i as int]);
            assert(cl[i as int] == cite_view(*c));
            assert(on_boundary(content@, c.at as int));
        }
        let ghost prev = findings@;
        let ghost done = cite_findings(snapshot@, cl.take(i as int));
        match outcome(snapshot, c) {
            Some((code, summary, message, severity)) => {
                let f = cite_finding(path, content, c.at, code, summary, message, severity, c.token.as_str());
                findings.push(f);
                proof {
                    let next = cite_findings(snapshot@, cl.take(i + 1));
                    assert(findings@.take(base.len() as int) =~= base) by {
                        assert forall|j: int| 0 <= j < base.len() implies findings@.take(base.len() as int)[j] == base[j] by {
                            assert(findings@[j] == prev[j]);
                            assert(prev[j] == prev.take(base.len() as int)[j]);
                        }
                    }
                    assert forall|k: int| 0 <= k < next.len() implies is_cite_finding(
                        #[trigger] findings@[base.len() + k],
                        path@,
                        content@,
                        next[k].0,
                        next[k].1,
                    ) by {
                        if k < done.len() {
                            assert(next[k] == done[k]);
                            assert(findings@[base.len() + k] == prev[base.len() + k]);
                        } else {
                            assert(base.len() + k == prev.len());
                        }
                    }
                }
            },
            None => {
                proof {
                    assert(cite_findings(snapshot@, cl.take(i + 1)) =~= done);
                }
            },
        }
        i = i + 1;
    }
    proof {
        assert(cl.take(cl.len() as int) =~= cl);
    }
}


/// A citation into captured text is out of range exactly by the line count:
/// when its last line (the end, or the start when there is no end) lies past
/// the target's last line, or it starts at line 0, or it ends before it
/// starts, it is reported as `E0101`; a range of 1-based lines that ends
/// within the target is not reported at all.
pub proof fn lemma_citation_range_against_line_count(
    snap: Map<Seq<char>, Captured>,
    c: CiteSpec,
    p: Seq<char>,
    t: String,
)
    requires
        confinement(c.1) == Ok::<Seq<char>, LexicalViolation>(p),
        snap.contains_key(p),
        snap[p] == Captured::Content(Content::Utf8(t)),
    ensures
        ({
            let last: int = match c.3 {
                Some(e) => e as int,
                None => c.2 as int,
            };
            &&& (last > lines_of(t@).len() || c.2 == 0 || c.2 > last) ==> (cite_outcome(snap, c) matches Some(o)
                && o.0 == "MDATRON-E0101"@ && o.1 == "citation-line-out-of-range"@ && o.3 == Severity::Error)
            &&& (1 <= c.2 && c.2 <= last && last <= lines_of(t@).len()) ==> cite_outcome(snap, c) is None
        }),
{
}

} // verus!
