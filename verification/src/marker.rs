//! Marker-line references: the member names a reference resolves against in
//! its target document (heading texts, or the bold names of list items),
//! optionally scoped to one section, compared by name-equality with a
//! trailing `.` tolerated; and the marker-line check that resolves each
//! reference a governed file's body makes against its rule's target.
use vstd::prelude::*;

use crate::codecat::line_placed;
use crate::confine::{confine_lexically, confinement, LexicalViolation};
use crate::diagnostic::{Finding, Location, QuotedRegion, Severity};
use crate::frontmatter::{body_text, frontmatter_fails, yaml_text};
use crate::link::{lf_count, line_at, on_boundary, text_after};
use crate::markup::{atx_heading, atx_heading_of, bold_name_of, list_item_bold_name, live_lines, non_fenced_lines};
use crate::pattern::regex_group1;
use crate::route::{one_more, ElementClass, MarkerRule};
use crate::snapshot::{Captured, Content, Snapshot};
use crate::text::{byte_len, chars_of, owned, trim, trim_bounds, trim_end, views};

verus! {

/// `s` trimmed, its trailing `.` run removed, and trimmed again at the end.
pub open spec fn normalized(s: Seq<char>) -> Seq<char> {
    let t = trim(s);
    trim_end(t.take(t.len() - crate::markup::trail_run(t, '.')))
}

/// Normalize a name for equality: trim surrounding whitespace and tolerate a
/// trailing `.`.
pub fn normalize_name(s: &str) -> (r: String)
    ensures
        r@ == normalized(s@),
{
    let v = chars_of(s);
    let (a, b) = trim_bounds(&v, 0, v.len());
    proof {
        assert(v@.subrange(0, v@.len() as int) =~= v@);
    }
    let mut e = b;
    while e > a && v[e - 1] == '.'
        invariant
            a <= e <= b <= v@.len(),
            crate::markup::trail_run(v@.subrange(a as int, b as int), '.') == (b - e)
                + crate::markup::trail_run(v@.subrange(a as int, e as int), '.'),
        decreases e - a,
    {
        proof {
            assert(v@.subrange(a as int, e as int).drop_last() =~= v@.subrange(a as int, e - 1));
        }
        e = e - 1;
    }
    proof {
        let t = v@.subrange(a as int, b as int);
        if e > a {
            assert(v@.subrange(a as int, e as int).last() == v@[e - 1]);
        }
        assert(t.take(t.len() - crate::markup::trail_run(t, '.')) =~= v@.subrange(a as int, e as int));
    }
    let f = crate::text::skip_ws_backward(&v, a, e);
    proof {
        assert(trim_end(v@.subrange(a as int, e as int)) =~= v@.subrange(a as int, f as int));
    }
    crate::text::string_from(&v, a, f)
}

/// The member scan state: whether inside the wanted section, whether the
/// section heading was ever matched, and the members collected.
pub open spec fn member_scan(
    lines: Seq<Seq<char>>,
    element: ElementClass,
    want: Option<(nat, Seq<char>)>,
    start_in: bool,
) -> (bool, bool, Set<Seq<char>>)
    decreases lines.len(),
{
    if lines.len() == 0 {
        (start_in, start_in, Set::empty())
    } else {
        let (in_s, matched, ms) = member_scan(lines.drop_last(), element, want, start_in);
        let line = lines.last();
        match atx_heading_of(line) {
            Some((level, text)) => match want {
                Some((wl, wt)) => if level == wl && normalized(text) == normalized(wt) {
                    (true, true, ms)
                } else if !in_s {
                    (in_s, matched, ms)
                } else if level <= wl {
                    (false, matched, ms)
                } else {
                    (in_s, matched, if element == ElementClass::Heading {
                        ms.insert(normalized(text))
                    } else {
                        ms
                    })
                },
                None => (in_s, matched, if in_s && element == ElementClass::Heading {
                    ms.insert(normalized(text))
                } else {
                    ms
                }),
            },
            None => (in_s, matched, if in_s && element == ElementClass::ListItemBoldName
                && bold_name_of(line) is Some {
                ms.insert(normalized(bold_name_of(line)->0))
            } else {
                ms
            }),
        }
    }
}

/// The member names of `body` for `element`, scoped to the span of the
/// heading `section` names when it names one; `None` when that heading is
/// never matched (level equality and normalized-name equality).
pub open spec fn members_of(body: Seq<char>, element: ElementClass, section: Option<Seq<char>>) -> Option<
    Set<Seq<char>>,
> {
    let want = match section {
        Some(s) => atx_heading_of(s),
        None => None,
    };
    let r = member_scan(
        live_lines(body).map_values(|p: (nat, Seq<char>)| p.1),
        element,
        want,
        section is None,
    );
    if r.1 {
        Some(r.2)
    } else {
        None
    }
}

fn insert_name(members: &mut Vec<String>, name: String)
    requires
        views(old(members)@).no_duplicates(),
    ensures
        views(final(members)@).no_duplicates(),
        views(final(members)@).to_set() == views(old(members)@).to_set().insert(name@),
{
    let mut present = false;
    let mut k: usize = 0;
    while k < members.len()
        invariant
            k <= members@.len(),
            present == (exists|m: int| 0 <= m < k && members@[m]@ == name@),
        decreases members.len() - k,
    {
        if members[k] == name {
            present = true;
        }
        k = k + 1;
    }
    let ghost before = views(members@);
    if !present {
        members.push(name);
        proof {
            let now = views(members@);
            assert(now =~= before.push(name@));
            assert forall|m: int| 0 <= m < before.len() implies before[m] != name@ by {
                assert(before[m] == old(members)@[m]@);
            }
            assert forall|x: Seq<char>| now.contains(x) <==> (before.contains(x) || x == name@) by {
                if before.contains(x) {
                    let m = choose|m: int| 0 <= m < before.len() && before[m] == x;
                    assert(now[m] == x);
                }
                if now.contains(x) {
                    let m = choose|m: int| 0 <= m < now.len() && now[m] == x;
                    if m < before.len() {
                        assert(before[m] == x);
                    }
                }
                if x == name@ {
                    assert(now[before.len() as int] == x);
                }
            }
            assert(now.to_set() =~= before.to_set().insert(name@));
        }
    } else {
        proof {
            let m = choose|m: int| 0 <= m < k && members@[m]@ == name@;
            assert(before[m] == name@);
            assert(before.to_set() =~= before.to_set().insert(name@));
        }
    }
}

/// The normalized member names of `body` for `element`, optionally scoped to
/// the span of the heading named by `section` (until the next heading of the
/// same or higher level). `None` when a section is named but its heading is
/// never matched; each name occurs once.
pub fn extract_members(body: &str, element: ElementClass, section: Option<&str>) -> (r: Option<Vec<String>>)
    ensures
        match r {
            Some(ms) => members_of(body@, element, match section {
                Some(s) => Some(s@),
                None => None,
            }) == Some(views(ms@).to_set()) && views(ms@).no_duplicates(),
            None => members_of(body@, element, match section {
                Some(s) => Some(s@),
                None => None,
            }) is None,
        },
{
    let want: Option<(usize, &str)> = match section {
        Some(s) => atx_heading(s),
        None => None,
    };
    let ghost want_s = match section {
        Some(s) => atx_heading_of(s@),
        None => None,
    };
    let mut in_section = section.is_none();
    let mut matched = section.is_none();
    let mut members: Vec<String> = Vec::new();
    let lines = non_fenced_lines(body);
    let ghost ls = live_lines(body@).map_values(|p: (nat, Seq<char>)| p.1);
    proof {
        assert(ls.take(0) =~= Seq::<Seq<char>>::empty());
        assert(views(members@).to_set() =~= Set::<Seq<char>>::empty());
    }
    let mut i: usize = 0;
    while i < lines.len()
        invariant
            i <= lines@.len(),
            lines@.map_values(|p: (usize, &str)| (p.0 as nat, p.1@)) == live_lines(body@),
            ls == live_lines(body@).map_values(|p: (nat, Seq<char>)| p.1),
            want_s == match want {
                Some((l, t)) => Some((l as nat, t@)),
                None => None,
            },
            views(members@).no_duplicates(),
            member_scan(ls.take(i as int), element, want_s, section is None) == (
                in_section,
                matched,
                views(members@).to_set(),
            ),
        decreases lines.len() - i,
    {
        let line = lines[i].1;
        proof {
            assert(ls[i as int] == line@);
            assert(ls.take(i + 1).drop_last() =~= ls.take(i as int));
            assert(ls.take(i + 1).last() == line@);
        }
        match atx_heading(line) {
            Some((level, text)) => {
                match want {
                    Some((wl, wt)) => {
                        let a = normalize_name(text);
                        let b = normalize_name(wt);
                        if level == wl && a == b {
                            in_section = true;
                            matched = true;
                        } else if !in_section {
                        } else if level <= wl {
                            in_section = false;
                        } else if element == ElementClass::Heading {
                            insert_name(&mut members, a);
                        }
                    },
                    None => {
                        if in_section && element == ElementClass::Heading {
                            let a = normalize_name(text);
                            insert_name(&mut members, a);
                        }
                    },
                }
            },
            None => {
                if in_section && element == ElementClass::ListItemBoldName {
                    match list_item_bold_name(line) {
                        Some(name) => {
                            let a = normalize_name(name);
                            insert_name(&mut members, a);
                        },
                        None => {},
                    }
                }
            },
        }
        i = i + 1;
    }
    proof {
        assert(ls.take(ls.len() as int) =~= ls);
    }
    if matched {
        Some(members)
    } else {
        None
    }
}

/// Whether `f` is the marker finding quoting `quoted` under `label`.
pub open spec fn is_marker_finding(
    f: Finding,
    path: Seq<char>,
    content: Seq<char>,
    at: int,
    code: Seq<char>,
    summary: Seq<char>,
    message: Seq<char>,
    label: Seq<char>,
    quoted: Seq<char>,
) -> bool {
    &&& f.code@ == code
    &&& f.severity == Severity::Error
    &&& f.summary@ == summary
    &&& f.message@ == message
    &&& f.help is None
    &&& f.location.file@ == path
    &&& f.location.line == line_at(content, at)
    &&& f.location.column == 0
    &&& f.explain_ref matches Some(e) && e@ == code
    &&& f.quoted@.len() == 1
    &&& !f.quoted@[0].platform_variant
    &&& f.quoted@[0].label@ == label
    &&& f.quoted@[0].content@ == quoted
}

/// A marker finding at byte `offset` of `content`, quoting `quoted` under
/// `label` and explained by its own code.
pub fn marker_finding(
    path: &str,
    content: &str,
    offset: usize,
    code: &str,
    summary: &str,
    message: &str,
    label: &str,
    quoted: &str,
) -> (f: Finding)
    requires
        on_boundary(content@, offset as int),
        lf_count(content@) < u32::MAX,
    ensures
        is_marker_finding(f, path@, content@, offset as int, code@, summary@, message@, label@, quoted@),
{
    let line = crate::link::count_lines_before(content, offset);
    let mut q: Vec<QuotedRegion> = Vec::new();
    q.push(QuotedRegion { platform_variant: false, label: owned(label), content: owned(quoted) });
    Finding {
        code: owned(code),
        severity: Severity::Error,
        summary: owned(summary),
        message: owned(message),
        help: None,
        location: Location { file: owned(path), line, column: 0 },
        explain_ref: Some(owned(code)),
        quoted: q,
    }
}

// ── Resolving a rule's target ───────────────────────────────────────────────

/// Why a marker rule is disabled for a file (a finding reports it).
pub enum TargetIssue {
    /// The target_doc escapes the governed tree.
    Confinement(LexicalViolation, Seq<char>),
    /// The target_doc resolves through a symbolic link.
    Symlink(Seq<char>),
    /// The target_doc was never captured into the snapshot.
    NotCaptured(Seq<char>),
    /// The target_section heading is absent from the target.
    SectionMissing(Seq<char>),
}

/// The text a target document is read through: the body after its
/// frontmatter when the frontmatter is present and parses, else the whole
/// text.
pub open spec fn target_body(t: Seq<char>) -> Seq<char> {
    if frontmatter_fails(t) {
        t
    } else {
        match yaml_text(t) {
            None => t,
            Some(_) => match body_text(t) {
                Some(b) => b,
                None => t,
            },
        }
    }
}

/// The section text of an optional target section.
pub open spec fn section_of(s: Option<String>) -> Option<Seq<char>> {
    match s {
        Some(x) => Some(x@),
        None => None,
    }
}

/// A rule's member set against the snapshot, or the issue that disables
/// it. A target that is captured but not readable text yields the empty
/// set, so its references are reported rather than skipped.
pub open spec fn rule_target(snap: Map<Seq<char>, Captured>, rule: MarkerRule) -> (
    Option<Set<Seq<char>>>,
    Option<TargetIssue>,
) {
    match confinement(rule.target_doc@) {
        Err(v) => (None, Some(TargetIssue::Confinement(v, rule.target_doc@))),
        Ok(c) => if !snap.contains_key(c) {
            (None, Some(TargetIssue::NotCaptured(rule.target_doc@)))
        } else {
            match snap[c] {
                Captured::Content(Content::Utf8(t)) => match members_of(
                    target_body(t@),
                    rule.element,
                    section_of(rule.target_section),
                ) {
                    Some(m) => (Some(m), None),
                    None => (
                        None,
                        Some(
                            TargetIssue::SectionMissing(
                                match rule.target_section {
                                    Some(x) => x@,
                                    None => Seq::empty(),
                                },
                            ),
                        ),
                    ),
                },
                Captured::SymlinkRefused { .. } => (None, Some(TargetIssue::Symlink(rule.target_doc@))),
                _ => (Some(Set::empty()), None),
            }
        },
    }
}

/// The finding reporting a disabled rule for the file at `path`.
pub open spec fn is_target_finding(f: Finding, path: Seq<char>, issue: TargetIssue) -> bool {
    match issue {
        TargetIssue::Confinement(v, doc) => is_marker_finding(
            f,
            path,
            Seq::empty(),
            0,
            match v {
                LexicalViolation::Absolute => "MDATRON-E0010"@,
                LexicalViolation::ParentSegment => "MDATRON-E0011"@,
            },
            match v {
                LexicalViolation::Absolute => "absolute-path-refused"@,
                LexicalViolation::ParentSegment => "parent-segment-refused"@,
            },
            "a marker rule's target_doc escapes the governed tree"@,
            "target_doc"@,
            doc,
        ),
        TargetIssue::Symlink(doc) => is_marker_finding(
            f,
            path,
            Seq::empty(),
            0,
            "MDATRON-E0012"@,
            "symlinked-component-refused"@,
            "a marker rule's target_doc resolves through a symbolic link; no-follow resolution refuses it"@,
            "target_doc"@,
            doc,
        ),
        TargetIssue::NotCaptured(doc) => is_marker_finding(
            f,
            path,
            Seq::empty(),
            0,
            "MDATRON-E0080"@,
            "pipeline-orchestration-failure"@,
            "this rule's target_doc was never captured into the run snapshot \u{2014} an engine defect in target discovery, not a defect in this document; please report it upstream"@,
            "target_doc"@,
            doc,
        ),
        TargetIssue::SectionMissing(sec) => is_marker_finding(
            f,
            path,
            Seq::empty(),
            0,
            "MDATRON-E0114"@,
            "marker-target-section-not-found"@,
            "a marker rule's target_section names a heading that is not present in the rule's target document, so its references cannot be resolved; the rule is skipped for this file"@,
            "target_section"@,
            sec,
        ),
    }
}

/// What resolving one rule's target leaves: the members (by set) when the
/// rule is enabled, and one finding when it is not.
pub open spec fn resolved(
    r: Option<Vec<String>>,
    before: Seq<Finding>,
    after: Seq<Finding>,
    snap: Map<Seq<char>, Captured>,
    path: Seq<char>,
    rule: MarkerRule,
) -> bool {
    let (m, issue) = rule_target(snap, rule);
    &&& (r is Some) == (m is Some)
    &&& r matches Some(v) ==> views(v@).to_set() == m.unwrap() && views(v@).no_duplicates()
    &&& match issue {
        Some(i) => one_more(before, after) && is_target_finding(after.last(), path, i),
        None => after == before,
    }
}

fn push_target_finding(
    findings: &mut Vec<Finding>,
    path: &str,
    code: &str,
    summary: &str,
    message: &str,
    label: &str,
    quoted: &str,
)
    ensures
        one_more(old(findings)@, final(findings)@),
        is_marker_finding(final(findings)@.last(), path@, Seq::empty(), 0, code@, summary@, message@, label@, quoted@),
{
    proof {
        reveal_strlit("");
        crate::link::lemma_boundary_of_prefix(""@, 0);
        assert(""@.take(0) =~= Seq::<char>::empty());
    }
    let f = marker_finding(path, "", 0, code, summary, message, label, quoted);
    findings.push(f);
    proof {
        assert(findings@.take(old(findings)@.len() as int) =~= old(findings)@);
    }
}

/// A rule's target document from the captured snapshot, scoped to its
/// `target_section` if named, as the normalized member names for the rule's
/// element class. `None` disables the rule for this file (a finding was
/// emitted): the target failed confinement, is symlinked, was never
/// captured, or its `target_section` heading is absent. A target that is
/// captured but unreadable yields no members, so its references surface.
pub fn resolve_members(
    snapshot: &Snapshot,
    path: &str,
    rule: &MarkerRule,
    findings: &mut Vec<Finding>,
) -> (r: Option<Vec<String>>)
    requires
        snapshot.wf(),
    ensures
        resolved(r, old(findings)@, final(findings)@, snapshot@, path@, *rule),
{
    let confined = match confine_lexically(rule.target_doc.as_str()) {
        Ok(c) => c,
        Err(v) => {
            let (code, summary) = match v {
                LexicalViolation::Absolute => ("MDATRON-E0010", "absolute-path-refused"),
                LexicalViolation::ParentSegment => ("MDATRON-E0011", "parent-segment-refused"),
            };
            push_target_finding(
                findings,
                path,
                code,
                summary,
                "a marker rule's target_doc escapes the governed tree",
                "target_doc",
                rule.target_doc.as_str(),
            );
            return None;
        },
    };
    match snapshot.get(confined.as_path()) {
        Some(Captured::Content(c)) => match c.text() {
            Some(text) => {
                let doc_body = match crate::frontmatter::parse(text) {
                    Ok(Some((_, b))) => b,
                    _ => text,
                };
                let section: Option<&str> = match &rule.target_section {
                    Some(t) => Some(t.as_str()),
                    None => None,
                };
                match extract_members(doc_body, rule.element, section) {
                    Some(ms) => Some(ms),
                    None => {
                        let shown: &str = match &rule.target_section {
                            Some(t) => t.as_str(),
                            None => "",
                        };
                        proof {
                            reveal_strlit("");
                            assert(""@ =~= Seq::<char>::empty());
                            assert(shown@ == match rule.target_section {
                                Some(x) => x@,
                                None => Seq::<char>::empty(),
                            });
                        }
                        push_target_finding(
                            findings,
                            path,
                            "MDATRON-E0114",
                            "marker-target-section-not-found",
                            "a marker rule's target_section names a heading that is not present in the rule's target document, so its references cannot be resolved; the rule is skipped for this file",
                            "target_section",
                            shown,
                        );
                        None
                    },
                }
            },
            None => {
                proof {
                    assert(views(Seq::<String>::empty()).to_set() =~= Set::<Seq<char>>::empty());
                }
                Some(Vec::new())
            },
        },
        Some(Captured::SymlinkRefused { .. }) => {
            push_target_finding(
                findings,
                path,
                "MDATRON-E0012",
                "symlinked-component-refused",
                "a marker rule's target_doc resolves through a symbolic link; no-follow resolution refuses it",
                "target_doc",
                rule.target_doc.as_str(),
            );
            None
        },
        Some(_) => {
            proof {
                assert(views(Seq::<String>::empty()).to_set() =~= Set::<Seq<char>>::empty());
            }
            Some(Vec::new())
        },
        None => {
            push_target_finding(
                findings,
                path,
                "MDATRON-E0080",
                "pipeline-orchestration-failure",
                "this rule's target_doc was never captured into the run snapshot \u{2014} an engine defect in target discovery, not a defect in this document; please report it upstream",
                "target_doc",
                rule.target_doc.as_str(),
            );
            None
        },
    }
}

// ── The marker-line check ───────────────────────────────────────────────────

/// The member set of each rule against the snapshot (`None`: disabled).
pub open spec fn rule_sets(snap: Map<Seq<char>, Captured>, rules: Seq<&MarkerRule>) -> Seq<Option<Set<Seq<char>>>> {
    Seq::new(rules.len(), |k: int| rule_target(snap, *rules[k]).0)
}

/// The disabled-rule issues, in rule order.
pub open spec fn target_issues(snap: Map<Seq<char>, Captured>, rules: Seq<&MarkerRule>) -> Seq<TargetIssue>
    decreases rules.len(),
{
    if rules.len() == 0 {
        Seq::empty()
    } else {
        target_issues(snap, rules.drop_last()) + match rule_target(snap, *rules.last()).1 {
            Some(i) => seq![i],
            None => Seq::empty(),
        }
    }
}

/// The dead reference one rule finds on a line at byte `at`: `(at, true,
/// pattern)` when the pattern matched but captured no name, `(at, false,
/// name)` when the captured name is not a member.
pub open spec fn rule_line_issue(line: Seq<char>, rule: MarkerRule, set: Option<Set<Seq<char>>>, at: int) -> Seq<
    (int, bool, Seq<char>),
> {
    match set {
        None => Seq::empty(),
        Some(ms) => match regex_group1(rule.pattern.source(), line) {
            None => Seq::empty(),
            Some(None) => seq![(at, true, rule.pattern.source())],
            Some(Some(n)) => if ms.contains(normalized(n)) {
                Seq::empty()
            } else {
                seq![(at, false, n)]
            },
        },
    }
}

/// The dead references of one line, in rule order.
pub open spec fn line_issues(
    line: Seq<char>,
    rules: Seq<&MarkerRule>,
    sets: Seq<Option<Set<Seq<char>>>>,
    at: int,
) -> Seq<(int, bool, Seq<char>)>
    decreases rules.len(),
{
    if rules.len() == 0 {
        Seq::empty()
    } else {
        line_issues(line, rules.drop_last(), sets, at) + rule_line_issue(
            line,
            *rules.last(),
            sets[rules.len() - 1],
            at,
        )
    }
}

/// The dead references of a body's live lines (`body_at`: the body's byte
/// offset in the file), in line order.
pub open spec fn body_issues(
    lines: Seq<(nat, Seq<char>)>,
    rules: Seq<&MarkerRule>,
    sets: Seq<Option<Set<Seq<char>>>>,
    body_at: int,
) -> Seq<(int, bool, Seq<char>)>
    decreases lines.len(),
{
    if lines.len() == 0 {
        Seq::empty()
    } else {
        body_issues(lines.drop_last(), rules, sets, body_at) + line_issues(
            lines.last().1,
            rules,
            sets,
            body_at + lines.last().0,
        )
    }
}

/// The dead-marker-reference finding for one item.
pub open spec fn is_dead_reference(f: Finding, path: Seq<char>, content: Seq<char>, item: (int, bool, Seq<char>)) -> bool {
    is_marker_finding(
        f,
        path,
        content,
        item.0,
        "MDATRON-E0112"@,
        "dead-marker-reference"@,
        if item.1 {
            "the marker pattern matched this line but its capture group captured no name, so the reference cannot be resolved; check the pattern for an optional capture group"@
        } else {
            "this marker line names a reference that resolves to no element in the rule's target document (name-equality, a trailing `.` on the target tolerated)"@
        },
        if item.1 {
            "pattern"@
        } else {
            "marker"@
        },
        item.2,
    )
}

/// `after` is `before` with one dead-reference finding per item appended.
pub open spec fn dead_appended(
    before: Seq<Finding>,
    after: Seq<Finding>,
    items: Seq<(int, bool, Seq<char>)>,
    path: Seq<char>,
    content: Seq<char>,
) -> bool {
    &&& after.len() == before.len() + items.len()
    &&& after.take(before.len() as int) == before
    &&& forall|k: int| 0 <= k < items.len() ==> is_dead_reference(#[trigger] after[before.len() + k], path, content, items[k])
}

proof fn lemma_dead_trans(
    a: Seq<Finding>,
    b: Seq<Finding>,
    c: Seq<Finding>,
    x: Seq<(int, bool, Seq<char>)>,
    y: Seq<(int, bool, Seq<char>)>,
    path: Seq<char>,
    content: Seq<char>,
)
    requires
        dead_appended(a, b, x, path, content),
        dead_appended(b, c, y, path, content),
    ensures
        dead_appended(a, c, x + y, path, content),
{
    assert(c.take(a.len() as int) =~= a) by {
        assert forall|i: int| 0 <= i < a.len() implies c.take(a.len() as int)[i] == a[i] by {
            assert(c[i] == c.take(b.len() as int)[i]);
            assert(b[i] == b.take(a.len() as int)[i]);
        }
    }
    assert forall|k: int| 0 <= k < (x + y).len() implies is_dead_reference(#[trigger] c[a.len() + k], path, content, (x + y)[k]) by {
        if k < x.len() {
            assert(c[a.len() + k] == c.take(b.len() as int)[a.len() + k]);
            assert(b[a.len() + k] == c[a.len() + k]);
        } else {
            assert(c[a.len() + k] == c[b.len() + (k - x.len())]);
        }
    }
}

fn has_member(members: &Vec<String>, name: &String) -> (b: bool)
    ensures
        b == views(members@).to_set().contains(name@),
{
    let mut k: usize = 0;
    while k < members.len()
        invariant
            k <= members@.len(),
            forall|j: int| 0 <= j < k ==> members@[j]@ != name@,
        decreases members.len() - k,
    {
        if members[k] == *name {
            proof {
                assert(views(members@)[k as int] == name@);
            }
            return true;
        }
        k = k + 1;
    }
    proof {
        if views(members@).contains(name@) {
            let j = choose|j: int| 0 <= j < views(members@).len() && views(members@)[j] == name@;
            assert(members@[j]@ == name@);
        }
    }
    false
}

/// Whether `sets` holds, for each rule, its member set as resolved.
pub open spec fn sets_match(sets: Seq<Option<Vec<String>>>, want: Seq<Option<Set<Seq<char>>>>) -> bool {
    &&& sets.len() == want.len()
    &&& forall|k: int| 0 <= k < sets.len() ==> ((#[trigger] sets[k]) is Some) == (want[k] is Some) && (sets[k] matches Some(v)
        ==> views(v@).to_set() == want[k].unwrap())
}

fn push_line_issues(
    findings: &mut Vec<Finding>,
    rules: &[&MarkerRule],
    sets: &Vec<Option<Vec<String>>>,
    want: Ghost<Seq<Option<Set<Seq<char>>>>>,
    path: &str,
    content: &str,
    at: usize,
    line: &str,
)
    requires
        line_placed(content@, at as int, line@),
        lf_count(content@) < u32::MAX,
        sets_match(sets@, want@),
        sets@.len() == rules@.len(),
    ensures
        dead_appended(old(findings)@, final(findings)@, line_issues(line@, rules@, want@, at as int), path@, content@),
{
    let ghost base = findings@;
    proof {
        let c = choose|c: int|
            0 <= c && c + line@.len() <= content@.len() && byte_len(#[trigger] content@.take(c)) == at
                && content@.subrange(c, c + line@.len()) == line@;
        crate::link::lemma_boundary_of_prefix(content@, c);
        assert(findings@.take(base.len() as int) =~= base);
        assert(rules@.take(0) =~= Seq::<&MarkerRule>::empty());
    }
    let mut k: usize = 0;
    while k < rules.len()
        invariant
            k <= rules@.len(),
            sets@.len() == rules@.len(),
            sets_match(sets@, want@),
            on_boundary(content@, at as int),
            lf_count(content@) < u32::MAX,
            dead_appended(base, findings@, line_issues(line@, rules@.take(k as int), want@, at as int), path@, content@),
        decreases rules.len() - k,
    {
        let rule = rules[k];
        proof {
            assert(rules@.take(k + 1).drop_last() =~= rules@.take(k as int));
            assert(rules@.take(k + 1).last() == rules@[k as int]);
            assert(rules@.take(k + 1).len() - 1 == k);
            assert(sets@[k as int] is Some == want@[k as int] is Some);
        }
        let ghost prev = findings@;
        let ghost done = line_issues(line@, rules@.take(k as int), want@, at as int);
        let ghost part = rule_line_issue(line@, *rule, want@[k as int], at as int);
        match &sets[k] {
            None => {
                proof {
                    assert(part =~= Seq::<(int, bool, Seq<char>)>::empty());
                    assert(done + part =~= done);
                }
            },
            Some(ms) => {
                match rule.pattern.group1(line) {
                    None => {
                        proof {
                            assert(part =~= Seq::<(int, bool, Seq<char>)>::empty());
                            assert(done + part =~= done);
                        }
                    },
                    Some(None) => {
                        let f = marker_finding(
                            path,
                            content,
                            at,
                            "MDATRON-E0112",
                            "dead-marker-reference",
                            "the marker pattern matched this line but its capture group captured no name, so the reference cannot be resolved; check the pattern for an optional capture group",
                            "pattern",
                            rule.pattern.as_str(),
                        );
                        findings.push(f);
                        proof {
                            assert(part == seq![(at as int, true, rule.pattern.source())]);
                            assert(dead_appended(prev, findings@, part, path@, content@)) by {
                                assert(findings@.take(prev.len() as int) =~= prev);
                                assert(findings@[prev.len() as int] == f);
                            }
                            lemma_dead_trans(base, prev, findings@, done, part, path@, content@);
                        }
                    },
                    Some(Some(name)) => {
                        let n = normalize_name(name);
                        if !has_member(ms, &n) {
                            let f = marker_finding(
                                path,
                                content,
                                at,
                                "MDATRON-E0112",
                                "dead-marker-reference",
                                "this marker line names a reference that resolves to no element in the rule's target document (name-equality, a trailing `.` on the target tolerated)",
                                "marker",
                                name,
                            );
                            findings.push(f);
                            proof {
                                assert(part == seq![(at as int, false, name@)]);
                                assert(dead_appended(prev, findings@, part, path@, content@)) by {
                                    assert(findings@.take(prev.len() as int) =~= prev);
                                    assert(findings@[prev.len() as int] == f);
                                }
                                lemma_dead_trans(base, prev, findings@, done, part, path@, content@);
                            }
                        } else {
                            proof {
                                assert(part =~= Seq::<(int, bool, Seq<char>)>::empty());
                                assert(done + part =~= done);
                            }
                        }
                    },
                }
            },
        }
        k = k + 1;
    }
    proof {
        assert(rules@.take(rules@.len() as int) =~= rules@);
    }
}

/// What the marker check reports for one file: first one finding per
/// disabled rule, in rule order; then, line by line and within a line rule
/// by rule, one finding per dead reference.
pub open spec fn marker_check(
    before: Seq<Finding>,
    after: Seq<Finding>,
    snap: Map<Seq<char>, Captured>,
    rules: Seq<&MarkerRule>,
    path: Seq<char>,
    content: Seq<char>,
    body_offset: int,
) -> bool {
    let ti = target_issues(snap, rules);
    let mid = before.len() + ti.len();
    &&& after.len() >= mid
    &&& after.take(before.len() as int) == before
    &&& forall|k: int| 0 <= k < ti.len() ==> is_target_finding(#[trigger] after[before.len() + k], path, ti[k])
    &&& dead_appended(
        after.take(mid as int),
        after,
        body_issues(live_lines(text_after(content, body_offset)), rules, rule_sets(snap, rules), body_offset),
        path,
        content,
    )
}

/// Scan one opted-in file's body for marker-line references and resolve
/// each against its rule's target document. `content` is the whole file;
/// `body_offset` is where the prose body begins; `rules` are the marker
/// rules active for this file.
pub fn check_file(
    snapshot: &Snapshot,
    path: &str,
    content: &str,
    body_offset: usize,
    rules: &[&MarkerRule],
    findings: &mut Vec<Finding>,
)
    requires
        snapshot.wf(),
        on_boundary(content@, body_offset as int),
        lf_count(content@) < u32::MAX,
    ensures
        marker_check(old(findings)@, final(findings)@, snapshot@, rules@, path@, content@, body_offset as int),
{
    let ghost base = findings@;
    let ghost want = rule_sets(snapshot@, rules@);
    let mut sets: Vec<Option<Vec<String>>> = Vec::new();
    let mut k: usize = 0;
    proof {
        assert(findings@.take(base.len() as int) =~= base);
        assert(rules@.take(0) =~= Seq::<&MarkerRule>::empty());
    }
    while k < rules.len()
        invariant
            k <= rules@.len(),
            snapshot.wf(),
            want == rule_sets(snapshot@, rules@),
            sets@.len() == k,
            forall|j: int| 0 <= j < k ==> ((#[trigger] sets@[j]) is Some) == (want[j] is Some) && (sets@[j] matches Some(v)
                ==> views(v@).to_set() == want[j].unwrap()),
            findings@.len() == base.len() + target_issues(snapshot@, rules@.take(k as int)).len(),
            findings@.take(base.len() as int) == base,
            forall|j: int| 0 <= j < target_issues(snapshot@, rules@.take(k as int)).len() ==> is_target_finding(
                #[trigger] findings@[base.len() + j],
                path@,
                target_issues(snapshot@, rules@.take(k as int))[j],
            ),
        decreases rules.len() - k,
    {
        let ghost prev = findings@;
        let ghost ti = target_issues(snapshot@, rules@.take(k as int));
        proof {
            assert(rules@.take(k + 1).drop_last() =~= rules@.take(k as int));
            assert(rules@.take(k + 1).last() == rules@[k as int]);
        }
        let r = resolve_members(snapshot, path, rules[k], findings);
        sets.push(r);
        proof {
            let ti2 = target_issues(snapshot@, rules@.take(k + 1));
            assert(findings@.take(base.len() as int) =~= base) by {
                assert forall|i: int| 0 <= i < base.len() implies findings@.take(base.len() as int)[i] == base[i] by {
                    if findings@.len() > prev.len() {
                        assert(findings@[i] == findings@.take(prev.len() as int)[i]);
                    }
                    assert(prev[i] == prev.take(base.len() as int)[i]);
                }
            }
            assert forall|j: int| 0 <= j < ti2.len() implies is_target_finding(#[trigger] findings@[base.len() + j], path@, ti2[j]) by {
                if j < ti.len() {
                    assert(ti2[j] == ti[j]);
                    if findings@.len() > prev.len() {
                        assert(findings@[base.len() + j] == findings@.take(prev.len() as int)[base.len() + j]);
                    }
                } else {
                    assert(base.len() + j == prev.len());
                }
            }
        }
        k = k + 1;
    }
    proof {
        assert(rules@.take(rules@.len() as int) =~= rules@);
    }
    let ghost mid = findings@;
    let ghost body_s = text_after(content@, body_offset as int);
    let cv = chars_of(content);
    let total = crate::text::utf8_len(content);
    let kb = crate::text::fit_chars(&cv, body_offset);
    proof {
        crate::text::lemma_fit(cv@, body_offset as int);
        assert(cv@.subrange(kb as int, cv@.len() as int) =~= body_s);
    }
    let body = content.substring_char(kb, cv.len());
    let lines = non_fenced_lines(body);
    let ghost ls = live_lines(body_s);
    proof {
        crate::markup::lemma_live_lines_placed(body_s);
        crate::text::lemma_byte_len_take_mono(content@, kb as int, content@.len() as int);
        assert(content@.take(content@.len() as int) =~= content@);
        if body_offset < byte_len(content@) {
            assert(byte_len(content@.take(kb as int)) == body_offset);
        }
        assert(ls.take(0) =~= Seq::<(nat, Seq<char>)>::empty());
        assert(findings@.take(mid.len() as int) =~= mid);
        assert forall|j: int| 0 <= j < sets@.len() implies ((#[trigger] sets@[j]) is Some) == (want[j] is Some) && (sets@[j] matches Some(v)
            ==> views(v@).to_set() == want[j].unwrap()) by {}
    }
    let mut i: usize = 0;
    while i < lines.len()
        invariant
            i <= lines@.len(),
            lines@.map_values(|p: (usize, &str)| (p.0 as nat, p.1@)) == ls,
            ls == live_lines(body_s),
            body_s == content@.skip(kb as int),
            kb <= content@.len(),
            total == byte_len(content@),
            body_offset >= byte_len(content@) ==> body_s.len() == 0,
            body_offset < byte_len(content@) ==> byte_len(content@.take(kb as int)) == body_offset,
            forall|j: int| 0 <= j < ls.len() ==> crate::markup::placed(body_s, #[trigger] ls[j]),
            lf_count(content@) < u32::MAX,
            sets_match(sets@, want),
            sets@.len() == rules@.len(),
            dead_appended(mid, findings@, body_issues(ls.take(i as int), rules@, want, body_offset as int), path@, content@),
        decreases lines.len() - i,
    {
        let (off, line) = lines[i];
        proof {
            assert(ls[i as int] == (off as nat, line@));
            assert(ls.take(i + 1).drop_last() =~= ls.take(i as int));
            assert(ls.take(i + 1).last() == ls[i as int]);
            assert(crate::markup::placed(body_s, ls[i as int]));
            let c = choose|c: int|
                0 <= c && c + line@.len() <= body_s.len() && byte_len(#[trigger] body_s.take(c)) == off
                    && body_s.subrange(c, c + line@.len()) == line@;
            assert(content@.take(kb + c) =~= content@.take(kb as int) + body_s.take(c));
            crate::text::lemma_byte_len_concat(content@.take(kb as int), body_s.take(c));
            assert(content@.subrange(kb + c, kb + c + line@.len()) =~= line@);
            if body_offset >= byte_len(content@) {
                assert(c == 0);
                assert(body_s.take(0) =~= Seq::<char>::empty());
                assert(off == 0);
            }
            crate::text::lemma_byte_len_take_mono(content@, kb + c, content@.len() as int);
            assert(content@.take(content@.len() as int) =~= content@);
            assert(line_placed(content@, byte_len(content@.take(kb + c)) as int, line@));
            if body_offset < byte_len(content@) {
                assert(byte_len(content@.take(kb + c)) == body_offset + off);
                assert(body_offset + off <= total);
            }
        }
        let at_opt = if body_offset < total {
            Some(body_offset + off)
        } else {
            None
        };
        let at = match at_opt {
            Some(a) => a,
            None => body_offset,
        };
        let ghost prev = findings@;
        let ghost done = body_issues(ls.take(i as int), rules@, want, body_offset as int);
        push_line_issues(findings, rules, &sets, Ghost(want), path, content, at, line);
        proof {
            lemma_dead_trans(mid, prev, findings@, done, line_issues(line@, rules@, want, at as int), path@, content@);
        }
        i = i + 1;
    }
    proof {
        assert(ls.take(ls.len() as int) =~= ls);
        let ti = target_issues(snapshot@, rules@);
        assert(findings@.take(base.len() as int) =~= base) by {
            assert forall|j: int| 0 <= j < base.len() implies findings@.take(base.len() as int)[j] == base[j] by {
                assert(findings@[j] == findings@.take(mid.len() as int)[j]);
                assert(mid[j] == mid.take(base.len() as int)[j]);
            }
        }
        assert(findings@.take(mid.len() as int) == mid);
        assert forall|j: int| 0 <= j < ti.len() implies is_target_finding(#[trigger] findings@[base.len() + j], path@, ti[j]) by {
            assert(findings@[base.len() + j] == findings@.take(mid.len() as int)[base.len() + j]);
        }
    }
}

} // verus!
