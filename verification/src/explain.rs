//! The `mdatron explain CODE` catalog: the baseline code set, the structured
//! form of an explain page (its `**Severity:**`, `**Status:**` and
//! `**Introduced in:**` fields and its `## What this means` / `## How to fix`
//! sections), the compact one-line form, and the migration notes.
use vstd::prelude::*;

use crate::text::{
    chars_of, find_from, first_occurrence, lines_of, occurs_at, owned, push_str, string_from,
    string_of, text_lines, trim, trim_bounds, views,
};

verus! {

/// Structured shape of an explain page: the fields an agent consumer reads,
/// and the raw markdown.
#[derive(Debug, Clone, PartialEq, Eq)]
pub struct ExplainPage {
    pub code: String,
    pub severity: String,
    pub status: String,
    pub introduced_in: String,
    pub what_this_means: String,
    pub how_to_fix: String,
    /// Raw markdown body.
    pub markdown: String,
}

/// Whether a code is in mdatron's `MDATRON-` namespace (whether or not it is
/// in the explain catalog yet).
pub open spec fn in_namespace(code: Seq<char>) -> bool {
    code.len() >= 8 && code.take(8) == "MDATRON-"@
}

/// Returns true when the code is in mdatron's `MDATRON-` namespace.
pub fn is_mdatron_namespace(code: &str) -> (b: bool)
    ensures
        b == in_namespace(code@),
{
    let v = chars_of(code);
    let p = chars_of("MDATRON-");
    let r = crate::text::matches_at(&v, 0, &p);
    proof {
        reveal_strlit("MDATRON-");
        assert(p@.len() == 8);
        if v@.len() >= 8 {
            assert(v@.subrange(0, 8) =~= v@.take(8));
        }
    }
    r
}

/// The migration note of a code whose meaning shifted, if it has one.
pub open spec fn migration_text(code: Seq<char>) -> Option<Seq<char>> {
    if code == "MDATRON-E0001"@ {
        Some(
            "Pre-Phase-1 bootstrap snapshots emitted this code for frontmatter-schema-violation; from Phase 1 onward, E0001 is exclusively frontmatter-parse-failed and schema-violation moved to MDATRON-E0050. If you saw E0001 in pre-Phase-1 output and the message body said 'schema-violation', see `mdatron explain MDATRON-E0050`."@,
        )
    } else {
        None
    }
}

/// Look up the migration note for a code, if one exists.
pub fn migration_note(code: &str) -> (r: Option<&'static str>)
    ensures
        match r {
            Some(n) => migration_text(code@) == Some(n@),
            None => migration_text(code@) is None,
        },
{
    let c = owned(code);
    let known = owned("MDATRON-E0001");
    if c == known {
        Some(
            "Pre-Phase-1 bootstrap snapshots emitted this code for frontmatter-schema-violation; from Phase 1 onward, E0001 is exclusively frontmatter-parse-failed and schema-violation moved to MDATRON-E0050. If you saw E0001 in pre-Phase-1 output and the message body said 'schema-violation', see `mdatron explain MDATRON-E0050`.",
        )
    } else {
        None
    }
}

/// The first of `lines` at or after `i` that contains `marker`.
pub open spec fn first_line_with(lines: Seq<Seq<char>>, marker: Seq<char>, i: int) -> Option<int>
    decreases lines.len() - i,
{
    if i < 0 || i >= lines.len() {
        None
    } else if first_occurrence(lines[i], 0, marker) is Some {
        Some(i)
    } else {
        first_line_with(lines, marker, i + 1)
    }
}

/// The value of a `**<field>:** <value>` line: the first line holding the
/// marker, trimmed after its first occurrence.
pub open spec fn field_value(markdown: Seq<char>, field: Seq<char>) -> Option<Seq<char>> {
    let marker = "**"@ + field + ":**"@;
    let ls = lines_of(markdown);
    match first_line_with(ls, marker, 0) {
        Some(i) => Some(
            trim(ls[i].skip(first_occurrence(ls[i], 0, marker)->0 + marker.len())),
        ),
        None => None,
    }
}

proof fn lemma_first_occurrence_bounds(v: Seq<char>, from: int, p: Seq<char>)
    ensures
        first_occurrence(v, from, p) matches Some(i) ==> from <= i && i + p.len() <= v.len(),
    decreases v.len() + 1 - from,
{
    if !(from < 0 || from + p.len() > v.len()) && !occurs_at(v, from, p) {
        lemma_first_occurrence_bounds(v, from + 1, p);
    }
}

/// Extract the value of a `**<field>:** <value>` line, trimmed; `None` if
/// the field marker is not present.
pub fn extract_field(markdown: &str, field: &str) -> (r: Option<String>)
    ensures
        match r {
            Some(v) => field_value(markdown@, field@) == Some(v@),
            None => field_value(markdown@, field@) is None,
        },
{
    let mut marker = owned("**");
    push_str(&mut marker, field);
    push_str(&mut marker, ":**");
    let mv = chars_of(marker.as_str());
    let ls = text_lines(markdown);
    let ghost lv = views(ls@);
    let mut i: usize = 0;
    while i < ls.len()
        invariant
            lv == views(ls@),
            lv == lines_of(markdown@),
            mv@ == "**"@ + field@ + ":**"@,
            i <= lv.len(),
            first_line_with(lv, mv@, 0) == first_line_with(lv, mv@, i as int),
        decreases ls.len() - i,
    {
        let line = chars_of(ls[i].as_str());
        let line_len = line.len();
        proof {
            assert(lv[i as int] == ls@[i as int]@);
        }
        match find_from(&line, 0, &mv) {
            Some(at) => {
                proof {
                    lemma_first_occurrence_bounds(line@, 0, mv@);
                    assert(first_occurrence(line@, 0, mv@) == Some(at as int));
                    assert(at + mv@.len() <= line@.len());
                }
                let (a, b) = trim_bounds(&line, at + mv.len(), line_len);
                proof {
                    assert(line@.subrange(at + mv@.len(), line@.len() as int) =~= line@.skip(
                        at + mv@.len(),
                    ));
                }
                return Some(string_from(&line, a, b));
            },
            None => {},
        }
        i = i + 1;
    }
    None
}

/// The prose under a `## <heading>` section: from the line after the first
/// occurrence of the marker up to the next `\n## ` (else `\n# `, else the
/// end), trimmed.
pub open spec fn section_body(markdown: Seq<char>, heading: Seq<char>) -> Option<Seq<char>> {
    let marker = "## "@ + heading;
    match first_occurrence(markdown, 0, marker) {
        None => None,
        Some(start) => match first_occurrence(markdown, start + marker.len(), seq!['\n']) {
            None => None,
            Some(nl) => {
                let rest = markdown.skip(nl + 1);
                let end = match first_occurrence(rest, 0, "\n## "@) {
                    Some(e) => e,
                    None => match first_occurrence(rest, 0, "\n# "@) {
                        Some(e) => e,
                        None => rest.len() as int,
                    },
                };
                Some(trim(rest.take(end)))
            },
        },
    }
}

proof fn lemma_first_occurrence_shift(v: Seq<char>, from: int, p: Seq<char>, k: int)
    requires
        0 <= k <= from,
        k <= v.len(),
    ensures
        first_occurrence(v, from, p) == match first_occurrence(v.skip(k), from - k, p) {
            Some(i) => Some(i + k),
            None => None::<int>,
        },
    decreases v.len() + 1 - from,
{
    let w = v.skip(k);
    if from < 0 || from + p.len() > v.len() {
    } else {
        assert(occurs_at(v, from, p) == occurs_at(w, from - k, p)) by {
            if from + p.len() <= v.len() {
                assert(v.subrange(from, from + p.len()) =~= w.subrange(from - k, from - k + p.len()));
            }
        }
        if !occurs_at(v, from, p) {
            lemma_first_occurrence_shift(v, from + 1, p, k);
        }
    }
}

/// Extract the prose body under a `## <heading>` H2 section: trimmed, up to
/// the next H2 or H1 or the end of the page.
pub fn extract_section(markdown: &str, heading: &str) -> (r: Option<String>)
    ensures
        match r {
            Some(v) => section_body(markdown@, heading@) == Some(v@),
            None => section_body(markdown@, heading@) is None,
        },
{
    let mut marker = owned("## ");
    push_str(&mut marker, heading);
    let mv = chars_of(marker.as_str());
    let v = chars_of(markdown);
    let v_len = v.len();
    let start = match find_from(&v, 0, &mv) {
        Some(s) => s,
        None => return None,
    };
    proof {
        lemma_first_occurrence_bounds(v@, 0, mv@);
        assert(start + mv@.len() <= v_len);
    }
    let nl: Vec<char> = vec!['\n'];
    assert(nl@ =~= seq!['\n']);
    let nl_at = match find_from(&v, start + mv.len(), &nl) {
        Some(n) => n,
        None => return None,
    };
    proof {
        lemma_first_occurrence_bounds(v@, start + mv@.len(), nl@);
        assert(nl@ =~= seq!['\n']);
    }
    let body_start = nl_at + 1;
    let rest = string_from(&v, body_start, v.len());
    let rv = chars_of(rest.as_str());
    proof {
        assert(rv@ =~= v@.skip(body_start as int));
        reveal_strlit("\n## ");
        reveal_strlit("\n# ");
    }
    let h2 = chars_of("\n## ");
    let h1 = chars_of("\n# ");
    let end = match find_from(&rv, 0, &h2) {
        Some(e) => e,
        None => match find_from(&rv, 0, &h1) {
            Some(e) => e,
            None => rv.len(),
        },
    };
    proof {
        lemma_first_occurrence_bounds(rv@, 0, h2@);
        lemma_first_occurrence_bounds(rv@, 0, h1@);
    }
    let (a, b) = trim_bounds(&rv, 0, end);
    proof {
        assert(rv@.subrange(0, end as int) =~= rv@.take(end as int));
    }
    Some(string_from(&rv, a, b))
}

/// The structured page of `code` from its markdown: each required field and
/// section, or `None` when any is missing.
pub open spec fn page_fields(markdown: Seq<char>) -> Option<(Seq<char>, Seq<char>, Seq<char>, Seq<char>, Seq<char>)> {
    match (
        field_value(markdown, "Severity"@),
        field_value(markdown, "Status"@),
        field_value(markdown, "Introduced in"@),
        section_body(markdown, "What this means"@),
        section_body(markdown, "How to fix"@),
    ) {
        (Some(a), Some(b), Some(c), Some(d), Some(e)) => Some((a, b, c, d, e)),
        _ => None,
    }
}

/// Parse an explain page into its structured form: `None` if any required
/// structural element is missing.
pub fn structured_page(code: &str, markdown: &str) -> (r: Option<ExplainPage>)
    ensures
        match r {
            Some(p) => page_fields(markdown@) == Some(
                (p.severity@, p.status@, p.introduced_in@, p.what_this_means@, p.how_to_fix@),
            ) && p.code@ == code@ && p.markdown@ == markdown@,
            None => page_fields(markdown@) is None,
        },
{
    let severity = match extract_field(markdown, "Severity") {
        Some(s) => s,
        None => return None,
    };
    let status = match extract_field(markdown, "Status") {
        Some(s) => s,
        None => return None,
    };
    let introduced_in = match extract_field(markdown, "Introduced in") {
        Some(s) => s,
        None => return None,
    };
    let what_this_means = match extract_section(markdown, "What this means") {
        Some(s) => s,
        None => return None,
    };
    let how_to_fix = match extract_section(markdown, "How to fix") {
        Some(s) => s,
        None => return None,
    };
    Some(
        ExplainPage {
            code: owned(code),
            severity,
            status,
            introduced_in,
            what_this_means,
            how_to_fix,
            markdown: owned(markdown),
        },
    )
}

// ── The compact one-line form ─────────────────────────────────────────────

/// The summary an explain page's H1 title carries: the first line, when it
/// is a `# ` heading, trimmed after its first em-dash (else its first `-`).
pub open spec fn title_summary(markdown: Seq<char>) -> Option<Seq<char>> {
    if lines_of(markdown).len() == 0 {
        None
    } else {
        let l = lines_of(markdown)[0];
        if l.len() >= 2 && l[0] == '#' && l[1] == ' ' {
            match first_occurrence(l, 2, seq!['\u{2014}']) {
                Some(j) => Some(trim(l.skip(j + 1))),
                None => match first_occurrence(l, 2, seq!['-']) {
                    Some(j) => Some(trim(l.skip(j + 1))),
                    None => None,
                },
            }
        } else {
            None
        }
    }
}

/// Where the first sentence of `h` from `i` ends: the first `.` or line feed,
/// else the end.
pub open spec fn sentence_end(h: Seq<char>, i: int) -> int
    decreases h.len() - i,
{
    if i < 0 || i >= h.len() {
        h.len() as int
    } else if h[i] == '.' || h[i] == '\n' {
        i
    } else {
        sentence_end(h, i + 1)
    }
}

/// The compact one-liner of a page:
/// `<code> <severity>: <summary> — <first sentence of how-to-fix>`, the
/// summary falling back to the code when the title carries none.
pub open spec fn compact_line(p: ExplainPage) -> Seq<char> {
    let summary = match title_summary(p.markdown@) {
        Some(s) => s,
        None => p.code@,
    };
    p.code@ + " "@ + p.severity@ + ": "@ + summary + " \u{2014} "@ + trim(
        p.how_to_fix@.take(sentence_end(p.how_to_fix@, 0)),
    )
}

proof fn lemma_sentence_end_bounds(h: Seq<char>, i: int)
    requires
        0 <= i <= h.len(),
    ensures
        i <= sentence_end(h, i) <= h.len(),
    decreases h.len() - i,
{
    if i < h.len() && !(h[i] == '.' || h[i] == '\n') {
        lemma_sentence_end_bounds(h, i + 1);
    }
}

fn title_summary_of(markdown: &str) -> (r: Option<String>)
    ensures
        match r {
            Some(s) => title_summary(markdown@) == Some(s@),
            None => title_summary(markdown@) is None,
        },
{
    let lines = text_lines(markdown);
    if lines.len() == 0 {
        return None;
    }
    let v = chars_of(lines[0].as_str());
    proof {
        assert(v@ == lines_of(markdown@)[0]);
    }
    if !(v.len() >= 2 && v[0] == '#' && v[1] == ' ') {
        return None;
    }
    let em: Vec<char> = vec!['\u{2014}'];
    let dash: Vec<char> = vec!['-'];
    proof {
        assert(em@ =~= seq!['\u{2014}']);
        assert(dash@ =~= seq!['-']);
    }
    let j = match find_from(&v, 2, &em) {
        Some(j) => j,
        None => match find_from(&v, 2, &dash) {
            Some(j) => j,
            None => return None,
        },
    };
    proof {
        if first_occurrence(v@, 2, em@) is Some {
            lemma_first_occurrence_bounds(v@, 2, em@);
        } else {
            lemma_first_occurrence_bounds(v@, 2, dash@);
        }
    }
    let (a, b) = trim_bounds(&v, j + 1, v.len());
    proof {
        assert(v@.subrange(j + 1, v@.len() as int) =~= v@.skip(j + 1));
    }
    Some(string_from(&v, a, b))
}

/// The compact one-line form of an explain page (see [`compact_line`]), the
/// shape `explain --compact` prints for hook context budgets.
pub fn compact_form(page: &ExplainPage) -> (r: String)
    ensures
        r@ == compact_line(*page),
{
    let summary = match title_summary_of(page.markdown.as_str()) {
        Some(s) => s,
        None => owned(page.code.as_str()),
    };
    let h = chars_of(page.how_to_fix.as_str());
    let mut k: usize = 0;
    while k < h.len() && !(h[k] == '.' || h[k] == '\n')
        invariant
            k <= h@.len(),
            h@ == page.how_to_fix@,
            sentence_end(h@, 0) == sentence_end(h@, k as int),
        decreases h.len() - k,
    {
        k = k + 1;
    }
    let (a, b) = trim_bounds(&h, 0, k);
    proof {
        assert(h@.subrange(0, k as int) =~= h@.take(k as int));
    }
    let mut r = owned(page.code.as_str());
    push_str(&mut r, " ");
    push_str(&mut r, page.severity.as_str());
    push_str(&mut r, ": ");
    push_str(&mut r, summary.as_str());
    push_str(&mut r, " \u{2014} ");
    let first = string_from(&h, a, b);
    push_str(&mut r, first.as_str());
    r
}

} // verus!
