//! Adopter-namespace code-catalog integrity: every adopter code token cited
//! in a governed body must resolve to an entry the adopter declares, when the
//! catalog for its prefix claims sole authority (`comprehensive`). The
//! detector is deliberately broader than any legal grammar, so a mistyped
//! class is still caught as an orphan rather than skipped.
use vstd::prelude::*;
use vstd::string::StrSliceExecFns;

use crate::diagnostic::{Finding, Location, QuotedRegion, Severity};
use crate::link::{lf_count, line_at, on_boundary};
use crate::markup::{live_lines, non_fenced_lines};
use crate::text::{
    byte_len, chars_of, find_from, first_occurrence, fit_count, is_ascii_alnum, is_digit, owned,
    views,
};

verus! {

/// File name of the adopter code-catalog registry under `.mdatron/`.
pub const CATALOGS_NAME: &'static str = "code-catalogs.yaml";

/// A compiled adopter code catalog.
#[derive(Debug, Clone, PartialEq, Eq)]
pub struct CodeCatalog {
    /// The ownership prefix every code in this catalog shares, e.g. `VSDD-`.
    pub namespace: String,
    /// Whether this catalog is the sole authority for its prefix.
    pub comprehensive: bool,
    /// The full declared tokens (namespace and body).
    pub tokens: Vec<String>,
}

/// The loaded catalog registry plus any load-time findings.
#[derive(Debug, Clone, PartialEq, Eq)]
pub struct LoadedCatalogs {
    pub catalogs: Vec<CodeCatalog>,
    pub findings: Vec<Finding>,
}

/// One `catalogs:` entry as written in the registry: the namespace and the
/// code bodies that follow it.
#[derive(Debug, Clone, PartialEq, Eq)]
pub struct RawCatalog {
    pub namespace: String,
    pub comprehensive: bool,
    pub codes: Vec<String>,
}

/// `c` is the compiled form of `raw`: each declared token is the namespace
/// followed by one code body, in order.
pub open spec fn catalog_of(c: CodeCatalog, raw: RawCatalog) -> bool {
    &&& c.namespace@ == raw.namespace@
    &&& c.comprehensive == raw.comprehensive
    &&& c.tokens@.len() == raw.codes@.len()
    &&& forall|k: int| 0 <= k < c.tokens@.len() ==> (#[trigger] c.tokens@[k])@ == raw.namespace@ + raw.codes@[k]@
}

fn compile_catalog(raw: &RawCatalog) -> (c: CodeCatalog)
    ensures
        catalog_of(c, *raw),
{
    let mut tokens: Vec<String> = Vec::new();
    let mut i: usize = 0;
    while i < raw.codes.len()
        invariant
            i <= raw.codes@.len(),
            tokens@.len() == i,
            forall|k: int| 0 <= k < i ==> (#[trigger] tokens@[k])@ == raw.namespace@ + raw.codes@[k]@,
        decreases raw.codes.len() - i,
    {
        let mut t = owned(raw.namespace.as_str());
        crate::text::push_str(&mut t, raw.codes[i].as_str());
        tokens.push(t);
        i = i + 1;
    }
    CodeCatalog { namespace: owned(raw.namespace.as_str()), comprehensive: raw.comprehensive, tokens }
}

/// Compile the registry's entries, in order, into catalogs of full tokens;
/// loading the registry raises no findings of its own.
pub fn compile_catalogs(raw: &[RawCatalog]) -> (r: LoadedCatalogs)
    ensures
        r.catalogs@.len() == raw@.len(),
        forall|k: int| 0 <= k < raw@.len() ==> catalog_of(#[trigger] r.catalogs@[k], raw@[k]),
        r.findings@.len() == 0,
{
    let mut catalogs: Vec<CodeCatalog> = Vec::new();
    let mut i: usize = 0;
    while i < raw.len()
        invariant
            i <= raw@.len(),
            catalogs@.len() == i,
            forall|k: int| 0 <= k < i ==> catalog_of(#[trigger] catalogs@[k], raw@[k]),
        decreases raw.len() - i,
    {
        catalogs.push(compile_catalog(&raw[i]));
        i = i + 1;
    }
    LoadedCatalogs { catalogs, findings: Vec::new() }
}

/// The end of the ASCII-alphanumeric run of `s` starting at `i`.
pub open spec fn alnum_end(s: Seq<char>, i: int) -> int
    decreases s.len() - i,
{
    if i < 0 || i >= s.len() || !is_ascii_alnum(s[i]) {
        i
    } else {
        alnum_end(s, i + 1)
    }
}

pub proof fn lemma_alnum_end(s: Seq<char>, i: int)
    requires
        0 <= i <= s.len(),
    ensures
        i <= alnum_end(s, i) <= s.len(),
    decreases s.len() - i,
{
    if i < s.len() && is_ascii_alnum(s[i]) {
        lemma_alnum_end(s, i + 1);
    }
}

/// Whether a character range holds an ASCII digit.
pub open spec fn has_digit(s: Seq<char>) -> bool {
    exists|k: int| 0 <= k < s.len() && is_digit(#[trigger] s[k])
}

/// The candidate tokens of `line` for `ns` found from position `from`, as
/// character ranges: each occurrence of the prefix on a word boundary
/// followed by an ASCII-alphanumeric run that holds a digit; the scan resumes
/// after the run.
pub open spec fn token_scan(line: Seq<char>, ns: Seq<char>, from: int) -> Seq<(int, int)>
    decreases line.len() + 1 - from,
{
    if ns.len() == 0 || from < 0 {
        seq![]
    } else {
        match first_occurrence(line, from, ns) {
            None => seq![],
            Some(s) => {
                let be = s + ns.len();
                let e = alnum_end(line, be);
                let hit = (s == 0 || !is_ascii_alnum(line[s - 1])) && e > be && has_digit(
                    line.subrange(be, e),
                );
                proof {
                    lemma_occurrence_after(line, from, ns);
                    lemma_alnum_end(line, be);
                }
                (if hit {
                    seq![(s, e)]
                } else {
                    seq![]
                }) + token_scan(line, ns, e)
            },
        }
    }
}

pub proof fn lemma_occurrence_after(v: Seq<char>, from: int, p: Seq<char>)
    ensures
        first_occurrence(v, from, p) matches Some(i) ==> from <= i && i + p.len() <= v.len(),
    decreases v.len() + 1 - from,
{
    if !(from < 0 || from + p.len() > v.len()) && !crate::text::occurs_at(v, from, p) {
        lemma_occurrence_after(v, from + 1, p);
    }
}

/// The candidate tokens of a line: `(byte offset in the line, token)`.
pub open spec fn candidates(line: Seq<char>, ns: Seq<char>) -> Seq<(nat, Seq<char>)> {
    token_scan(line, ns, 0).map_values(
        |r: (int, int)| (byte_len(line.take(r.0)), line.subrange(r.0, r.1)),
    )
}

/// Find candidate code tokens for `namespace` on `line`: each occurrence of
/// the prefix on a word boundary, followed by an ASCII-alphanumeric run that
/// contains at least one digit. Returns `(byte offset in line, token)`.
pub fn candidate_tokens<'a>(line: &'a str, namespace: &str) -> (r: Vec<(usize, &'a str)>)
    ensures
        r@.map_values(|p: (usize, &str)| (p.0 as nat, p.1@)) == candidates(line@, namespace@),
{
    let mut out: Vec<(usize, &'a str)> = Vec::new();
    let v = chars_of(line);
    let total = crate::text::utf8_len(line);
    let ns = chars_of(namespace);
    let ghost l = line@;
    let ghost f = |r: (int, int)| (byte_len(l.take(r.0)), l.subrange(r.0, r.1));
    if ns.len() == 0 {
        proof {
            assert(out@.map_values(|p: (usize, &str)| (p.0 as nat, p.1@)) =~= candidates(line@, namespace@));
        }
        return out;
    }
    let vlen = v.len();
    let mut from: usize = 0;
    proof {
        assert(out@.map_values(|p: (usize, &str)| (p.0 as nat, p.1@)) =~= Seq::<(nat, Seq<char>)>::empty());
        assert(token_scan(l, ns@, 0) =~= Seq::<(int, int)>::empty() + token_scan(l, ns@, 0));
    }
    loop
        invariant
            v@ == l,
            vlen == v@.len(),
            l == line@,
            total == byte_len(l),
            ns@ == namespace@,
            ns@.len() > 0,
            from <= v@.len(),
            f == (|r: (int, int)| (byte_len(l.take(r.0)), l.subrange(r.0, r.1))),
            token_scan(l, ns@, 0).map_values(f) == out@.map_values(
                |p: (usize, &str)| (p.0 as nat, p.1@),
            ) + token_scan(l, ns@, from as int).map_values(f),
        decreases v@.len() + 1 - from,
    {
        let start = match find_from(&v, from, &ns) {
            Some(s) => s,
            None => {
                proof {
                    assert(token_scan(l, ns@, from as int) =~= Seq::<(int, int)>::empty());
                    assert(out@.map_values(|p: (usize, &str)| (p.0 as nat, p.1@)) + Seq::<(int, int)>::empty().map_values(f)
                        =~= out@.map_values(|p: (usize, &str)| (p.0 as nat, p.1@)));
                }
                return out;
            },
        };
        proof {
            lemma_occurrence_after(l, from as int, ns@);
            assert(start + ns@.len() <= vlen);
        }
        let boundary = start == 0 || !crate::text::ascii_alnum(v[start - 1]);
        let body_start = start + ns.len();
        let mut end = body_start;
        let mut digit = false;
        while end < v.len() && crate::text::ascii_alnum(v[end])
            invariant
                body_start <= end <= v@.len(),
                alnum_end(v@, body_start as int) == alnum_end(v@, end as int),
                digit == has_digit(v@.subrange(body_start as int, end as int)),
            decreases v.len() - end,
        {
            proof {
                let a = v@.subrange(body_start as int, end as int);
                let b = v@.subrange(body_start as int, end + 1);
                assert(b =~= a.push(v@[end as int]));
                if has_digit(b) {
                    let k = choose|k: int| 0 <= k < b.len() && is_digit(#[trigger] b[k]);
                    if k < a.len() {
                        assert(a[k] == b[k]);
                    }
                }
                if has_digit(a) {
                    let k = choose|k: int| 0 <= k < a.len() && is_digit(#[trigger] a[k]);
                    assert(b[k] == a[k]);
                }
                if crate::text::is_digit(v@[end as int]) {
                    assert(b[a.len() as int] == v@[end as int]);
                }
            }
            if crate::text::ascii_digit(v[end]) {
                digit = true;
            }
            end = end + 1;
        }
        let hit = boundary && end > body_start && digit;
        proof {
            let sc = token_scan(l, ns@, from as int);
            let piece = if hit {
                seq![(start as int, end as int)]
            } else {
                seq![]
            };
            assert(sc == piece + token_scan(l, ns@, end as int));
            assert(sc.map_values(f) =~= piece.map_values(f) + token_scan(l, ns@, end as int).map_values(f));
        }
        if hit {
            let at = crate::text::byte_offset(&v, start);
            let ghost before = out@;
            out.push((at, line.substring_char(start, end)));
            proof {
                assert(out@.map_values(|p: (usize, &str)| (p.0 as nat, p.1@)) =~= before.map_values(
                    |p: (usize, &str)| (p.0 as nat, p.1@),
                ).push(f((start as int, end as int))));
                assert(seq![(start as int, end as int)].map_values(f) =~= seq![f((start as int, end as int))]);
            }
        } else {
            proof {
                assert(Seq::<(int, int)>::empty().map_values(f) =~= Seq::<(nat, Seq<char>)>::empty());
            }
        }
        from = end;
    }
}


/// Whether `f` is the orphan finding for `token` at byte `at` of `content`.
pub open spec fn is_orphan_finding(f: Finding, path: Seq<char>, content: Seq<char>, at: int, token: Seq<char>) -> bool {
    &&& f.code@ == "MDATRON-E0113"@
    &&& f.severity == Severity::Error
    &&& f.summary@ == "orphaned-adopter-code"@
    &&& f.message@
        == "this adopter code token resolves to no entry in the comprehensive catalog declared for its namespace; a cited code that names nothing is a dangling reference (the adopter-side twin of every mdatron code resolving in explain)"@
    &&& f.help is None
    &&& f.location.file@ == path
    &&& f.location.line == line_at(content, at)
    &&& f.location.column == 0
    &&& f.explain_ref matches Some(e) && e@ == "MDATRON-E0113"@
    &&& f.quoted@.len() == 1
    &&& !f.quoted@[0].platform_variant
    &&& f.quoted@[0].label@ == "code"@
    &&& f.quoted@[0].content@ == token
}

/// The orphan finding for `token` at byte `offset` of `content`.
pub fn orphan_finding(path: &str, content: &str, offset: usize, token: &str) -> (f: Finding)
    requires
        on_boundary(content@, offset as int),
        lf_count(content@) < u32::MAX,
    ensures
        is_orphan_finding(f, path@, content@, offset as int, token@),
{
    let line = crate::link::count_lines_before(content, offset);
    let mut quoted: Vec<QuotedRegion> = Vec::new();
    quoted.push(QuotedRegion { platform_variant: false, label: owned("code"), content: owned(token) });
    Finding {
        code: owned("MDATRON-E0113"),
        severity: Severity::Error,
        summary: owned("orphaned-adopter-code"),
        message: owned(
            "this adopter code token resolves to no entry in the comprehensive catalog declared for its namespace; a cited code that names nothing is a dangling reference (the adopter-side twin of every mdatron code resolving in explain)",
        ),
        help: None,
        location: Location { file: owned(path), line, column: 0 },
        explain_ref: Some(owned("MDATRON-E0113")),
        quoted,
    }
}

/// `after` is `before` with one orphan finding per item appended, in order.
pub open spec fn appended(
    before: Seq<Finding>,
    after: Seq<Finding>,
    items: Seq<(int, Seq<char>)>,
    path: Seq<char>,
    content: Seq<char>,
) -> bool {
    &&& after.len() == before.len() + items.len()
    &&& after.take(before.len() as int) == before
    &&& forall|k: int|
        0 <= k < items.len() ==> is_orphan_finding(
            #[trigger] after[before.len() + k],
            path,
            content,
            items[k].0,
            items[k].1,
        )
}

proof fn lemma_appended_trans(
    a: Seq<Finding>,
    b: Seq<Finding>,
    c: Seq<Finding>,
    x: Seq<(int, Seq<char>)>,
    y: Seq<(int, Seq<char>)>,
    path: Seq<char>,
    content: Seq<char>,
)
    requires
        appended(a, b, x, path, content),
        appended(b, c, y, path, content),
    ensures
        appended(a, c, x + y, path, content),
{
    assert(c.take(a.len() as int) =~= a) by {
        assert forall|i: int| 0 <= i < a.len() implies c.take(a.len() as int)[i] == a[i] by {
            assert(c[i] == c.take(b.len() as int)[i]);
            assert(b[i] == b.take(a.len() as int)[i]);
        }
    }
    assert forall|k: int| 0 <= k < (x + y).len() implies is_orphan_finding(
        #[trigger] c[a.len() + k],
        path,
        content,
        (x + y)[k].0,
        (x + y)[k].1,
    ) by {
        if k < x.len() {
            assert(c[a.len() + k] == c.take(b.len() as int)[a.len() + k]);
            assert(b[a.len() + k] == c[a.len() + k]);
        } else {
            assert(c[a.len() + k] == c[b.len() + (k - x.len())]);
        }
    }
}

/// The unlisted candidates of a line for one catalog, at absolute positions
/// (`at` is the line's byte offset).
pub open spec fn unlisted(
    cands: Seq<(nat, Seq<char>)>,
    tokens: Seq<Seq<char>>,
    at: int,
) -> Seq<(int, Seq<char>)>
    decreases cands.len(),
{
    if cands.len() == 0 {
        seq![]
    } else {
        unlisted(cands.drop_last(), tokens, at) + if tokens.contains(cands.last().1) {
            seq![]
        } else {
            seq![(at + cands.last().0, cands.last().1)]
        }
    }
}

/// The orphans of one line across the comprehensive catalogs, in catalog
/// order.
pub open spec fn line_orphans(line: Seq<char>, cats: Seq<CodeCatalog>, at: int) -> Seq<
    (int, Seq<char>),
>
    decreases cats.len(),
{
    if cats.len() == 0 {
        seq![]
    } else {
        line_orphans(line, cats.drop_last(), at) + if cats.last().comprehensive {
            unlisted(candidates(line, cats.last().namespace@), views(cats.last().tokens@), at)
        } else {
            seq![]
        }
    }
}

/// The orphans of a body's live lines (`body_at`: the body's byte offset).
pub open spec fn body_orphans(lines: Seq<(nat, Seq<char>)>, cats: Seq<CodeCatalog>, body_at: int) -> Seq<
    (int, Seq<char>),
>
    decreases lines.len(),
{
    if lines.len() == 0 {
        seq![]
    } else {
        body_orphans(lines.drop_last(), cats, body_at) + line_orphans(
            lines.last().1,
            cats,
            body_at + lines.last().0,
        )
    }
}

fn listed(tokens: &Vec<String>, token: &str) -> (b: bool)
    ensures
        b == views(tokens@).contains(token@),
{
    let t = owned(token);
    let mut i: usize = 0;
    while i < tokens.len()
        invariant
            i <= tokens@.len(),
            t@ == token@,
            forall|k: int| 0 <= k < i ==> tokens@[k]@ != token@,
        decreases tokens.len() - i,
    {
        if tokens[i] == t {
            proof {
                assert(views(tokens@)[i as int] == token@);
            }
            return true;
        }
        i = i + 1;
    }
    proof {
        if views(tokens@).contains(token@) {
            let k = choose|k: int| 0 <= k < views(tokens@).len() && views(tokens@)[k] == token@;
            assert(tokens@[k]@ == token@);
        }
    }
    false
}

/// The content conditions every finding position of a scan needs.
pub open spec fn scan_ok(content: Seq<char>, items: Seq<(int, Seq<char>)>) -> bool {
    forall|k: int| 0 <= k < items.len() ==> on_boundary(content, #[trigger] items[k].0) && 0
        <= items[k].0 <= usize::MAX
}

proof fn lemma_token_scan_bounds(line: Seq<char>, ns: Seq<char>, from: int)
    ensures
        forall|k: int|
            0 <= k < token_scan(line, ns, from).len() ==> 0 <= (#[trigger] token_scan(line, ns, from)[k]).0
                <= token_scan(line, ns, from)[k].1 <= line.len(),
    decreases line.len() + 1 - from,
{
    if ns.len() > 0 && from >= 0 {
        match first_occurrence(line, from, ns) {
            None => {},
            Some(st) => {
                let be = st + ns.len();
                let e = alnum_end(line, be);
                lemma_occurrence_after(line, from, ns);
                lemma_alnum_end(line, be);
                lemma_token_scan_bounds(line, ns, e);
                let hit = (st == 0 || !is_ascii_alnum(line[st - 1])) && e > be && has_digit(
                    line.subrange(be, e),
                );
                let head = if hit {
                    seq![(st, e)]
                } else {
                    seq![]
                };
                let ts = token_scan(line, ns, from);
                assert(ts == head + token_scan(line, ns, e));
                assert forall|k: int| 0 <= k < ts.len() implies 0 <= (#[trigger] ts[k]).0 <= ts[k].1
                    <= line.len() by {
                    if k >= head.len() {
                        assert(ts[k] == token_scan(line, ns, e)[k - head.len()]);
                    }
                }
            },
        }
    }
}

/// Whether `line` sits in `content` at a character position whose byte
/// offset is `at`.
pub open spec fn line_placed(content: Seq<char>, at: int, line: Seq<char>) -> bool {
    exists|c: int|
        0 <= c && c + line.len() <= content.len() && byte_len(#[trigger] content.take(c)) == at
            && content.subrange(c, c + line.len()) == line
}

fn push_catalog_orphans(
    findings: &mut Vec<Finding>,
    cat: &CodeCatalog,
    path: &str,
    content: &str,
    at: usize,
    line: &str,
)
    requires
        line_placed(content@, at as int, line@),
        lf_count(content@) < u32::MAX,
    ensures
        appended(
            old(findings)@,
            final(findings)@,
            unlisted(candidates(line@, cat.namespace@), views(cat.tokens@), at as int),
            path@,
            content@,
        ),
{
    let cands = candidate_tokens(line, cat.namespace.as_str());
    let ghost cs = cands@.map_values(|p: (usize, &str)| (p.0 as nat, p.1@));
    let ghost tk = views(cat.tokens@);
    let ghost base = findings@;
    let total = crate::text::utf8_len(content);
    let mut i: usize = 0;
    proof {
        assert(cs.take(0) =~= Seq::<(nat, Seq<char>)>::empty());
        assert(findings@.take(base.len() as int) =~= base);
    }
    while i < cands.len()
        invariant
            i <= cands@.len(),
            cs == cands@.map_values(|p: (usize, &str)| (p.0 as nat, p.1@)),
            cs == candidates(line@, cat.namespace@),
            tk == views(cat.tokens@),
            line_placed(content@, at as int, line@),
            total == byte_len(content@),
            lf_count(content@) < u32::MAX,
            appended(base, findings@, unlisted(cs.take(i as int), tk, at as int), path@, content@),
        decreases cands.len() - i,
    {
        let (off, token) = cands[i];
        proof {
            assert(cs.take(i + 1).drop_last() =~= cs.take(i as int));
            assert(cs.take(i + 1).last() == cs[i as int]);
            assert(cs[i as int] == (off as nat, token@));
            lemma_unlisted_prefix(cs, tk, at as int, i + 1);
        }
        if !listed(&cat.tokens, token) {
            let ghost prev = findings@;
            let ghost items = unlisted(cs.take(i as int), tk, at as int);
            proof {
                let ts = token_scan(line@, cat.namespace@, 0);
                lemma_token_scan_bounds(line@, cat.namespace@, 0);
                assert(cs[i as int] == (byte_len(line@.take(ts[i as int].0)), line@.subrange(ts[i as int].0, ts[i as int].1)));
                let c = choose|c: int|
                    0 <= c && c + line@.len() <= content@.len() && byte_len(#[trigger] content@.take(c)) == at
                        && content@.subrange(c, c + line@.len()) == line@;
                crate::link::lemma_boundary_within(content@, c, at as int, line@, ts[i as int].0);
                assert(unlisted(cs.take(i + 1), tk, at as int) == items.push((at + off, token@)));
            }
            let f = orphan_finding(path, content, at + off, token);
            findings.push(f);
            proof {
                let one = seq![((at + off) as int, token@)];
                assert(appended(prev, findings@, one, path@, content@)) by {
                    assert(findings@.take(prev.len() as int) =~= prev);
                    assert(findings@[prev.len() as int] == f);
                }
                lemma_appended_trans(base, prev, findings@, items, one, path@, content@);
                assert(items + one =~= unlisted(cs.take(i + 1), tk, at as int));
            }
        } else {
            proof {
                assert(unlisted(cs.take(i + 1), tk, at as int) =~= unlisted(cs.take(i as int), tk, at as int));
            }
        }
        i = i + 1;
    }
    proof {
        assert(cs.take(cs.len() as int) =~= cs);
    }
}

proof fn lemma_unlisted_prefix(cs: Seq<(nat, Seq<char>)>, tk: Seq<Seq<char>>, at: int, n: int)
    requires
        0 <= n <= cs.len(),
    ensures
        unlisted(cs, tk, at).len() >= unlisted(cs.take(n), tk, at).len(),
        unlisted(cs, tk, at).take(unlisted(cs.take(n), tk, at).len() as int) == unlisted(
            cs.take(n),
            tk,
            at,
        ),
    decreases cs.len() - n,
{
    if n < cs.len() {
        lemma_unlisted_prefix(cs, tk, at, n + 1);
        assert(cs.take(n + 1).drop_last() =~= cs.take(n));
        let a = unlisted(cs.take(n), tk, at);
        let b = unlisted(cs.take(n + 1), tk, at);
        let c = unlisted(cs, tk, at);
        assert(b.take(a.len() as int) =~= a);
        assert(c.take(a.len() as int) =~= c.take(b.len() as int).take(a.len() as int));
    } else {
        assert(cs.take(n) =~= cs);
        assert(unlisted(cs, tk, at).take(unlisted(cs, tk, at).len() as int) =~= unlisted(cs, tk, at));
    }
}


fn push_line_orphans(
    findings: &mut Vec<Finding>,
    cats: &[CodeCatalog],
    path: &str,
    content: &str,
    at: usize,
    line: &str,
)
    requires
        line_placed(content@, at as int, line@),
        lf_count(content@) < u32::MAX,
    ensures
        appended(old(findings)@, final(findings)@, line_orphans(line@, cats@, at as int), path@, content@),
{
    let ghost base = findings@;
    let mut i: usize = 0;
    proof {
        assert(cats@.take(0) =~= Seq::<CodeCatalog>::empty());
        assert(findings@.take(base.len() as int) =~= base);
    }
    while i < cats.len()
        invariant
            i <= cats@.len(),
            line_placed(content@, at as int, line@),
            lf_count(content@) < u32::MAX,
            appended(base, findings@, line_orphans(line@, cats@.take(i as int), at as int), path@, content@),
        decreases cats.len() - i,
    {
        let cat = &cats[i];
        proof {
            assert(cats@.take(i + 1).drop_last() =~= cats@.take(i as int));
            assert(cats@.take(i + 1).last() == cats@[i as int]);
        }
        let ghost prev = findings@;
        let ghost done = line_orphans(line@, cats@.take(i as int), at as int);
        if cat.comprehensive {
            push_catalog_orphans(findings, cat, path, content, at, line);
            proof {
                let part = unlisted(candidates(line@, cat.namespace@), views(cat.tokens@), at as int);
                lemma_appended_trans(base, prev, findings@, done, part, path@, content@);
            }
        } else {
            proof {
                assert(line_orphans(line@, cats@.take(i + 1), at as int) =~= done);
            }
        }
        i = i + 1;
    }
    proof {
        assert(cats@.take(cats@.len() as int) =~= cats@);
    }
}

/// Scan one governed file's body for adopter code tokens and flag each that
/// does not resolve to a declared entry of a `comprehensive` catalog, in line
/// order and, within a line, catalog order. `content` is the whole file;
/// `body_offset` is where the prose body begins.
pub fn check_file(
    catalogs: &[CodeCatalog],
    path: &str,
    content: &str,
    body_offset: usize,
    findings: &mut Vec<Finding>,
)
    requires
        on_boundary(content@, body_offset as int),
        lf_count(content@) < u32::MAX,
    ensures
        appended(
            old(findings)@,
            final(findings)@,
            body_orphans(
                live_lines(crate::link::text_after(content@, body_offset as int)),
                catalogs@,
                body_offset as int,
            ),
            path@,
            content@,
        ),
{
    let ghost body_s = crate::link::text_after(content@, body_offset as int);
    if catalogs.len() == 0 {
        proof {
            assert(findings@.take(findings@.len() as int) =~= findings@);
            lemma_no_catalogs(live_lines(body_s), catalogs@, body_offset as int);
        }
        return ;
    }
    let cv = chars_of(content);
    let total = crate::text::utf8_len(content);
    let kb = crate::text::fit_chars(&cv, body_offset);
    proof {
        crate::text::lemma_fit(cv@, body_offset as int);
        assert(cv@.subrange(kb as int, cv@.len() as int) =~= body_s);
    }
    let body = content.substring_char(kb, cv.len());
    let lines = non_fenced_lines(body);
    let ghost ls = live_lines(body_s);
    proof {
        crate::markup::lemma_live_lines_placed(body_s);
        crate::text::lemma_byte_len_take_mono(content@, kb as int, content@.len() as int);
        assert(content@.take(content@.len() as int) =~= content@);
        if body_offset < byte_len(content@) {
            assert(byte_len(content@.take(kb as int)) == body_offset);
        } else {
            crate::text::lemma_byte_len_take_mono(content@, kb as int, content@.len() as int);
        }
    }
    let ghost base = findings@;
    let mut i: usize = 0;
    proof {
        assert(ls.take(0) =~= Seq::<(nat, Seq<char>)>::empty());
        assert(findings@.take(base.len() as int) =~= base);
    }
    while i < lines.len()
        invariant
            i <= lines@.len(),
            lines@.map_values(|p: (usize, &str)| (p.0 as nat, p.1@)) == ls,
            ls == live_lines(body_s),
            body_s == content@.skip(kb as int),
            kb <= content@.len(),
            total == byte_len(content@),
            body_offset >= byte_len(content@) ==> body_s.len() == 0,
            body_offset < byte_len(content@) ==> byte_len(content@.take(kb as int)) == body_offset,
            forall|j: int| 0 <= j < ls.len() ==> crate::markup::placed(body_s, #[trigger] ls[j]),
            lf_count(content@) < u32::MAX,
            appended(base, findings@, body_orphans(ls.take(i as int), catalogs@, body_offset as int), path@, content@),
        decreases lines.len() - i,
    {
        let (off, line) = lines[i];
        proof {
            assert(ls[i as int] == (off as nat, line@));
            assert(ls.take(i + 1).drop_last() =~= ls.take(i as int));
            assert(ls.take(i + 1).last() == ls[i as int]);
            assert(crate::markup::placed(body_s, ls[i as int]));
            let c = choose|c: int|
                0 <= c && c + line@.len() <= body_s.len() && byte_len(#[trigger] body_s.take(c)) == off
                    && body_s.subrange(c, c + line@.len()) == line@;
            assert(body_s.len() > 0 || line@.len() == 0 || true);
            assert(content@.take(kb + c) =~= content@.take(kb as int) + body_s.take(c));
            crate::text::lemma_byte_len_concat(content@.take(kb as int), body_s.take(c));
            assert(content@.subrange(kb + c, kb + c + line@.len()) =~= line@);
            if body_offset >= byte_len(content@) {
                assert(c == 0);
                assert(body_s.take(0) =~= Seq::<char>::empty());
                assert(off == 0);
                assert(byte_len(content@.take(kb as int)) <= byte_len(content@));
            }
            crate::text::lemma_byte_len_take_mono(content@, kb + c, content@.len() as int);
            assert(content@.take(content@.len() as int) =~= content@);
            assert(line_placed(content@, byte_len(content@.take(kb + c)) as int, line@));
        }
        let at_opt = if body_offset < total {
            Some(body_offset + off)
        } else {
            None
        };
        let at = match at_opt {
            Some(a) => a,
            None => body_offset,
        };
        proof {
            if body_offset >= byte_len(content@) {
                assert(off == 0);
            }
        }
        let ghost prev = findings@;
        let ghost done = body_orphans(ls.take(i as int), catalogs@, body_offset as int);
        push_line_orphans(findings, catalogs, path, content, at, line);
        proof {
            lemma_appended_trans(
                base,
                prev,
                findings@,
                done,
                line_orphans(line@, catalogs@, at as int),
                path@,
                content@,
            );
        }
        i = i + 1;
    }
    proof {
        assert(ls.take(ls.len() as int) =~= ls);
    }
}

proof fn lemma_no_catalogs(lines: Seq<(nat, Seq<char>)>, cats: Seq<CodeCatalog>, at: int)
    requires
        cats.len() == 0,
    ensures
        body_orphans(lines, cats, at) == Seq::<(int, Seq<char>)>::empty(),
    decreases lines.len(),
{
    if lines.len() > 0 {
        lemma_no_catalogs(lines.drop_last(), cats, at);
        assert(line_orphans(lines.last().1, cats, at + lines.last().0) =~= Seq::<(int, Seq<char>)>::empty());
    }
}

} // verus!
