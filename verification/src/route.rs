//! Route family: the route table is an allowlist over the governed tree.
//!
//! With route data supplied, a walked file no route claims blocks
//! (`MDATRON-E0030`); a route citing an absent governing document blocks
//! (`MDATRON-E0031`); two routes claiming one file is an error
//! (`MDATRON-E0032`); a filename underivable from the route's naming grammar
//! is flagged (`MDATRON-W0041`). Every adopter-supplied path — the `files`
//! glob and `governed_by` — is held to the confinement contract (`E0010`
//! absolute, `E0011` parent segment, `E0012` symlink). Naming grammars and
//! marker patterns compile on the linear-time engine.
use vstd::prelude::*;

use crate::confine::{confine_lexically, confinement, LexicalViolation};
use crate::diagnostic::{Finding, Location, QuotedRegion, Severity};
use crate::error::Error;
use crate::section::{compile_rule, compiled_from, rule_refusal, RawRule, Rule};
use crate::pattern::{
    glob_compiles, glob_error, glob_matches, regex_compiles, regex_error, regex_group1, FileGlob,
    LinePattern,
};
use crate::text::{chars_of, decimal, owned, push_decimal, push_str, string_from};

verus! {

/// File name of the route table under `.mdatron/`.
pub const ROUTES_NAME: &'static str = "routes.yaml";

/// The element class a marker reference (or a section rule) resolves
/// against.
#[derive(Debug, Clone, Copy, PartialEq, Eq, Hash, Structural)]
pub enum ElementClass {
    /// A markdown heading, resolved by its text (name-equality).
    Heading,
    /// The leading `**bold**` name of a `- ` list item.
    ListItemBoldName,
}

/// One marker-line reference rule as declared in `routes.yaml`.
#[derive(Debug, Clone, PartialEq, Eq)]
pub struct RawMarkerRule {
    /// Regex matched against each body line; its first capture group is the
    /// referenced name.
    pub pattern: String,
    /// The element class the captured name must resolve to.
    pub element: ElementClass,
    /// The document the reference resolves into (relative, confined).
    pub target_doc: String,
    /// Optional heading whose section scopes resolution.
    pub target_section: Option<String>,
}

/// One route entry as declared in `routes.yaml`.
#[derive(Debug, Clone, PartialEq, Eq)]
pub struct RawEntry {
    /// Glob (relative to the project root) of the files this route claims.
    pub files: String,
    /// The governing document for the claimed files (relative, confined).
    pub governed_by: String,
    /// Optional naming grammar the claimed file name must match.
    pub naming: Option<String>,
    /// Opt the claimed files into citation verification.
    pub citations: bool,
    /// Opt the claimed files into body-link verification.
    pub links: bool,
    /// Opt the claimed files into root-relative link resolution.
    pub link_root: bool,
    /// Marker-line reference rules.
    pub marker_rules: Vec<RawMarkerRule>,
    /// Section-structural rules, scoped by this route's `files` glob.
    pub section_rules: Vec<RawRule>,
}

/// What a no-follow open of a route's confined governing document found.
#[derive(Debug, Clone, Copy, PartialEq, Eq, Structural)]
pub enum Probe {
    /// The document opened.
    Opened,
    /// It exists but is not a regular file.
    NotRegular,
    /// A component is a symbolic link.
    Symlink,
    /// It cannot be opened (absent, or refused).
    Unopenable,
}

/// A compiled marker-line reference rule.
#[derive(Debug)]
pub struct MarkerRule {
    /// Compiled line matcher; its first capture group is the name.
    pub pattern: LinePattern,
    pub element: ElementClass,
    pub target_doc: String,
    pub target_section: Option<String>,
}

/// A compiled, active route entry.
#[derive(Debug)]
pub struct Route {
    pub files: FileGlob,
    pub governed_by: String,
    pub naming: Option<LinePattern>,
    pub citations: bool,
    pub links: bool,
    pub link_root: bool,
    pub marker_rules: Vec<MarkerRule>,
    pub section_rules: Vec<Rule>,
}

/// The loaded route table: the active entries plus the per-entry findings
/// produced during load.
#[derive(Debug)]
pub struct LoadedRoutes {
    pub routes: Vec<Route>,
    pub findings: Vec<Finding>,
}

// ── Which routes claim a file ───────────────────────────────────────────────

/// The indices of the routes whose `files` glob matches `rel`, in order.
pub open spec fn claims(routes: Seq<Route>, rel: Seq<char>) -> Seq<int>
    decreases routes.len(),
{
    if routes.len() == 0 {
        Seq::empty()
    } else {
        let before = claims(routes.drop_last(), rel);
        if glob_matches(routes.last().files.source(), rel) {
            before.push(routes.len() - 1)
        } else {
            before
        }
    }
}

/// Whether some route claiming `rel` satisfies `flag`.
pub open spec fn any_claiming(routes: Seq<Route>, rel: Seq<char>, flag: spec_fn(Route) -> bool) -> bool {
    exists|i: int| 0 <= i < routes.len() && flag(routes[i]) && glob_matches(routes[i].files.source(), rel)
}

proof fn lemma_claims_bounds(routes: Seq<Route>, rel: Seq<char>)
    ensures
        forall|k: int| 0 <= k < claims(routes, rel).len() ==> 0 <= #[trigger] claims(routes, rel)[k] < routes.len()
            && glob_matches(routes[claims(routes, rel)[k]].files.source(), rel),
        forall|a: int, b: int| 0 <= a < b < claims(routes, rel).len() ==> #[trigger] claims(routes, rel)[a] < #[trigger] claims(routes, rel)[b],
    decreases routes.len(),
{
    if routes.len() > 0 {
        lemma_claims_bounds(routes.drop_last(), rel);
        assert forall|k: int| 0 <= k < claims(routes.drop_last(), rel).len() implies
            routes[claims(routes.drop_last(), rel)[k]] == routes.drop_last()[claims(routes.drop_last(), rel)[k]] by {}
    }
}

/// The indices of the routes claiming `rel`, in order.
fn claiming(routes: &[Route], rel: &str) -> (r: Vec<usize>)
    ensures
        r@.len() == claims(routes@, rel@).len(),
        forall|k: int| 0 <= k < r@.len() ==> r@[k] as int == #[trigger] claims(routes@, rel@)[k],
{
    let mut out: Vec<usize> = Vec::new();
    let mut i: usize = 0;
    while i < routes.len()
        invariant
            i <= routes@.len(),
            out@.len() == claims(routes@.take(i as int), rel@).len(),
            forall|k: int| 0 <= k < out@.len() ==> out@[k] as int == #[trigger] claims(routes@.take(i as int), rel@)[k],
        decreases routes.len() - i,
    {
        let hit = routes[i].files.matches_path(rel);
        proof {
            assert(routes@.take(i + 1).drop_last() =~= routes@.take(i as int));
            assert(routes@.take(i + 1).last() == routes@[i as int]);
        }
        if hit {
            out.push(i);
        }
        i = i + 1;
    }
    proof {
        assert(routes@.take(routes@.len() as int) =~= routes@);
    }
    out
}

/// The final `/`-separated piece of a root-relative path.
pub open spec fn file_name(rel: Seq<char>) -> Seq<char>
    decreases rel.len(),
{
    if rel.len() == 0 {
        rel
    } else if rel.last() == '/' {
        Seq::empty()
    } else {
        file_name(rel.drop_last()).push(rel.last())
    }
}

fn file_name_of(rel: &str) -> (s: String)
    ensures
        s@ == file_name(rel@),
{
    let v = chars_of(rel);
    let mut start: usize = 0;
    let mut i: usize = 0;
    while i < v.len()
        invariant
            i <= v@.len(),
            start <= i,
            v@.subrange(start as int, i as int) == file_name(v@.take(i as int)),
        decreases v.len() - i,
    {
        proof {
            assert(v@.take(i + 1).drop_last() =~= v@.take(i as int));
            assert(v@.take(i + 1).last() == v@[i as int]);
        }
        if v[i] == '/' {
            start = i + 1;
            proof {
                assert(v@.subrange(start as int, i + 1) =~= Seq::<char>::empty());
            }
        } else {
            proof {
                assert(v@.subrange(start as int, i + 1) =~= v@.subrange(start as int, i as int).push(v@[i as int]));
            }
        }
        i = i + 1;
    }
    proof {
        assert(v@.take(v@.len() as int) =~= v@);
    }
    string_from(&v, start, v.len())
}

/// `after` is `before` with one finding appended.
pub open spec fn one_more(before: Seq<Finding>, after: Seq<Finding>) -> bool {
    after.len() == before.len() + 1 && after.take(before.len() as int) == before
}

/// The unrouted-file finding for `abs`.
pub open spec fn is_unrouted_finding(f: Finding, abs: Seq<char>) -> bool {
    &&& f.code@ == "MDATRON-E0030"@
    &&& f.severity == Severity::Error
    &&& f.summary@ == "unrouted-file"@
    &&& f.message@ == "this file is inside the walked jurisdiction but no route claims it; the route table is a closed-world allowlist"@
    &&& f.help matches Some(h) && h@ == "add a route whose files glob claims it, or narrow file_globs if it should not be walked at all"@
    &&& f.location.file@ == abs && f.location.line == 1 && f.location.column == 0
    &&& f.explain_ref matches Some(e) && e@ == "MDATRON-E0030"@
    &&& f.quoted@.len() == 0
}

/// The name-underivable finding for `abs`, whose file name `name` fails the
/// naming grammar `grammar`.
pub open spec fn is_naming_finding(f: Finding, abs: Seq<char>, grammar: Seq<char>, name: Seq<char>) -> bool {
    &&& f.code@ == "MDATRON-W0041"@
    &&& f.severity == Severity::Warning
    &&& f.summary@ == "name-underivable"@
    &&& f.message@ == "this file's name is not derivable from its route's naming grammar /"@ + grammar + "/"@
    &&& f.help matches Some(h) && h@ == "rename the file to match the grammar, or amend the route's naming field"@
    &&& f.location.file@ == abs && f.location.line == 1 && f.location.column == 0
    &&& f.explain_ref matches Some(e) && e@ == "MDATRON-W0041"@
    &&& f.quoted@.len() == 1
    &&& !f.quoted@[0].platform_variant && f.quoted@[0].label@ == "name"@ && f.quoted@[0].content@ == name
}

/// The route-conflict finding for `abs`, claimed by the routes at `idx`.
pub open spec fn is_conflict_finding(f: Finding, abs: Seq<char>, routes: Seq<Route>, idx: Seq<int>) -> bool {
    &&& f.code@ == "MDATRON-E0032"@
    &&& f.severity == Severity::Error
    &&& f.summary@ == "route-conflict"@
    &&& f.message@ == decimal(idx.len()) + " routes claim this file; ownership must be unambiguous (conflicting adopter data is an error by contract)"@
    &&& f.help matches Some(h) && h@ == "disjoint the files globs so exactly one route claims it"@
    &&& f.location.file@ == abs && f.location.line == 1 && f.location.column == 0
    &&& f.explain_ref matches Some(e) && e@ == "MDATRON-E0032"@
    &&& f.quoted@.len() == idx.len()
    &&& forall|k: int| 0 <= k < idx.len() ==> !(#[trigger] f.quoted@[k]).platform_variant
        && f.quoted@[k].label@ == "route"@ && f.quoted@[k].content@ == routes[idx[k]].files.source()
}

/// What the route checks report for one walked file.
pub open spec fn route_check(before: Seq<Finding>, after: Seq<Finding>, routes: Seq<Route>, rel: Seq<char>, abs: Seq<char>) -> bool {
    let c = claims(routes, rel);
    if c.len() == 0 {
        one_more(before, after) && is_unrouted_finding(after.last(), abs)
    } else if c.len() == 1 {
        match routes[c[0]].naming {
            Some(g) => if regex_group1(g.source(), file_name(rel)) is None {
                one_more(before, after) && is_naming_finding(after.last(), abs, g.source(), file_name(rel))
            } else {
                after == before
            },
            None => after == before,
        }
    } else {
        one_more(before, after) && is_conflict_finding(after.last(), abs, routes, c)
    }
}

fn whole_file_finding(
    code: &str,
    severity: Severity,
    summary: &str,
    message: String,
    help: &str,
    abs: &str,
    quoted: Vec<QuotedRegion>,
) -> (f: Finding)
    ensures
        f.code@ == code@,
        f.severity == severity,
        f.summary@ == summary@,
        f.message@ == message@,
        f.help matches Some(h) && h@ == help@,
        f.location.file@ == abs@ && f.location.line == 1 && f.location.column == 0,
        f.explain_ref matches Some(e) && e@ == code@,
        f.quoted@ == quoted@,
{
    Finding {
        code: owned(code),
        severity,
        summary: owned(summary),
        message,
        help: Some(owned(help)),
        location: Location::whole_file(abs),
        explain_ref: Some(owned(code)),
        quoted,
    }
}

/// Route checks for one walked file (root-relative `rel`, reported at
/// `abs`): `E0030` when no route claims it, `E0032` when more than one
/// does, and `W0041` when its file name fails the claiming route's naming
/// grammar.
pub fn check_file(routes: &[Route], rel: &str, abs: &str, findings: &mut Vec<Finding>)
    ensures
        route_check(old(findings)@, final(findings)@, routes@, rel@, abs@),
{
    let c = claiming(routes, rel);
    proof {
        lemma_claims_bounds(routes@, rel@);
    }
    if c.len() == 0 {
        let f = whole_file_finding(
            "MDATRON-E0030",
            Severity::Error,
            "unrouted-file",
            owned("this file is inside the walked jurisdiction but no route claims it; the route table is a closed-world allowlist"),
            "add a route whose files glob claims it, or narrow file_globs if it should not be walked at all",
            abs,
            Vec::new(),
        );
        findings.push(f);
        proof {
            assert(findings@.take(old(findings)@.len() as int) =~= old(findings)@);
        }
    } else if c.len() == 1 {
        proof {
            assert(c@[0] as int == claims(routes@, rel@)[0]);
        }
        let route = &routes[c[0]];
        match &route.naming {
            Some(naming) => {
                let name = file_name_of(rel);
                if naming.group1(name.as_str()).is_none() {
                    let mut message = owned("this file's name is not derivable from its route's naming grammar /");
                    push_str(&mut message, naming.as_str());
                    push_str(&mut message, "/");
                    let mut quoted: Vec<QuotedRegion> = Vec::new();
                    quoted.push(QuotedRegion { platform_variant: false, label: owned("name"), content: name });
                    let f = whole_file_finding(
                        "MDATRON-W0041",
                        Severity::Warning,
                        "name-underivable",
                        message,
                        "rename the file to match the grammar, or amend the route's naming field",
                        abs,
                        quoted,
                    );
                    findings.push(f);
                    proof {
                        assert(findings@.take(old(findings)@.len() as int) =~= old(findings)@);
                    }
                }
            },
            None => {},
        }
    } else {
        let mut message = owned("");
        push_decimal(&mut message, c.len() as u64);
        push_str(
            &mut message,
            " routes claim this file; ownership must be unambiguous (conflicting adopter data is an error by contract)",
        );
        let mut quoted: Vec<QuotedRegion> = Vec::new();
        let mut k: usize = 0;
        while k < c.len()
            invariant
                k <= c@.len(),
                c@.len() == claims(routes@, rel@).len(),
                forall|j: int| 0 <= j < c@.len() ==> c@[j] as int == #[trigger] claims(routes@, rel@)[j],
                forall|j: int| 0 <= j < claims(routes@, rel@).len() ==> 0 <= #[trigger] claims(routes@, rel@)[j] < routes@.len(),
                quoted@.len() == k,
                forall|j: int| 0 <= j < k ==> !(#[trigger] quoted@[j]).platform_variant && quoted@[j].label@ == "route"@
                    && quoted@[j].content@ == routes@[claims(routes@, rel@)[j]].files.source(),
            decreases c.len() - k,
        {
            let ci = c[k];
            proof {
                assert(c@[k as int] as int == claims(routes@, rel@)[k as int]);
            }
            let src = owned(routes[ci].files.as_str());
            quoted.push(QuotedRegion { platform_variant: false, label: owned("route"), content: src });
            k = k + 1;
        }
        proof {
            reveal_strlit("");
            assert(message@ == decimal(c@.len() as nat) + " routes claim this file; ownership must be unambiguous (conflicting adopter data is an error by contract)"@);
        }
        let f = whole_file_finding(
            "MDATRON-E0032",
            Severity::Error,
            "route-conflict",
            message,
            "disjoint the files globs so exactly one route claims it",
            abs,
            quoted,
        );
        findings.push(f);
        proof {
            assert(findings@.take(old(findings)@.len() as int) =~= old(findings)@);
        }
    }
}

/// Whether some route claiming `rel` opts it into citation verification.
pub fn citations_enabled(routes: &[Route], rel: &str) -> (b: bool)
    ensures
        b == any_claiming(routes@, rel@, |r: Route| r.citations),
{
    let mut i: usize = 0;
    while i < routes.len()
        invariant
            i <= routes@.len(),
            forall|j: int| 0 <= j < i ==> !(routes@[j].citations && glob_matches(routes@[j].files.source(), rel@)),
        decreases routes.len() - i,
    {
        if routes[i].citations && routes[i].files.matches_path(rel) {
            return true;
        }
        i = i + 1;
    }
    false
}

/// Whether some route claiming `rel` opts it into body-link verification.
pub fn links_enabled(routes: &[Route], rel: &str) -> (b: bool)
    ensures
        b == any_claiming(routes@, rel@, |r: Route| r.links),
{
    let mut i: usize = 0;
    while i < routes.len()
        invariant
            i <= routes@.len(),
            forall|j: int| 0 <= j < i ==> !(routes@[j].links && glob_matches(routes@[j].files.source(), rel@)),
        decreases routes.len() - i,
    {
        if routes[i].links && routes[i].files.matches_path(rel) {
            return true;
        }
        i = i + 1;
    }
    false
}

/// Whether a link-checked route claiming `rel` also enables root-relative
/// link resolution (`link_root` without `links` is inert).
pub fn link_root_enabled(routes: &[Route], rel: &str) -> (b: bool)
    ensures
        b == any_claiming(routes@, rel@, |r: Route| r.links && r.link_root),
{
    let mut i: usize = 0;
    while i < routes.len()
        invariant
            i <= routes@.len(),
            forall|j: int| 0 <= j < i ==> !(routes@[j].links && routes@[j].link_root && glob_matches(routes@[j].files.source(), rel@)),
        decreases routes.len() - i,
    {
        if routes[i].links && routes[i].link_root && routes[i].files.matches_path(rel) {
            return true;
        }
        i = i + 1;
    }
    false
}

/// The marker rules of the routes at `idx`, flattened in order.
pub open spec fn rules_of(routes: Seq<Route>, idx: Seq<int>) -> Seq<MarkerRule>
    decreases idx.len(),
{
    if idx.len() == 0 {
        Seq::empty()
    } else {
        rules_of(routes, idx.drop_last()) + routes[idx.last()].marker_rules@
    }
}

/// The marker-line reference rules active for `rel`: every rule on every
/// route claiming it, in route order.
pub fn marker_rules_for<'a>(routes: &'a [Route], rel: &str) -> (r: Vec<&'a MarkerRule>)
    ensures
        r@.len() == rules_of(routes@, claims(routes@, rel@)).len(),
        forall|k: int| 0 <= k < r@.len() ==> *r@[k] == #[trigger] rules_of(routes@, claims(routes@, rel@))[k],
{
    let c = claiming(routes, rel);
    proof {
        lemma_claims_bounds(routes@, rel@);
    }
    let ghost cs = claims(routes@, rel@);
    let mut out: Vec<&'a MarkerRule> = Vec::new();
    let mut k: usize = 0;
    while k < c.len()
        invariant
            k <= c@.len(),
            c@.len() == cs.len(),
            cs == claims(routes@, rel@),
            forall|j: int| 0 <= j < c@.len() ==> c@[j] as int == #[trigger] cs[j],
            forall|j: int| 0 <= j < cs.len() ==> 0 <= #[trigger] cs[j] < routes@.len(),
            out@.len() == rules_of(routes@, cs.take(k as int)).len(),
            forall|j: int| 0 <= j < out@.len() ==> *out@[j] == #[trigger] rules_of(routes@, cs.take(k as int))[j],
        decreases c.len() - k,
    {
        let ci = c[k];
        proof {
            assert(c@[k as int] as int == cs[k as int]);
        }
        let rules = &routes[ci].marker_rules;
        let ghost before = out@;
        let ghost acc = rules_of(routes@, cs.take(k as int));
        proof {
            assert(cs.take(k + 1).drop_last() =~= cs.take(k as int));
            assert(cs.take(k + 1).last() == cs[k as int]);
            assert(ci as int == cs[k as int]);
            assert(0 <= cs[k as int] < routes@.len());
        }
        let mut m: usize = 0;
        while m < rules.len()
            invariant
                m <= rules@.len(),
                *rules == routes@[ci as int].marker_rules,
                out@.len() == before.len() + m,
                before.len() == acc.len(),
                forall|j: int| 0 <= j < before.len() ==> *out@[j] == #[trigger] acc[j],
                forall|j: int| 0 <= j < m ==> *out@[before.len() + j] == #[trigger] rules@[j],
                forall|j: int| 0 <= j < before.len() ==> #[trigger] out@[j] == before[j],
            decreases rules.len() - m,
        {
            out.push(&rules[m]);
            m = m + 1;
        }
        proof {
            let next = rules_of(routes@, cs.take(k + 1));
            assert(next == acc + routes@[ci as int].marker_rules@);
            assert forall|j: int| 0 <= j < out@.len() implies *out@[j] == #[trigger] next[j] by {
                if j < before.len() {
                    assert(*out@[j] == acc[j]);
                } else {
                    assert(*out@[before.len() + (j - before.len())] == rules@[j - before.len()]);
                }
            }
        }
        k = k + 1;
    }
    proof {
        assert(cs.take(cs.len() as int) =~= cs);
    }
    out
}

/// The section rules of the routes at `idx`, flattened in order.
pub open spec fn section_rules_of(routes: Seq<Route>, idx: Seq<int>) -> Seq<Rule>
    decreases idx.len(),
{
    if idx.len() == 0 {
        Seq::empty()
    } else {
        section_rules_of(routes, idx.drop_last()) + routes[idx.last()].section_rules@
    }
}

/// The section rules active for `rel`: every rule on every route claiming
/// it, in route order. Empty means the family does no work on the file.
pub fn section_rules_for<'a>(routes: &'a [Route], rel: &str) -> (r: Vec<&'a Rule>)
    ensures
        r@.len() == section_rules_of(routes@, claims(routes@, rel@)).len(),
        forall|k: int| 0 <= k < r@.len() ==> *r@[k] == #[trigger] section_rules_of(routes@, claims(routes@, rel@))[k],
{
    let c = claiming(routes, rel);
    proof {
        lemma_claims_bounds(routes@, rel@);
    }
    let ghost cs = claims(routes@, rel@);
    let mut out: Vec<&'a Rule> = Vec::new();
    let mut k: usize = 0;
    while k < c.len()
        invariant
            k <= c@.len(),
            c@.len() == cs.len(),
            cs == claims(routes@, rel@),
            forall|j: int| 0 <= j < c@.len() ==> c@[j] as int == #[trigger] cs[j],
            forall|j: int| 0 <= j < cs.len() ==> 0 <= #[trigger] cs[j] < routes@.len(),
            out@.len() == section_rules_of(routes@, cs.take(k as int)).len(),
            forall|j: int| 0 <= j < out@.len() ==> *out@[j] == #[trigger] section_rules_of(routes@, cs.take(k as int))[j],
        decreases c.len() - k,
    {
        let ci = c[k];
        proof {
            assert(c@[k as int] as int == cs[k as int]);
        }
        let rules = &routes[ci].section_rules;
        let ghost before = out@;
        let ghost acc = section_rules_of(routes@, cs.take(k as int));
        proof {
            assert(cs.take(k + 1).drop_last() =~= cs.take(k as int));
            assert(cs.take(k + 1).last() == cs[k as int]);
            assert(ci as int == cs[k as int]);
            assert(0 <= cs[k as int] < routes@.len());
        }
        let mut m: usize = 0;
        while m < rules.len()
            invariant
                m <= rules@.len(),
                *rules == routes@[ci as int].section_rules,
                out@.len() == before.len() + m,
                before.len() == acc.len(),
                forall|j: int| 0 <= j < before.len() ==> *out@[j] == #[trigger] acc[j],
                forall|j: int| 0 <= j < m ==> *out@[before.len() + j] == #[trigger] rules@[j],
                forall|j: int| 0 <= j < before.len() ==> #[trigger] out@[j] == before[j],
            decreases rules.len() - m,
        {
            out.push(&rules[m]);
            m = m + 1;
        }
        proof {
            let next = section_rules_of(routes@, cs.take(k + 1));
            assert(next == acc + routes@[ci as int].section_rules@);
            assert forall|j: int| 0 <= j < out@.len() implies *out@[j] == #[trigger] next[j] by {
                if j < before.len() {
                    assert(*out@[j] == acc[j]);
                } else {
                    assert(*out@[before.len() + (j - before.len())] == rules@[j - before.len()]);
                }
            }
        }
        k = k + 1;
    }
    proof {
        assert(cs.take(cs.len() as int) =~= cs);
    }
    out
}

// ── Loading the route table ─────────────────────────────────────────────────

/// A load-time issue reported as a finding against the route table.
pub enum LoadIssue {
    /// A path field (`files` or `governed_by`) escapes the governed tree; the
    /// entry is dropped.
    Confinement(Seq<char>, Seq<char>, LexicalViolation),
    /// The governing document resolves through a symbolic link.
    GovernedSymlink(Seq<char>),
    /// The governing document cannot be opened.
    GovernedAbsent(Seq<char>),
}

/// How one route entry fares at load.
pub enum EntryFate {
    /// Dropped with a confinement finding.
    Dropped(LoadIssue),
    /// The whole load fails with this configuration message.
    Fails(Seq<char>),
    /// Kept, with a governing-document finding when one applies.
    Kept(Option<LoadIssue>),
}

/// The message of the first marker rule whose pattern does not compile.
pub open spec fn first_marker_failure(rules: Seq<RawMarkerRule>) -> Option<Seq<char>>
    decreases rules.len(),
{
    if rules.len() == 0 {
        None
    } else {
        match first_marker_failure(rules.drop_last()) {
            Some(m) => Some(m),
            None => if !regex_compiles(rules.last().pattern@) {
                Some(
                    "route marker_rules pattern '"@ + rules.last().pattern@ + "' does not compile: "@
                        + regex_error(rules.last().pattern@),
                )
            } else {
                None
            },
        }
    }
}

/// The refusal of the first section rule that does not compile.
pub open spec fn first_section_failure(rules: Seq<RawRule>) -> Option<Seq<char>>
    decreases rules.len(),
{
    if rules.len() == 0 {
        None
    } else {
        match first_section_failure(rules.drop_last()) {
            Some(m) => Some(m),
            None => rule_refusal(rules.last()),
        }
    }
}

/// The fate of one entry whose governing document probed as `p`: its
/// `files` glob must confine and compile, its `governed_by` must confine,
/// and its naming grammar, marker patterns and section rules must compile.
pub open spec fn entry_fate(e: RawEntry, p: Probe) -> EntryFate {
    match confinement(e.files@) {
        Err(v) => EntryFate::Dropped(LoadIssue::Confinement("files"@, e.files@, v)),
        Ok(_) => if !glob_compiles(e.files@) {
            EntryFate::Fails(
                "route files glob '"@ + e.files@ + "' does not compile: "@ + glob_error(e.files@),
            )
        } else {
            match confinement(e.governed_by@) {
                Err(v) => EntryFate::Dropped(LoadIssue::Confinement("governed_by"@, e.governed_by@, v)),
                Ok(_) => {
                    let naming_failure = match e.naming {
                        Some(n) => if !regex_compiles(n@) {
                            Some(
                                "route naming grammar '"@ + n@ + "' does not compile: "@ + regex_error(n@),
                            )
                        } else {
                            None
                        },
                        None => None,
                    };
                    match naming_failure {
                        Some(m) => EntryFate::Fails(m),
                        None => match first_marker_failure(e.marker_rules@) {
                            Some(m) => EntryFate::Fails(m),
                            None => match first_section_failure(e.section_rules@) {
                                Some(m) => EntryFate::Fails(m),
                                None => EntryFate::Kept(
                                    match p {
                                        Probe::Symlink => Some(LoadIssue::GovernedSymlink(e.governed_by@)),
                                        Probe::Unopenable => Some(LoadIssue::GovernedAbsent(e.governed_by@)),
                                        _ => None,
                                    },
                                ),
                            },
                        },
                    }
                },
            }
        },
    }
}

/// The message of the first entry whose load fails, in order.
pub open spec fn load_failure(entries: Seq<RawEntry>, probes: Seq<Probe>) -> Option<Seq<char>>
    decreases entries.len(),
{
    if entries.len() == 0 {
        None
    } else {
        match load_failure(entries.drop_last(), probes) {
            Some(m) => Some(m),
            None => match entry_fate(entries.last(), probes[entries.len() - 1]) {
                EntryFate::Fails(m) => Some(m),
                _ => None,
            },
        }
    }
}

/// The indices of the entries kept active, in order.
pub open spec fn kept_entries(entries: Seq<RawEntry>, probes: Seq<Probe>) -> Seq<int>
    decreases entries.len(),
{
    if entries.len() == 0 {
        Seq::empty()
    } else {
        let before = kept_entries(entries.drop_last(), probes);
        match entry_fate(entries.last(), probes[entries.len() - 1]) {
            EntryFate::Kept(_) => before.push(entries.len() - 1),
            _ => before,
        }
    }
}

/// The load issues, in entry order.
pub open spec fn load_issues(entries: Seq<RawEntry>, probes: Seq<Probe>) -> Seq<LoadIssue>
    decreases entries.len(),
{
    if entries.len() == 0 {
        Seq::empty()
    } else {
        let before = load_issues(entries.drop_last(), probes);
        match entry_fate(entries.last(), probes[entries.len() - 1]) {
            EntryFate::Dropped(i) => before.push(i),
            EntryFate::Kept(Some(i)) => before.push(i),
            _ => before,
        }
    }
}

/// A compiled marker rule carries its declaration.
pub open spec fn marker_rule_of(r: MarkerRule, raw: RawMarkerRule) -> bool {
    &&& r.pattern.source() == raw.pattern@
    &&& r.element == raw.element
    &&& r.target_doc@ == raw.target_doc@
    &&& match (r.target_section, raw.target_section) {
        (Some(a), Some(b)) => a@ == b@,
        (None, None) => true,
        _ => false,
    }
}

/// A compiled route carries its entry's declaration.
pub open spec fn route_of(r: Route, e: RawEntry) -> bool {
    &&& r.files.source() == e.files@
    &&& r.governed_by@ == e.governed_by@
    &&& match (r.naming, e.naming) {
        (Some(p), Some(n)) => p.source() == n@,
        (None, None) => true,
        _ => false,
    }
    &&& r.citations == e.citations
    &&& r.links == e.links
    &&& r.link_root == e.link_root
    &&& r.marker_rules@.len() == e.marker_rules@.len()
    &&& forall|k: int| 0 <= k < r.marker_rules@.len() ==> marker_rule_of(#[trigger] r.marker_rules@[k], e.marker_rules@[k])
    &&& r.section_rules@.len() == e.section_rules@.len()
    &&& forall|k: int| 0 <= k < r.section_rules@.len() ==> compiled_from(#[trigger] r.section_rules@[k], e.section_rules@[k])
}

/// The finding reporting `issue` against the route table at `table`.
pub open spec fn is_load_finding(f: Finding, table: Seq<char>, issue: LoadIssue) -> bool {
    &&& f.severity == Severity::Error
    &&& f.location.file@ == table && f.location.line == 1 && f.location.column == 0
    &&& f.explain_ref matches Some(e) && e@ == f.code@
    &&& f.quoted@.len() == 1 && !f.quoted@[0].platform_variant
    &&& match issue {
        LoadIssue::Confinement(field, value, v) => {
            &&& f.code@ == (match v {
                LexicalViolation::Absolute => "MDATRON-E0010"@,
                LexicalViolation::ParentSegment => "MDATRON-E0011"@,
            })
            &&& f.summary@ == (match v {
                LexicalViolation::Absolute => "absolute-path-refused"@,
                LexicalViolation::ParentSegment => "parent-segment-refused"@,
            })
            &&& f.message@ == "a route's "@ + field
                + " escapes the governed tree; the entry is dropped and the files it claimed are unrouted (fail-closed)"@
            &&& f.help matches Some(h) && h@
                == "route paths and globs are relative to the project root and may not carry parent segments or absolute prefixes"@
            &&& f.quoted@[0].label@ == field && f.quoted@[0].content@ == value
        },
        LoadIssue::GovernedSymlink(value) => {
            &&& f.code@ == "MDATRON-E0012"@
            &&& f.summary@ == "symlinked-component-refused"@
            &&& f.message@
                == "a route's governing document resolves through a symbolic link; no-follow resolution refuses it"@
            &&& f.help matches Some(h) && h@ == "point governed_by at the real file inside the governed tree"@
            &&& f.quoted@[0].label@ == "governed_by"@ && f.quoted@[0].content@ == value
        },
        LoadIssue::GovernedAbsent(value) => {
            &&& f.code@ == "MDATRON-E0031"@
            &&& f.summary@ == "governing-document-absent"@
            &&& f.message@
                == "a route cites a governing document that cannot be opened in the governed tree; the files it claims are governed by nothing"@
            &&& f.help matches Some(h) && h@ == "create the governing document, or correct the route's governed_by path"@
            &&& f.quoted@[0].label@ == "governed_by"@ && f.quoted@[0].content@ == value
        },
    }
}

fn load_finding(
    table: &str,
    code: &str,
    summary: &str,
    message: String,
    help: &str,
    label: &str,
    value: &str,
) -> (f: Finding)
    ensures
        f.code@ == code@,
        f.severity == Severity::Error,
        f.summary@ == summary@,
        f.message@ == message@,
        f.help matches Some(h) && h@ == help@,
        f.location.file@ == table@ && f.location.line == 1 && f.location.column == 0,
        f.explain_ref matches Some(e) && e@ == code@,
        f.quoted@.len() == 1 && !f.quoted@[0].platform_variant,
        f.quoted@[0].label@ == label@ && f.quoted@[0].content@ == value@,
{
    let mut quoted: Vec<QuotedRegion> = Vec::new();
    quoted.push(QuotedRegion { platform_variant: false, label: owned(label), content: owned(value) });
    whole_file_finding(code, Severity::Error, summary, message, help, table, quoted)
}

fn confinement_finding(table: &str, field: &str, value: &str, v: LexicalViolation) -> (f: Finding)
    ensures
        is_load_finding(f, table@, LoadIssue::Confinement(field@, value@, v)),
{
    let (code, summary) = match v {
        LexicalViolation::Absolute => ("MDATRON-E0010", "absolute-path-refused"),
        LexicalViolation::ParentSegment => ("MDATRON-E0011", "parent-segment-refused"),
    };
    let mut message = owned("a route's ");
    push_str(&mut message, field);
    push_str(
        &mut message,
        " escapes the governed tree; the entry is dropped and the files it claimed are unrouted (fail-closed)",
    );
    load_finding(
        table,
        code,
        summary,
        message,
        "route paths and globs are relative to the project root and may not carry parent segments or absolute prefixes",
        field,
        value,
    )
}

fn compile_section_rules(rules: &[RawRule]) -> (r: Result<Vec<Rule>, Error>)
    ensures
        match r {
            Ok(v) => first_section_failure(rules@) is None && v@.len() == rules@.len() && forall|k: int|
                0 <= k < v@.len() ==> compiled_from(#[trigger] v@[k], rules@[k]),
            Err(Error::Config(m)) => first_section_failure(rules@) == Some(m@),
        },
{
    let mut out: Vec<Rule> = Vec::new();
    let mut i: usize = 0;
    while i < rules.len()
        invariant
            i <= rules@.len(),
            first_section_failure(rules@.take(i as int)) is None,
            out@.len() == i,
            forall|k: int| 0 <= k < i ==> compiled_from(#[trigger] out@[k], rules@[k]),
        decreases rules.len() - i,
    {
        proof {
            assert(rules@.take(i + 1).drop_last() =~= rules@.take(i as int));
            assert(rules@.take(i + 1).last() == rules@[i as int]);
        }
        match compile_rule(&rules[i]) {
            Ok(rule) => {
                out.push(rule);
            },
            Err(e) => {
                proof {
                    lemma_section_failure_prefix(rules@, i as int + 1);
                }
                return Err(e);
            },
        }
        i = i + 1;
    }
    proof {
        assert(rules@.take(rules@.len() as int) =~= rules@);
    }
    Ok(out)
}

/// A failure in a prefix is the failure of the whole.
proof fn lemma_section_failure_prefix(rules: Seq<RawRule>, n: int)
    requires
        0 <= n <= rules.len(),
        first_section_failure(rules.take(n)) is Some,
    ensures
        first_section_failure(rules) == first_section_failure(rules.take(n)),
    decreases rules.len() - n,
{
    if n < rules.len() {
        assert(rules.take(n + 1).drop_last() =~= rules.take(n));
        lemma_section_failure_prefix(rules, n + 1);
    } else {
        assert(rules.take(n) =~= rules);
    }
}

fn compile_marker_rules(rules: &[RawMarkerRule]) -> (r: Result<Vec<MarkerRule>, Error>)
    ensures
        match r {
            Ok(v) => first_marker_failure(rules@) is None && v@.len() == rules@.len() && forall|k: int|
                0 <= k < v@.len() ==> marker_rule_of(#[trigger] v@[k], rules@[k]),
            Err(Error::Config(m)) => first_marker_failure(rules@) == Some(m@),
        },
{
    let mut out: Vec<MarkerRule> = Vec::new();
    let mut i: usize = 0;
    while i < rules.len()
        invariant
            i <= rules@.len(),
            first_marker_failure(rules@.take(i as int)) is None,
            out@.len() == i,
            forall|k: int| 0 <= k < i ==> marker_rule_of(#[trigger] out@[k], rules@[k]),
        decreases rules.len() - i,
    {
        let raw = &rules[i];
        proof {
            assert(rules@.take(i + 1).drop_last() =~= rules@.take(i as int));
            assert(rules@.take(i + 1).last() == rules@[i as int]);
        }
        let pattern = match LinePattern::compile(raw.pattern.as_str()) {
            Ok(p) => p,
            Err(e) => {
                let mut m = owned("route marker_rules pattern '");
                push_str(&mut m, raw.pattern.as_str());
                push_str(&mut m, "' does not compile: ");
                push_str(&mut m, e.as_str());
                proof {
                    lemma_marker_failure_prefix(rules@, i as int + 1);
                }
                return Err(Error::Config(m));
            },
        };
        let section = match &raw.target_section {
            Some(t) => Some(t.clone()),
            None => None,
        };
        out.push(MarkerRule { pattern, element: raw.element, target_doc: raw.target_doc.clone(), target_section: section });
        i = i + 1;
    }
    proof {
        assert(rules@.take(rules@.len() as int) =~= rules@);
    }
    Ok(out)
}

/// A failure in a prefix is the failure of the whole.
proof fn lemma_marker_failure_prefix(rules: Seq<RawMarkerRule>, n: int)
    requires
        0 <= n <= rules.len(),
        first_marker_failure(rules.take(n)) is Some,
    ensures
        first_marker_failure(rules) == first_marker_failure(rules.take(n)),
    decreases rules.len() - n,
{
    if n < rules.len() {
        assert(rules.take(n + 1).drop_last() =~= rules.take(n));
        lemma_marker_failure_prefix(rules, n + 1);
    } else {
        assert(rules.take(n) =~= rules);
    }
}

/// Compile one entry, appending its route and findings.
fn compile_entry(
    table: &str,
    e: &RawEntry,
    p: Probe,
    routes: &mut Vec<Route>,
    findings: &mut Vec<Finding>,
) -> (r: Result<(), Error>)
    ensures
        match entry_fate(*e, p) {
            EntryFate::Dropped(issue) => r is Ok && final(routes)@ == old(routes)@ && one_more(
                old(findings)@,
                final(findings)@,
            ) && is_load_finding(final(findings)@.last(), table@, issue),
            EntryFate::Fails(m) => r matches Err(Error::Config(x)) && x@ == m,
            EntryFate::Kept(issue) => r is Ok && one_more_route(old(routes)@, final(routes)@) && route_of(
                final(routes)@.last(),
                *e,
            ) && match issue {
                Some(i) => one_more(old(findings)@, final(findings)@) && is_load_finding(
                    final(findings)@.last(),
                    table@,
                    i,
                ),
                None => final(findings)@ == old(findings)@,
            },
        },
{
    if let Err(v) = confine_lexically(e.files.as_str()) {
        let f = confinement_finding(table, "files", e.files.as_str(), v);
        findings.push(f);
        proof {
            assert(findings@.take(old(findings)@.len() as int) =~= old(findings)@);
        }
        return Ok(());
    }
    let files = match FileGlob::compile(e.files.as_str()) {
        Ok(g) => g,
        Err(msg) => {
            let mut m = owned("route files glob '");
            push_str(&mut m, e.files.as_str());
            push_str(&mut m, "' does not compile: ");
            push_str(&mut m, msg.as_str());
            return Err(Error::Config(m));
        },
    };
    if let Err(v) = confine_lexically(e.governed_by.as_str()) {
        let f = confinement_finding(table, "governed_by", e.governed_by.as_str(), v);
        findings.push(f);
        proof {
            assert(findings@.take(old(findings)@.len() as int) =~= old(findings)@);
        }
        return Ok(());
    }
    let ghost findings0 = findings@;
    match p {
        Probe::Symlink => {
            let f = load_finding(
                table,
                "MDATRON-E0012",
                "symlinked-component-refused",
                owned("a route's governing document resolves through a symbolic link; no-follow resolution refuses it"),
                "point governed_by at the real file inside the governed tree",
                "governed_by",
                e.governed_by.as_str(),
            );
            findings.push(f);
        },
        Probe::Unopenable => {
            let f = load_finding(
                table,
                "MDATRON-E0031",
                "governing-document-absent",
                owned("a route cites a governing document that cannot be opened in the governed tree; the files it claims are governed by nothing"),
                "create the governing document, or correct the route's governed_by path",
                "governed_by",
                e.governed_by.as_str(),
            );
            findings.push(f);
        },
        _ => {},
    }
    proof {
        if findings@.len() > findings0.len() {
            assert(findings@.take(findings0.len() as int) =~= findings0);
        }
    }
    let naming = match &e.naming {
        None => None,
        Some(pattern) => match LinePattern::compile(pattern.as_str()) {
            Ok(r) => Some(r),
            Err(msg) => {
                let mut m = owned("route naming grammar '");
                push_str(&mut m, pattern.as_str());
                push_str(&mut m, "' does not compile: ");
                push_str(&mut m, msg.as_str());
                return Err(Error::Config(m));
            },
        },
    };
    let marker_rules = match compile_marker_rules(e.marker_rules.as_slice()) {
        Ok(v) => v,
        Err(x) => return Err(x),
    };
    let section_rules = match compile_section_rules(e.section_rules.as_slice()) {
        Ok(v) => v,
        Err(x) => return Err(x),
    };
    routes.push(
        Route {
            files,
            governed_by: e.governed_by.clone(),
            naming,
            citations: e.citations,
            links: e.links,
            link_root: e.link_root,
            marker_rules,
            section_rules,
        },
    );
    proof {
        assert(routes@.take(old(routes)@.len() as int) =~= old(routes)@);
    }
    Ok(())
}

/// `after` is `before` with one route appended.
pub open spec fn one_more_route(before: Seq<Route>, after: Seq<Route>) -> bool {
    after.len() == before.len() + 1 && after.take(before.len() as int) == before
}

/// Validate and compile the route table read from `table` (its entries, and
/// for each entry the probe of its confined governing document). A
/// confinement-violating entry yields its `E0010`/`E0011` finding and is
/// dropped (fail-closed); an entry whose governing document is symlinked or
/// cannot be opened yields `E0012`/`E0031` but stays active; a glob, naming
/// grammar, marker pattern or section rule that does not compile fails the
/// whole load.
pub fn compile_routes(table: &str, entries: &[RawEntry], probes: &[Probe]) -> (r: Result<LoadedRoutes, Error>)
    requires
        probes@.len() == entries@.len(),
    ensures
        match r {
            Ok(l) => {
                &&& load_failure(entries@, probes@) is None
                &&& l.routes@.len() == kept_entries(entries@, probes@).len()
                &&& forall|k: int| 0 <= k < l.routes@.len() ==> route_of(#[trigger] l.routes@[k], entries@[kept_entries(entries@, probes@)[k]])
                &&& l.findings@.len() == load_issues(entries@, probes@).len()
                &&& forall|k: int| 0 <= k < l.findings@.len() ==> is_load_finding(#[trigger] l.findings@[k], table@, load_issues(entries@, probes@)[k])
            },
            Err(Error::Config(m)) => load_failure(entries@, probes@) == Some(m@),
        },
{
    let mut routes: Vec<Route> = Vec::new();
    let mut findings: Vec<Finding> = Vec::new();
    let mut i: usize = 0;
    while i < entries.len()
        invariant
            i <= entries@.len(),
            probes@.len() == entries@.len(),
            load_failure(entries@.take(i as int), probes@) is None,
            routes@.len() == kept_entries(entries@.take(i as int), probes@).len(),
            forall|k: int| 0 <= k < routes@.len() ==> route_of(#[trigger] routes@[k], entries@[kept_entries(entries@.take(i as int), probes@)[k]]),
            findings@.len() == load_issues(entries@.take(i as int), probes@).len(),
            forall|k: int| 0 <= k < findings@.len() ==> is_load_finding(#[trigger] findings@[k], table@, load_issues(entries@.take(i as int), probes@)[k]),
            forall|k: int| 0 <= k < kept_entries(entries@.take(i as int), probes@).len() ==> 0 <= #[trigger] kept_entries(entries@.take(i as int), probes@)[k] < i,
        decreases entries.len() - i,
    {
        let ghost pre = entries@.take(i as int);
        let ghost cur = entries@.take(i + 1);
        let ghost routes0 = routes@;
        let ghost findings0 = findings@;
        proof {
            assert(cur.drop_last() =~= pre);
            assert(cur.last() == entries@[i as int]);
            assert(cur.len() - 1 == i);
        }
        let res = compile_entry(table, &entries[i], probes[i], &mut routes, &mut findings);
        match res {
            Err(x) => {
                proof {
                    lemma_failure_prefix(entries@, probes@, i as int + 1);
                }
                return Err(x);
            },
            Ok(()) => {},
        }
        proof {
            let kp = kept_entries(pre, probes@);
            let kc = kept_entries(cur, probes@);
            let ip = load_issues(pre, probes@);
            let ic = load_issues(cur, probes@);
            assert forall|k: int| 0 <= k < routes@.len() implies route_of(#[trigger] routes@[k], entries@[kc[k]]) by {
                if k < routes0.len() {
                    assert(routes@[k] == routes@.take(routes0.len() as int)[k]);
                    assert(kc[k] == kp[k]);
                }
            }
            assert forall|k: int| 0 <= k < findings@.len() implies is_load_finding(#[trigger] findings@[k], table@, ic[k]) by {
                if k < findings0.len() {
                    assert(findings@[k] == findings@.take(findings0.len() as int)[k]);
                    assert(ic[k] == ip[k]);
                }
            }
        }
        i = i + 1;
    }
    proof {
        assert(entries@.take(entries@.len() as int) =~= entries@);
    }
    Ok(LoadedRoutes { routes, findings })
}

/// A failure in a prefix is the failure of the whole.
proof fn lemma_failure_prefix(entries: Seq<RawEntry>, probes: Seq<Probe>, n: int)
    requires
        0 <= n <= entries.len(),
        load_failure(entries.take(n), probes) is Some,
    ensures
        load_failure(entries, probes) == load_failure(entries.take(n), probes),
    decreases entries.len() - n,
{
    if n < entries.len() {
        assert(entries.take(n + 1).drop_last() =~= entries.take(n));
        lemma_failure_prefix(entries, probes, n + 1);
    } else {
        assert(entries.take(n) =~= entries);
    }
}

} // verus!
