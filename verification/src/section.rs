//! Section-structural rules: declarative assertions over markdown body
//! sections. A count rule counts the elements of one class inside a section
//! (the span from its heading until the next heading of the same or a higher
//! level) whose line matches a pattern, and asserts a count predicate
//! (`>= 1`, `== 1`, `< 3`, ...). A disjoint rule reads an id from each
//! element of two sections and asserts the two id sets share none. A section
//! that occurs more than once is read over all its spans; one that occurs
//! nowhere is reported rather than read as empty.
use vstd::prelude::*;

use crate::markup::{atx_heading, atx_heading_of, bold_name_of, list_item_bold_name, live_lines};
use crate::diagnostic::{Finding, Location, QuotedRegion, Severity};
use crate::link::{contains_text, count_lines_before, lf_count, line_at, on_boundary, text_after};
use crate::markup::non_fenced_lines;
use crate::path_order::{in_text_order, sort_texts};
use crate::error::Error;
use crate::pattern::{regex_compiles, regex_error, regex_group1, LinePattern};
use crate::pin::quotes;
use crate::text::{
    byte_len, chars_of, decimal, fit_count, owned, parse_index, parse_index_at, push_decimal, push_str, same_text,
    trim, trim_bounds, utf8_len, views,
};

verus! {

/// A comparison operator of a count predicate.
#[derive(Debug, Clone, Copy, PartialEq, Eq, Structural)]
pub enum CmpOp {
    Eq,
    Ne,
    Lt,
    Le,
    Gt,
    Ge,
}

/// A count predicate: a comparison operator and a bound (`>= 1`).
#[derive(Debug, Clone, Copy, PartialEq, Eq, Structural)]
pub struct CountPred {
    pub op: CmpOp,
    pub n: usize,
}

/// Whether `count` satisfies `op n`.
pub open spec fn pred_holds(p: CountPred, count: int) -> bool {
    match p.op {
        CmpOp::Eq => count == p.n,
        CmpOp::Ne => count != p.n,
        CmpOp::Lt => count < p.n,
        CmpOp::Le => count <= p.n,
        CmpOp::Gt => count > p.n,
        CmpOp::Ge => count >= p.n,
    }
}

/// The spelling of an operator.
pub open spec fn op_text(op: CmpOp) -> Seq<char> {
    match op {
        CmpOp::Eq => "=="@,
        CmpOp::Ne => "!="@,
        CmpOp::Lt => "<"@,
        CmpOp::Le => "<="@,
        CmpOp::Gt => ">"@,
        CmpOp::Ge => ">="@,
    }
}

impl CountPred {
    /// Whether `count` satisfies the predicate.
    pub fn holds(&self, count: usize) -> (b: bool)
        ensures
            b == pred_holds(*self, count as int),
            self.op == CmpOp::Eq ==> (b <==> count == self.n),
            self.op == CmpOp::Ne ==> (b <==> count != self.n),
            self.op == CmpOp::Lt ==> (b <==> count < self.n),
            self.op == CmpOp::Le ==> (b <==> count <= self.n),
            self.op == CmpOp::Gt ==> (b <==> count > self.n),
            self.op == CmpOp::Ge ==> (b <==> count >= self.n),
    {
        match self.op {
            CmpOp::Eq => count == self.n,
            CmpOp::Ne => count != self.n,
            CmpOp::Lt => count < self.n,
            CmpOp::Le => count <= self.n,
            CmpOp::Gt => count > self.n,
            CmpOp::Ge => count >= self.n,
        }
    }

    /// The predicate as written: the operator, a space, the bound.
    pub fn describe(&self) -> (s: String)
        ensures
            s@ == op_text(self.op) + " "@ + decimal(self.n as nat),
    {
        let op = match self.op {
            CmpOp::Eq => "==",
            CmpOp::Ne => "!=",
            CmpOp::Lt => "<",
            CmpOp::Le => "<=",
            CmpOp::Gt => ">",
            CmpOp::Ge => ">=",
        };
        let mut s = owned(op);
        crate::text::push_str(&mut s, " ");
        push_decimal(&mut s, self.n as u64);
        s
    }
}

/// The operator a trimmed predicate text starts with, longest first, and the
/// length of its spelling.
pub open spec fn leading_op(s: Seq<char>) -> Option<(CmpOp, int)> {
    if s.len() >= 2 && s[0] == '>' && s[1] == '=' {
        Some((CmpOp::Ge, 2))
    } else if s.len() >= 2 && s[0] == '<' && s[1] == '=' {
        Some((CmpOp::Le, 2))
    } else if s.len() >= 2 && s[0] == '=' && s[1] == '=' {
        Some((CmpOp::Eq, 2))
    } else if s.len() >= 2 && s[0] == '!' && s[1] == '=' {
        Some((CmpOp::Ne, 2))
    } else if s.len() >= 1 && s[0] == '>' {
        Some((CmpOp::Gt, 1))
    } else if s.len() >= 1 && s[0] == '<' {
        Some((CmpOp::Lt, 1))
    } else {
        None
    }
}

/// The predicate a text states: `<op> <n>` with optional surrounding
/// whitespace, `n` an unsigned integer.
pub open spec fn count_pred_of(text: Seq<char>) -> Option<CountPred> {
    let s = trim(text);
    match leading_op(s) {
        None => None,
        Some((op, k)) => match parse_index(trim(s.skip(k))) {
            Some(n) => Some(CountPred { op, n: n as usize }),
            None => None,
        },
    }
}

/// Parse a count predicate string (`">= 1"`, `"== 1"`, ...): longest
/// operators first, so `>=` is not read as `>`.
pub fn parse_count_pred(text: &str) -> (r: Option<CountPred>)
    ensures
        r == count_pred_of(text@),
{
    let v = chars_of(text);
    let (a, b) = trim_bounds(&v, 0, v.len());
    let ghost s = trim(text@);
    proof {
        assert(v@.subrange(0, v@.len() as int) =~= v@);
        assert(s == v@.subrange(a as int, b as int));
    }
    let len = b - a;
    let (op, k): (CmpOp, usize) = if len >= 2 && v[a] == '>' && v[a + 1] == '=' {
        (CmpOp::Ge, 2)
    } else if len >= 2 && v[a] == '<' && v[a + 1] == '=' {
        (CmpOp::Le, 2)
    } else if len >= 2 && v[a] == '=' && v[a + 1] == '=' {
        (CmpOp::Eq, 2)
    } else if len >= 2 && v[a] == '!' && v[a + 1] == '=' {
        (CmpOp::Ne, 2)
    } else if len >= 1 && v[a] == '>' {
        (CmpOp::Gt, 1)
    } else if len >= 1 && v[a] == '<' {
        (CmpOp::Lt, 1)
    } else {
        proof {
            if s.len() >= 1 {
                assert(s[0] == v@[a as int]);
            }
            if s.len() >= 2 {
                assert(s[1] == v@[a + 1]);
            }
        }
        return None;
    };
    proof {
        assert(s[0] == v@[a as int]);
        if k == 2 {
            assert(s[1] == v@[a + 1]);
        }
        assert(leading_op(s) == Some((op, k as int)));
    }
    let (c, d) = trim_bounds(&v, a + k, b);
    proof {
        assert(v@.subrange(a + k, b as int) =~= s.skip(k as int));
    }
    match parse_index_at(&v, c, d) {
        Some(n) => Some(CountPred { op, n }),
        None => None,
    }
}


proof fn lemma_trim_fixed(t: Seq<char>)
    requires
        t.len() > 0,
        !crate::text::is_whitespace(t[0]),
        !crate::text::is_whitespace(t.last()),
    ensures
        trim(t) == t,
{
    assert(crate::text::lead_ws(t) == 0);
    assert(t.skip(0) =~= t);
    assert(crate::text::trail_ws(t) == 0);
    assert(t.take(t.len() as int) =~= t);
}

/// A described predicate reads back as itself: `describe` and
/// `parse_count_pred` are inverse on every predicate.
pub proof fn lemma_describe_parses_back(p: CountPred)
    ensures
        count_pred_of(op_text(p.op) + " "@ + decimal(p.n as nat)) == Some(p),
{
    let d = decimal(p.n as nat);
    crate::text::lemma_decimal(p.n as nat);
    reveal_strlit("==");
    reveal_strlit("!=");
    reveal_strlit("<");
    reveal_strlit("<=");
    reveal_strlit(">");
    reveal_strlit(">=");
    reveal_strlit(" ");
    let o = op_text(p.op);
    let t = o + " "@ + d;
    assert(crate::text::is_digit(d[0]));
    assert(crate::text::is_digit(d.last()));
    assert(t.last() == d.last());
    assert(t[0] == o[0]);
    lemma_trim_fixed(t);
    let k = o.len() as int;
    assert(leading_op(t) == Some((p.op, k)));
    let rest = t.skip(k);
    assert(rest =~= " "@ + d);
    assert(crate::text::lead_ws(rest) == 1) by {
        assert(rest.drop_first() =~= d);
        assert(crate::text::lead_ws(d) == 0);
    }
    assert(crate::text::trail_ws(rest) == 0) by {
        assert(rest.last() == d.last());
    }
    assert(trim(rest) =~= d) by {
        assert(rest.skip(1) =~= d);
        assert(crate::text::trail_ws(d) == 0);
        assert(d.take(d.len() as int) =~= d);
    }
    assert(parse_index(d) == Some(p.n as nat));
}


// ── Elements ───────────────────────────────────────────────────────────────

/// The element class a section rule counts, or reads ids from.
#[derive(Debug, Clone, Copy, PartialEq, Eq, Structural)]
pub enum SectionElement {
    /// A heading of any level.
    Heading,
    H1,
    H2,
    H3,
    H4,
    H5,
    H6,
    /// The leading `**bold**` name of a `- ` list item.
    ListItemBoldName,
}

/// The one heading level a class admits, if it names one.
pub open spec fn element_level(e: SectionElement) -> Option<nat> {
    match e {
        SectionElement::H1 => Some(1),
        SectionElement::H2 => Some(2),
        SectionElement::H3 => Some(3),
        SectionElement::H4 => Some(4),
        SectionElement::H5 => Some(5),
        SectionElement::H6 => Some(6),
        _ => None,
    }
}

/// The text of `line` as an element of class `e`: a heading's text, or a
/// bullet's bold name; `None` when the line is no such element.
pub open spec fn element_text(e: SectionElement, line: Seq<char>) -> Option<Seq<char>> {
    match e {
        SectionElement::ListItemBoldName => bold_name_of(line),
        _ => match atx_heading_of(line) {
            Some((lvl, t)) => if element_level(e) is None || element_level(e) == Some(lvl) {
                Some(t)
            } else {
                None
            },
            None => None,
        },
    }
}

/// The spelling of a class in a rule.
pub open spec fn element_name(e: SectionElement) -> Seq<char> {
    match e {
        SectionElement::Heading => "heading"@,
        SectionElement::H1 => "h1"@,
        SectionElement::H2 => "h2"@,
        SectionElement::H3 => "h3"@,
        SectionElement::H4 => "h4"@,
        SectionElement::H5 => "h5"@,
        SectionElement::H6 => "h6"@,
        SectionElement::ListItemBoldName => "list-item-bold-name"@,
    }
}

impl SectionElement {
    /// The element text of `line` for this class.
    pub fn name_in<'a>(&self, line: &'a str) -> (r: Option<&'a str>)
        ensures
            match r {
                Some(t) => element_text(*self, line@) == Some(t@),
                None => element_text(*self, line@) is None,
            },
    {
        let level: Option<usize> = match self {
            SectionElement::ListItemBoldName => {
                return list_item_bold_name(line);
            },
            SectionElement::Heading => None,
            SectionElement::H1 => Some(1),
            SectionElement::H2 => Some(2),
            SectionElement::H3 => Some(3),
            SectionElement::H4 => Some(4),
            SectionElement::H5 => Some(5),
            SectionElement::H6 => Some(6),
        };
        match atx_heading(line) {
            Some((l, t)) => match level {
                Some(want) => if l == want {
                    Some(t)
                } else {
                    None
                },
                None => Some(t),
            },
            None => None,
        }
    }

    /// The spelling of the class in a rule.
    pub fn as_str(&self) -> (s: &'static str)
        ensures
            s@ == element_name(*self),
    {
        match self {
            SectionElement::Heading => "heading",
            SectionElement::H1 => "h1",
            SectionElement::H2 => "h2",
            SectionElement::H3 => "h3",
            SectionElement::H4 => "h4",
            SectionElement::H5 => "h5",
            SectionElement::H6 => "h6",
            SectionElement::ListItemBoldName => "list-item-bold-name",
        }
    }
}

// ── Spans ──────────────────────────────────────────────────────────────────

/// Whether a span of the heading `want` (level, text) is open after the live
/// lines `ls`: a heading with `want`'s level and text opens one; another
/// heading of the same or a higher level closes it.
pub open spec fn span_open(ls: Seq<(nat, Seq<char>)>, want: (nat, Seq<char>)) -> bool
    decreases ls.len(),
{
    if ls.len() == 0 {
        false
    } else {
        match atx_heading_of(ls.last().1) {
            Some((lvl, txt)) => if lvl == want.0 && txt == want.1 {
                true
            } else if lvl <= want.0 {
                false
            } else {
                span_open(ls.drop_last(), want)
            },
            None => span_open(ls.drop_last(), want),
        }
    }
}

/// Whether `line`, read after the live lines `ls`, lies inside a span of
/// `want`. A heading that opens or closes a span is never inside one: each
/// span's own heading is its container, not one of its elements.
pub open spec fn inside_span(ls: Seq<(nat, Seq<char>)>, line: Seq<char>, want: (nat, Seq<char>)) -> bool {
    &&& span_open(ls, want)
    &&& match atx_heading_of(line) {
        Some((lvl, _)) => lvl > want.0,
        None => true,
    }
}

/// The number of elements of class `e` inside the spans of `want` whose
/// whole line `pattern` matches, summed over every span.
pub open spec fn span_count(ls: Seq<(nat, Seq<char>)>, want: (nat, Seq<char>), e: SectionElement, pattern: Seq<char>) -> nat
    decreases ls.len(),
{
    if ls.len() == 0 {
        0
    } else {
        let line = ls.last().1;
        span_count(ls.drop_last(), want, e, pattern) + if inside_span(ls.drop_last(), line, want)
            && element_text(e, line) is Some && regex_group1(pattern, line) is Some {
            1nat
        } else {
            0nat
        }
    }
}

/// The ids read from the elements of class `e` inside the spans of `want`:
/// capture group 1 of `pattern` over each element's text, over every span.
pub open spec fn span_ids(ls: Seq<(nat, Seq<char>)>, want: (nat, Seq<char>), e: SectionElement, pattern: Seq<char>) -> Set<Seq<char>>
    decreases ls.len(),
{
    if ls.len() == 0 {
        Set::empty()
    } else {
        let line = ls.last().1;
        let prev = span_ids(ls.drop_last(), want, e, pattern);
        if inside_span(ls.drop_last(), line, want) {
            match element_text(e, line) {
                Some(t) => match regex_group1(pattern, t) {
                    Some(Some(id)) => prev.insert(id),
                    _ => prev,
                },
                None => prev,
            }
        } else {
            prev
        }
    }
}

/// The offset of the first live heading with `want`'s level and text.
pub open spec fn first_heading(ls: Seq<(nat, Seq<char>)>, want: (nat, Seq<char>)) -> Option<nat>
    decreases ls.len(),
{
    if ls.len() == 0 {
        None
    } else {
        match first_heading(ls.drop_last(), want) {
            Some(o) => Some(o),
            None => if atx_heading_of(ls.last().1) == Some(want) {
                Some(ls.last().0)
            } else {
                None
            },
        }
    }
}

/// The view of a list of live lines.
pub open spec fn lines_view(ls: Seq<(usize, &str)>) -> Seq<(nat, Seq<char>)> {
    ls.map_values(|p: (usize, &str)| (p.0 as nat, p.1@))
}

/// Whether `line` lies inside a span of the heading (`level`, `text`), with
/// `open` whether a span is open before it; and whether one is open after it.
fn span_step(open: bool, line: &str, level: usize, text: &str) -> (r: (bool, bool))
    ensures
        r.0 == (open && match atx_heading_of(line@) {
            Some((lvl, _)) => lvl > level,
            None => true,
        }),
        r.1 == match atx_heading_of(line@) {
            Some((lvl, txt)) => if lvl == level && txt == text@ {
                true
            } else if lvl <= level {
                false
            } else {
                open
            },
            None => open,
        },
{
    match atx_heading(line) {
        Some((l, t)) => {
            let inside = open && l > level;
            if l == level && same_text(t, text) {
                (inside, true)
            } else if l <= level {
                (inside, false)
            } else {
                (inside, open)
            }
        },
        None => (open, open),
    }
}

/// Count the matching elements inside the spans of (`level`, `text`).
fn count_elements(lines: &Vec<(usize, &str)>, level: usize, text: &str, element: SectionElement, matcher: &LinePattern) -> (n: usize)
    ensures
        n == span_count(lines_view(lines@), (level as nat, text@), element, matcher.source()),
{
    let ghost ls = lines_view(lines@);
    let ghost want = (level as nat, text@);
    let mut open = false;
    let mut n: usize = 0;
    let mut i: usize = 0;
    proof {
        assert(ls.take(0) =~= Seq::<(nat, Seq<char>)>::empty());
    }
    while i < lines.len()
        invariant
            i <= lines@.len(),
            ls == lines_view(lines@),
            want == (level as nat, text@),
            open == span_open(ls.take(i as int), want),
            n == span_count(ls.take(i as int), want, element, matcher.source()),
            n <= i,
        decreases lines.len() - i,
    {
        let line = lines[i].1;
        proof {
            assert(ls.take(i + 1).drop_last() =~= ls.take(i as int));
            assert(ls.take(i + 1).last() == ls[i as int]);
            assert(ls[i as int].1 == line@);
        }
        let (inside, next) = span_step(open, line, level, text);
        if inside {
            if element.name_in(line).is_some() && matcher.group1(line).is_some() {
                n = n + 1;
            }
        }
        open = next;
        i = i + 1;
    }
    proof {
        assert(ls.take(lines@.len() as int) =~= ls);
    }
    n
}

/// Read the ids of the elements inside the spans of (`level`, `text`).
fn collect_ids(lines: &Vec<(usize, &str)>, level: usize, text: &str, element: SectionElement, pattern: &LinePattern) -> (ids: Vec<String>)
    ensures
        views(ids@).to_set() == span_ids(lines_view(lines@), (level as nat, text@), element, pattern.source()),
{
    let ghost ls = lines_view(lines@);
    let ghost want = (level as nat, text@);
    let mut open = false;
    let mut ids: Vec<String> = Vec::new();
    let mut i: usize = 0;
    proof {
        assert(ls.take(0) =~= Seq::<(nat, Seq<char>)>::empty());
        assert(views(ids@).to_set() =~= Set::<Seq<char>>::empty());
    }
    while i < lines.len()
        invariant
            i <= lines@.len(),
            ls == lines_view(lines@),
            want == (level as nat, text@),
            open == span_open(ls.take(i as int), want),
            views(ids@).to_set() == span_ids(ls.take(i as int), want, element, pattern.source()),
        decreases lines.len() - i,
    {
        let line = lines[i].1;
        let ghost before = views(ids@);
        proof {
            assert(ls.take(i + 1).drop_last() =~= ls.take(i as int));
            assert(ls.take(i + 1).last() == ls[i as int]);
            assert(ls[i as int].1 == line@);
        }
        let (inside, next) = span_step(open, line, level, text);
        if inside {
            if let Some(t) = element.name_in(line) {
                if let Some(Some(id)) = pattern.group1(t) {
                    let owned_id = owned(id);
                    ids.push(owned_id);
                    proof {
                        assert(views(ids@) =~= before.push(id@));
                        before.lemma_push_to_set_commute(id@);
                    }
                }
            }
        }
        open = next;
        i = i + 1;
    }
    proof {
        assert(ls.take(lines@.len() as int) =~= ls);
    }
    ids
}

/// The offset of the first live heading (`level`, `text`).
fn find_heading(lines: &Vec<(usize, &str)>, level: usize, text: &str) -> (r: Option<usize>)
    ensures
        r matches Some(o) ==> first_heading(lines_view(lines@), (level as nat, text@)) == Some(o as nat),
        r is None ==> first_heading(lines_view(lines@), (level as nat, text@)) is None,
{
    let ghost ls = lines_view(lines@);
    let ghost want = (level as nat, text@);
    let mut i: usize = 0;
    proof {
        assert(ls.take(0) =~= Seq::<(nat, Seq<char>)>::empty());
    }
    while i < lines.len()
        invariant
            i <= lines@.len(),
            ls == lines_view(lines@),
            want == (level as nat, text@),
            first_heading(ls.take(i as int), want) is None,
        decreases lines.len() - i,
    {
        let line = lines[i].1;
        proof {
            assert(ls.take(i + 1).drop_last() =~= ls.take(i as int));
            assert(ls.take(i + 1).last() == ls[i as int]);
            assert(ls[i as int].1 == line@);
            assert(ls[i as int].0 == lines@[i as int].0 as nat);
        }
        match atx_heading(line) {
            Some((l, t)) => {
                if l == level && same_text(t, text) {
                    proof {
                        lemma_first_heading_extends(ls, i as int + 1, want);
                    }
                    return Some(lines[i].0);
                }
            },
            None => {},
        }
        i = i + 1;
    }
    proof {
        assert(ls.take(lines@.len() as int) =~= ls);
    }
    None
}

/// Once found, the first heading stays the first as more lines are read.
proof fn lemma_first_heading_extends(ls: Seq<(nat, Seq<char>)>, k: int, want: (nat, Seq<char>))
    requires
        0 <= k <= ls.len(),
        first_heading(ls.take(k), want) is Some,
    ensures
        first_heading(ls, want) == first_heading(ls.take(k), want),
    decreases ls.len() - k,
{
    if k < ls.len() {
        assert(ls.take(k + 1).drop_last() =~= ls.take(k));
        lemma_first_heading_extends(ls, k + 1, want);
    } else {
        assert(ls.take(k) =~= ls);
    }
}


// ── Rules and their findings ───────────────────────────────────────────────

/// A compiled disjointness operand: ids are capture group 1 of `id_pattern`
/// over the text of each `element` inside `section`.
#[derive(Debug)]
pub struct Operand {
    pub section: String,
    pub element: SectionElement,
    pub id_pattern: LinePattern,
}

/// A compiled section rule.
#[derive(Debug)]
pub enum Rule {
    /// Count the `element`s inside `section` whose line `matcher` matches,
    /// and assert `pred` of the count.
    Count { section: String, element: SectionElement, matcher: LinePattern, pred: CountPred },
    /// Assert the id sets of two sections share no id.
    Disjoint { a: Operand, b: Operand },
}

/// What checking a rule reports: the line, code, summary, message, the
/// quoted regions (label, content), and, for an overlap, the shared ids
/// quoted after them.
pub type SectionIssue = (nat, Seq<char>, Seq<char>, Seq<char>, Seq<(Seq<char>, Seq<char>)>, Option<Set<Seq<char>>>);

/// The offset of the first live heading that `section` names, when
/// `section` is a heading and one is found.
pub open spec fn found(ls: Seq<(nat, Seq<char>)>, section: Seq<char>) -> Option<nat> {
    match atx_heading_of(section) {
        Some(want) => first_heading(ls, want),
        None => None,
    }
}

pub open spec fn count_absent_message() -> Seq<char> {
    "no heading in this document matches the section rule's section spec (matching is exact on level and text), so its count assertion cannot be evaluated"@
}

pub open spec fn operand_absent_message() -> Seq<char> {
    "no heading in this document matches a disjointness operand's section spec (matching is exact on level and text), so the disjointness assertion cannot be evaluated"@
}

pub open spec fn overlap_message() -> Seq<char> {
    "two sections that must have disjoint ids share one or more"@
}

/// The message of a count violation.
pub open spec fn count_message(n: nat, e: SectionElement, pred: CountPred) -> Seq<char> {
    "the named section has "@ + decimal(n) + " matching "@ + element_name(e)
        + " element(s) across its matching span(s); the rule requires the count "@ + op_text(pred.op) + " "@
        + decimal(pred.n as nat)
}

/// The report of a section that no heading matches.
pub open spec fn absent_issue(section: Seq<char>, message: Seq<char>) -> SectionIssue {
    (1, "MDATRON-E0122"@, "section-not-found"@, message, seq![("section"@, section)], None)
}

/// What one rule reports on a file whose body (after `body_offset`) has the
/// live lines `ls`.
pub open spec fn rule_issues(rule: Rule, content: Seq<char>, body_offset: int) -> Seq<SectionIssue> {
    let ls = live_lines(text_after(content, body_offset));
    match rule {
        Rule::Count { section, element, matcher, pred } => match found(ls, section@) {
            None => seq![absent_issue(section@, count_absent_message())],
            Some(o) => {
                let n = span_count(ls, atx_heading_of(section@)->0, element, matcher.source());
                if pred_holds(pred, n as int) {
                    seq![]
                } else {
                    seq![
                        (
                            line_at(content, body_offset + o),
                            "MDATRON-E0120"@,
                            "section-count-violation"@,
                            count_message(n, element, pred),
                            seq![("section"@, section@)],
                            None,
                        ),
                    ]
                }
            },
        },
        Rule::Disjoint { a, b } => {
            let fa = found(ls, a.section@);
            let fb = found(ls, b.section@);
            let absent_a = if fa is None {
                seq![absent_issue(a.section@, operand_absent_message())]
            } else {
                seq![]
            };
            let absent_b = if fb is None {
                seq![absent_issue(b.section@, operand_absent_message())]
            } else {
                seq![]
            };
            let overlap = match (fa, fb) {
                (Some(oa), Some(_)) => {
                    let shared = span_ids(ls, atx_heading_of(a.section@)->0, a.element, a.id_pattern.source()).intersect(
                        span_ids(ls, atx_heading_of(b.section@)->0, b.element, b.id_pattern.source()),
                    );
                    if shared == Set::<Seq<char>>::empty() {
                        seq![]
                    } else {
                        seq![
                            (
                                line_at(content, body_offset + oa),
                                "MDATRON-E0121"@,
                                "section-ids-not-disjoint"@,
                                overlap_message(),
                                seq![("section a"@, a.section@), ("section b"@, b.section@)],
                                Some(shared),
                            ),
                        ]
                    }
                },
                _ => seq![],
            };
            absent_a + absent_b + overlap
        },
    }
}

/// What the rules report on a file, rule by rule.
pub open spec fn section_issues(rules: Seq<Rule>, content: Seq<char>, body_offset: int) -> Seq<SectionIssue>
    decreases rules.len(),
{
    if rules.len() == 0 {
        seq![]
    } else {
        section_issues(rules.drop_last(), content, body_offset) + rule_issues(rules.last(), content, body_offset)
    }
}

/// Texts joined by `, `.
pub open spec fn join_comma(ts: Seq<Seq<char>>) -> Seq<char>
    decreases ts.len(),
{
    if ts.len() == 0 {
        seq![]
    } else if ts.len() == 1 {
        ts[0]
    } else {
        join_comma(ts.drop_last()) + ", "@ + ts.last()
    }
}

/// The shared ids, quoted once each in text order.
pub open spec fn quotes_shared(q: QuotedRegion, shared: Set<Seq<char>>) -> bool {
    &&& !q.platform_variant
    &&& q.label@ == "shared ids"@
    &&& exists|ts: Seq<Seq<char>>|
        ts.no_duplicates() && in_text_order(ts) && ts.to_set() == shared && q.content@ == #[trigger] join_comma(ts)
}

/// `f` is the error finding on `path` that `iss` describes.
pub open spec fn is_section_finding(f: Finding, path: Seq<char>, iss: SectionIssue) -> bool {
    let n = iss.4.len();
    &&& f.code@ == iss.1
    &&& f.severity == Severity::Error
    &&& f.summary@ == iss.2
    &&& f.message@ == iss.3
    &&& f.help is None
    &&& f.location.file@ == path
    &&& f.location.line == iss.0
    &&& f.location.column == 0
    &&& f.explain_ref matches Some(r) && r@ == iss.1
    &&& forall|k: int| 0 <= k < n ==> quotes(#[trigger] f.quoted@[k], iss.4[k].0, iss.4[k].1)
    &&& match iss.5 {
        None => f.quoted@.len() == n,
        Some(shared) => f.quoted@.len() == n + 1 && quotes_shared(f.quoted@[n as int], shared),
    }
}

/// `fs` are the findings that `iss` describe, in order.
pub open spec fn findings_match(fs: Seq<Finding>, path: Seq<char>, iss: Seq<SectionIssue>) -> bool {
    fs.len() == iss.len() && forall|k: int| 0 <= k < iss.len() ==> is_section_finding(#[trigger] fs[k], path, iss[k])
}

fn quote(label: &str, content: &str) -> (q: QuotedRegion)
    ensures
        quotes(q, label@, content@),
{
    QuotedRegion { platform_variant: false, label: owned(label), content: owned(content) }
}

fn section_finding(path: &str, line: u32, code: &str, summary: &str, message: String, quoted: Vec<QuotedRegion>) -> (f: Finding)
    ensures
        f.code@ == code@,
        f.severity == Severity::Error,
        f.summary@ == summary@,
        f.message@ == message@,
        f.help is None,
        f.location.file@ == path@,
        f.location.line == line,
        f.location.column == 0,
        f.explain_ref matches Some(r) && r@ == code@,
        f.quoted@ == quoted@,
{
    Finding {
        code: owned(code),
        severity: Severity::Error,
        summary: owned(summary),
        message,
        help: None,
        location: Location { file: owned(path), line, column: 0 },
        explain_ref: Some(owned(code)),
        quoted,
    }
}

fn absent_finding(path: &str, section: &str, message: &str) -> (f: Finding)
    ensures
        is_section_finding(f, path@, absent_issue(section@, message@)),
{
    let mut q: Vec<QuotedRegion> = Vec::new();
    q.push(quote("section", section));
    let f = section_finding(path, 1, "MDATRON-E0122", "section-not-found", owned(message), q);
    proof {
        assert(f.quoted@[0] == q@[0]);
    }
    f
}

/// Texts joined by `, `.
fn join_texts(ts: &Vec<String>) -> (s: String)
    ensures
        s@ == join_comma(views(ts@)),
{
    let mut s = String::new();
    let mut i: usize = 0;
    proof {
        assert(views(ts@).take(0) =~= Seq::<Seq<char>>::empty());
    }
    while i < ts.len()
        invariant
            i <= ts@.len(),
            s@ == join_comma(views(ts@).take(i as int)),
        decreases ts.len() - i,
    {
        let ghost before = s@;
        proof {
            assert(views(ts@).take(i + 1).drop_last() =~= views(ts@).take(i as int));
            assert(views(ts@).take(i + 1).last() == ts@[i as int]@);
        }
        if i > 0 {
            push_str(&mut s, ", ");
        } else {
            proof {
                assert(before =~= Seq::<char>::empty());
            }
        }
        push_str(&mut s, ts[i].as_str());
        proof {
            if i > 0 {
                assert(s@ =~= before + ", "@ + ts@[i as int]@);
            } else {
                assert(s@ =~= ts@[i as int]@);
            }
        }
        i = i + 1;
    }
    proof {
        assert(views(ts@).take(ts@.len() as int) =~= views(ts@));
    }
    s
}

/// The ids of `a` that `b` also has, each once.
fn shared_ids(a: &Vec<String>, b: &Vec<String>) -> (r: Vec<String>)
    ensures
        views(r@).no_duplicates(),
        views(r@).to_set() == views(a@).to_set().intersect(views(b@).to_set()),
{
    let mut r: Vec<String> = Vec::new();
    let mut i: usize = 0;
    proof {
        assert(views(r@).to_set() =~= views(a@).take(0).to_set().intersect(views(b@).to_set()));
    }
    while i < a.len()
        invariant
            i <= a@.len(),
            views(r@).no_duplicates(),
            views(r@).to_set() == views(a@).take(i as int).to_set().intersect(views(b@).to_set()),
        decreases a.len() - i,
    {
        let ghost before = views(r@);
        proof {
            assert(views(a@).take(i + 1) =~= views(a@).take(i as int).push(a@[i as int]@));
            views(a@).take(i as int).lemma_push_to_set_commute(a@[i as int]@);
        }
        if contains_text(b, &a[i]) && !contains_text(&r, &a[i]) {
            let x = a[i].clone();
            r.push(x);
            proof {
                assert(views(r@) =~= before.push(a@[i as int]@));
                before.lemma_push_to_set_commute(a@[i as int]@);
                assert(!before.contains(a@[i as int]@));
                assert forall|p: int, q: int| 0 <= p < q < views(r@).len() implies views(r@)[p] != views(r@)[q] by {
                    if q == before.len() {
                        assert(before.contains(before[p]));
                    }
                }
                assert(views(r@).to_set() =~= views(a@).take(i + 1).to_set().intersect(views(b@).to_set()));
            }
        } else {
            proof {
                if views(b@).contains(a@[i as int]@) {
                    assert(before.to_set().contains(a@[i as int]@));
                }
                assert(views(r@).to_set() =~= views(a@).take(i + 1).to_set().intersect(views(b@).to_set()));
            }
        }
        i = i + 1;
    }
    proof {
        assert(views(a@).take(a@.len() as int) =~= views(a@));
    }
    r
}

/// The first heading's offset in the body lies on a character boundary of
/// the whole file, within it.
proof fn lemma_heading_offset(content: Seq<char>, bo: int, ls: Seq<(nat, Seq<char>)>, i: int)
    requires
        0 <= bo,
        on_boundary(content, bo),
        ls == live_lines(text_after(content, bo)),
        0 <= i < ls.len(),
    ensures
        on_boundary(content, bo + ls[i].0),
        ls[i].0 == 0 || bo + ls[i].0 <= byte_len(content),
{
    let body = text_after(content, bo);
    crate::markup::lemma_live_lines_placed(body);
    assert(crate::markup::placed(body, ls[i]));
    let c = choose|c: int|
        0 <= c && c + ls[i].1.len() <= body.len() && byte_len(#[trigger] body.take(c)) == ls[i].0 && body.subrange(
            c,
            c + ls[i].1.len(),
        ) == ls[i].1;
    crate::text::lemma_fit(content, bo);
    let fc = fit_count(content, bo) as int;
    if byte_len(content) <= bo {
        assert(content.take(fc).len() == fc);
        assert(fc == content.len());
        assert(body.len() == 0);
        assert(body.take(c) =~= Seq::<char>::empty());
    } else {
        assert(byte_len(content.take(fc)) == bo);
        assert(content.take(fc + c) =~= content.take(fc) + body.take(c));
        crate::text::lemma_byte_len_concat(content.take(fc), body.take(c));
        crate::link::lemma_boundary_of_prefix(content, fc + c);
        crate::text::lemma_byte_len_take_mono(content, fc + c, content.len() as int);
        assert(content.take(content.len() as int) =~= content);
    }
}

/// The first heading found is one of the live lines.
proof fn lemma_first_heading_member(ls: Seq<(nat, Seq<char>)>, want: (nat, Seq<char>))
    requires
        first_heading(ls, want) is Some,
    ensures
        exists|i: int| 0 <= i < ls.len() && ls[i].0 == first_heading(ls, want)->0,
    decreases ls.len(),
{
    if first_heading(ls.drop_last(), want) is Some {
        lemma_first_heading_member(ls.drop_last(), want);
        let i = choose|i: int| 0 <= i < ls.drop_last().len() && ls.drop_last()[i].0 == first_heading(ls.drop_last(), want)->0;
        assert(ls[i] == ls.drop_last()[i]);
    } else {
        assert(ls[ls.len() - 1] == ls.last());
    }
}

/// The heading `section` names and the offset of its first live occurrence.
fn locate<'a>(lines: &Vec<(usize, &str)>, section: &'a str) -> (r: Option<(usize, &'a str, usize)>)
    ensures
        match r {
            Some((l, t, o)) => atx_heading_of(section@) == Some((l as nat, t@)) && found(lines_view(lines@), section@)
                == Some(o as nat),
            None => found(lines_view(lines@), section@) is None,
        },
{
    match atx_heading(section) {
        Some((l, t)) => match find_heading(lines, l, t) {
            Some(o) => Some((l, t, o)),
            None => None,
        },
        None => None,
    }
}

/// The line of the body offset `o` in the whole file.
fn line_of(content: &str, body_offset: usize, ghost_lines: Ghost<Seq<(nat, Seq<char>)>>, o: usize, want: Ghost<(nat, Seq<char>)>) -> (n: u32)
    requires
        on_boundary(content@, body_offset as int),
        lf_count(content@) < u32::MAX,
        ghost_lines@ == live_lines(text_after(content@, body_offset as int)),
        first_heading(ghost_lines@, want@) == Some(o as nat),
    ensures
        n == line_at(content@, body_offset + o),
{
    let total = utf8_len(content);
    proof {
        lemma_first_heading_member(ghost_lines@, want@);
        let i = choose|i: int| 0 <= i < ghost_lines@.len() && ghost_lines@[i].0 == o as nat;
        lemma_heading_offset(content@, body_offset as int, ghost_lines@, i);
    }
    if o == 0 {
        count_lines_before(content, body_offset)
    } else {
        count_lines_before(content, body_offset + o)
    }
}


proof fn lemma_findings_match_concat(
    fs1: Seq<Finding>,
    fs2: Seq<Finding>,
    path: Seq<char>,
    is1: Seq<SectionIssue>,
    is2: Seq<SectionIssue>,
)
    requires
        findings_match(fs1, path, is1),
        findings_match(fs2, path, is2),
    ensures
        findings_match(fs1 + fs2, path, is1 + is2),
{
    assert forall|k: int| 0 <= k < (is1 + is2).len() implies is_section_finding(#[trigger] (fs1 + fs2)[k], path, (is1 + is2)[k]) by {
        if k < is1.len() {
            assert((fs1 + fs2)[k] == fs1[k]);
        } else {
            assert((fs1 + fs2)[k] == fs2[k - is1.len()]);
        }
    }
}

/// Apply one rule to a file whose body's live lines are `lines`.
fn check_rule(
    rule: &Rule,
    path: &str,
    content: &str,
    body_offset: usize,
    lines: &Vec<(usize, &str)>,
    findings: &mut Vec<Finding>,
)
    requires
        on_boundary(content@, body_offset as int),
        lf_count(content@) < u32::MAX,
        lines_view(lines@) == live_lines(text_after(content@, body_offset as int)),
    ensures
        final(findings)@.len() >= old(findings)@.len(),
        final(findings)@.take(old(findings)@.len() as int) == old(findings)@,
        findings_match(
            final(findings)@.skip(old(findings)@.len() as int),
            path@,
            rule_issues(*rule, content@, body_offset as int),
        ),
{
    let ghost ls = lines_view(lines@);
    let ghost base = findings@;
    match rule {
        Rule::Count { section, element, matcher, pred } => {
            match locate(lines, section.as_str()) {
                None => {
                    let f = absent_finding(
                        path,
                        section.as_str(),
                        "no heading in this document matches the section rule's section spec (matching is exact on level and text), so its count assertion cannot be evaluated",
                    );
                    findings.push(f);
                    proof {
                        assert(findings@.take(base.len() as int) =~= base);
                        assert(findings@.skip(base.len() as int) =~= seq![f]);
                    }
                },
                Some((l, t, o)) => {
                    let n = count_elements(lines, l, t, *element, matcher);
                    if !pred.holds(n) {
                        let line = line_of(content, body_offset, Ghost(ls), o, Ghost((l as nat, t@)));
                        let mut m = owned("the named section has ");
                        push_decimal(&mut m, n as u64);
                        push_str(&mut m, " matching ");
                        push_str(&mut m, element.as_str());
                        push_str(&mut m, " element(s) across its matching span(s); the rule requires the count ");
                        let d = pred.describe();
                        push_str(&mut m, d.as_str());
                        proof {
                            assert(m@ =~= count_message(n as nat, *element, *pred));
                        }
                        let mut q: Vec<QuotedRegion> = Vec::new();
                        q.push(quote("section", section.as_str()));
                        let f = section_finding(path, line, "MDATRON-E0120", "section-count-violation", m, q);
                        findings.push(f);
                        proof {
                            assert(f.quoted@[0] == q@[0]);
                            assert(findings@.take(base.len() as int) =~= base);
                            assert(findings@.skip(base.len() as int) =~= seq![f]);
                        }
                    } else {
                        proof {
                            assert(findings@.skip(base.len() as int) =~= Seq::<Finding>::empty());
                            assert(findings@.take(base.len() as int) =~= base);
                        }
                    }
                },
            }
        },
        Rule::Disjoint { a, b } => {
            let la = locate(lines, a.section.as_str());
            let lb = locate(lines, b.section.as_str());
            let ghost iss_a: Seq<SectionIssue> = if la is None {
                seq![absent_issue(a.section@, operand_absent_message())]
            } else {
                seq![]
            };
            let ghost iss_b: Seq<SectionIssue> = if lb is None {
                seq![absent_issue(b.section@, operand_absent_message())]
            } else {
                seq![]
            };
            let mut added: Vec<Finding> = Vec::new();
            if la.is_none() {
                added.push(
                    absent_finding(
                        path,
                        a.section.as_str(),
                        "no heading in this document matches a disjointness operand's section spec (matching is exact on level and text), so the disjointness assertion cannot be evaluated",
                    ),
                );
            }
            proof {
                assert(findings_match(added@, path@, iss_a));
            }
            let ghost after_a = added@;
            if lb.is_none() {
                added.push(
                    absent_finding(
                        path,
                        b.section.as_str(),
                        "no heading in this document matches a disjointness operand's section spec (matching is exact on level and text), so the disjointness assertion cannot be evaluated",
                    ),
                );
            }
            proof {
                assert(findings_match(added@.skip(after_a.len() as int), path@, iss_b)) by {
                    if lb is None {
                        assert(added@.skip(after_a.len() as int) =~= seq![added@.last()]);
                    } else {
                        assert(added@.skip(after_a.len() as int) =~= Seq::<Finding>::empty());
                    }
                }
                assert(added@ =~= after_a + added@.skip(after_a.len() as int));
                lemma_findings_match_concat(after_a, added@.skip(after_a.len() as int), path@, iss_a, iss_b);
            }
            let ghost after_b = added@;
            let ghost iss_o: Seq<SectionIssue> = seq![];
            match (la, lb) {
                (Some((l1, t1, o1)), Some((l2, t2, _))) => {
                    let ids_a = collect_ids(lines, l1, t1, a.element, &a.id_pattern);
                    let ids_b = collect_ids(lines, l2, t2, b.element, &b.id_pattern);
                    let shared = shared_ids(&ids_a, &ids_b);
                    let ghost set = views(shared@).to_set();
                    if shared.len() > 0 {
                        proof {
                            assert(set.contains(views(shared@)[0]));
                        }
                        let sorted = sort_texts(shared);
                        let text = join_texts(&sorted);
                        let line = line_of(content, body_offset, Ghost(ls), o1, Ghost((l1 as nat, t1@)));
                        let mut q: Vec<QuotedRegion> = Vec::new();
                        q.push(quote("section a", a.section.as_str()));
                        q.push(quote("section b", b.section.as_str()));
                        q.push(QuotedRegion { platform_variant: false, label: owned("shared ids"), content: text });
                        let f = section_finding(
                            path,
                            line,
                            "MDATRON-E0121",
                            "section-ids-not-disjoint",
                            owned("two sections that must have disjoint ids share one or more"),
                            q,
                        );
                        proof {
                            assert(views(sorted@).to_set() =~= set);
                            assert(f.quoted@[0] == q@[0]);
                            assert(f.quoted@[1] == q@[1]);
                            assert(f.quoted@[2] == q@[2]);
                            assert(quotes_shared(f.quoted@[2], set));
                            iss_o = seq![
                                (
                                    line_at(content@, body_offset + o1),
                                    "MDATRON-E0121"@,
                                    "section-ids-not-disjoint"@,
                                    overlap_message(),
                                    seq![("section a"@, a.section@), ("section b"@, b.section@)],
                                    Some(set),
                                ),
                            ];
                            assert(is_section_finding(f, path@, iss_o[0]));
                        }
                        added.push(f);
                        proof {
                            assert(added@.skip(after_b.len() as int) =~= seq![f]);
                        }
                    } else {
                        proof {
                            assert(set =~= Set::<Seq<char>>::empty());
                            assert(added@.skip(after_b.len() as int) =~= Seq::<Finding>::empty());
                        }
                    }
                },
                _ => {
                    proof {
                        assert(added@.skip(after_b.len() as int) =~= Seq::<Finding>::empty());
                    }
                },
            }
            proof {
                assert(findings_match(added@.skip(after_b.len() as int), path@, iss_o));
                assert(added@ =~= after_b + added@.skip(after_b.len() as int));
                lemma_findings_match_concat(after_b, added@.skip(after_b.len() as int), path@, iss_a + iss_b, iss_o);
                assert(rule_issues(*rule, content@, body_offset as int) =~= iss_a + iss_b + iss_o);
            }
            let ghost all = added@;
            findings.append(&mut added);
            proof {
                assert(findings@.take(base.len() as int) =~= base);
                assert(findings@.skip(base.len() as int) =~= all);
            }
        },
    }
}


/// The rules behind a list of borrowed rules.
pub open spec fn derefs(rs: Seq<&Rule>) -> Seq<Rule> {
    rs.map_values(|r: &Rule| *r)
}

/// Apply the section rules of every route claiming a file to it. `content` is
/// the whole file and `body_offset` where its body begins; each rule's
/// reports are appended in rule order.
pub fn check_file(rules: &[&Rule], path: &str, content: &str, body_offset: usize, findings: &mut Vec<Finding>)
    requires
        on_boundary(content@, body_offset as int),
        lf_count(content@) < u32::MAX,
    ensures
        final(findings)@.len() >= old(findings)@.len(),
        final(findings)@.take(old(findings)@.len() as int) == old(findings)@,
        findings_match(
            final(findings)@.skip(old(findings)@.len() as int),
            path@,
            section_issues(derefs(rules@), content@, body_offset as int),
        ),
{
    let ghost base = findings@;
    if rules.len() == 0 {
        proof {
            assert(findings@.skip(base.len() as int) =~= Seq::<Finding>::empty());
            assert(findings@.take(base.len() as int) =~= base);
        }
        return;
    }
    let cv = chars_of(content);
    let k = crate::text::fit_chars(&cv, body_offset);
    proof {
        crate::text::lemma_fit(cv@, body_offset as int);
        assert(cv@.subrange(k as int, cv@.len() as int) =~= text_after(content@, body_offset as int));
    }
    let body = content.substring_char(k, cv.len());
    let lines = non_fenced_lines(body);
    proof {
        assert(lines_view(lines@) == live_lines(text_after(content@, body_offset as int)));
    }
    let mut i: usize = 0;
    proof {
        assert(derefs(rules@).take(0) =~= Seq::<Rule>::empty());
        assert(findings@.skip(base.len() as int) =~= Seq::<Finding>::empty());
        assert(findings@.take(base.len() as int) =~= base);
    }
    while i < rules.len()
        invariant
            i <= rules@.len(),
            on_boundary(content@, body_offset as int),
            lf_count(content@) < u32::MAX,
            lines_view(lines@) == live_lines(text_after(content@, body_offset as int)),
            findings@.len() >= base.len(),
            findings@.take(base.len() as int) == base,
            findings_match(
                findings@.skip(base.len() as int),
                path@,
                section_issues(derefs(rules@).take(i as int), content@, body_offset as int),
            ),
        decreases rules.len() - i,
    {
        let ghost before = findings@;
        check_rule(rules[i], path, content, body_offset, &lines, findings);
        proof {
            assert(derefs(rules@).take(i + 1).drop_last() =~= derefs(rules@).take(i as int));
            assert(derefs(rules@).take(i + 1).last() == *rules@[i as int]);
            assert(findings@.skip(base.len() as int) =~= before.skip(base.len() as int) + findings@.skip(
                before.len() as int,
            )) by {
                assert(findings@.take(before.len() as int) == before);
            }
            lemma_findings_match_concat(
                before.skip(base.len() as int),
                findings@.skip(before.len() as int),
                path@,
                section_issues(derefs(rules@).take(i as int), content@, body_offset as int),
                rule_issues(*rules@[i as int], content@, body_offset as int),
            );
            assert(findings@.take(base.len() as int) =~= base) by {
                assert(findings@.take(before.len() as int) == before);
                assert(before.take(base.len() as int) == base);
            }
        }
        i = i + 1;
    }
    proof {
        assert(derefs(rules@).take(rules@.len() as int) =~= derefs(rules@));
    }
}


// ── Compiling declared rules ───────────────────────────────────────────────

/// One disjointness operand as declared.
#[derive(Debug, Clone, PartialEq, Eq)]
pub struct RawOperand {
    pub section: String,
    pub element: SectionElement,
    pub id_pattern: String,
}

/// One section rule as declared under a route's `section_rules:`: either a
/// count rule (`section`, `element`, `match`, `count`) or a `disjoint` rule.
#[derive(Debug, Clone, PartialEq, Eq)]
pub struct RawRule {
    pub section: Option<String>,
    pub element: Option<SectionElement>,
    pub match_pattern: Option<String>,
    pub count: Option<String>,
    pub disjoint: Option<Vec<RawOperand>>,
}

/// The class a rule spells `name`; the retired spellings `h3-heading` and
/// `bullet-lead` read as `h3` and `list-item-bold-name`.
pub open spec fn element_of_name(name: Seq<char>) -> Option<SectionElement> {
    if name == "heading"@ {
        Some(SectionElement::Heading)
    } else if name == "h1"@ {
        Some(SectionElement::H1)
    } else if name == "h2"@ {
        Some(SectionElement::H2)
    } else if name == "h3"@ || name == "h3-heading"@ {
        Some(SectionElement::H3)
    } else if name == "h4"@ {
        Some(SectionElement::H4)
    } else if name == "h5"@ {
        Some(SectionElement::H5)
    } else if name == "h6"@ {
        Some(SectionElement::H6)
    } else if name == "list-item-bold-name"@ || name == "bullet-lead"@ {
        Some(SectionElement::ListItemBoldName)
    } else {
        None
    }
}

impl SectionElement {
    /// Read a class from its spelling in a rule.
    pub fn parse(name: &str) -> (r: Option<SectionElement>)
        ensures
            r == element_of_name(name@),
    {
        if same_text(name, "heading") {
            Some(SectionElement::Heading)
        } else if same_text(name, "h1") {
            Some(SectionElement::H1)
        } else if same_text(name, "h2") {
            Some(SectionElement::H2)
        } else if same_text(name, "h3") || same_text(name, "h3-heading") {
            Some(SectionElement::H3)
        } else if same_text(name, "h4") {
            Some(SectionElement::H4)
        } else if same_text(name, "h5") {
            Some(SectionElement::H5)
        } else if same_text(name, "h6") {
            Some(SectionElement::H6)
        } else if same_text(name, "list-item-bold-name") || same_text(name, "bullet-lead") {
            Some(SectionElement::ListItemBoldName)
        } else {
            None
        }
    }
}

/// Whether a section spec is a full ATX heading line with non-empty text.
pub open spec fn heading_spec_ok(section: Seq<char>) -> bool {
    atx_heading_of(section) matches Some((_, t)) && t.len() > 0
}

pub open spec fn heading_spec_message(section: Seq<char>) -> Seq<char> {
    "section-rules section spec '"@ + section
        + "' is not a heading; a section spec must be the full ATX heading line with non-empty heading text (e.g. '## Requirements')"@
}

pub open spec fn pattern_message(pattern: Seq<char>) -> Seq<char> {
    "section-rules pattern '"@ + pattern + "' does not compile: "@ + regex_error(pattern)
}

pub open spec fn mixed_disjoint_message() -> Seq<char> {
    "a section-rule with `disjoint` must not also carry count-rule fields (section/element/match/count)"@
}

pub open spec fn operand_count_message() -> Seq<char> {
    "a `disjoint` rule takes exactly two sections"@
}

pub open spec fn count_fields_message() -> Seq<char> {
    "a count section-rule requires section, element, match, and count (or use `disjoint` for a disjointness rule)"@
}

pub open spec fn count_pred_message(count: Seq<char>) -> Seq<char> {
    "section-rule count predicate '"@ + count
        + "' is not `<op> <n>`: op is one of >= <= == != > < and n an integer (e.g. \">= 1\")"@
}

/// Why a declared rule is refused, checked in order; `None` when it compiles.
pub open spec fn rule_refusal(r: RawRule) -> Option<Seq<char>> {
    match r.disjoint {
        Some(ops) => if r.section is Some || r.element is Some || r.match_pattern is Some || r.count is Some {
            Some(mixed_disjoint_message())
        } else if ops@.len() != 2 {
            Some(operand_count_message())
        } else if !heading_spec_ok(ops@[0].section@) {
            Some(heading_spec_message(ops@[0].section@))
        } else if !heading_spec_ok(ops@[1].section@) {
            Some(heading_spec_message(ops@[1].section@))
        } else if !regex_compiles(ops@[0].id_pattern@) {
            Some(pattern_message(ops@[0].id_pattern@))
        } else if !regex_compiles(ops@[1].id_pattern@) {
            Some(pattern_message(ops@[1].id_pattern@))
        } else {
            None
        },
        None => match (r.section, r.element, r.match_pattern, r.count) {
            (Some(section), Some(_), Some(pattern), Some(count)) => if count_pred_of(count@) is None {
                Some(count_pred_message(count@))
            } else if !heading_spec_ok(section@) {
                Some(heading_spec_message(section@))
            } else if !regex_compiles(pattern@) {
                Some(pattern_message(pattern@))
            } else {
                None
            },
            _ => Some(count_fields_message()),
        },
    }
}

/// Whether `o` is the compiled form of the declared operand `raw`.
pub open spec fn operand_of(o: Operand, raw: RawOperand) -> bool {
    o.section@ == raw.section@ && o.element == raw.element && o.id_pattern.source() == raw.id_pattern@
}

/// Whether `rule` is the compiled form of the declared rule `r`.
pub open spec fn compiled_from(rule: Rule, r: RawRule) -> bool {
    match r.disjoint {
        Some(ops) => match rule {
            Rule::Disjoint { a, b } => operand_of(a, ops@[0]) && operand_of(b, ops@[1]),
            _ => false,
        },
        None => match (rule, r.section, r.match_pattern, r.count) {
            (Rule::Count { section, element, matcher, pred }, Some(s), Some(m), Some(c)) => {
                &&& section@ == s@
                &&& r.element == Some(element)
                &&& matcher.source() == m@
                &&& count_pred_of(c@) == Some(pred)
            },
            _ => false,
        },
    }
}

fn heading_spec(section: &str) -> (r: Result<(), Error>)
    ensures
        r is Ok <==> heading_spec_ok(section@),
        r matches Err(Error::Config(m)) ==> m@ == heading_spec_message(section@),
{
    match atx_heading(section) {
        Some((_, t)) => if chars_of(t).len() > 0 {
            return Ok(());
        },
        None => {},
    }
    let mut m = owned("section-rules section spec '");
    push_str(&mut m, section);
    push_str(
        &mut m,
        "' is not a heading; a section spec must be the full ATX heading line with non-empty heading text (e.g. '## Requirements')",
    );
    Err(Error::Config(m))
}

fn compile_pattern(pattern: &str) -> (r: Result<LinePattern, Error>)
    ensures
        r is Ok <==> regex_compiles(pattern@),
        r matches Ok(p) ==> p.source() == pattern@,
        r matches Err(Error::Config(m)) ==> m@ == pattern_message(pattern@),
{
    match LinePattern::compile(pattern) {
        Ok(p) => Ok(p),
        Err(e) => {
            let mut m = owned("section-rules pattern '");
            push_str(&mut m, pattern);
            push_str(&mut m, "' does not compile: ");
            push_str(&mut m, e.as_str());
            Err(Error::Config(m))
        },
    }
}

/// Validate and compile one declared section rule. A rule that is neither a
/// well-formed count rule nor a well-formed disjoint rule is refused, with
/// the first reason in the order [`rule_refusal`] checks them.
pub fn compile_rule(r: &RawRule) -> (res: Result<Rule, Error>)
    ensures
        match rule_refusal(*r) {
            Some(m) => res matches Err(Error::Config(e)) && e@ == m,
            None => res matches Ok(rule) && compiled_from(rule, *r),
        },
{
    match &r.disjoint {
        Some(ops) => {
            if r.section.is_some() || r.element.is_some() || r.match_pattern.is_some() || r.count.is_some() {
                return Err(Error::Config(owned("a section-rule with `disjoint` must not also carry count-rule fields (section/element/match/count)")));
            }
            if ops.len() != 2 {
                return Err(Error::Config(owned("a `disjoint` rule takes exactly two sections")));
            }
            let ra = &ops[0];
            let rb = &ops[1];
            match heading_spec(ra.section.as_str()) {
                Err(e) => return Err(e),
                Ok(()) => {},
            }
            match heading_spec(rb.section.as_str()) {
                Err(e) => return Err(e),
                Ok(()) => {},
            }
            let pa = match compile_pattern(ra.id_pattern.as_str()) {
                Err(e) => return Err(e),
                Ok(p) => p,
            };
            let pb = match compile_pattern(rb.id_pattern.as_str()) {
                Err(e) => return Err(e),
                Ok(p) => p,
            };
            let a = Operand { section: ra.section.clone(), element: ra.element, id_pattern: pa };
            let b = Operand { section: rb.section.clone(), element: rb.element, id_pattern: pb };
            Ok(Rule::Disjoint { a, b })
        },
        None => {
            match (&r.section, &r.element, &r.match_pattern, &r.count) {
                (Some(section), Some(element), Some(pattern), Some(count)) => {
                    let pred = match parse_count_pred(count.as_str()) {
                        Some(p) => p,
                        None => {
                            let mut m = owned("section-rule count predicate '");
                            push_str(&mut m, count.as_str());
                            push_str(
                                &mut m,
                                "' is not `<op> <n>`: op is one of >= <= == != > < and n an integer (e.g. \">= 1\")",
                            );
                            return Err(Error::Config(m));
                        },
                    };
                    match heading_spec(section.as_str()) {
                        Err(e) => return Err(e),
                        Ok(()) => {},
                    }
                    let matcher = match compile_pattern(pattern.as_str()) {
                        Err(e) => return Err(e),
                        Ok(p) => p,
                    };
                    Ok(Rule::Count { section: section.clone(), element: *element, matcher, pred })
                },
                _ => Err(Error::Config(owned("a count section-rule requires section, element, match, and count (or use `disjoint` for a disjointness rule)"))),
            }
        },
    }
}


/// The number of `element`s inside the spans of `section` in `body` whose
/// line `matcher` matches; `None` when no heading matches `section`.
pub fn count_matching_elements(body: &str, section: &str, element: SectionElement, matcher: &LinePattern) -> (r: Option<usize>)
    ensures
        match found(live_lines(body@), section@) {
            None => r is None,
            Some(_) => r == Some(
                span_count(live_lines(body@), atx_heading_of(section@)->0, element, matcher.source()) as usize,
            ),
        },
{
    let lines = non_fenced_lines(body);
    match locate(&lines, section) {
        Some((l, t, _)) => Some(count_elements(&lines, l, t, element, matcher)),
        None => None,
    }
}

/// The ids of the `element`s inside the spans of `section` in `body`
/// (capture group 1 of `pattern` over each element's text, in document order);
/// `None` when no heading matches `section`.
pub fn extract_ids(body: &str, section: &str, element: SectionElement, pattern: &LinePattern) -> (r: Option<Vec<String>>)
    ensures
        match found(live_lines(body@), section@) {
            None => r is None,
            Some(_) => r matches Some(v) && views(v@).to_set() == span_ids(
                live_lines(body@),
                atx_heading_of(section@)->0,
                element,
                pattern.source(),
            ),
        },
{
    let lines = non_fenced_lines(body);
    match locate(&lines, section) {
        Some((l, t, _)) => Some(collect_ids(&lines, l, t, element, pattern)),
        None => None,
    }
}


/// A count rule whose section no heading matches reports that absence and
/// nothing else: its predicate is never evaluated, so a count of zero cannot
/// pass or fail it silently.
pub proof fn lemma_absent_section_is_reported(rule: Rule, content: Seq<char>, body_offset: int)
    requires
        rule is Count,
        found(live_lines(text_after(content, body_offset)), rule->section@) is None,
    ensures
        rule_issues(rule, content, body_offset) == seq![absent_issue(rule->section@, count_absent_message())],
{
}

/// A disjoint rule with an operand section that no heading matches reports
/// one absence per such operand and no overlap.
pub proof fn lemma_absent_operand_blocks_overlap(rule: Rule, content: Seq<char>, body_offset: int)
    requires
        rule is Disjoint,
        ({
            let ls = live_lines(text_after(content, body_offset));
            found(ls, rule->a.section@) is None || found(ls, rule->b.section@) is None
        }),
    ensures
        ({
            let ls = live_lines(text_after(content, body_offset));
            let iss = rule_issues(rule, content, body_offset);
            &&& iss.len() == (if found(ls, rule->a.section@) is None { 1int } else { 0 }) + (if found(
                ls,
                rule->b.section@,
            ) is None {
                1int
            } else {
                0
            })
            &&& forall|k: int| 0 <= k < iss.len() ==> (#[trigger] iss[k]).5 is None
        }),
{
}


/// Each operator means its comparison: for every count and bound, `== n`
/// holds of `n` alone, `!= n` of every other count, `< n` of the counts below
/// `n`, `<= n` of those up to it, `> n` of those above it and `>= n` of those
/// from it on.
pub proof fn lemma_count_operators(count: int, n: usize)
    ensures
        pred_holds(CountPred { op: CmpOp::Eq, n }, count) <==> count == n,
        pred_holds(CountPred { op: CmpOp::Ne, n }, count) <==> count != n,
        pred_holds(CountPred { op: CmpOp::Lt, n }, count) <==> count < n,
        pred_holds(CountPred { op: CmpOp::Le, n }, count) <==> count <= n,
        pred_holds(CountPred { op: CmpOp::Gt, n }, count) <==> count > n,
        pred_holds(CountPred { op: CmpOp::Ge, n }, count) <==> count >= n,
{
}

} // verus!
