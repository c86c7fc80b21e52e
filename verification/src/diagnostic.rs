//! Diagnostic types: [`Finding`], [`Severity`], [`Location`], and their
//! rustc-shaped TTY and size-capped compact renderings.
use vstd::prelude::*;

use crate::text::{
    byte_len, chars_of, control, decimal, fit, fit_count, hex, is_control, is_whitespace,
    lemma_byte_len_concat, lemma_byte_len_take_mono, lemma_fit, lines_of, owned, push_char,
    push_decimal, push_hex, push_str, split_lf, text_lines, trail_ws, trim_end, views,
    byte_offset, fit_chars, push_chars, skip_ws_backward, split_lines_lf, string_from,
    string_of, utf8_len, whitespace,
};

verus! {

/// Severity tier for a finding: `error` blocks pre-commit / CI; `warning`
/// surfaces but allows; `lint` is informational only.
#[derive(Debug, Clone, Copy, PartialEq, Eq, Structural)]
pub enum Severity {
    Error,
    Warning,
    Lint,
}

/// The TTY label of a severity.
pub open spec fn severity_label(s: Severity) -> Seq<char> {
    match s {
        Severity::Error => "error"@,
        Severity::Warning => "warning"@,
        Severity::Lint => "info"@,
    }
}

impl Severity {
    /// The string used in TTY-style diagnostic output (rustc convention):
    /// `Error` → `"error"`, `Warning` → `"warning"`, `Lint` → `"info"`.
    pub fn label(self) -> (l: &'static str)
        ensures
            l@ == severity_label(self),
    {
        match self {
            Severity::Error => "error",
            Severity::Warning => "warning",
            Severity::Lint => "info",
        }
    }
}

/// A source-span location: file + line + column. `line` and `column` are
/// 1-based; column may be 0 when it could not be pinpointed, and line 0 marks
/// "no location applicable".
#[derive(Debug, Clone, PartialEq, Eq)]
pub struct Location {
    pub file: String,
    pub line: u32,
    pub column: u32,
}

/// A region of adopter-derived text carried alongside a finding's
/// engine-authored `message`, kept structurally separate from it.
#[derive(Debug, Clone, PartialEq, Eq)]
pub struct QuotedRegion {
    /// Engine prose quoting platform-variant text (e.g. an OS error string);
    /// such a region is excluded from the finding's fingerprint.
    pub platform_variant: bool,
    /// Engine-authored label naming what the quoted content is.
    pub label: String,
    /// The raw adopter-derived text.
    pub content: String,
}

/// A diagnostic finding emitted by the validator.
#[derive(Debug, Clone, PartialEq, Eq)]
pub struct Finding {
    pub code: String,
    pub severity: Severity,
    pub summary: String,
    pub message: String,
    pub help: Option<String>,
    pub location: Location,
    pub explain_ref: Option<String>,
    /// Adopter-derived text carried out-of-line (see [`QuotedRegion`]).
    pub quoted: Vec<QuotedRegion>,
}

impl Location {
    /// Construct a whole-file location: the given file at line 1, column 0.
    pub fn whole_file(file: &str) -> (l: Self)
        ensures
            l.file@ == file@,
            l.line == 1,
            l.column == 0,
    {
        Location { file: owned(file), line: 1, column: 0 }
    }

    /// Render the file path with every control character and the Unicode
    /// line/paragraph separators escaped to `\xNN` form.
    pub fn safe_display(&self) -> (s: String)
        ensures
            s@ == escape_text(self.file@),
    {
        escape_path_text(self.file.as_str())
    }
}

// ── Escaping and the quoted-region renderer ─────────────────────────────────

/// The inert visible escape `\xNN` of a code point (uppercase hex, at least
/// two digits).
pub open spec fn hex_escape(c: char) -> Seq<char> {
    "\\x"@ + hex(c as u32 as nat, 2, true)
}

/// Whether a consumer may treat `c` as a line break: a control character or
/// one of the Unicode line/paragraph separators.
pub open spec fn is_break_like(c: char) -> bool {
    is_control(c) || c == '\u{2028}' || c == '\u{2029}'
}

/// `c` as it appears in an escaped path.
pub open spec fn escape_char(c: char) -> Seq<char> {
    if is_break_like(c) {
        hex_escape(c)
    } else {
        seq![c]
    }
}

/// `s` with every break-like character escaped.
pub open spec fn escape_text(s: Seq<char>) -> Seq<char>
    decreases s.len(),
{
    if s.len() == 0 {
        seq![]
    } else {
        escape_text(s.drop_last()) + escape_char(s.last())
    }
}

fn push_hex_escape(out: &mut String, c: char)
    ensures
        final(out)@ == old(out)@ + hex_escape(c),
{
    push_str(out, "\\x");
    push_hex(out, c as u32 as u64, 2, true);
}

/// Escape adopter path text for display (see [`escape_text`]).
pub fn escape_path_text(t: &str) -> (s: String)
    ensures
        s@ == escape_text(t@),
{
    let v = chars_of(t);
    let mut out = String::new();
    let mut i: usize = 0;
    while i < v.len()
        invariant
            v@ == t@,
            i <= v@.len(),
            out@ == escape_text(v@.take(i as int)),
        decreases v.len() - i,
    {
        let c = v[i];
        proof {
            assert(v@.take(i + 1).drop_last() =~= v@.take(i as int));
        }
        if control(c) || c == '\u{2028}' || c == '\u{2029}' {
            push_hex_escape(&mut out, c);
        } else {
            push_char(&mut out, c);
        }
        i = i + 1;
    }
    proof {
        assert(v@.take(v@.len() as int) =~= v@);
    }
    out
}

/// The split set: code points any consumer may treat as a line break (LF, CR,
/// VT, FF, NEL, U+2028, U+2029).
pub open spec fn is_split(c: char) -> bool {
    c == '\n' || c == '\r' || c == '\x0B' || c == '\x0C' || c == '\u{85}' || c == '\u{2028}' || c
        == '\u{2029}'
}

/// One character of quoted content as rendered: a split-set point becomes a
/// line break followed by the prefix; any other control character becomes an
/// inert `\xNN` escape; everything else is kept.
pub open spec fn render_char(c: char, prefix: Seq<char>) -> Seq<char> {
    if is_split(c) {
        seq!['\n'] + prefix
    } else if is_control(c) {
        hex_escape(c)
    } else {
        seq![c]
    }
}

/// The rendering of `s` after the opening prefix.
pub open spec fn render_body(s: Seq<char>, prefix: Seq<char>) -> Seq<char>
    decreases s.len(),
{
    if s.len() == 0 {
        seq![]
    } else {
        render_body(s.drop_last(), prefix) + render_char(s.last(), prefix)
    }
}

/// Adopter-derived `content` as a prefix-marked quoted region: every line,
/// including empty ones produced by adjacent breaks, carries `prefix`.
pub open spec fn render(s: Seq<char>, prefix: Seq<char>) -> Seq<char> {
    prefix + render_body(s, prefix)
}

/// Render adopter-derived `content` as a prefix-marked quoted region.
///
/// The split set is consumed as line breaks and each resulting line is
/// prefixed; the remaining control characters render as inert visible `\xNN`
/// escapes. The output's only raw line-break character is the LF this function
/// inserts, each followed by the prefix.
pub fn render_quoted(content: &str, prefix: &str) -> (out: String)
    ensures
        out@ == render(content@, prefix@),
        safe_prefix(prefix@) ==> quote_marked(out@, prefix@),
{
    let v = chars_of(content);
    let mut out = owned(prefix);
    let mut i: usize = 0;
    while i < v.len()
        invariant
            v@ == content@,
            i <= v@.len(),
            out@ == prefix@ + render_body(v@.take(i as int), prefix@),
        decreases v.len() - i,
    {
        let c = v[i];
        proof {
            assert(v@.take(i + 1).drop_last() =~= v@.take(i as int));
        }
        let ghost before = out@;
        if c == '\n' || c == '\r' || c == '\x0B' || c == '\x0C' || c == '\u{85}' || c == '\u{2028}'
            || c == '\u{2029}' {
            push_char(&mut out, '\n');
            push_str(&mut out, prefix);
            assert(out@ =~= before + render_char(c, prefix@));
        } else if control(c) {
            push_hex_escape(&mut out, c);
            assert(out@ =~= before + render_char(c, prefix@));
        } else {
            push_char(&mut out, c);
        }
        i = i + 1;
    }
    proof {
        assert(v@.take(v@.len() as int) =~= v@);
        if safe_prefix(prefix@) {
            lemma_render_marked(content@, prefix@);
        }
    }
    out
}

/// A prefix that itself carries no control character and no split-set point.
pub open spec fn safe_prefix(p: Seq<char>) -> bool {
    forall|i: int| 0 <= i < p.len() ==> !is_control(#[trigger] p[i]) && !is_split(p[i])
}

/// The marking property of a rendered quoted region: it opens with the
/// prefix, every LF in it is followed by the prefix, and no other control
/// character or split-set point occurs in it.
pub open spec fn quote_marked(out: Seq<char>, prefix: Seq<char>) -> bool {
    &&& prefix.len() <= out.len() && out.take(prefix.len() as int) == prefix
    &&& forall|i: int|
        0 <= i < out.len() && out[i] == '\n' ==> i + 1 + prefix.len() <= out.len() && out.subrange(
            i + 1,
            i + 1 + prefix.len(),
        ) == prefix
    &&& forall|i: int|
        0 <= i < out.len() && (is_control(#[trigger] out[i]) || is_split(out[i])) ==> out[i]
            == '\n'
}

proof fn lemma_hex_escape_inert(c: char)
    ensures
        forall|i: int|
            0 <= i < hex_escape(c).len() ==> !is_control(#[trigger] hex_escape(c)[i])
                && !is_split(hex_escape(c)[i]),
{
    reveal_strlit("\\x");
    let d = crate::text::digits(c as u32 as nat, 16, true);
    crate::text::lemma_digits_are_digit_chars(c as u32 as nat, 16, true);
    let h = hex(c as u32 as nat, 2, true);
    assert forall|i: int| 0 <= i < h.len() implies !is_control(#[trigger] h[i]) && !is_split(
        h[i],
    ) by {
        if d.len() < 2 {
            let z = Seq::new((2 - d.len()) as nat, |_i: int| '0');
            assert(h == z + d);
            if i < z.len() {
                assert(h[i] == '0');
            } else {
                assert(h[i] == d[i - z.len()]);
            }
        } else {
            assert(h == d);
        }
    }
    let e = hex_escape(c);
    assert forall|i: int| 0 <= i < e.len() implies !is_control(#[trigger] e[i]) && !is_split(
        e[i],
    ) by {
        if i >= 2 {
            assert(e[i] == h[i - 2]);
        }
    }
}

/// Every rendering is quote-marked when the prefix is safe.
pub proof fn lemma_render_marked(s: Seq<char>, prefix: Seq<char>)
    requires
        safe_prefix(prefix),
    ensures
        quote_marked(render(s, prefix), prefix),
    decreases s.len(),
{
    if s.len() == 0 {
        assert(render(s, prefix) =~= prefix);
        assert(prefix.take(prefix.len() as int) =~= prefix);
    } else {
        lemma_render_marked(s.drop_last(), prefix);
        let a = render(s.drop_last(), prefix);
        let c = s.last();
        let piece = render_char(c, prefix);
        let out = render(s, prefix);
        assert(out =~= a + piece);
        if !is_split(c) && is_control(c) {
            lemma_hex_escape_inert(c);
        }
        assert forall|i: int| 0 <= i < out.len() && out[i] == '\n' implies i + 1 + prefix.len()
            <= out.len() && out.subrange(i + 1, i + 1 + prefix.len()) == prefix by {
            if i < a.len() {
                assert(out.subrange(i + 1, i + 1 + prefix.len()) =~= a.subrange(
                    i + 1,
                    i + 1 + prefix.len(),
                ));
            } else {
                let k = i - a.len();
                assert(piece[k] == '\n');
                if is_split(c) {
                    if k > 0 {
                        assert(prefix[k - 1] == '\n');
                    }
                    assert(k == 0);
                    assert(out.subrange(i + 1, i + 1 + prefix.len()) =~= prefix);
                } else if is_control(c) {
                    assert(false);
                } else {
                    assert(false);
                }
            }
        }
        assert forall|i: int|
            0 <= i < out.len() && (is_control(#[trigger] out[i]) || is_split(
                out[i],
            )) implies out[i] == '\n' by {
            if i >= a.len() {
                let k = i - a.len();
                assert(out[i] == piece[k]);
                if is_split(c) {
                    if k > 0 {
                        assert(piece[k] == prefix[k - 1]);
                    }
                }
            }
        }
        assert(out.take(prefix.len() as int) =~= prefix);
    }
}


// ── The TTY rendering ───────────────────────────────────────────────────────

/// A multi-line field of the TTY form: `head` then the first line, and every
/// later line on its own line under the body text (11 columns in).
pub open spec fn tty_field(head: Seq<char>, ls: Seq<Seq<char>>) -> Seq<char> {
    if ls.len() == 0 {
        seq![]
    } else {
        "\n"@ + head + ls[0] + tty_continuations(ls.drop_first())
    }
}

/// Continuation lines, each on a new line indented under the body text.
pub open spec fn tty_continuations(ls: Seq<Seq<char>>) -> Seq<char>
    decreases ls.len(),
{
    if ls.len() == 0 {
        seq![]
    } else {
        tty_continuations(ls.drop_last()) + "\n           "@ + ls.last()
    }
}

/// `file:line`, with `:column` when the column is nonzero.
pub open spec fn location_text(loc: Location) -> Seq<char> {
    escape_text(loc.file@) + ":"@ + decimal(loc.line as nat) + if loc.column > 0 {
        ":"@ + decimal(loc.column as nat)
    } else {
        seq![]
    }
}

/// The `  --> file:line[:column]` arrow line, present only for a real line.
pub open spec fn tty_arrow(loc: Location) -> Seq<char> {
    if loc.line > 0 {
        "\n  --> "@ + location_text(loc)
    } else {
        seq![]
    }
}

/// Each quoted region: an engine `= <label>:` line, then its content as a
/// quoted block under the TTY prefix.
pub open spec fn tty_quoted(rs: Seq<QuotedRegion>) -> Seq<char>
    decreases rs.len(),
{
    if rs.len() == 0 {
        seq![]
    } else {
        tty_quoted(rs.drop_last()) + "\n   = "@ + rs.last().label@ + ":"@ + "\n"@ + render(
            rs.last().content@,
            "           > "@,
        )
    }
}

/// The TTY header line `<label>[<code>]: <summary>`.
pub open spec fn tty_header(f: Finding) -> Seq<char> {
    severity_label(f.severity) + "["@ + f.code@ + "]: "@ + f.summary@
}

/// The `= note:` block, present only when the message says more than the
/// summary.
pub open spec fn tty_note(f: Finding) -> Seq<char> {
    if f.message@ != f.summary@ {
        tty_field("   = note: "@, lines_of(f.message@))
    } else {
        seq![]
    }
}

/// The `= help:` block of a finding with help text.
pub open spec fn tty_help(f: Finding) -> Seq<char> {
    match f.help {
        Some(h) => tty_field("   = help: "@, lines_of(h@)),
        None => seq![],
    }
}

/// The `= explain:` line of a finding with an explain reference.
pub open spec fn tty_explain(f: Finding) -> Seq<char> {
    match f.explain_ref {
        Some(e) => "\n   = explain: mdatron explain "@ + e@,
        None => seq![],
    }
}

/// The rustc-shaped TTY rendering of a finding.
pub open spec fn tty(f: Finding) -> Seq<char> {
    tty_header(f) + tty_arrow(f.location) + tty_note(f) + tty_quoted(f.quoted@) + tty_help(f)
        + tty_explain(f)
}

fn push_tty_field(out: &mut String, head: &str, text: &str)
    ensures
        final(out)@ == old(out)@ + tty_field(head@, lines_of(text@)),
{
    let ls = text_lines(text);
    if ls.len() == 0 {
        return ;
    }
    let ghost base = out@;
    push_str(out, "\n");
    push_str(out, head);
    push_str(out, ls[0].as_str());
    proof {
        assert(views(ls@)[0] == ls@[0]@);
    }
    let ghost start = out@;
    let mut i: usize = 1;
    while i < ls.len()
        invariant
            1 <= i <= ls@.len(),
            views(ls@) == lines_of(text@),
            out@ == start + tty_continuations(views(ls@).subrange(1, i as int)),
        decreases ls.len() - i,
    {
        push_str(out, "\n           ");
        push_str(out, ls[i].as_str());
        proof {
            let all = views(ls@);
            assert(all[i as int] == ls@[i as int]@);
            assert(all.subrange(1, i + 1).drop_last() =~= all.subrange(1, i as int));
        }
        i = i + 1;
    }
    proof {
        assert(views(ls@).subrange(1, ls@.len() as int) =~= views(ls@).drop_first());
    }
}

/// Append `file:line[:column]` (the path escaped).
fn push_location(out: &mut String, loc: &Location)
    ensures
        final(out)@ == old(out)@ + location_text(*loc),
{
    let shown = loc.safe_display();
    push_str(out, shown.as_str());
    push_str(out, ":");
    push_decimal(out, loc.line as u64);
    if loc.column > 0 {
        push_str(out, ":");
        push_decimal(out, loc.column as u64);
    }
}

fn push_tty_quoted(out: &mut String, rs: &Vec<QuotedRegion>)
    ensures
        final(out)@ == old(out)@ + tty_quoted(rs@),
{
    let ghost base = out@;
    let mut i: usize = 0;
    proof {
        assert(rs@.take(0) =~= Seq::<QuotedRegion>::empty());
        assert(out@ =~= base + tty_quoted(rs@.take(0)));
    }
    while i < rs.len()
        invariant
            i <= rs@.len(),
            out@ == base + tty_quoted(rs@.take(i as int)),
        decreases rs.len() - i,
    {
        let region = &rs[i];
        let ghost mid = out@;
        push_str(out, "\n   = ");
        push_str(out, region.label.as_str());
        push_str(out, ":");
        push_str(out, "\n");
        let body = render_quoted(region.content.as_str(), "           > ");
        push_str(out, body.as_str());
        proof {
            assert(rs@.take(i + 1).drop_last() =~= rs@.take(i as int));
            assert(out@ =~= mid + ("\n   = "@ + region.label@ + ":"@ + "\n"@ + render(
                region.content@,
                "           > "@,
            )));
        }
        i = i + 1;
    }
    proof {
        assert(rs@.take(rs@.len() as int) =~= rs@);
    }
}

impl Finding {
    /// Render the finding in rustc-style TTY format: the header
    /// `<label>[<code>]: <summary>`, the `  --> file:line[:col]` arrow when
    /// the line is real, a `   = note:` block when the message says more than
    /// the summary, each quoted region as a prefix-marked block, then optional
    /// `   = help:` and `   = explain:` lines.
    pub fn format_tty(&self) -> (out: String)
        ensures
            out@ == tty(*self),
    {
        let mut out = String::new();
        push_str(&mut out, self.severity.label());
        push_str(&mut out, "[");
        push_str(&mut out, self.code.as_str());
        push_str(&mut out, "]: ");
        push_str(&mut out, self.summary.as_str());
        proof {
            assert(out@ =~= tty_header(*self));
        }
        let ghost a = out@;
        if self.location.line > 0 {
            push_str(&mut out, "\n  --> ");
            push_location(&mut out, &self.location);
            proof {
                assert(out@ =~= a + tty_arrow(self.location));
            }
        } else {
            proof {
                assert(out@ =~= a + tty_arrow(self.location));
            }
        }
        let ghost b = out@;
        if self.message != self.summary {
            push_tty_field(&mut out, "   = note: ", self.message.as_str());
        }
        proof {
            assert(out@ =~= b + tty_note(*self));
        }
        push_tty_quoted(&mut out, &self.quoted);
        let ghost c = out@;
        match &self.help {
            Some(h) => push_tty_field(&mut out, "   = help: ", h.as_str()),
            None => {},
        }
        proof {
            assert(out@ =~= c + tty_help(*self));
        }
        let ghost d = out@;
        match &self.explain_ref {
            Some(e) => {
                push_str(&mut out, "\n   = explain: mdatron explain ");
                push_str(&mut out, e.as_str());
            },
            None => {},
        }
        proof {
            assert(out@ =~= d + tty_explain(*self));
        }
        out
    }
}


// ── The compact rendering ───────────────────────────────────────────────────

/// Compact per-finding size limit in bytes: no compact rendering is longer.
pub const COMPACT_FINDING_LIMIT: usize = 512;

/// `x`, or zero when `x` is negative (`usize::saturating_sub` on results).
pub open spec fn floor0(x: int) -> int {
    if x < 0 {
        0
    } else {
        x
    }
}

/// The one-letter severity tag of the compact form.
pub open spec fn severity_letter(s: Severity) -> char {
    match s {
        Severity::Error => 'E',
        Severity::Warning => 'W',
        Severity::Lint => 'L',
    }
}

/// The horizontal ellipsis `…` (three bytes in UTF-8).
pub open spec fn ellipsis() -> Seq<char> {
    seq!['\u{2026}']
}

/// The engine-authored line closing a quoted region cut by the size limit.
pub open spec fn elision() -> Seq<char> {
    "> "@ + ellipsis() + "elided (size limit)"@
}

/// The essential identity of the compact head: severity letter, code,
/// location (when real) and summary.
pub open spec fn compact_essential(f: Finding) -> Seq<char> {
    seq![severity_letter(f.severity)] + "["@ + f.code@ + "] "@ + (if f.location.line > 0 {
        location_text(f.location) + " "@
    } else {
        seq![]
    }) + f.summary@
}

/// The lines a quoted region contributes: its `=<label>:` line, then its
/// content rendered under the `> ` prefix, one entry per line.
pub open spec fn region_lines(r: QuotedRegion) -> Seq<Seq<char>> {
    seq!["="@ + r.label@ + ":"@] + split_lf(render(r.content@, "> "@))
}

/// The lines of all quoted regions, in order.
pub open spec fn quoted_lines(rs: Seq<QuotedRegion>) -> Seq<Seq<char>>
    decreases rs.len(),
{
    if rs.len() == 0 {
        seq![]
    } else {
        quoted_lines(rs.drop_last()) + region_lines(rs.last())
    }
}

/// Lines laid out each on a new line while it fits in the `room` left; the
/// first line that does not fit is replaced by the elision line, which ends
/// the block. A cut therefore lands only between whole lines.
pub open spec fn fill_lines(ls: Seq<Seq<char>>, room: int) -> Seq<char>
    decreases ls.len(),
{
    if ls.len() == 0 {
        seq![]
    } else if 1 + byte_len(ls[0]) > room {
        "\n"@ + elision()
    } else {
        "\n"@ + ls[0] + fill_lines(ls.drop_first(), room - 1 - byte_len(ls[0]))
    }
}

/// The quoted block for an essential head of `e` bytes: opened only when the
/// head leaves room for the elision line, and kept within the limit less that
/// reserve.
pub open spec fn compact_quoted(f: Finding, e: int) -> Seq<char> {
    if e + 25 <= 512 {
        fill_lines(quoted_lines(f.quoted@), 487 - e)
    } else {
        seq![]
    }
}

/// The message on one line: LF and CR become spaces.
pub open spec fn flatten_breaks(s: Seq<char>) -> Seq<char> {
    s.map_values(|c: char| if c == '\n' || c == '\r' { ' ' } else { c })
}

/// The message prose of the compact head, with its ` — ` separator.
pub open spec fn prose(f: Finding) -> Seq<char> {
    seq![' ', '\u{2014}', ' '] + flatten_breaks(f.message@)
}

/// The position of the last whitespace character before position `k`.
pub open spec fn last_ws_before(s: Seq<char>, k: int) -> Option<int>
    decreases k,
{
    if k <= 0 {
        None
    } else if is_whitespace(s[k - 1]) {
        Some(k - 1)
    } else {
        last_ws_before(s, k - 1)
    }
}

/// Where prose cut for `budget` bytes ends: at the last character boundary
/// within the budget, pulled back to the last whitespace when the cut would
/// split a word and that whitespace lies past the separator.
pub open spec fn prose_cut(p: Seq<char>, budget: int) -> int {
    let k = fit_count(p, budget) as int;
    if k < p.len() && !is_whitespace(p[k]) {
        match last_ws_before(p, k) {
            Some(j) => if byte_len(p.take(j)) > 5 {
                j
            } else {
                k
            },
            None => k,
        }
    } else {
        k
    }
}

/// The prose that fills `avail` bytes of the head: whole when it fits, else
/// cut (see [`prose_cut`]) with trailing whitespace trimmed and an ellipsis
/// added, or dropped when no text past the separator would remain.
pub open spec fn compact_prose(f: Finding, avail: int) -> Seq<char> {
    if f.message@ == f.summary@ {
        seq![]
    } else if byte_len(prose(f)) <= avail {
        prose(f)
    } else {
        let piece = trim_end(prose(f).take(prose_cut(prose(f), floor0(avail - 3))));
        if byte_len(piece) > 5 {
            piece + ellipsis()
        } else {
            seq![]
        }
    }
}

/// The compact rendering of a finding: an oversized essential head alone,
/// cut at a character boundary; otherwise the head, the message prose in the
/// room the quoted block leaves, then the quoted block.
pub open spec fn compact(f: Finding) -> Seq<char> {
    let e = compact_essential(f);
    if byte_len(e) > 512 {
        fit(e, 509) + ellipsis()
    } else {
        let q = compact_quoted(f, byte_len(e) as int);
        e + compact_prose(f, floor0(512 - byte_len(e) - byte_len(q))) + q
    }
}

proof fn lemma_ellipsis_bytes()
    ensures
        byte_len(ellipsis()) == 3,
{
    reveal_with_fuel(byte_len, 2);
    assert(ellipsis().drop_first() =~= Seq::<char>::empty());
}

proof fn lemma_elision_bytes()
    ensures
        byte_len("\n"@ + elision()) == 25,
{
    reveal_strlit("\n");
    reveal_strlit("> ");
    reveal_strlit("elided (size limit)");
    lemma_ellipsis_bytes();
    crate::text::lemma_byte_len_ge_len("\n"@);
    crate::text::lemma_byte_len_ge_len("> "@);
    crate::text::lemma_byte_len_ge_len("elided (size limit)"@);
    lemma_byte_len_concat("\n"@, "> "@ + ellipsis() + "elided (size limit)"@);
    lemma_byte_len_concat("> "@ + ellipsis(), "elided (size limit)"@);
    lemma_byte_len_concat("> "@, ellipsis());
}

proof fn lemma_fill_bound(ls: Seq<Seq<char>>, room: int)
    requires
        room >= 0,
    ensures
        byte_len(fill_lines(ls, room)) <= room + 25,
    decreases ls.len(),
{
    lemma_elision_bytes();
    if ls.len() > 0 && 1 + byte_len(ls[0]) <= room {
        let rest = fill_lines(ls.drop_first(), room - 1 - byte_len(ls[0]));
        lemma_fill_bound(ls.drop_first(), room - 1 - byte_len(ls[0]));
        reveal_strlit("\n");
        crate::text::lemma_byte_len_ge_len("\n"@);
        lemma_byte_len_concat("\n"@ + ls[0], rest);
        lemma_byte_len_concat("\n"@, ls[0]);
    }
}

proof fn lemma_prose_bound(f: Finding, avail: int)
    requires
        avail >= 0,
    ensures
        byte_len(compact_prose(f, avail)) <= avail,
{
    let p = prose(f);
    if f.message@ != f.summary@ && byte_len(p) > avail {
        let budget = floor0(avail - 3);
        let k = fit_count(p, budget) as int;
        let cut = prose_cut(p, budget);
        lemma_fit(p, budget);
        lemma_last_ws_before(p, k);
        assert(0 <= cut <= k);
        let taken = p.take(cut);
        crate::text::lemma_trail_ws_bound(taken);
        let piece = trim_end(taken);
        assert(piece =~= p.take(cut - trail_ws(taken)));
        lemma_byte_len_take_mono(p, cut - trail_ws(taken), k);
        if byte_len(piece) > 5 {
            lemma_ellipsis_bytes();
            lemma_byte_len_concat(piece, ellipsis());
            if avail < 3 {
                assert(budget == 0);
                assert(byte_len(p.take(k)) <= 0);
            }
        }
    }
}

proof fn lemma_last_ws_before(s: Seq<char>, k: int)
    ensures
        last_ws_before(s, k) matches Some(j) ==> 0 <= j < k,
    decreases k,
{
    if k > 0 && !is_whitespace(s[k - 1]) {
        lemma_last_ws_before(s, k - 1);
    }
}

/// A compact rendering never exceeds [`COMPACT_FINDING_LIMIT`] bytes.
pub proof fn lemma_compact_within_limit(f: Finding)
    ensures
        byte_len(compact(f)) <= 512,
{
    let e = compact_essential(f);
    lemma_ellipsis_bytes();
    if byte_len(e) > 512 {
        lemma_fit(e, 509);
        lemma_byte_len_concat(fit(e, 509), ellipsis());
    } else {
        let q = compact_quoted(f, byte_len(e) as int);
        if byte_len(e) + 25 <= 512 {
            lemma_fill_bound(quoted_lines(f.quoted@), 487 - byte_len(e));
        }
        assert(byte_len(q) <= 512 - byte_len(e));
        let avail = floor0(512 - byte_len(e) - byte_len(q));
        lemma_prose_bound(f, avail);
        let pr = compact_prose(f, avail);
        lemma_byte_len_concat(e, pr);
        lemma_byte_len_concat(e + pr, q);
    }
}


fn push_compact_essential(out: &mut String, f: &Finding)
    ensures
        final(out)@ == old(out)@ + compact_essential(*f),
{
    let ghost base = out@;
    let letter = match f.severity {
        Severity::Error => 'E',
        Severity::Warning => 'W',
        Severity::Lint => 'L',
    };
    push_char(out, letter);
    push_str(out, "[");
    push_str(out, f.code.as_str());
    push_str(out, "] ");
    let ghost a = out@;
    if f.location.line > 0 {
        push_location(out, &f.location);
        push_str(out, " ");
    }
    let ghost b = out@;
    assert(b =~= a + (if f.location.line > 0 {
        location_text(f.location) + " "@
    } else {
        seq![]
    }));
    push_str(out, f.summary.as_str());
    assert(out@ =~= base + compact_essential(*f));
}

fn quoted_line_list(rs: &Vec<QuotedRegion>) -> (ls: Vec<String>)
    ensures
        views(ls@) == quoted_lines(rs@),
{
    let mut ls: Vec<String> = Vec::new();
    let mut i: usize = 0;
    proof {
        assert(rs@.take(0) =~= Seq::<QuotedRegion>::empty());
        assert(views(ls@) =~= Seq::<Seq<char>>::empty());
    }
    while i < rs.len()
        invariant
            i <= rs@.len(),
            views(ls@) == quoted_lines(rs@.take(i as int)),
        decreases rs.len() - i,
    {
        let r = &rs[i];
        let ghost prev = views(ls@);
        let mut label = String::new();
        push_str(&mut label, "=");
        push_str(&mut label, r.label.as_str());
        push_str(&mut label, ":");
        let ghost before = ls@;
        ls.push(label);
        proof {
            assert(views(ls@) =~= views(before).push(label@));
        }
        let body = render_quoted(r.content.as_str(), "> ");
        let pieces = split_lines_lf(body.as_str());
        let mut m: usize = 0;
        proof {
            assert(views(pieces@).take(0) =~= Seq::<Seq<char>>::empty());
            assert(views(ls@) =~= prev + seq![label@] + views(pieces@).take(0));
        }
        while m < pieces.len()
            invariant
                m <= pieces@.len(),
                views(ls@) == prev + seq![label@] + views(pieces@).take(m as int),
            decreases pieces.len() - m,
        {
            let piece = pieces[m].clone();
            let ghost before2 = ls@;
            ls.push(piece);
            proof {
                assert(views(pieces@)[m as int] == pieces@[m as int]@);
                assert(views(ls@) =~= views(before2).push(piece@));
                assert(views(pieces@).take(m + 1) =~= views(pieces@).take(m as int).push(
                    piece@,
                ));
            }
            m = m + 1;
        }
        proof {
            assert(views(pieces@).take(pieces@.len() as int) =~= views(pieces@));
            assert(rs@.take(i + 1).drop_last() =~= rs@.take(i as int));
            assert(rs@.take(i + 1).last() == r);
            assert(region_lines(*r) =~= seq![label@] + views(pieces@));
            assert(views(ls@) =~= quoted_lines(rs@.take(i + 1)));
        }
        i = i + 1;
    }
    proof {
        assert(rs@.take(rs@.len() as int) =~= rs@);
    }
    ls
}

fn fill_quoted(ls: &Vec<String>, room: usize) -> (q: String)
    ensures
        q@ == fill_lines(views(ls@), room as int),
{
    let ghost all = views(ls@);
    let mut q = String::new();
    let mut used: usize = 0;
    let mut i: usize = 0;
    let mut stopped = false;
    proof {
        assert(all.skip(0) =~= all);
    }
    while i < ls.len() && !stopped
        invariant
            i <= ls@.len(),
            all == views(ls@),
            !stopped ==> used <= room,
            !stopped ==> fill_lines(all, room as int) == q@ + fill_lines(
                all.skip(i as int),
                room - used,
            ),
            stopped ==> fill_lines(all, room as int) == q@,
        decreases ls.len() - i + if stopped {
            0int
        } else {
            1int
        },
    {
        let line = ls[i].as_str();
        let n = utf8_len(line);
        proof {
            assert(all[i as int] == ls@[i as int]@);
            assert(all.skip(i as int)[0] == all[i as int]);
            assert(all.skip(i as int).drop_first() =~= all.skip(i + 1));
        }
        if room - used == 0 || n > room - used - 1 {
            let ghost before = q@;
            push_str(&mut q, "\n");
            push_str(&mut q, "> \u{2026}elided (size limit)");
            proof {
                reveal_strlit("> \u{2026}elided (size limit)");
                reveal_strlit("> ");
                reveal_strlit("elided (size limit)");
                assert("> \u{2026}elided (size limit)"@ =~= elision());
                assert(q@ =~= before + ("\n"@ + elision()));
            }
            stopped = true;
        } else {
            let ghost before = q@;
            push_str(&mut q, "\n");
            push_str(&mut q, line);
            proof {
                assert(q@ =~= before + ("\n"@ + all[i as int]));
            }
            used = used + 1 + n;
            i = i + 1;
        }
    }
    proof {
        if !stopped {
            assert(all.skip(i as int).len() == 0);
        }
    }
    q
}

/// Append the flattened message prose for `avail` bytes (see [`compact_prose`]).
fn push_compact_prose(out: &mut String, f: &Finding, avail: usize)
    ensures
        final(out)@ == old(out)@ + compact_prose(*f, avail as int),
{
    if f.message == f.summary {
        return ;
    }
    let ghost p = prose(*f);
    let msg = chars_of(f.message.as_str());
    let mut pv: Vec<char> = Vec::new();
    pv.push(' ');
    pv.push('\u{2014}');
    pv.push(' ');
    let mut i: usize = 0;
    while i < msg.len()
        invariant
            i <= msg@.len(),
            msg@ == f.message@,
            pv@ == seq![' ', '\u{2014}', ' '] + flatten_breaks(msg@.take(i as int)),
        decreases msg.len() - i,
    {
        let c = msg[i];
        let d = if c == '\n' || c == '\r' {
            ' '
        } else {
            c
        };
        pv.push(d);
        proof {
            assert(flatten_breaks(msg@.take(i + 1)) =~= flatten_breaks(msg@.take(i as int)).push(
                d,
            ));
        }
        i = i + 1;
    }
    proof {
        assert(msg@.take(msg@.len() as int) =~= msg@);
        assert(pv@ =~= p);
    }
    let ps = string_of(&pv);
    let plen = utf8_len(ps.as_str());
    if plen <= avail {
        push_str(out, ps.as_str());
        return ;
    }
    let budget: usize = if avail >= 3 {
        avail - 3
    } else {
        0
    };
    let k = fit_chars(&pv, budget);
    proof {
        lemma_fit(p, budget as int);
    }
    let mut cut = k;
    if k < pv.len() && !whitespace(pv[k]) {
        let mut j = k;
        while j > 0 && !whitespace(pv[j - 1])
            invariant
                j <= k <= pv@.len(),
                last_ws_before(p, k as int) == last_ws_before(p, j as int),
                pv@ == p,
            decreases j,
        {
            j = j - 1;
        }
        if j > 0 {
            let at = byte_offset(&pv, j - 1);
            if at > 5 {
                cut = j - 1;
            }
        }
    }
    assert(cut == prose_cut(p, budget as int));
    let end = skip_ws_backward(&pv, 0, cut);
    proof {
        assert(pv@.subrange(0, cut as int) =~= p.take(cut as int));
        assert(pv@.subrange(0, end as int) =~= trim_end(p.take(cut as int)));
    }
    let bytes = byte_offset(&pv, end);
    if bytes > 5 {
        push_chars(out, &pv, 0, end);
        push_char(out, '\u{2026}');
    }
}

impl Finding {
    /// Render the compact form: the agent-context view of the finding, hard-
    /// capped at [`COMPACT_FINDING_LIMIT`] bytes. One engine head line
    /// `<sev-letter>[<code>] <file>:<line>[:<col>] <summary> — <message>`,
    /// then each quoted region as an `=<label>:` line and its `> `-prefixed
    /// content lines. Quoted values are budgeted ahead of the message prose;
    /// a cut region closes with the elision line, and truncated prose prefers
    /// a word boundary.
    pub fn format_compact(&self) -> (out: String)
        ensures
            out@ == compact(*self),
            byte_len(out@) <= COMPACT_FINDING_LIMIT,
    {
        proof {
            lemma_compact_within_limit(*self);
        }
        let mut essential = String::new();
        push_compact_essential(&mut essential, self);
        proof {
            assert(essential@ =~= compact_essential(*self));
        }
        let elen = utf8_len(essential.as_str());
        if elen > COMPACT_FINDING_LIMIT {
            let v = chars_of(essential.as_str());
            let k = fit_chars(&v, COMPACT_FINDING_LIMIT - 3);
            proof {
                lemma_fit(v@, 509);
            }
            let mut cut = string_from(&v, 0, k);
            push_char(&mut cut, '\u{2026}');
            proof {
                assert(cut@ =~= compact(*self));
            }
            return cut;
        }
        let quoted_out = if elen + 25 <= COMPACT_FINDING_LIMIT {
            let ls = quoted_line_list(&self.quoted);
            fill_quoted(&ls, COMPACT_FINDING_LIMIT - 25 - elen)
        } else {
            String::new()
        };
        proof {
            assert(quoted_out@ =~= compact_quoted(*self, elen as int));
            if elen + 25 <= 512 {
                lemma_fill_bound(quoted_lines(self.quoted@), 487 - elen);
            }
        }
        let qlen = utf8_len(quoted_out.as_str());
        let avail = COMPACT_FINDING_LIMIT - elen - qlen;
        let mut out = essential;
        push_compact_prose(&mut out, self, avail);
        push_str(&mut out, quoted_out.as_str());
        proof {
            assert(out@ =~= compact(*self));
        }
        out
    }
}


// ── Paths ───────────────────────────────────────────────────────────────────

/// A path with every backslash separator turned into a forward slash.
pub open spec fn forward_slashed(s: Seq<char>) -> Seq<char> {
    s.map_values(|c: char| if c == '\\' { '/' } else { c })
}

/// The path text forward-slashed, so one file has one spelling on every
/// platform.
pub fn to_forward_slash(path: &str) -> (s: String)
    ensures
        s@ == forward_slashed(path@),
{
    let v = chars_of(path);
    let mut out = String::new();
    let mut i: usize = 0;
    while i < v.len()
        invariant
            v@ == path@,
            i <= v@.len(),
            out@ == forward_slashed(v@.take(i as int)),
        decreases v.len() - i,
    {
        let c = v[i];
        let d = if c == '\\' {
            '/'
        } else {
            c
        };
        push_char(&mut out, d);
        proof {
            assert(forward_slashed(v@.take(i + 1)) =~= forward_slashed(v@.take(i as int)).push(d));
        }
        i = i + 1;
    }
    proof {
        assert(v@.take(v@.len() as int) =~= v@);
    }
    out
}

} // verus!
