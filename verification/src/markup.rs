//! Shared markdown-scanning primitives for the body-reference check families:
//! live (non-fenced) lines with their byte offsets, ATX heading text, and the
//! GitHub heading-slug algorithm.
use vstd::prelude::*;
use vstd::string::StrSliceExecFns;

use crate::text::{
    alphanumeric, byte_len, chars_of, is_whitespace, lf_pieces, lines_of, lowercase, push_char,
    text_lines, trim, trim_end, trim_start, trail_ws, lead_ws, unicode_alphanumeric,
    unicode_lowercase, utf8_len, views,
};

verus! {

/// The number of leading characters of `s` equal to `c`.
pub open spec fn lead_run(s: Seq<char>, c: char) -> nat
    decreases s.len(),
{
    if s.len() > 0 && s[0] == c {
        1 + lead_run(s.drop_first(), c)
    } else {
        0
    }
}

proof fn lemma_lead_run_bound(s: Seq<char>, c: char)
    ensures
        lead_run(s, c) <= s.len(),
    decreases s.len(),
{
    if s.len() > 0 && s[0] == c {
        lemma_lead_run_bound(s.drop_first(), c);
    }
}

fn count_lead(v: &Vec<char>, c: char) -> (n: usize)
    ensures
        n == lead_run(v@, c),
        n <= v@.len(),
{
    let mut i: usize = 0;
    proof {
        assert(v@.skip(0) =~= v@);
    }
    while i < v.len() && v[i] == c
        invariant
            i <= v@.len(),
            lead_run(v@, c) == i + lead_run(v@.skip(i as int), c),
        decreases v.len() - i,
    {
        proof {
            assert(v@.skip(i as int).drop_first() =~= v@.skip(i + 1));
        }
        i = i + 1;
    }
    proof {
        if i < v@.len() {
            assert(v@.skip(i as int)[0] == v@[i as int]);
        }
    }
    i
}

/// The fence a line opens or closes: a leading run of at least three
/// backticks or tildes, as `(fence char, run length)`.
pub open spec fn fence_of(line: Seq<char>) -> Option<(char, nat)> {
    if line.len() > 0 && (line[0] == '`' || line[0] == '~') && lead_run(line, line[0]) >= 3 {
        Some((line[0], lead_run(line, line[0])))
    } else {
        None
    }
}

/// If `line` opens or closes a fenced code block, its fence char and run
/// length.
pub fn fence_marker(line: &str) -> (r: Option<(char, usize)>)
    ensures
        match r {
            Some((c, n)) => fence_of(line@) == Some((c, n as nat)),
            None => fence_of(line@) is None,
        },
{
    let v = chars_of(line);
    if v.len() == 0 {
        return None;
    }
    let first = v[0];
    if first != '`' && first != '~' {
        return None;
    }
    let run = count_lead(&v, first);
    if run >= 3 {
        Some((first, run))
    } else {
        None
    }
}

/// The fence state after a line: a fence line opens a block, or closes the
/// open one when it uses the same char and is at least as long; the line is
/// live when it is not a fence line and no block is open.
pub open spec fn fence_step(st: Option<(char, nat)>, line: Seq<char>) -> (
    Option<(char, nat)>,
    bool,
) {
    match fence_of(line) {
        Some(m) => (
            match st {
                None => Some(m),
                Some(open) => if m.0 == open.0 && m.1 >= open.1 {
                    None
                } else {
                    st
                },
            },
            false,
        ),
        None => (st, st is None),
    }
}

fn step_fence(st: Option<(char, usize)>, line: &str) -> (r: (Option<(char, usize)>, bool))
    ensures
        (match r.0 {
            Some((c, n)) => Some((c, n as nat)),
            None => None,
        }, r.1) == fence_step(
            match st {
                Some((c, n)) => Some((c, n as nat)),
                None => None,
            },
            line@,
        ),
{
    match fence_marker(line) {
        Some(m) => {
            let next = match st {
                None => Some(m),
                Some(open) => if m.0 == open.0 && m.1 >= open.1 {
                    None
                } else {
                    st
                },
            };
            (next, false)
        },
        None => (st, st.is_none()),
    }
}

/// The number of trailing characters of `s` that are `c`.
pub open spec fn trail_run(s: Seq<char>, c: char) -> nat
    decreases s.len(),
{
    if s.len() > 0 && s.last() == c {
        1 + trail_run(s.drop_last(), c)
    } else {
        0
    }
}

proof fn lemma_trail_run_bound(s: Seq<char>, c: char)
    ensures
        trail_run(s, c) <= s.len(),
    decreases s.len(),
{
    if s.len() > 0 && s.last() == c {
        lemma_trail_run_bound(s.drop_last(), c);
    }
}

/// The text of an ATX heading line: one to six `#`, then a space, a tab or
/// the end of the line; the rest trimmed, its closing `#` run removed and
/// trimmed again.
pub open spec fn atx_text(line: Seq<char>) -> Option<Seq<char>> {
    let h = lead_run(line, '#');
    let rest = line.skip(h as int);
    if h == 0 || h > 6 {
        None
    } else if rest.len() > 0 && rest[0] != ' ' && rest[0] != '\t' {
        None
    } else {
        let t = trim(rest);
        Some(trim_end(t.take(t.len() - trail_run(t, '#'))))
    }
}

/// The text of an ATX heading (`#`...`######` then a space or end of line),
/// with any closing `#` sequence trimmed; `None` if `line` is not one.
pub fn atx_heading_text(line: &str) -> (r: Option<&str>)
    ensures
        match r {
            Some(t) => atx_text(line@) == Some(t@),
            None => atx_text(line@) is None,
        },
{
    let v = chars_of(line);
    let h = count_lead(&v, '#');
    if h == 0 || h > 6 {
        return None;
    }
    if h < v.len() && v[h] != ' ' && v[h] != '\t' {
        proof {
            assert(v@.skip(h as int)[0] == v@[h as int]);
        }
        return None;
    }
    let (a, b) = crate::text::trim_bounds(&v, h, v.len());
    proof {
        assert(v@.subrange(h as int, v@.len() as int) =~= v@.skip(h as int));
    }
    let mut e = b;
    while e > a && v[e - 1] == '#'
        invariant
            a <= e <= b <= v@.len(),
            trail_run(v@.subrange(a as int, b as int), '#') == (b - e) + trail_run(
                v@.subrange(a as int, e as int),
                '#',
            ),
        decreases e - a,
    {
        proof {
            assert(v@.subrange(a as int, e as int).drop_last() =~= v@.subrange(a as int, e - 1));
        }
        e = e - 1;
    }
    proof {
        let t = v@.subrange(a as int, b as int);
        if e > a {
            assert(v@.subrange(a as int, e as int).last() == v@[e - 1]);
        }
        assert(t.take(t.len() - trail_run(t, '#')) =~= v@.subrange(a as int, e as int));
    }
    let f = crate::text::skip_ws_backward(&v, a, e);
    proof {
        assert(trim_end(v@.subrange(a as int, e as int)) =~= v@.subrange(a as int, f as int));
    }
    Some(line.substring_char(a, f))
}

/// The slug contribution of one lowercased character: kept when alphanumeric
/// or `_` or `-`, a hyphen for a space, dropped otherwise.
pub open spec fn slug_char(c: char) -> Seq<char> {
    if unicode_alphanumeric(c) || c == '_' || c == '-' {
        seq![c]
    } else if c == ' ' {
        seq!['-']
    } else {
        seq![]
    }
}

/// The slug of already-lowercased text.
pub open spec fn slug_of(s: Seq<char>) -> Seq<char>
    decreases s.len(),
{
    if s.len() == 0 {
        seq![]
    } else {
        slug_of(s.drop_last()) + slug_char(s.last())
    }
}

/// Text with every character replaced by its full lowercase mapping.
pub open spec fn lowered(s: Seq<char>) -> Seq<char>
    decreases s.len(),
{
    if s.len() == 0 {
        seq![]
    } else {
        lowered(s.drop_last()) + unicode_lowercase(s.last())
    }
}

/// GitHub's heading-to-anchor slug of `heading`.
pub open spec fn slug(heading: Seq<char>) -> Seq<char> {
    slug_of(lowered(heading))
}

proof fn lemma_slug_of_concat(a: Seq<char>, b: Seq<char>)
    ensures
        slug_of(a + b) == slug_of(a) + slug_of(b),
    decreases b.len(),
{
    if b.len() == 0 {
        assert(a + b =~= a);
    } else {
        lemma_slug_of_concat(a, b.drop_last());
        assert((a + b).drop_last() =~= a + b.drop_last());
    }
}

/// GitHub's heading-to-anchor slug: lowercase, drop every character that is
/// not alphanumeric, `_` or `-`, and turn each space into a hyphen.
pub fn slugify(heading: &str) -> (s: String)
    ensures
        s@ == slug(heading@),
{
    let v = chars_of(heading);
    let mut out = String::new();
    let mut i: usize = 0;
    while i < v.len()
        invariant
            v@ == heading@,
            i <= v@.len(),
            out@ == slug_of(lowered(v@.take(i as int))),
        decreases v.len() - i,
    {
        let low = lowercase(v[i]);
        let ghost before = out@;
        let mut j: usize = 0;
        while j < low.len()
            invariant
                j <= low@.len(),
                out@ == before + slug_of(low@.take(j as int)),
            decreases low.len() - j,
        {
            let ch = low[j];
            if alphanumeric(ch) || ch == '_' || ch == '-' {
                push_char(&mut out, ch);
            } else if ch == ' ' {
                push_char(&mut out, '-');
            }
            proof {
                assert(low@.take(j + 1).drop_last() =~= low@.take(j as int));
            }
            j = j + 1;
        }
        proof {
            assert(low@.take(low@.len() as int) =~= low@);
            assert(v@.take(i + 1).drop_last() =~= v@.take(i as int));
            lemma_slug_of_concat(lowered(v@.take(i as int)), low@);
        }
        i = i + 1;
    }
    proof {
        assert(v@.take(v@.len() as int) =~= v@);
    }
    out
}

/// Scanning lines for headings: the fence state and the slugs found so far.
pub open spec fn heading_scan(ls: Seq<Seq<char>>) -> (Option<(char, nat)>, Set<Seq<char>>)
    decreases ls.len(),
{
    if ls.len() == 0 {
        (None, Set::empty())
    } else {
        let (st, found) = heading_scan(ls.drop_last());
        let t = trim_start(ls.last());
        let (st2, live) = fence_step(st, t);
        (
            st2,
            if live && atx_text(t) is Some {
                found.insert(slug(atx_text(t)->0))
            } else {
                found
            },
        )
    }
}

/// The heading slugs of a body: ATX headings outside fenced code blocks.
pub open spec fn slugs_of(body: Seq<char>) -> Set<Seq<char>> {
    heading_scan(lines_of(body)).1
}

/// The set of GitHub heading slugs of `body`, skipping fenced code blocks so
/// a `#`-comment in a shell example is not read as a heading. Each slug
/// occurs once.
pub fn heading_slugs(body: &str) -> (r: Vec<String>)
    ensures
        views(r@).to_set() == slugs_of(body@),
        views(r@).no_duplicates(),
{
    let ls = text_lines(body);
    let ghost lv = views(ls@);
    let mut slugs: Vec<String> = Vec::new();
    let mut fence: Option<(char, usize)> = None;
    let mut i: usize = 0;
    proof {
        assert(lv.take(0) =~= Seq::<Seq<char>>::empty());
        assert(views(slugs@).to_set() =~= Set::<Seq<char>>::empty());
    }
    while i < ls.len()
        invariant
            lv == views(ls@),
            lv == lines_of(body@),
            i <= lv.len(),
            views(slugs@).to_set() == heading_scan(lv.take(i as int)).1,
            views(slugs@).no_duplicates(),
            (match fence {
                Some((c, n)) => Some((c, n as nat)),
                None => None,
            }) == heading_scan(lv.take(i as int)).0,
        decreases ls.len() - i,
    {
        proof {
            assert(lv.take(i + 1).drop_last() =~= lv.take(i as int));
            assert(lv[i as int] == ls@[i as int]@);
        }
        let tv = chars_of(ls[i].as_str());
        let start = crate::text::skip_ws_forward(&tv, 0, tv.len());
        let trimmed = ls[i].as_str().substring_char(start, tv.len());
        proof {
            assert(tv@.subrange(0, tv@.len() as int) =~= tv@);
            assert(trimmed@ =~= trim_start(lv[i as int]));
        }
        let (next, live) = step_fence(fence, trimmed);
        fence = next;
        if live {
            match atx_heading_text(trimmed) {
                Some(text) => {
                    let s = slugify(text);
                    let mut present = false;
                    let mut k: usize = 0;
                    while k < slugs.len()
                        invariant
                            k <= slugs@.len(),
                            present == (exists|m: int| 0 <= m < k && slugs@[m]@ == s@),
                        decreases slugs.len() - k,
                    {
                        if slugs[k] == s {
                            present = true;
                        }
                        k = k + 1;
                    }
                    let ghost before = views(slugs@);
                    if !present {
                        slugs.push(s);
                        proof {
                            let now = views(slugs@);
                            assert(now =~= before.push(s@));
                            assert forall|m: int| 0 <= m < before.len() implies before[m] != s@ by {
                                assert(before[m] == slugs@[m]@);
                            }
                            assert forall|x: Seq<char>| now.contains(x) <==> (before.contains(x)
                                || x == s@) by {
                                if before.contains(x) {
                                    let m = choose|m: int| 0 <= m < before.len() && before[m] == x;
                                    assert(now[m] == x);
                                }
                                if now.contains(x) {
                                    let m = choose|m: int| 0 <= m < now.len() && now[m] == x;
                                    if m < before.len() {
                                        assert(before[m] == x);
                                    }
                                }
                                if x == s@ {
                                    assert(now[before.len() as int] == x);
                                }
                            }
                        }
                    } else {
                        proof {
                            let m = choose|m: int| 0 <= m < before.len() && slugs@[m]@ == s@;
                            assert(before[m] == s@);
                            assert(before.contains(s@));
                        }
                    }
                    proof {
                        assert(views(slugs@).to_set() =~= before.to_set().insert(s@));
                    }
                },
                None => {},
            }
        }
        i = i + 1;
    }
    proof {
        assert(lv.take(lv.len() as int) =~= lv);
    }
    slugs
}


/// The lines of `s` as `str::split_inclusive('\n')` yields them: each with
/// its LF, the last without one when the text does not end in LF.
pub open spec fn raw_lines(s: Seq<char>) -> Seq<Seq<char>> {
    let closed = lf_pieces(s).0.map_values(|p: Seq<char>| p.push('\n'));
    if lf_pieces(s).1.len() == 0 {
        closed
    } else {
        closed.push(lf_pieces(s).1)
    }
}

/// The number of trailing LF and CR characters of `s`.
pub open spec fn trail_breaks(s: Seq<char>) -> nat
    decreases s.len(),
{
    if s.len() > 0 && (s.last() == '\n' || s.last() == '\r') {
        1 + trail_breaks(s.drop_last())
    } else {
        0
    }
}

proof fn lemma_trail_breaks_bound(s: Seq<char>)
    ensures
        trail_breaks(s) <= s.len(),
    decreases s.len(),
{
    if s.len() > 0 && (s.last() == '\n' || s.last() == '\r') {
        lemma_trail_breaks_bound(s.drop_last());
    }
}

/// A raw line without its trailing LF and CR characters.
pub open spec fn strip_breaks(s: Seq<char>) -> Seq<char> {
    s.take(s.len() - trail_breaks(s))
}

/// Scanning raw lines: the fence state, the byte offset of the next line,
/// and the live lines found so far with their byte offsets.
pub open spec fn live_scan(rs: Seq<Seq<char>>) -> (Option<(char, nat)>, nat, Seq<(nat, Seq<char>)>)
    decreases rs.len(),
{
    if rs.len() == 0 {
        (None, 0, seq![])
    } else {
        let (st, at, out) = live_scan(rs.drop_last());
        let line = strip_breaks(rs.last());
        let (st2, live) = fence_step(st, line);
        (
            st2,
            at + byte_len(rs.last()),
            if live {
                out.push((at, line))
            } else {
                out
            },
        )
    }
}

/// The live lines of a body with their byte offsets: every line outside a
/// fenced code block, fence lines themselves excluded.
pub open spec fn live_lines(body: Seq<char>) -> Seq<(nat, Seq<char>)> {
    live_scan(raw_lines(body)).2
}

/// The lines of `body` that are not inside a fenced code block, each with its
/// byte offset within `body` and its content (trailing LF/CR trimmed). Fence
/// lines are themselves skipped.
pub fn non_fenced_lines(body: &str) -> (r: Vec<(usize, &str)>)
    ensures
        r@.map_values(|p: (usize, &str)| (p.0 as nat, p.1@)) == live_lines(body@),
{
    let v = chars_of(body);
    let total = utf8_len(body);
    let ghost closed_of = |t: Seq<char>| lf_pieces(t).0.map_values(|p: Seq<char>| p.push('\n'));
    let mut out: Vec<(usize, &str)> = Vec::new();
    let mut fence: Option<(char, usize)> = None;
    let mut cursor: usize = 0;
    let mut start: usize = 0;
    let mut i: usize = 0;
    proof {
        assert(v@.take(0) =~= Seq::<char>::empty());
        assert(closed_of(v@.take(0)) =~= Seq::<Seq<char>>::empty());
        assert(v@.subrange(0, 0) =~= Seq::<char>::empty());
    }
    while i < v.len()
        invariant
            v@ == body@,
            total == byte_len(v@),
            start <= i <= v@.len(),
            lf_pieces(v@.take(i as int)).1 == v@.subrange(start as int, i as int),
            closed_of == (|t: Seq<char>| lf_pieces(t).0.map_values(|p: Seq<char>| p.push('\n'))),
            live_scan(closed_of(v@.take(i as int))).2 == out@.map_values(
                |p: (usize, &str)| (p.0 as nat, p.1@),
            ),
            live_scan(closed_of(v@.take(i as int))).1 == cursor,
            cursor == byte_len(v@.take(start as int)),
            live_scan(closed_of(v@.take(i as int))).0 == (match fence {
                Some((c, n)) => Some((c, n as nat)),
                None => None,
            }),
        decreases v.len() - i,
    {
        proof {
            assert(v@.take(i + 1).drop_last() =~= v@.take(i as int));
        }
        if v[i] == '\n' {
            let raw_end = i + 1;
            let ghost raw = v@.subrange(start as int, raw_end as int);
            let mut e = raw_end;
            while e > start && (v[e - 1] == '\n' || v[e - 1] == '\r')
                invariant
                    start <= e <= raw_end <= v@.len(),
                    raw == v@.subrange(start as int, raw_end as int),
                    trail_breaks(raw) == (raw_end - e) + trail_breaks(v@.subrange(start as int, e as int)),
                decreases e - start,
            {
                proof {
                    assert(v@.subrange(start as int, e as int).drop_last() =~= v@.subrange(
                        start as int,
                        e - 1,
                    ));
                }
                e = e - 1;
            }
            proof {
                if e > start {
                    assert(v@.subrange(start as int, e as int).last() == v@[e - 1]);
                }
                assert(strip_breaks(raw) =~= v@.subrange(start as int, e as int));
            }
            let line = body.substring_char(start, e);
            let (next, live) = step_fence(fence, line);
            proof {
                let pre = closed_of(v@.take(i as int));
                let post = closed_of(v@.take(i + 1));
                assert(raw =~= v@.subrange(start as int, i as int).push('\n'));
                assert(post =~= pre.push(raw));
                assert(post.drop_last() =~= pre);
                crate::text::lemma_byte_len_take_step(v@, i as int);
                crate::text::lemma_byte_len_take_mono(v@, raw_end as int, v@.len() as int);
                assert(v@.take(v@.len() as int) =~= v@);
                assert(v@.take(raw_end as int) =~= v@.take(start as int) + raw);
                crate::text::lemma_byte_len_concat(v@.take(start as int), raw);
            }
            let raw_bytes = crate::text::byte_offset(&v, raw_end) - cursor;
            if live {
                let ghost before = out@;
                out.push((cursor, line));
                proof {
                    assert(out@.map_values(|p: (usize, &str)| (p.0 as nat, p.1@)) =~= before.map_values(
                        |p: (usize, &str)| (p.0 as nat, p.1@),
                    ).push((cursor as nat, line@)));
                }
            }
            fence = next;
            cursor = cursor + raw_bytes;
            start = raw_end;
            proof {
                assert(v@.subrange(start as int, start as int) =~= Seq::<char>::empty());
            }
        } else {
            proof {
                assert(closed_of(v@.take(i + 1)) =~= closed_of(v@.take(i as int)));
                assert(v@.subrange(start as int, i + 1) =~= v@.subrange(start as int, i as int).push(
                    v@[i as int],
                ));
            }
        }
        i = i + 1;
    }
    proof {
        assert(v@.take(v@.len() as int) =~= v@);
    }
    if start < v.len() {
        let ghost raw = v@.subrange(start as int, v@.len() as int);
        let raw_end = v.len();
        let mut e = raw_end;
        while e > start && (v[e - 1] == '\n' || v[e - 1] == '\r')
            invariant
                start <= e <= raw_end == v@.len(),
                raw == v@.subrange(start as int, raw_end as int),
                trail_breaks(raw) == (raw_end - e) + trail_breaks(v@.subrange(start as int, e as int)),
            decreases e - start,
        {
            proof {
                assert(v@.subrange(start as int, e as int).drop_last() =~= v@.subrange(
                    start as int,
                    e - 1,
                ));
            }
            e = e - 1;
        }
        proof {
            if e > start {
                assert(v@.subrange(start as int, e as int).last() == v@[e - 1]);
            }
            assert(strip_breaks(raw) =~= v@.subrange(start as int, e as int));
        }
        let line = body.substring_char(start, e);
        let (next, live) = step_fence(fence, line);
        if live {
            let ghost before = out@;
            out.push((cursor, line));
            proof {
                assert(out@.map_values(|p: (usize, &str)| (p.0 as nat, p.1@)) =~= before.map_values(
                    |p: (usize, &str)| (p.0 as nat, p.1@),
                ).push((cursor as nat, line@)));
            }
        }
        proof {
            let all = raw_lines(body@);
            assert(all.drop_last() =~= closed_of(v@));
            assert(all.last() == raw);
        }
    } else {
        proof {
            assert(raw_lines(body@) =~= closed_of(v@));
        }
    }
    out
}


/// The concatenation of a list of texts.
pub open spec fn flatten(rs: Seq<Seq<char>>) -> Seq<char>
    decreases rs.len(),
{
    if rs.len() == 0 {
        seq![]
    } else {
        flatten(rs.drop_last()) + rs.last()
    }
}

proof fn lemma_raw_lines_flatten(s: Seq<char>)
    ensures
        flatten(lf_pieces(s).0.map_values(|p: Seq<char>| p.push('\n'))) + lf_pieces(s).1 == s,
    decreases s.len(),
{
    let f = |p: Seq<char>| p.push('\n');
    if s.len() == 0 {
        assert(lf_pieces(s).0.map_values(f) =~= Seq::<Seq<char>>::empty());
        assert(flatten(Seq::<Seq<char>>::empty()) + Seq::<char>::empty() =~= s);
    } else {
        lemma_raw_lines_flatten(s.drop_last());
        let (done, cur) = lf_pieces(s.drop_last());
        if s.last() == '\n' {
            assert(lf_pieces(s).0.map_values(f) =~= done.map_values(f).push(cur.push('\n')));
            assert(lf_pieces(s).0.map_values(f).drop_last() =~= done.map_values(f));
            assert(flatten(lf_pieces(s).0.map_values(f)) + lf_pieces(s).1 =~= flatten(done.map_values(f)) + cur + seq!['\n']);
            assert(s =~= s.drop_last().push('\n'));
        } else {
            assert(lf_pieces(s).0.map_values(f) =~= done.map_values(f));
            assert(s =~= s.drop_last().push(s.last()));
        }
    }
}

/// The raw lines of a text concatenate back to it.
pub proof fn lemma_raw_lines_cover(s: Seq<char>)
    ensures
        flatten(raw_lines(s)) == s,
{
    lemma_raw_lines_flatten(s);
    let closed = lf_pieces(s).0.map_values(|p: Seq<char>| p.push('\n'));
    if lf_pieces(s).1.len() == 0 {
        assert(flatten(closed) + lf_pieces(s).1 =~= flatten(closed));
    } else {
        assert(closed.push(lf_pieces(s).1).drop_last() =~= closed);
    }
}

/// Whether live line `e` sits in `text` at a character position whose byte
/// offset is the one recorded.
pub open spec fn placed(text: Seq<char>, e: (nat, Seq<char>)) -> bool {
    exists|c: int|
        0 <= c && c + e.1.len() <= text.len() && byte_len(#[trigger] text.take(c)) == e.0 && text.subrange(
            c,
            c + e.1.len(),
        ) == e.1
}

proof fn lemma_placed_extend(text: Seq<char>, more: Seq<char>, e: (nat, Seq<char>))
    requires
        placed(text, e),
    ensures
        placed(text + more, e),
{
    let c = choose|c: int|
        0 <= c && c + e.1.len() <= text.len() && byte_len(#[trigger] text.take(c)) == e.0 && text.subrange(
            c,
            c + e.1.len(),
        ) == e.1;
    let t = text + more;
    assert(t.take(c) =~= text.take(c));
    assert(t.subrange(c, c + e.1.len()) =~= text.subrange(c, c + e.1.len()));
}

proof fn lemma_live_scan_placed(rs: Seq<Seq<char>>)
    ensures
        live_scan(rs).1 == byte_len(flatten(rs)),
        forall|i: int| 0 <= i < live_scan(rs).2.len() ==> placed(flatten(rs), #[trigger] live_scan(rs).2[i]),
    decreases rs.len(),
{
    if rs.len() > 0 {
        let dl = rs.drop_last();
        lemma_live_scan_placed(dl);
        let raw = rs.last();
        let prev = flatten(dl);
        assert(flatten(rs) == prev + raw);
        crate::text::lemma_byte_len_concat(prev, raw);
        let (st, at, out) = live_scan(dl);
        let line = strip_breaks(raw);
        let (st2, live) = fence_step(st, line);
        assert forall|i: int| 0 <= i < live_scan(rs).2.len() implies placed(flatten(rs), #[trigger] live_scan(rs).2[i]) by {
            if i < out.len() {
                assert(live_scan(rs).2[i] == out[i]);
                lemma_placed_extend(prev, raw, out[i]);
            } else {
                assert(live);
                assert(live_scan(rs).2[i] == (at, line));
                let c = prev.len() as int;
                lemma_trail_breaks_bound(raw);
                let t = prev + raw;
                assert(t.take(c) =~= prev);
                assert(t.subrange(c, c + line.len()) =~= line);
            }
        }
    }
}

/// Every live line of a body sits in it at the byte offset recorded for it.
pub proof fn lemma_live_lines_placed(body: Seq<char>)
    ensures
        forall|i: int| 0 <= i < live_lines(body).len() ==> placed(body, #[trigger] live_lines(body)[i]),
{
    lemma_raw_lines_cover(body);
    lemma_live_scan_placed(raw_lines(body));
}


/// An ATX heading line's level (its `#` count) and text (see [`atx_text`]).
pub open spec fn atx_heading_of(line: Seq<char>) -> Option<(nat, Seq<char>)> {
    match atx_text(line) {
        Some(t) => Some((lead_run(line, '#'), t)),
        None => None,
    }
}

/// The level and text of an ATX heading line, or `None` if `line` is not one.
pub fn atx_heading(line: &str) -> (r: Option<(usize, &str)>)
    ensures
        match r {
            Some((l, t)) => atx_heading_of(line@) == Some((l as nat, t@)),
            None => atx_heading_of(line@) is None,
        },
{
    match atx_heading_text(line) {
        Some(t) => {
            let v = chars_of(line);
            let level = count_lead(&v, '#');
            Some((level, t))
        },
        None => None,
    }
}

/// The leading bold name of a `- ` list item: the text between `- **` at the
/// start of the line and the next `**`, when it is not empty.
pub open spec fn bold_name_of(line: Seq<char>) -> Option<Seq<char>> {
    if line.len() >= 4 && line.take(4) == seq!['-', ' ', '*', '*'] {
        match crate::text::first_occurrence(line, 4, seq!['*', '*']) {
            Some(j) => if j > 4 {
                Some(line.subrange(4, j))
            } else {
                None
            },
            None => None,
        }
    } else {
        None
    }
}

/// The leading `**bold**` name of a `- ` list item, or `None`.
pub fn list_item_bold_name(line: &str) -> (r: Option<&str>)
    ensures
        match r {
            Some(t) => bold_name_of(line@) == Some(t@),
            None => bold_name_of(line@) is None,
        },
{
    let v = chars_of(line);
    if !(v.len() >= 4 && v[0] == '-' && v[1] == ' ' && v[2] == '*' && v[3] == '*') {
        proof {
            if v@.len() >= 4 && v@.take(4) == seq!['-', ' ', '*', '*'] {
                assert(v@.take(4)[0] == v@[0]);
                assert(v@.take(4)[1] == v@[1]);
                assert(v@.take(4)[2] == v@[2]);
                assert(v@.take(4)[3] == v@[3]);
            }
        }
        return None;
    }
    proof {
        assert(v@.take(4) =~= seq!['-', ' ', '*', '*']);
    }
    let close: Vec<char> = vec!['*', '*'];
    assert(close@ =~= seq!['*', '*']);
    match crate::text::find_from(&v, 4, &close) {
        Some(j) => {
            proof {
                crate::codecat::lemma_occurrence_after(v@, 4, close@);
            }
            if j > 4 {
                Some(line.substring_char(4, j))
            } else {
                None
            }
        },
        None => None,
    }
}

} // verus!
