//! Link family: body links in governed markdown resolved against the run's
//! snapshot. A link to an in-tree file that is not there, or a fragment that
//! matches no heading, is a dead link. Resolution is document-relative: `..`
//! collapses against the containing file's directory, and only a target that
//! climbs above the root, or an absolute one, is refused.
use vstd::prelude::*;
use vstd::string::StrSliceExecFns;

use crate::confine::{
    confine_lexically, confinement, is_normal_piece, join_slash, lemma_join_confined,
    normal_pieces, plain_component, ConfinedPath, LexicalViolation,
};
use crate::diagnostic::{Finding, Location, QuotedRegion, Severity};
use crate::frontmatter::{body_text, frontmatter_fails, yaml_text};
use crate::markup::{heading_slugs, slug, slugify, slugs_of};
use crate::snapshot::{Captured, Content, Snapshot};
use crate::text::{
    byte_len, chars_of, fit_count, is_ascii_alnum, is_ascii_letter, owned, split_chars, split_on,
    views,
};

verus! {

/// One link event of a body: its destination and its byte offset in the body.
#[derive(Debug, Clone, PartialEq, Eq)]
pub struct BodyLink {
    pub dest: String,
    pub offset: usize,
}

/// A character that may continue a URL scheme.
pub open spec fn scheme_char(c: char) -> bool {
    is_ascii_alnum(c) || c == '+' || c == '.' || c == '-'
}

/// Whether `s` has a URL scheme `[A-Za-z][A-Za-z0-9+.-]*:` or is
/// protocol-relative (`//host`).
pub open spec fn external(s: Seq<char>) -> bool {
    (s.len() >= 2 && s[0] == '/' && s[1] == '/') || (s.len() > 0 && is_ascii_letter(s[0]) && exists|
        k: int,
    |
        1 <= k < s.len() && s[k] == ':' && forall|j: int| 1 <= j < k ==> scheme_char(#[trigger] s[j]))
}

/// True when `dest` carries a URL scheme (`http:`, `mailto:`, ...) or is
/// protocol-relative (`//host`): an external reference the engine does not
/// resolve.
pub fn is_external(dest: &str) -> (b: bool)
    ensures
        b == external(dest@),
{
    let v = chars_of(dest);
    if v.len() >= 2 && v[0] == '/' && v[1] == '/' {
        return true;
    }
    if v.len() == 0 || !crate::text::ascii_alnum(v[0]) || crate::text::ascii_digit(v[0]) {
        proof {
            if v@.len() > 0 && is_ascii_letter(v@[0]) {
                assert(is_ascii_alnum(v@[0]));
            }
        }
        return false;
    }
    let mut i: usize = 1;
    while i < v.len()
        invariant
            1 <= i <= v@.len(),
            v@ == dest@,
            is_ascii_letter(v@[0]),
            !(v@.len() >= 2 && v@[0] == '/' && v@[1] == '/'),
            forall|j: int| 1 <= j < i ==> scheme_char(#[trigger] v@[j]) && v@[j] != ':',
        decreases v.len() - i,
    {
        let c = v[i];
        if c == ':' {
            return true;
        }
        if !(crate::text::ascii_alnum(c) || c == '+' || c == '.' || c == '-') {
            proof {
                assert forall|k: int| 1 <= k < v@.len() && v@[k] == ':' implies !(forall|j: int|
                    1 <= j < k ==> scheme_char(#[trigger] v@[j])) by {
                    assert(k > i);
                    assert(!scheme_char(v@[i as int]));
                }
            }
            return false;
        }
        i = i + 1;
    }
    false
}

/// The position of the first `#` in `s`.
pub open spec fn first_hash(s: Seq<char>) -> Option<int> {
    if exists|i: int| 0 <= i < s.len() && s[i] == '#' {
        Some(choose|i: int| 0 <= i < s.len() && s[i] == '#' && forall|j: int| 0 <= j < i ==> s[j] != '#')
    } else {
        None
    }
}

/// A destination split at its first `#`: the path before it and the
/// fragment after it, if there is one.
pub open spec fn fragment_split(s: Seq<char>) -> (Seq<char>, Option<Seq<char>>) {
    match first_hash(s) {
        Some(i) => (s.take(i), Some(s.skip(i + 1))),
        None => (s, None),
    }
}

/// Split a destination into its path and optional `#fragment` at the first
/// `#`.
pub fn split_fragment(dest: &str) -> (r: (&str, Option<&str>))
    ensures
        (r.0@, match r.1 {
            Some(f) => Some(f@),
            None => None,
        }) == fragment_split(dest@),
{
    let v = chars_of(dest);
    let mut i: usize = 0;
    while i < v.len() && v[i] != '#'
        invariant
            i <= v@.len(),
            v@ == dest@,
            forall|j: int| 0 <= j < i ==> v@[j] != '#',
        decreases v.len() - i,
    {
        i = i + 1;
    }
    if i < v.len() {
        proof {
            let w = choose|w: int|
                0 <= w < v@.len() && v@[w] == '#' && forall|j: int| 0 <= j < w ==> v@[j] != '#';
            assert(w == i);
            assert(v@.subrange(0, i as int) =~= v@.take(i as int));
            assert(v@.subrange(i + 1, v@.len() as int) =~= v@.skip(i + 1));
        }
        (dest.substring_char(0, i), Some(dest.substring_char(i + 1, v.len())))
    } else {
        (dest, None)
    }
}

/// A document-relative confinement violation.
#[derive(Debug, Clone, Copy, PartialEq, Eq, Structural)]
pub enum TargetViolation {
    /// An absolute target.
    Absolute,
    /// The `../` segments climb above the project root.
    Escapes,
}

/// The components a link path leaves on top of `stack`: `.` and empty pieces
/// skipped, `..` popping (none when it would pop past the root), others
/// pushed.
pub open spec fn collapse(stack: Seq<Seq<char>>, ps: Seq<Seq<char>>) -> Option<Seq<Seq<char>>>
    decreases ps.len(),
{
    if ps.len() == 0 {
        Some(stack)
    } else if ps[0] == seq!['.', '.'] {
        if stack.len() == 0 {
            None
        } else {
            collapse(stack.drop_last(), ps.drop_first())
        }
    } else if is_normal_piece(ps[0]) {
        collapse(stack.push(ps[0]), ps.drop_first())
    } else {
        collapse(stack, ps.drop_first())
    }
}

/// The normal components of a directory path.
pub open spec fn dir_stack(dir: Seq<char>) -> Seq<Seq<char>> {
    normal_pieces(split_on(dir, '/'))
}

/// Where a link path resolves from a directory's components.
pub open spec fn resolution(stack: Seq<Seq<char>>, part: Seq<char>) -> Result<
    Seq<char>,
    TargetViolation,
> {
    if part.len() > 0 && part[0] == '/' {
        Err(TargetViolation::Absolute)
    } else {
        match collapse(stack, split_on(part, '/')) {
            None => Err(TargetViolation::Escapes),
            Some(st) => Ok(join_slash(st)),
        }
    }
}

proof fn lemma_pieces_plain(s: Seq<char>, sep: char)
    ensures
        forall|i: int| 0 <= i < split_on(s, sep).len() ==> !(#[trigger] split_on(s, sep)[i]).contains(
            sep,
        ),
    decreases s.len(),
{
    let sp = split_on(s, sep);
    if s.len() > 0 {
        lemma_pieces_plain(s.drop_last(), sep);
        let (d0, c0) = crate::text::sep_scan(s.drop_last(), sep);
        assert(split_on(s.drop_last(), sep) == d0.push(c0));
        assert forall|i: int| 0 <= i < sp.len() implies !(#[trigger] sp[i]).contains(sep) by {
            if i < d0.len() {
                assert(sp[i] == split_on(s.drop_last(), sep)[i]);
            } else if s.last() == sep {
                if i == d0.len() {
                    assert(sp[i] == c0);
                    assert(c0 == split_on(s.drop_last(), sep)[d0.len() as int]);
                } else {
                    assert(sp[i].len() == 0);
                }
            } else {
                assert(sp[i] == c0.push(s.last()));
                assert(!c0.contains(sep)) by {
                    assert(c0 == split_on(s.drop_last(), sep)[d0.len() as int]);
                }
                if c0.push(s.last()).contains(sep) {
                    let k = choose|k: int| 0 <= k < c0.len() + 1 && c0.push(s.last())[k] == sep;
                    if k < c0.len() {
                        assert(c0[k] == sep);
                    }
                }
            }
        }
    } else {
        assert(sp =~= seq![Seq::<char>::empty()]);
    }
}

proof fn lemma_collapse_plain(stack: Seq<Seq<char>>, ps: Seq<Seq<char>>)
    requires
        forall|i: int| 0 <= i < stack.len() ==> plain_component(#[trigger] stack[i]),
        forall|i: int| 0 <= i < ps.len() ==> !(#[trigger] ps[i]).contains('/'),
    ensures
        collapse(stack, ps) matches Some(st) ==> forall|i: int|
            0 <= i < st.len() ==> plain_component(#[trigger] st[i]),
    decreases ps.len(),
{
    if ps.len() > 0 {
        let rest = ps.drop_first();
        assert forall|i: int| 0 <= i < rest.len() implies !(#[trigger] rest[i]).contains('/') by {
            assert(rest[i] == ps[i + 1]);
        }
        if ps[0] == seq!['.', '.'] {
            if stack.len() > 0 {
                let s2 = stack.drop_last();
                assert forall|i: int| 0 <= i < s2.len() implies plain_component(#[trigger] s2[i]) by {
                    assert(s2[i] == stack[i]);
                }
                lemma_collapse_plain(s2, rest);
            }
        } else if is_normal_piece(ps[0]) {
            let s2 = stack.push(ps[0]);
            assert forall|i: int| 0 <= i < s2.len() implies plain_component(#[trigger] s2[i]) by {
                if i < stack.len() {
                    assert(s2[i] == stack[i]);
                } else {
                    assert(s2[i] == ps[0]);
                }
            }
            lemma_collapse_plain(s2, rest);
        } else {
            lemma_collapse_plain(stack, rest);
        }
    }
}

fn resolve_from(stack: Vec<String>, part: &str) -> (r: Result<ConfinedPath, TargetViolation>)
    requires
        forall|i: int| 0 <= i < stack@.len() ==> plain_component(#[trigger] views(stack@)[i]),
    ensures
        match r {
            Ok(p) => resolution(views(stack@), part@) == Ok::<Seq<char>, TargetViolation>(p@),
            Err(v) => resolution(views(stack@), part@) == Err::<Seq<char>, TargetViolation>(v),
        },
{
    let pv = chars_of(part);
    if pv.len() > 0 && pv[0] == '/' {
        return Err(TargetViolation::Absolute);
    }
    let pieces = split_chars(part, '/');
    let ghost ps = split_on(part@, '/');
    let ghost st0 = views(stack@);
    proof {
        lemma_pieces_plain(part@, '/');
        assert(ps.skip(0) =~= ps);
    }
    let mut st = stack;
    let mut i: usize = 0;
    while i < pieces.len()
        invariant
            views(pieces@) == ps,
            ps == split_on(part@, '/'),
            !(part@.len() > 0 && part@[0] == '/'),
            st0 == views(stack@),
            i <= ps.len(),
            collapse(st0, ps) == collapse(views(st@), ps.skip(i as int)),
            forall|k: int| 0 <= k < st@.len() ==> plain_component(#[trigger] views(st@)[k]),
            forall|k: int| 0 <= k < ps.len() ==> !(#[trigger] ps[k]).contains('/'),
        decreases pieces.len() - i,
    {
        let p = chars_of(pieces[i].as_str());
        proof {
            assert(views(pieces@)[i as int] == pieces@[i as int]@);
            assert(ps.skip(i as int)[0] == ps[i as int]);
            assert(ps.skip(i as int).drop_first() =~= ps.skip(i + 1));
        }
        let parent = p.len() == 2 && p[0] == '.' && p[1] == '.';
        let dot = p.len() == 1 && p[0] == '.';
        proof {
            if parent {
                assert(p@ =~= seq!['.', '.']);
            }
            if dot {
                assert(p@ =~= seq!['.']);
            }
            assert(parent == (ps[i as int] == seq!['.', '.']));
            assert((p.len() > 0 && !parent && !dot) == is_normal_piece(ps[i as int]));
        }
        if parent {
            if st.len() == 0 {
                proof {
                    assert(views(st@).len() == 0);
                    assert(ps.skip(i as int)[0] == seq!['.', '.']);
                    assert(collapse(views(st@), ps.skip(i as int)) is None);
                    assert(collapse(st0, ps) is None);
                    assert(resolution(st0, part@) == Err::<Seq<char>, TargetViolation>(
                        TargetViolation::Escapes,
                    ));
                }
                return Err(TargetViolation::Escapes);
            }
            let ghost before = views(st@);
            st.pop();
            proof {
                assert(views(st@) =~= before.drop_last());
            }
        } else if p.len() > 0 && !dot {
            let ghost before = views(st@);
            let piece = pieces[i].clone();
            st.push(piece);
            proof {
                assert(views(st@) =~= before.push(ps[i as int]));
                assert(!ps[i as int].contains('/'));
                assert(plain_component(ps[i as int]));
            }
        }
        i = i + 1;
    }
    proof {
        assert(ps.skip(i as int) =~= Seq::<Seq<char>>::empty());
    }
    let mut joined = String::new();
    let mut k: usize = 0;
    while k < st.len()
        invariant
            k <= st@.len(),
            joined@ == join_slash(views(st@).take(k as int)),
        decreases st.len() - k,
    {
        let ghost before = views(st@).take(k as int);
        if k > 0 {
            crate::text::push_char(&mut joined, '/');
        }
        crate::text::push_str(&mut joined, st[k].as_str());
        proof {
            let now = views(st@).take(k + 1);
            assert(now.drop_last() =~= before);
            assert(now.last() == st@[k as int]@);
            if k == 0 {
                assert(joined@ =~= join_slash(now));
            }
        }
        k = k + 1;
    }
    proof {
        assert(views(st@).take(st@.len() as int) =~= views(st@));
        lemma_join_confined(views(st@));
    }
    match confine_lexically(joined.as_str()) {
        Ok(c) => Ok(c),
        Err(_) => Err(TargetViolation::Escapes),
    }
}

/// The normal components of a directory path, collected.
fn dir_components(dir: &str) -> (r: Vec<String>)
    ensures
        views(r@) == dir_stack(dir@),
        forall|i: int| 0 <= i < r@.len() ==> plain_component(#[trigger] views(r@)[i]),
{
    let pieces = split_chars(dir, '/');
    let ghost ps = split_on(dir@, '/');
    proof {
        lemma_pieces_plain(dir@, '/');
        assert(ps.take(0) =~= Seq::<Seq<char>>::empty());
    }
    let mut out: Vec<String> = Vec::new();
    let mut i: usize = 0;
    while i < pieces.len()
        invariant
            views(pieces@) == ps,
            ps == split_on(dir@, '/'),
            i <= ps.len(),
            views(out@) == normal_pieces(ps.take(i as int)),
            forall|k: int| 0 <= k < out@.len() ==> plain_component(#[trigger] views(out@)[k]),
            forall|k: int| 0 <= k < ps.len() ==> !(#[trigger] ps[k]).contains('/'),
        decreases pieces.len() - i,
    {
        let p = chars_of(pieces[i].as_str());
        proof {
            assert(views(pieces@)[i as int] == pieces@[i as int]@);
            assert(ps.take(i + 1).drop_last() =~= ps.take(i as int));
            assert(ps.take(i + 1).last() == ps[i as int]);
        }
        let parent = p.len() == 2 && p[0] == '.' && p[1] == '.';
        let dot = p.len() == 1 && p[0] == '.';
        proof {
            if parent {
                assert(p@ =~= seq!['.', '.']);
            }
            if dot {
                assert(p@ =~= seq!['.']);
            }
            assert((p.len() > 0 && !parent && !dot) == is_normal_piece(ps[i as int]));
        }
        if p.len() > 0 && !parent && !dot {
            let ghost before = views(out@);
            let piece = pieces[i].clone();
            out.push(piece);
            proof {
                assert(views(out@) =~= before.push(ps[i as int]));
            }
        }
        i = i + 1;
    }
    proof {
        assert(ps.take(ps.len() as int) =~= ps);
    }
    out
}

/// Resolve `path_part` relative to `base_dir` (the containing file's
/// directory), collapsing `.` and `..` on the text alone: a target that
/// climbs above the root escapes; an absolute one is refused.
pub fn resolve_target(base_dir: &str, path_part: &str) -> (r: Result<ConfinedPath, TargetViolation>)
    ensures
        match r {
            Ok(p) => resolution(dir_stack(base_dir@), path_part@) == Ok::<Seq<char>, TargetViolation>(
                p@,
            ),
            Err(v) => resolution(dir_stack(base_dir@), path_part@) == Err::<
                Seq<char>,
                TargetViolation,
            >(v),
        },
{
    let stack = dir_components(base_dir);
    resolve_from(stack, path_part)
}

/// The pieces of a path that name something: not empty, not `.`.
pub open spec fn named_pieces(ps: Seq<Seq<char>>) -> Seq<Seq<char>>
    decreases ps.len(),
{
    if ps.len() == 0 {
        seq![]
    } else if ps.last().len() > 0 && ps.last() != seq!['.'] {
        named_pieces(ps.drop_last()).push(ps.last())
    } else {
        named_pieces(ps.drop_last())
    }
}

/// The last component of a path (empty and `.` pieces skipped), when it is
/// not `..`.
pub open spec fn file_name(path: Seq<char>) -> Option<Seq<char>> {
    let ps = named_pieces(split_on(path, '/'));
    if ps.len() == 0 || ps.last() == seq!['.', '.'] {
        None
    } else {
        Some(ps.last())
    }
}

/// The position of the last `.` in `s`.
pub open spec fn last_dot(s: Seq<char>) -> Option<int>
    decreases s.len(),
{
    if s.len() == 0 {
        None
    } else if s.last() == '.' {
        Some(s.len() - 1)
    } else {
        last_dot(s.drop_last())
    }
}

/// The extension of a file name: after its last `.`, unless that dot is the
/// first character.
pub open spec fn extension_of(name: Seq<char>) -> Option<Seq<char>> {
    match last_dot(name) {
        Some(k) => if k == 0 {
            None
        } else {
            Some(name.skip(k + 1))
        },
        None => None,
    }
}

/// ASCII-lowercase of one character.
pub open spec fn ascii_lower(c: char) -> char {
    if 'A' <= c <= 'Z' {
        ((c as u32) + 32) as char
    } else {
        c
    }
}

/// Whether `path` has a `.md` or `.markdown` extension, ASCII case-insensitive.
pub open spec fn markdown_path(path: Seq<char>) -> bool {
    match file_name(path) {
        Some(n) => match extension_of(n) {
            Some(e) => e.map_values(|c: char| ascii_lower(c)) == seq!['m', 'd'] || e.map_values(
                |c: char| ascii_lower(c),
            ) == seq!['m', 'a', 'r', 'k', 'd', 'o', 'w', 'n'],
            None => false,
        },
        None => false,
    }
}

fn lower_ascii(c: char) -> (d: char)
    ensures
        d == ascii_lower(c),
{
    if 'A' <= c && c <= 'Z' {
        ((c as u8) + 32) as char
    } else {
        c
    }
}

fn equals_ignoring_case(v: &Vec<char>, from: usize, word: &Vec<char>) -> (b: bool)
    requires
        from <= v@.len(),
    ensures
        b == (v@.skip(from as int).map_values(|c: char| ascii_lower(c)) == word@),
{
    let ghost e = v@.skip(from as int).map_values(|c: char| ascii_lower(c));
    if v.len() - from != word.len() {
        proof {
            assert(e.len() != word@.len());
        }
        return false;
    }
    let mut i: usize = 0;
    while i < word.len()
        invariant
            i <= word@.len(),
            from <= v@.len(),
            word@.len() == v@.len() - from,
            e == v@.skip(from as int).map_values(|c: char| ascii_lower(c)),
            forall|k: int| 0 <= k < i ==> e[k] == word@[k],
        decreases word.len() - i,
    {
        let idx: usize = v.len() - word.len() + i;
        assert(idx == from + i);
        if lower_ascii(v[idx]) != word[i] {
            proof {
                assert(e[i as int] == ascii_lower(v@[from + i]));
            }
            return false;
        }
        proof {
            assert(e[i as int] == ascii_lower(v@[from + i]));
        }
        i = i + 1;
    }
    proof {
        assert(e =~= word@);
    }
    true
}

/// True when `path` has a markdown extension (`.md` / `.markdown`,
/// case-insensitive): only markdown targets carry resolvable heading anchors.
pub fn is_markdown(path: &str) -> (b: bool)
    ensures
        b == markdown_path(path@),
{
    let pieces = split_chars(path, '/');
    let ghost ps = split_on(path@, '/');
    let mut last: Option<usize> = None;
    let mut i: usize = 0;
    proof {
        assert(ps.take(0) =~= Seq::<Seq<char>>::empty());
    }
    while i < pieces.len()
        invariant
            views(pieces@) == ps,
            ps == split_on(path@, '/'),
            i <= ps.len(),
            match last {
                Some(k) => k < i && named_pieces(ps.take(i as int)).len() > 0 && named_pieces(
                    ps.take(i as int),
                ).last() == ps[k as int],
                None => named_pieces(ps.take(i as int)).len() == 0,
            },
        decreases pieces.len() - i,
    {
        let p = chars_of(pieces[i].as_str());
        proof {
            assert(views(pieces@)[i as int] == pieces@[i as int]@);
            assert(ps.take(i + 1).drop_last() =~= ps.take(i as int));
            assert(ps.take(i + 1).last() == ps[i as int]);
        }
        let dot = p.len() == 1 && p[0] == '.';
        proof {
            if dot {
                assert(p@ =~= seq!['.']);
            }
        }
        if p.len() > 0 && !dot {
            last = Some(i);
        }
        i = i + 1;
    }
    proof {
        assert(ps.take(ps.len() as int) =~= ps);
    }
    let k = match last {
        Some(k) => k,
        None => return false,
    };
    let name = chars_of(pieces[k].as_str());
    proof {
        assert(views(pieces@)[k as int] == pieces@[k as int]@);
    }
    if name.len() == 2 && name[0] == '.' && name[1] == '.' {
        proof {
            assert(name@ =~= seq!['.', '.']);
        }
        return false;
    }
    proof {
        if name@ == seq!['.', '.'] {
            assert(name@[0] == '.' && name@[1] == '.');
        }
    }
    let mut j = name.len();
    proof {
        assert(name@.take(name@.len() as int) =~= name@);
    }
    while j > 0 && name[j - 1] != '.'
        invariant
            j <= name@.len(),
            last_dot(name@) == last_dot(name@.take(j as int)),
        decreases j,
    {
        proof {
            assert(name@.take(j as int).drop_last() =~= name@.take(j - 1));
        }
        j = j - 1;
    }
    proof {
        assert(name@.take(name@.len() as int) =~= name@);
        if j > 0 {
            assert(name@.take(j as int).last() == '.');
            assert(last_dot(name@.take(j as int)) == Some(j - 1));
        } else {
            assert(name@.take(0) =~= Seq::<char>::empty());
        }
    }
    if j <= 1 {
        return false;
    }
    let md: Vec<char> = vec!['m', 'd'];
    let markdown: Vec<char> = vec!['m', 'a', 'r', 'k', 'd', 'o', 'w', 'n'];
    proof {
        assert(md@ =~= seq!['m', 'd']);
        assert(markdown@ =~= seq!['m', 'a', 'r', 'k', 'd', 'o', 'w', 'n']);
    }
    equals_ignoring_case(&name, j, &md) || equals_ignoring_case(&name, j, &markdown)
}

/// The markdown body of a file: after its frontmatter when that parses,
/// else the whole text.
pub open spec fn markdown_text(content: Seq<char>) -> Seq<char> {
    if yaml_text(content) is Some && !frontmatter_fails(content) {
        body_text(content)->0
    } else {
        content
    }
}

/// The markdown body of a file, with leading frontmatter stripped so a YAML
/// comment (`# ...`) is not mistaken for a heading.
pub fn markdown_body(content: &str) -> (b: &str)
    ensures
        b@ == markdown_text(content@),
{
    match crate::frontmatter::parse(content) {
        Ok(Some((_, body))) => body,
        _ => content,
    }
}

/// The number of LFs in `s`.
pub open spec fn lf_count(s: Seq<char>) -> nat
    decreases s.len(),
{
    if s.len() == 0 {
        0
    } else {
        lf_count(s.drop_last()) + if s.last() == '\n' {
            1nat
        } else {
            0nat
        }
    }
}

/// The 1-based line of byte offset `at` of `content`.
pub open spec fn line_at(content: Seq<char>, at: int) -> nat {
    1 + lf_count(content.take(fit_count(content, at) as int))
}

/// Whether `at` falls on a character boundary of `content` (or past its
/// end), so that the text before it can be taken.
pub open spec fn on_boundary(content: Seq<char>, at: int) -> bool {
    at >= byte_len(content) || byte_len(content.take(fit_count(content, at) as int)) == at
}

/// The byte offset of any character position is a boundary.
pub proof fn lemma_boundary_of_prefix(s: Seq<char>, p: int)
    requires
        0 <= p <= s.len(),
    ensures
        on_boundary(s, byte_len(s.take(p)) as int),
{
    let x = byte_len(s.take(p)) as int;
    crate::text::lemma_fit(s, x);
    let k = fit_count(s, x) as int;
    if x < byte_len(s) {
        if k < p {
            crate::text::lemma_byte_len_take_mono(s, k + 1, p);
        } else if k > p {
            crate::text::lemma_byte_len_take_step(s, p);
            crate::text::lemma_byte_len_take_mono(s, p + 1, k);
        }
    }
}

/// A text placed at character `c` of `content`, whose byte offset is `at`,
/// puts each of its own character positions at `at` plus its byte offset.
pub proof fn lemma_boundary_within(content: Seq<char>, c: int, at: int, line: Seq<char>, s: int)
    requires
        0 <= c,
        c + line.len() <= content.len(),
        byte_len(content.take(c)) == at,
        content.subrange(c, c + line.len()) == line,
        0 <= s <= line.len(),
    ensures
        on_boundary(content, at + byte_len(line.take(s))),
        at + byte_len(line.take(s)) <= byte_len(content),
{
    assert(content.take(c + s) =~= content.take(c) + line.take(s));
    crate::text::lemma_byte_len_concat(content.take(c), line.take(s));
    lemma_boundary_of_prefix(content, c + s);
    crate::text::lemma_byte_len_take_mono(content, c + s, content.len() as int);
    assert(content.take(content.len() as int) =~= content);
}

/// Whether `f` is the link finding for `dest` at byte `at` of `content`.
pub open spec fn is_link_finding(
    f: Finding,
    path: Seq<char>,
    content: Seq<char>,
    at: int,
    code: Seq<char>,
    summary: Seq<char>,
    message: Seq<char>,
    severity: Severity,
    dest: Seq<char>,
) -> bool {
    &&& f.code@ == code
    &&& f.severity == severity
    &&& f.summary@ == summary
    &&& f.message@ == message
    &&& f.help is None
    &&& f.location.file@ == path
    &&& f.location.line == line_at(content, at)
    &&& f.location.column == 0
    &&& f.explain_ref matches Some(e) && e@ == code
    &&& f.quoted@.len() == 1
    &&& !f.quoted@[0].platform_variant
    &&& f.quoted@[0].label@ == "link"@
    &&& f.quoted@[0].content@ == dest
}

pub fn count_lines_before(content: &str, offset: usize) -> (n: u32)
    requires
        on_boundary(content@, offset as int),
        lf_count(content@) < u32::MAX,
    ensures
        n == line_at(content@, offset as int),
{
    let v = chars_of(content);
    let k = crate::text::fit_chars(&v, offset);
    let mut count: u32 = 0;
    let mut i: usize = 0;
    proof {
        crate::text::lemma_fit(v@, offset as int);
    }
    while i < k
        invariant
            i <= k <= v@.len(),
            v@ == content@,
            count == lf_count(v@.take(i as int)),
            lf_count(v@) < u32::MAX,
        decreases k - i,
    {
        proof {
            assert(v@.take(i + 1).drop_last() =~= v@.take(i as int));
            lemma_lf_count_mono(v@, i + 1, v@.len() as int);
            assert(v@.take(v@.len() as int) =~= v@);
        }
        if v[i] == '\n' {
            count = count + 1;
        }
        i = i + 1;
    }
    proof {
        lemma_lf_count_mono(v@, k as int, v@.len() as int);
        assert(v@.take(v@.len() as int) =~= v@);
    }
    count + 1
}

proof fn lemma_lf_count_mono(s: Seq<char>, i: int, j: int)
    requires
        0 <= i <= j <= s.len(),
    ensures
        lf_count(s.take(i)) <= lf_count(s.take(j)),
    decreases j - i,
{
    if i < j {
        lemma_lf_count_mono(s, i, j - 1);
        assert(s.take(j).drop_last() =~= s.take(j - 1));
    }
}

/// The link finding for `dest` at byte `offset` of `content`: code, summary
/// and engine message given, the destination quoted under the `link` label,
/// explained by its own code.
pub fn link_finding(
    path: &str,
    content: &str,
    offset: usize,
    code: &str,
    summary: &str,
    message: &str,
    dest: &str,
) -> (f: Finding)
    requires
        on_boundary(content@, offset as int),
        lf_count(content@) < u32::MAX,
    ensures
        is_link_finding(
            f,
            path@,
            content@,
            offset as int,
            code@,
            summary@,
            message@,
            Severity::Error,
            dest@,
        ),
{
    let line = count_lines_before(content, offset);
    let mut quoted: Vec<QuotedRegion> = Vec::new();
    quoted.push(QuotedRegion { platform_variant: false, label: owned("link"), content: owned(dest) });
    Finding {
        code: owned(code),
        severity: Severity::Error,
        summary: owned(summary),
        message: owned(message),
        help: None,
        location: Location { file: owned(path), line, column: 0 },
        explain_ref: Some(owned(code)),
        quoted,
    }
}


/// What a link check reports: code, summary, engine message and severity.
pub struct LinkIssue {
    pub code: Seq<char>,
    pub summary: Seq<char>,
    pub message: Seq<char>,
    pub severity: Severity,
}

pub open spec fn issue(code: Seq<char>, summary: Seq<char>, message: Seq<char>) -> Option<LinkIssue> {
    Some(LinkIssue { code, summary, message, severity: Severity::Error })
}

/// The finding (if any) a link earns: judged against the containing file's
/// own heading slugs, its directory's components and the captured states.
pub open spec fn link_verdict(
    snap: Map<Seq<char>, Captured>,
    base_dir: Seq<char>,
    dest: Seq<char>,
    own: Set<Seq<char>>,
) -> Option<LinkIssue> {
    let (part, anchor) = fragment_split(dest);
    if external(dest) {
        None
    } else if part.len() == 0 {
        match anchor {
            Some(frag) => if frag.len() > 0 && !own.contains(slug(frag)) {
                issue(
                    "MDATRON-E0111"@,
                    "dead-anchor"@,
                    "this same-document link names a `#fragment` that matches no heading in this file (fragments resolve via the GitHub heading-slug algorithm)"@,
                )
            } else {
                None
            },
            None => None,
        }
    } else {
        match resolution(dir_stack(base_dir), part) {
            Err(TargetViolation::Absolute) => issue(
                "MDATRON-E0010"@,
                "absolute-path-refused"@,
                "a link target is an absolute path; the governed tree admits only relative, in-tree targets"@,
            ),
            Err(TargetViolation::Escapes) => issue(
                "MDATRON-E0011"@,
                "parent-segment-refused"@,
                "a link target resolves outside the governed tree (its `../` segments climb above the project root)"@,
            ),
            Ok(p) => if !snap.contains_key(p) {
                issue(
                    "MDATRON-E0080"@,
                    "pipeline-orchestration-failure"@,
                    "this link's target was never captured into the run snapshot \u{2014} an engine defect in target discovery, not a defect in this document; please report it upstream"@,
                )
            } else {
                match snap[p] {
                    Captured::Content(c) => match anchor {
                        Some(frag) => if frag.len() > 0 && markdown_path(p) {
                            match c {
                                Content::Utf8(t) => if slugs_of(markdown_text(t@)).contains(
                                    slug(frag),
                                ) {
                                    None
                                } else {
                                    issue(
                                        "MDATRON-E0111"@,
                                        "dead-anchor"@,
                                        "this link's `#fragment` matches no heading in the target file (fragments resolve via the GitHub heading-slug algorithm)"@,
                                    )
                                },
                                Content::Raw(_) => None,
                            }
                        } else {
                            None
                        },
                        None => None,
                    },
                    Captured::OpenedUnreadable { .. } => None,
                    Captured::TooLarge { .. } => if (anchor matches Some(frag) && frag.len() > 0)
                        && markdown_path(p) {
                        Some(
                            LinkIssue {
                                code: "MDATRON-W0048"@,
                                summary: "reference-target-unverified"@,
                                message:
                                    "this link's target exceeds the input size budget, so its fragment was NOT resolved \u{2014} existence only; raise attention on the link or shrink the target"@,
                                severity: Severity::Warning,
                            },
                        )
                    } else {
                        None
                    },
                    Captured::SymlinkRefused { .. } => issue(
                        "MDATRON-E0012"@,
                        "symlinked-component-refused"@,
                        "a link's target resolves through a symbolic link; no-follow resolution refuses it"@,
                    ),
                    Captured::OpenIo { .. } => issue(
                        "MDATRON-E0110"@,
                        "dead-link-target"@,
                        "this link points at a relative path that does not exist in the working tree (uncommitted content counts; no git history is consulted)"@,
                    ),
                }
            },
        }
    }
}

/// Whether `after` is `before` with the finding for `verdict` appended (or
/// unchanged when there is none).
pub open spec fn reported(
    before: Seq<Finding>,
    after: Seq<Finding>,
    verdict: Option<LinkIssue>,
    path: Seq<char>,
    content: Seq<char>,
    at: int,
    dest: Seq<char>,
) -> bool {
    match verdict {
        None => after == before,
        Some(i) => after.len() == before.len() + 1 && after.take(before.len() as int) == before
            && is_link_finding(
            after.last(),
            path,
            content,
            at,
            i.code,
            i.summary,
            i.message,
            i.severity,
            dest,
        ),
    }
}

pub(crate) fn contains_text(v: &Vec<String>, s: &String) -> (b: bool)
    ensures
        b == views(v@).contains(s@),
{
    let mut i: usize = 0;
    while i < v.len()
        invariant
            i <= v@.len(),
            forall|k: int| 0 <= k < i ==> v@[k]@ != s@,
        decreases v.len() - i,
    {
        if v[i] == *s {
            proof {
                assert(views(v@)[i as int] == s@);
            }
            return true;
        }
        i = i + 1;
    }
    proof {
        if views(v@).contains(s@) {
            let k = choose|k: int| 0 <= k < views(v@).len() && views(v@)[k] == s@;
            assert(v@[k]@ == s@);
        }
    }
    false
}

fn push_link_finding(
    findings: &mut Vec<Finding>,
    path: &str,
    content: &str,
    at: usize,
    code: &str,
    summary: &str,
    message: &str,
    dest: &str,
)
    requires
        on_boundary(content@, at as int),
        lf_count(content@) < u32::MAX,
    ensures
        final(findings)@.len() == old(findings)@.len() + 1,
        final(findings)@.take(old(findings)@.len() as int) == old(findings)@,
        is_link_finding(
            final(findings)@.last(),
            path@,
            content@,
            at as int,
            code@,
            summary@,
            message@,
            Severity::Error,
            dest@,
        ),
{
    let f = link_finding(path, content, at, code, summary, message, dest);
    findings.push(f);
    assert(findings@.take(old(findings)@.len() as int) =~= old(findings)@);
}

/// Resolve one link against the snapshot and report what it earns (see
/// [`link_verdict`]): dead same-document or target anchors, refused absolute
/// or escaping targets, symlinked components, missing targets, an unchecked
/// anchor on an oversized target, or a target the snapshot never captured.
pub fn resolve_link(
    snapshot: &Snapshot,
    path: &str,
    content: &str,
    at: usize,
    base_dir: &str,
    dest: &str,
    own_slugs: &Vec<String>,
    findings: &mut Vec<Finding>,
)
    requires
        snapshot.wf(),
        on_boundary(content@, at as int),
        lf_count(content@) < u32::MAX,
    ensures
        reported(
            old(findings)@,
            final(findings)@,
            link_verdict(snapshot@, base_dir@, dest@, views(own_slugs@).to_set()),
            path@,
            content@,
            at as int,
            dest@,
        ),
{
    let ghost verdict = link_verdict(snapshot@, base_dir@, dest@, views(own_slugs@).to_set());
    if is_external(dest) {
        return ;
    }
    let (path_part, anchor) = split_fragment(dest);
    if path_part.unicode_len() == 0 {
        match anchor {
            Some(frag) => {
                if frag.unicode_len() > 0 {
                    let s = slugify(frag);
                    if !contains_text(own_slugs, &s) {
                        push_link_finding(
                            findings,
                            path,
                            content,
                            at,
                            "MDATRON-E0111",
                            "dead-anchor",
                            "this same-document link names a `#fragment` that matches no heading in this file (fragments resolve via the GitHub heading-slug algorithm)",
                            dest,
                        );
                    }
                }
            },
            None => {},
        }
        return ;
    }
    let confined = match resolve_target(base_dir, path_part) {
        Ok(c) => c,
        Err(TargetViolation::Absolute) => {
            push_link_finding(
                findings,
                path,
                content,
                at,
                "MDATRON-E0010",
                "absolute-path-refused",
                "a link target is an absolute path; the governed tree admits only relative, in-tree targets",
                dest,
            );
            return ;
        },
        Err(TargetViolation::Escapes) => {
            push_link_finding(
                findings,
                path,
                content,
                at,
                "MDATRON-E0011",
                "parent-segment-refused",
                "a link target resolves outside the governed tree (its `../` segments climb above the project root)",
                dest,
            );
            return ;
        },
    };
    let target = confined.as_path();
    match snapshot.get(target) {
        Some(Captured::Content(c)) => {
            let frag = match anchor {
                Some(f) => f,
                None => return ,
            };
            if frag.unicode_len() == 0 || !is_markdown(target) {
                return ;
            }
            match c.text() {
                Some(t) => {
                    let slugs = heading_slugs(markdown_body(t));
                    let s = slugify(frag);
                    if !contains_text(&slugs, &s) {
                        push_link_finding(
                            findings,
                            path,
                            content,
                            at,
                            "MDATRON-E0111",
                            "dead-anchor",
                            "this link's `#fragment` matches no heading in the target file (fragments resolve via the GitHub heading-slug algorithm)",
                            dest,
                        );
                    }
                },
                None => {},
            }
        },
        Some(Captured::OpenedUnreadable { .. }) => {},
        Some(Captured::TooLarge { .. }) => {
            let skipped = match anchor {
                Some(f) => f.unicode_len() > 0,
                None => false,
            } && is_markdown(target);
            if skipped {
                let mut f = link_finding(
                    path,
                    content,
                    at,
                    "MDATRON-W0048",
                    "reference-target-unverified",
                    "this link's target exceeds the input size budget, so its fragment was NOT resolved \u{2014} existence only; raise attention on the link or shrink the target",
                    dest,
                );
                f.severity = Severity::Warning;
                findings.push(f);
                assert(findings@.take(old(findings)@.len() as int) =~= old(findings)@);
            }
        },
        Some(Captured::SymlinkRefused { .. }) => {
            push_link_finding(
                findings,
                path,
                content,
                at,
                "MDATRON-E0012",
                "symlinked-component-refused",
                "a link's target resolves through a symbolic link; no-follow resolution refuses it",
                dest,
            );
        },
        Some(Captured::OpenIo { .. }) => {
            push_link_finding(
                findings,
                path,
                content,
                at,
                "MDATRON-E0110",
                "dead-link-target",
                "this link points at a relative path that does not exist in the working tree (uncommitted content counts; no git history is consulted)",
                dest,
            );
        },
        None => {
            push_link_finding(
                findings,
                path,
                content,
                at,
                "MDATRON-E0080",
                "pipeline-orchestration-failure",
                "this link's target was never captured into the run snapshot \u{2014} an engine defect in target discovery, not a defect in this document; please report it upstream",
                dest,
            );
        },
    }
}


/// Whether a path is absolute (starts at the root).
pub open spec fn is_absolute(s: Seq<char>) -> bool {
    s.len() > 0 && s[0] == '/'
}

/// The components of `path` below `root` when `root` is a component-wise
/// prefix of it (`Path::strip_prefix`), else all of its components.
pub open spec fn relative_pieces(path: Seq<char>, root: Seq<char>) -> Seq<Seq<char>> {
    let pp = named_pieces(split_on(path, '/'));
    let rp = named_pieces(split_on(root, '/'));
    if is_absolute(path) == is_absolute(root) && rp.len() <= pp.len() && pp.take(rp.len() as int)
        == rp {
        pp.skip(rp.len() as int)
    } else {
        pp
    }
}

/// The containing directory of `path` relative to `root`: its relative
/// components but the last, joined.
pub open spec fn base_of(path: Seq<char>, root: Seq<char>) -> Seq<char> {
    let ps = relative_pieces(path, root);
    if ps.len() == 0 {
        seq![]
    } else {
        join_slash(ps.drop_last())
    }
}

fn named_components(s: &str) -> (r: Vec<String>)
    ensures
        views(r@) == named_pieces(split_on(s@, '/')),
{
    let pieces = split_chars(s, '/');
    let ghost ps = split_on(s@, '/');
    let mut out: Vec<String> = Vec::new();
    let mut i: usize = 0;
    proof {
        assert(ps.take(0) =~= Seq::<Seq<char>>::empty());
    }
    while i < pieces.len()
        invariant
            views(pieces@) == ps,
            i <= ps.len(),
            views(out@) == named_pieces(ps.take(i as int)),
        decreases pieces.len() - i,
    {
        let p = chars_of(pieces[i].as_str());
        proof {
            assert(views(pieces@)[i as int] == pieces@[i as int]@);
            assert(ps.take(i + 1).drop_last() =~= ps.take(i as int));
            assert(ps.take(i + 1).last() == ps[i as int]);
        }
        let dot = p.len() == 1 && p[0] == '.';
        proof {
            if dot {
                assert(p@ =~= seq!['.']);
            }
        }
        if p.len() > 0 && !dot {
            let ghost before = views(out@);
            let piece = pieces[i].clone();
            out.push(piece);
            proof {
                assert(views(out@) =~= before.push(ps[i as int]));
            }
        }
        i = i + 1;
    }
    proof {
        assert(ps.take(ps.len() as int) =~= ps);
    }
    out
}

fn join_components(ps: &Vec<String>, from: usize, to: usize) -> (s: String)
    requires
        from <= to <= ps@.len(),
    ensures
        s@ == join_slash(views(ps@).subrange(from as int, to as int)),
{
    let mut out = String::new();
    let mut k = from;
    proof {
        assert(views(ps@).subrange(from as int, from as int) =~= Seq::<Seq<char>>::empty());
    }
    while k < to
        invariant
            from <= k <= to <= ps@.len(),
            out@ == join_slash(views(ps@).subrange(from as int, k as int)),
        decreases to - k,
    {
        let ghost before = views(ps@).subrange(from as int, k as int);
        if k > from {
            crate::text::push_char(&mut out, '/');
        }
        crate::text::push_str(&mut out, ps[k].as_str());
        proof {
            let now = views(ps@).subrange(from as int, k + 1);
            assert(now.drop_last() =~= before);
            assert(now.last() == ps@[k as int]@);
            if k == from {
                assert(out@ =~= join_slash(now));
            }
        }
        k = k + 1;
    }
    out
}

/// The containing directory of `path` relative to `root` (see [`base_of`]).
fn base_dir_of(path: &str, root: &str) -> (b: String)
    ensures
        b@ == base_of(path@, root@),
{
    let pp = named_components(path);
    let rp = named_components(root);
    let pv = chars_of(path);
    let rv = chars_of(root);
    let pabs = pv.len() > 0 && pv[0] == '/';
    let rabs = rv.len() > 0 && rv[0] == '/';
    let mut prefix = pabs == rabs && rp.len() <= pp.len();
    let mut i: usize = 0;
    while prefix && i < rp.len()
        invariant
            prefix ==> rp@.len() <= pp@.len() && pabs == rabs,
            i <= rp@.len(),
            prefix ==> forall|k: int| 0 <= k < i ==> views(pp@)[k] == views(rp@)[k],
            !prefix && pabs == rabs && rp@.len() <= pp@.len() ==> 1 <= i && views(pp@)[i - 1]
                != views(rp@)[i - 1],
        decreases rp.len() - i,
    {
        if pp[i] != rp[i] {
            prefix = false;
            proof {
                assert(views(pp@)[i as int] != views(rp@)[i as int]);
            }
        }
        i = i + 1;
    }
    let ghost pps = views(pp@);
    let ghost rps = views(rp@);
    proof {
        if prefix {
            assert(pps.take(rps.len() as int) =~= rps);
        } else if pabs == rabs && rp@.len() <= pp@.len() {
            let k = i - 1;
            assert(pps.take(rps.len() as int)[k] == pps[k]);
            assert(pps.take(rps.len() as int) != rps);
        }
        assert(pabs == is_absolute(path@));
        assert(rabs == is_absolute(root@));
    }
    let start = if prefix {
        rp.len()
    } else {
        0
    };
    proof {
        assert(relative_pieces(path@, root@) =~= pps.subrange(start as int, pps.len() as int));
    }
    if start == pp.len() {
        return String::new();
    }
    proof {
        assert(pps.subrange(start as int, pps.len() as int).drop_last() =~= pps.subrange(
            start as int,
            pps.len() - 1,
        ));
    }
    join_components(&pp, start, pp.len() - 1)
}

/// The link findings of a body, in link order: each link with its verdict,
/// its byte position in the file and its destination.
pub open spec fn link_issues(
    snap: Map<Seq<char>, Captured>,
    base_dir: Seq<char>,
    links: Seq<BodyLink>,
    own: Set<Seq<char>>,
    body_offset: int,
) -> Seq<(LinkIssue, int, Seq<char>)>
    decreases links.len(),
{
    if links.len() == 0 {
        seq![]
    } else {
        let prev = link_issues(snap, base_dir, links.drop_last(), own, body_offset);
        let l = links.last();
        match link_verdict(snap, base_dir, l.dest@, own) {
            Some(i) => prev.push((i, body_offset + l.offset, l.dest@)),
            None => prev,
        }
    }
}

/// The text after byte `at` of `content`.
pub open spec fn text_after(content: Seq<char>, at: int) -> Seq<char> {
    content.skip(fit_count(content, at) as int)
}

/// Check one opted-in file's body links against the snapshot. `content` is
/// the whole file, `body_offset` where its body begins, and `links` the link
/// events of that body; each is resolved relative to the file's directory
/// (the file's path below the project root), its anchors against the body's
/// own headings or the target's.
pub fn check_file(
    snapshot: &Snapshot,
    project_root: &str,
    path: &str,
    content: &str,
    body_offset: usize,
    links: &[BodyLink],
    findings: &mut Vec<Finding>,
)
    requires
        snapshot.wf(),
        on_boundary(content@, body_offset as int),
        lf_count(content@) < u32::MAX,
        forall|i: int|
            0 <= i < links@.len() ==> body_offset + (#[trigger] links@[i]).offset <= usize::MAX
                && on_boundary(content@, body_offset + links@[i].offset),
    ensures
        ({
            let iss = link_issues(
                snapshot@,
                base_of(path@, project_root@),
                links@,
                slugs_of(text_after(content@, body_offset as int)),
                body_offset as int,
            );
            &&& final(findings)@.len() == old(findings)@.len() + iss.len()
            &&& final(findings)@.take(old(findings)@.len() as int) == old(findings)@
            &&& forall|k: int|
                0 <= k < iss.len() ==> is_link_finding(
                    #[trigger] final(findings)@[old(findings)@.len() + k],
                    path@,
                    content@,
                    iss[k].1,
                    iss[k].0.code,
                    iss[k].0.summary,
                    iss[k].0.message,
                    iss[k].0.severity,
                    iss[k].2,
                )
        }),
{
    let base_dir = base_dir_of(path, project_root);
    let cv = chars_of(content);
    let k = crate::text::fit_chars(&cv, body_offset);
    proof {
        crate::text::lemma_fit(cv@, body_offset as int);
        assert(cv@.subrange(k as int, cv@.len() as int) =~= text_after(content@, body_offset as int));
    }
    let body = content.substring_char(k, cv.len());
    let own = heading_slugs(body);
    let ghost own_set = slugs_of(text_after(content@, body_offset as int));
    let ghost base = findings@;
    let ghost snap = snapshot@;
    let mut i: usize = 0;
    proof {
        assert(links@.take(0) =~= Seq::<BodyLink>::empty());
        assert(findings@.take(base.len() as int) =~= base);
    }
    while i < links.len()
        invariant
            snapshot.wf(),
            snap == snapshot@,
            i <= links@.len(),
            views(own@).to_set() == own_set,
            own_set == slugs_of(text_after(content@, body_offset as int)),
            on_boundary(content@, body_offset as int),
            lf_count(content@) < u32::MAX,
            forall|j: int|
                0 <= j < links@.len() ==> body_offset + (#[trigger] links@[j]).offset <= usize::MAX
                    && on_boundary(content@, body_offset + links@[j].offset),
            ({
                let iss = link_issues(snap, base_dir@, links@.take(i as int), own_set, body_offset as int);
                &&& findings@.len() == base.len() + iss.len()
                &&& findings@.take(base.len() as int) == base
                &&& forall|m: int|
                    0 <= m < iss.len() ==> is_link_finding(
                        #[trigger] findings@[base.len() + m],
                        path@,
                        content@,
                        iss[m].1,
                        iss[m].0.code,
                        iss[m].0.summary,
                        iss[m].0.message,
                        iss[m].0.severity,
                        iss[m].2,
                    )
            }),
        decreases links.len() - i,
    {
        let link = &links[i];
        let at = body_offset + link.offset;
        let ghost prev_iss = link_issues(snap, base_dir@, links@.take(i as int), own_set, body_offset as int);
        let ghost before = findings@;
        resolve_link(snapshot, path, content, at, base_dir.as_str(), link.dest.as_str(), &own, findings);
        proof {
            assert(links@.take(i + 1).drop_last() =~= links@.take(i as int));
            assert(links@.take(i + 1).last() == links@[i as int]);
            let iss = link_issues(snap, base_dir@, links@.take(i + 1), own_set, body_offset as int);
            match link_verdict(snap, base_dir@, link.dest@, own_set) {
                Some(v) => {
                    assert(iss == prev_iss.push((v, at as int, link.dest@)));
                    assert(findings@.take(base.len() as int) =~= base) by {
                        assert(findings@.take(before.len() as int) == before);
                        assert(before.take(base.len() as int) == base);
                    }
                    assert forall|m: int| 0 <= m < iss.len() implies is_link_finding(
                        #[trigger] findings@[base.len() + m],
                        path@,
                        content@,
                        iss[m].1,
                        iss[m].0.code,
                        iss[m].0.summary,
                        iss[m].0.message,
                        iss[m].0.severity,
                        iss[m].2,
                    ) by {
                        if m < prev_iss.len() {
                            assert(findings@[base.len() + m] == findings@.take(before.len() as int)[base.len() + m]);
                            assert(before[base.len() + m] == findings@[base.len() + m]);
                        } else {
                            assert(findings@[base.len() + m] == findings@.last());
                        }
                    }
                },
                None => {
                    assert(iss == prev_iss);
                },
            }
        }
        i = i + 1;
    }
    proof {
        assert(links@.take(links@.len() as int) =~= links@);
    }
}

/// The target a link names from the directory of `rel`, when it names an
/// in-tree one: not external, with a path part that resolves.
pub open spec fn link_target(rel: Seq<char>, dest: Seq<char>) -> Option<Seq<char>> {
    if external(dest) || fragment_split(dest).0.len() == 0 {
        None
    } else {
        match resolution(dir_stack(base_of(rel, seq![])), fragment_split(dest).0) {
            Ok(p) => Some(p),
            Err(_) => None,
        }
    }
}

/// The targets of a list of links, in order.
pub open spec fn link_target_list(rel: Seq<char>, links: Seq<BodyLink>) -> Seq<Seq<char>>
    decreases links.len(),
{
    if links.len() == 0 {
        seq![]
    } else {
        let prev = link_target_list(rel, links.drop_last());
        match link_target(rel, links.last().dest@) {
            Some(p) => prev.push(p),
            None => prev,
        }
    }
}

/// The confinement-accepted link targets of one file's body links: what
/// target discovery captures before the seal. External links, same-document
/// fragments and refused targets contribute nothing.
pub fn link_targets(rel: &str, links: &[BodyLink]) -> (r: Vec<ConfinedPath>)
    ensures
        r@.map_values(|p: ConfinedPath| p@) == link_target_list(rel@, links@),
{
    let base_dir = base_dir_of(rel, "");
    proof {
        reveal_strlit("");
    }
    let mut out: Vec<ConfinedPath> = Vec::new();
    let mut i: usize = 0;
    proof {
        assert(links@.take(0) =~= Seq::<BodyLink>::empty());
        assert(out@.map_values(|p: ConfinedPath| p@) =~= Seq::<Seq<char>>::empty());
    }
    while i < links.len()
        invariant
            i <= links@.len(),
            base_dir@ == base_of(rel@, seq![]),
            out@.map_values(|p: ConfinedPath| p@) == link_target_list(rel@, links@.take(i as int)),
        decreases links.len() - i,
    {
        proof {
            assert(links@.take(i + 1).drop_last() =~= links@.take(i as int));
            assert(links@.take(i + 1).last() == links@[i as int]);
        }
        let dest = links[i].dest.as_str();
        if !is_external(dest) {
            let (part, _anchor) = split_fragment(dest);
            if part.unicode_len() > 0 {
                match resolve_target(base_dir.as_str(), part) {
                    Ok(c) => {
                        let ghost before = out@;
                        out.push(c);
                        proof {
                            assert(out@.map_values(|p: ConfinedPath| p@) =~= before.map_values(
                                |p: ConfinedPath| p@,
                            ).push(c@));
                        }
                    },
                    Err(_) => {},
                }
            }
        }
        i = i + 1;
    }
    proof {
        assert(links@.take(links@.len() as int) =~= links@);
    }
    out
}


/// Whether `e` spells `w` ignoring ASCII case, character by character.
pub open spec fn spells_ignoring_case(e: Seq<char>, w: Seq<char>) -> bool {
    e.len() == w.len() && forall|i: int| 0 <= i < e.len() ==> {
        let c = #[trigger] e[i];
        c == w[i] || ('A' <= c <= 'Z' && (c as u32) + 32 == (w[i] as u32))
    }
}

/// A path is a markdown path exactly when its file name has the extension
/// `md` or `markdown`, in any ASCII case.
pub proof fn lemma_markdown_extensions(path: Seq<char>)
    ensures
        markdown_path(path) <==> (file_name(path) matches Some(n) && extension_of(n) matches Some(e) && (
        spells_ignoring_case(e, seq!['m', 'd']) || spells_ignoring_case(
            e,
            seq!['m', 'a', 'r', 'k', 'd', 'o', 'w', 'n'],
        ))),
{
    match file_name(path) {
        Some(n) => match extension_of(n) {
            Some(e) => {
                lemma_lower_spells(e, seq!['m', 'd']);
                lemma_lower_spells(e, seq!['m', 'a', 'r', 'k', 'd', 'o', 'w', 'n']);
            },
            None => {},
        },
        None => {},
    }
}

/// Lowercasing `e` gives the all-lowercase `w` exactly when `e` spells `w`
/// ignoring case.
proof fn lemma_lower_spells(e: Seq<char>, w: Seq<char>)
    requires
        forall|i: int| 0 <= i < w.len() ==> 'a' <= #[trigger] w[i] <= 'z',
    ensures
        (e.map_values(|c: char| ascii_lower(c)) == w) <==> spells_ignoring_case(e, w),
{
    let l = e.map_values(|c: char| ascii_lower(c));
    if l == w {
        assert forall|i: int| 0 <= i < e.len() implies {
            let c = #[trigger] e[i];
            c == w[i] || ('A' <= c <= 'Z' && (c as u32) + 32 == (w[i] as u32))
        } by {
            assert(l[i] == ascii_lower(e[i]));
        }
    }
    if spells_ignoring_case(e, w) {
        assert forall|i: int| 0 <= i < e.len() implies l[i] == w[i] by {
            let c = e[i];
            if c != w[i] {
                assert('A' <= c <= 'Z');
                assert(ascii_lower(c) == (((c as u32) + 32) as char));
            }
        }
        assert(l =~= w);
    }
}

} // verus!
