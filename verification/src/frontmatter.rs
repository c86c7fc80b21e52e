//! YAML frontmatter: locating the `---` fences at the very top of a markdown
//! file, parsing the block between them, and walking a JSON Pointer over a
//! position-marked YAML tree to a source location.
use vstd::prelude::*;
use vstd::string::StrSliceExecFns;

use crate::text::{
    byte_len, byte_offset, chars_of, is_whitespace, owned, parse_index, split_chars, split_on,
    string_of, trim, views,
};

verus! {

/// A parsed YAML value (`serde_yaml_ng::Value`), converted at the parser.
#[verifier::external_type_specification]
#[verifier::external_body]
pub struct ExYamlValue(serde_yaml_ng::Value);

/// Why frontmatter could not be read.
#[derive(Debug, Clone, PartialEq, Eq)]
pub enum FrontmatterError {
    /// The block between the fences is not valid YAML (the parser's message).
    Yaml(String),
}

/// `content` without one leading byte-order mark (U+FEFF).
pub open spec fn without_bom(s: Seq<char>) -> Seq<char> {
    if s.len() > 0 && s[0] == '\u{FEFF}' {
        s.drop_first()
    } else {
        s
    }
}

/// Strip a single leading UTF-8 BOM (U+FEFF).
pub fn strip_bom(content: &str) -> (r: &str)
    ensures
        r@ == without_bom(content@),
{
    let n = content.unicode_len();
    if n > 0 && content.get_char(0) == '\u{FEFF}' {
        content.substring_char(1, n)
    } else {
        content
    }
}

/// A fence line is `---` alone on its line, tolerating one trailing CR.
pub open spec fn fence_line(line: Seq<char>) -> bool {
    line == seq!['-', '-', '-'] || line == seq!['-', '-', '-', '\r']
}

/// Whether a line is a frontmatter fence (`---`, or `---` then CR).
pub fn is_fence_line(line: &str) -> (b: bool)
    ensures
        b == fence_line(line@),
{
    let v = chars_of(line);
    let dashes = v.len() >= 3 && v[0] == '-' && v[1] == '-' && v[2] == '-';
    let r = dashes && (v.len() == 3 || (v.len() == 4 && v[3] == '\r'));
    proof {
        if r {
            if v.len() == 3 {
                assert(v@ =~= seq!['-', '-', '-']);
            } else {
                assert(v@ =~= seq!['-', '-', '-', '\r']);
            }
        }
    }
    r
}

/// The index of the first LF at or after `pos`, or the end of `s`.
pub open spec fn next_lf(s: Seq<char>, pos: int) -> int
    decreases s.len() - pos,
{
    if pos >= s.len() || pos < 0 {
        s.len() as int
    } else if s[pos] == '\n' {
        pos
    } else {
        next_lf(s, pos + 1)
    }
}

pub proof fn lemma_next_lf(s: Seq<char>, pos: int)
    requires
        0 <= pos <= s.len(),
    ensures
        pos <= next_lf(s, pos) <= s.len(),
        next_lf(s, pos) < s.len() ==> s[next_lf(s, pos)] == '\n',
        forall|k: int| pos <= k < next_lf(s, pos) ==> s[k] != '\n',
    decreases s.len() - pos,
{
    if pos < s.len() && s[pos] != '\n' {
        lemma_next_lf(s, pos + 1);
    }
}

/// The closing fence at or after line start `pos`: its line start and where
/// the body begins after it.
pub open spec fn closing_fence(s: Seq<char>, pos: int) -> Option<(int, int)>
    decreases s.len() - pos,
{
    if pos < 0 || pos > s.len() {
        None
    } else {
        let le = next_lf(s, pos);
        if fence_line(s.subrange(pos, le)) {
            Some((pos, if le < s.len() { le + 1 } else { le }))
        } else if le >= s.len() {
            None
        } else {
            proof {
                lemma_next_lf(s, pos);
            }
            closing_fence(s, le + 1)
        }
    }
}

/// The frontmatter bounds of BOM-stripped content, as character positions:
/// where the YAML starts, where it ends (the closing fence line), and where
/// the body begins. The opening line is exactly `---` (LF or CRLF); the
/// closing fence is the first later fence line.
pub open spec fn fences(s: Seq<char>) -> Option<(int, int, int)> {
    let start: int = if s.len() >= 4 && s.take(4) == seq!['-', '-', '-', '\n'] {
        4
    } else if s.len() >= 5 && s.take(5) == seq!['-', '-', '-', '\r', '\n'] {
        5
    } else {
        -1
    };
    if start < 0 {
        None
    } else {
        match closing_fence(s, start) {
            Some((end, body)) => Some((start, end, body)),
            None => None,
        }
    }
}

fn find_fences(v: &Vec<char>) -> (r: Option<(usize, usize, usize)>)
    ensures
        match r {
            Some((a, b, c)) => fences(v@) == Some((a as int, b as int, c as int)) && a <= b <= c
                <= v@.len(),
            None => fences(v@) is None,
        },
{
    let n = v.len();
    let start: usize = if n >= 4 && v[0] == '-' && v[1] == '-' && v[2] == '-' && v[3] == '\n' {
        assert(v@.take(4) =~= seq!['-', '-', '-', '\n']);
        4
    } else if n >= 5 && v[0] == '-' && v[1] == '-' && v[2] == '-' && v[3] == '\r' && v[4] == '\n' {
        assert(v@.take(5) =~= seq!['-', '-', '-', '\r', '\n']);
        assert(v@.take(4) != seq!['-', '-', '-', '\n']) by {
            assert(v@.take(4)[3] == '\r');
        }
        5
    } else {
        proof {
            if n >= 4 && v@.take(4) == seq!['-', '-', '-', '\n'] {
                assert(v@.take(4)[0] == v@[0]);
                assert(v@.take(4)[1] == v@[1]);
                assert(v@.take(4)[2] == v@[2]);
                assert(v@.take(4)[3] == v@[3]);
            }
            if n >= 5 && v@.take(5) == seq!['-', '-', '-', '\r', '\n'] {
                assert(v@.take(5)[0] == v@[0]);
                assert(v@.take(5)[1] == v@[1]);
                assert(v@.take(5)[2] == v@[2]);
                assert(v@.take(5)[3] == v@[3]);
                assert(v@.take(5)[4] == v@[4]);
            }
        }
        return None;
    };
    let mut pos = start;
    loop
        invariant
            start <= pos <= n == v@.len(),
            fences(v@) == match closing_fence(v@, pos as int) {
                Some((end, body)) => Some((start as int, end, body)),
                None => None,
            },
        decreases n - pos,
    {
        let mut le = pos;
        while le < n && v[le] != '\n'
            invariant
                pos <= le <= n == v@.len(),
                next_lf(v@, pos as int) == next_lf(v@, le as int),
            decreases n - le,
        {
            le = le + 1;
        }
        proof {
            lemma_next_lf(v@, pos as int);
        }
        let line = string_from_range(v, pos, le);
        if is_fence_line(line.as_str()) {
            let body = if le < n {
                le + 1
            } else {
                le
            };
            return Some((start, pos, body));
        }
        if le == n {
            return None;
        }
        pos = le + 1;
    }
}

fn string_from_range(v: &Vec<char>, from: usize, to: usize) -> (s: String)
    requires
        from <= to <= v@.len(),
    ensures
        s@ == v@.subrange(from as int, to as int),
{
    crate::text::string_from(v, from, to)
}

/// Locate the frontmatter fences in (BOM-stripped) content: the byte offsets
/// `(yaml_start, yaml_end, body_start)`, or `None` when there is no
/// well-formed opening and closing fence pair.
pub fn fence_bounds(content: &str) -> (r: Option<(usize, usize, usize)>)
    ensures
        match r {
            Some((a, b, c)) => fences(content@) matches Some((x, y, z)) && a == byte_len(
                content@.take(x),
            ) && b == byte_len(content@.take(y)) && c == byte_len(content@.take(z)),
            None => fences(content@) is None,
        },
{
    let v = chars_of(content);
    let total = crate::text::utf8_len(content);
    match find_fences(&v) {
        Some((a, b, c)) => {
            proof {
                crate::text::lemma_byte_len_take_mono(v@, c as int, v@.len() as int);
                crate::text::lemma_byte_len_take_mono(v@, b as int, c as int);
                crate::text::lemma_byte_len_take_mono(v@, a as int, b as int);
                assert(v@.take(v@.len() as int) =~= v@);
            }
            Some((byte_offset(&v, a), byte_offset(&v, b), byte_offset(&v, c)))
        },
        None => None,
    }
}

/// The frontmatter YAML text of a file (between the fences, BOM ignored).
pub open spec fn yaml_text(content: Seq<char>) -> Option<Seq<char>> {
    match fences(without_bom(content)) {
        Some((a, b, _)) => Some(without_bom(content).subrange(a, b)),
        None => None,
    }
}

/// The frontmatter YAML substring (between the `---` markers), or `None` when
/// there is no well-formed block. Its first line is file line 2.
pub fn yaml_block(content: &str) -> (r: Option<&str>)
    ensures
        match r {
            Some(y) => yaml_text(content@) == Some(y@),
            None => yaml_text(content@) is None,
        },
{
    let s = strip_bom(content);
    let v = chars_of(s);
    match find_fences(&v) {
        Some((a, b, _)) => Some(s.substring_char(a, b)),
        None => None,
    }
}

#[verifier::external_type_specification]
#[verifier::external_body]
pub struct ExYamlNumber(serde_yaml_ng::Number);

#[verifier::external_type_specification]
#[verifier::external_body]
pub struct ExYamlTag(serde_yaml_ng::value::Tag);

/// A parsed YAML value as the library holds it. Numbers and tags are carried
/// through unread; a mapping keeps its entries in document order.
#[derive(Debug)]
pub enum YamlValue {
    Null,
    Bool(bool),
    Number(serde_yaml_ng::Number),
    Str(String),
    Sequence(Vec<YamlValue>),
    Mapping(Vec<(YamlValue, YamlValue)>),
    Tagged(serde_yaml_ng::value::Tag, Box<YamlValue>),
}

/// The mathematical form of a [`YamlValue`].
pub enum YamlView {
    Null,
    Bool(bool),
    Number(serde_yaml_ng::Number),
    Str(Seq<char>),
    Sequence(Seq<YamlView>),
    Mapping(Seq<(YamlView, YamlView)>),
    Tagged(serde_yaml_ng::value::Tag, Box<YamlView>),
}

impl YamlValue {
    pub open spec fn view(&self) -> YamlView
        decreases self,
    {
        match self {
            YamlValue::Null => YamlView::Null,
            YamlValue::Bool(b) => YamlView::Bool(*b),
            YamlValue::Number(n) => YamlView::Number(*n),
            YamlValue::Str(t) => YamlView::Str(t@),
            YamlValue::Sequence(q) => YamlView::Sequence(
                Seq::new(
                    q.len() as nat,
                    |i: int|
                        if 0 <= i < q.len() {
                            q[i].view()
                        } else {
                            YamlView::Null
                        },
                ),
            ),
            YamlValue::Mapping(m) => YamlView::Mapping(
                Seq::new(
                    m.len() as nat,
                    |i: int|
                        if 0 <= i < m.len() {
                            (m[i].0.view(), m[i].1.view())
                        } else {
                            (YamlView::Null, YamlView::Null)
                        },
                ),
            ),
            YamlValue::Tagged(t, v) => YamlView::Tagged(*t, Box::new(v.view())),
        }
    }
}

/// Whether `serde_yaml_ng` parses `text` as a YAML value.
pub uninterp spec fn yaml_accepts(text: Seq<char>) -> bool;

/// The value `serde_yaml_ng` parses `text` to.
pub uninterp spec fn yaml_value(text: Seq<char>) -> YamlView;

/// The message `serde_yaml_ng` gives (its error's `Display`) when it refuses
/// `text`.
pub uninterp spec fn yaml_error(text: Seq<char>) -> Seq<char>;

/// Moves a parsed `serde_yaml_ng::Value` into the library's form, variant by
/// variant (mapping entries in their order).
#[verifier::external_body]
fn from_serde_yaml(v: &serde_yaml_ng::Value) -> YamlValue {
    match v {
        serde_yaml_ng::Value::Null => YamlValue::Null,
        serde_yaml_ng::Value::Bool(b) => YamlValue::Bool(*b),
        serde_yaml_ng::Value::Number(n) => YamlValue::Number(n.clone()),
        serde_yaml_ng::Value::String(t) => YamlValue::Str(t.clone()),
        serde_yaml_ng::Value::Sequence(q) => YamlValue::Sequence(q.iter().map(from_serde_yaml).collect()),
        serde_yaml_ng::Value::Mapping(m) => YamlValue::Mapping(
            m.iter().map(|(k, x)| (from_serde_yaml(k), from_serde_yaml(x))).collect(),
        ),
        serde_yaml_ng::Value::Tagged(t) => YamlValue::Tagged(t.tag.clone(), Box::new(from_serde_yaml(&t.value))),
    }
}

/// Calls `serde_yaml_ng::from_str::<Value>`; on failure the parser's message.
/// Which texts it accepts, the value it parses them to and the message it
/// refuses them with are named, not stated.
#[verifier::external_body]
fn parse_yaml(text: &str) -> (r: Result<YamlValue, String>)
    ensures
        r is Ok <==> yaml_accepts(text@),
        r matches Ok(v) ==> v.view() == yaml_value(text@),
        r matches Err(m) ==> m@ == yaml_error(text@),
{
    match serde_yaml_ng::from_str::<serde_yaml_ng::Value>(text) {
        Ok(v) => Ok(from_serde_yaml(&v)),
        Err(e) => Err(e.to_string()),
    }
}

/// The value frontmatter text stands for: an empty mapping for a blank
/// block, else its YAML parse.
pub open spec fn frontmatter_value(y: Seq<char>) -> YamlView {
    if trim(y).len() == 0 {
        YamlView::Mapping(Seq::empty())
    } else {
        yaml_value(y)
    }
}

/// The body a file's frontmatter leaves, when it has frontmatter.
pub open spec fn body_text(content: Seq<char>) -> Option<Seq<char>> {
    match fences(without_bom(content)) {
        Some((_, _, c)) => Some(without_bom(content).skip(c)),
        None => None,
    }
}

/// Whether frontmatter that is present fails to parse: its YAML text is not
/// blank and the parser refuses it.
pub open spec fn frontmatter_fails(content: Seq<char>) -> bool {
    match yaml_text(content) {
        Some(y) => trim(y).len() > 0 && !yaml_accepts(y),
        None => false,
    }
}

/// Parse YAML frontmatter: `Ok(None)` when there is no fenced block, `Err`
/// when the block is present but not valid YAML, otherwise the value (an
/// empty mapping for a blank block) and the body after the closing fence.
pub fn parse(content: &str) -> (r: Result<Option<(YamlValue, &str)>, FrontmatterError>)
    ensures
        (r is Err) == frontmatter_fails(content@),
        r matches Ok(None) ==> yaml_text(content@) is None,
        r matches Ok(Some((_, body))) ==> body_text(content@) == Some(body@),
        r matches Ok(Some((v, _))) ==> yaml_text(content@) matches Some(y) && v.view()
            == frontmatter_value(y),
        r matches Err(FrontmatterError::Yaml(m)) ==> yaml_text(content@) matches Some(y) && m@
            == yaml_error(y),
{
    let s = strip_bom(content);
    let v = chars_of(s);
    let (a, b, c) = match find_fences(&v) {
        Some(t) => t,
        None => return Ok(None),
    };
    let yaml = s.substring_char(a, b);
    let body = s.substring_char(c, v.len());
    proof {
        assert(v@.subrange(c as int, v@.len() as int) =~= v@.skip(c as int));
    }
    let yv = chars_of(yaml);
    let (x, y) = crate::text::trim_bounds(&yv, 0, yv.len());
    proof {
        assert(yv@.subrange(0, yv@.len() as int) =~= yv@);
    }
    let value = if x == y {
        let m = YamlValue::Mapping(Vec::new());
        proof {
            assert(m.view()->Mapping_0 =~= Seq::<(YamlView, YamlView)>::empty());
        }
        m
    } else {
        match parse_yaml(yaml) {
            Ok(val) => val,
            Err(msg) => return Err(FrontmatterError::Yaml(msg)),
        }
    };
    Ok(Some((value, body)))
}

// ── JSON Pointer over a position-marked YAML tree ──────────────────────────

/// The shape of one YAML node, as far as pointer resolution reads it.
#[derive(Debug)]
pub enum YamlData {
    /// A string scalar.
    Str(String),
    /// Any other scalar, alias or tag.
    Other,
    /// A mapping: key and value nodes in document order.
    Mapping(Vec<(YamlNode, YamlNode)>),
    /// A sequence of nodes.
    Sequence(Vec<YamlNode>),
}

/// A YAML node with the line (1-based within the frontmatter block, so the
/// block's first line is 1) and the 0-based column where it starts.
#[derive(Debug)]
pub struct YamlNode {
    pub data: YamlData,
    pub line: usize,
    pub col: usize,
}

/// `s` with every non-overlapping occurrence of `p` (scanning left to right)
/// replaced by `r`.
pub open spec fn replace_all(s: Seq<char>, p: Seq<char>, r: Seq<char>) -> Seq<char>
    decreases s.len(),
{
    if s.len() == 0 || p.len() == 0 {
        s
    } else if s.len() >= p.len() && s.take(p.len() as int) == p {
        r + replace_all(s.skip(p.len() as int), p, r)
    } else {
        seq![s[0]] + replace_all(s.drop_first(), p, r)
    }
}

/// A pointer token unescaped: `~1` to `/`, then `~0` to `~`.
pub open spec fn unescape_token(t: Seq<char>) -> Seq<char> {
    replace_all(replace_all(t, seq!['~', '1'], seq!['/']), seq!['~', '0'], seq!['~'])
}

/// Whether a node is a string scalar equal to `token`.
pub open spec fn key_is(n: YamlNode, token: Seq<char>) -> bool {
    match n.data {
        YamlData::Str(k) => k@ == token,
        _ => false,
    }
}

/// The first entry at or after `i` whose key is the string `token`.
pub open spec fn first_key(m: Seq<(YamlNode, YamlNode)>, token: Seq<char>, i: int) -> Option<int>
    decreases m.len() - i,
{
    if i < 0 || i >= m.len() {
        None
    } else if key_is(m[i].0, token) {
        Some(i)
    } else {
        first_key(m, token, i + 1)
    }
}

/// The child a token selects: in a mapping, the value of the first string
/// key equal to the token; in a sequence, the element at the token's index.
pub open spec fn child_of(node: YamlNode, token: Seq<char>) -> Option<YamlNode> {
    match node.data {
        YamlData::Mapping(m) => match first_key(m@, token, 0) {
            Some(i) => Some(m@[i].1),
            None => None,
        },
        YamlData::Sequence(q) => match parse_index(token) {
            Some(i) => if i < q@.len() {
                Some(q@[i as int])
            } else {
                None
            },
            None => None,
        },
        _ => None,
    }
}

proof fn lemma_first_key_bound(m: Seq<(YamlNode, YamlNode)>, token: Seq<char>, i: int)
    ensures
        first_key(m, token, i) matches Some(k) ==> i <= k < m.len(),
    decreases m.len() - i,
{
    if 0 <= i < m.len() && !key_is(m[i].0, token) {
        lemma_first_key_bound(m, token, i + 1);
    }
}

/// The node a list of (still escaped) pointer tokens reaches from `node`.
pub open spec fn walk_tokens(node: YamlNode, tokens: Seq<Seq<char>>) -> Option<YamlNode>
    decreases tokens.len(),
{
    if tokens.len() == 0 {
        Some(node)
    } else {
        match child_of(node, unescape_token(tokens[0])) {
            Some(c) => walk_tokens(c, tokens.drop_first()),
            None => None,
        }
    }
}

/// The node a JSON Pointer addresses: the empty pointer is the root; else the
/// `/`-separated tokens after the first `/`.
pub open spec fn pointer_target(root: YamlNode, pointer: Seq<char>) -> Option<YamlNode> {
    if pointer.len() == 0 {
        Some(root)
    } else {
        walk_tokens(root, split_on(pointer, '/').drop_first())
    }
}

/// The 1-based file position of a node start: block lines are offset by the
/// opening fence line; `None` when it does not fit a `u32`.
pub open spec fn file_position(line: usize, col: usize) -> Option<(u32, u32)> {
    if line <= u32::MAX && line + 1 <= u32::MAX && col <= u32::MAX {
        Some(((line + 1) as u32, if col + 1 <= u32::MAX { (col + 1) as u32 } else { u32::MAX }))
    } else {
        None
    }
}

fn marker_to_location(line: usize, col: usize) -> (r: Option<(u32, u32)>)
    ensures
        r == file_position(line, col),
{
    if line > 0xFFFF_FFFE || col > 0xFFFF_FFFF {
        return None;
    }
    let c = col as u32;
    let c1 = if c < 0xFFFF_FFFF {
        c + 1
    } else {
        c
    };
    Some(((line as u32) + 1, c1))
}

fn replace_exec(s: &Vec<char>, p0: char, p1: char, r: char) -> (out: Vec<char>)
    ensures
        out@ == replace_all(s@, seq![p0, p1], seq![r]),
{
    let ghost p = seq![p0, p1];
    let mut out: Vec<char> = Vec::new();
    let mut i: usize = 0;
    proof {
        assert(s@.skip(0) =~= s@);
    }
    while i < s.len()
        invariant
            i <= s@.len(),
            p == seq![p0, p1],
            replace_all(s@, p, seq![r]) == out@ + replace_all(s@.skip(i as int), p, seq![r]),
        decreases s.len() - i,
    {
        let ghost t = s@.skip(i as int);
        if i + 1 < s.len() && s[i] == p0 && s[i + 1] == p1 {
            proof {
                assert(t.take(2) =~= p);
                assert(t.skip(2) =~= s@.skip(i + 2));
            }
            out.push(r);
            i = i + 2;
        } else {
            proof {
                if t.len() >= 2 && t.take(2) == p {
                    assert(t.take(2)[0] == s@[i as int]);
                    assert(t.take(2)[1] == s@[i + 1]);
                }
                assert(t.drop_first() =~= s@.skip(i + 1));
                assert(seq![t[0]] == seq![s@[i as int]]);
            }
            out.push(s[i]);
            i = i + 1;
        }
        proof {
            assert(out@ =~= out@);
        }
    }
    proof {
        assert(s@.skip(i as int) =~= Seq::<char>::empty());
    }
    out
}

fn child<'a>(node: &'a YamlNode, token: &Vec<char>) -> (r: Option<&'a YamlNode>)
    ensures
        match r {
            Some(c) => child_of(*node, token@) == Some(*c),
            None => child_of(*node, token@) is None,
        },
{
    match &node.data {
        YamlData::Mapping(m) => {
            let key = string_of(token);
            let mut i: usize = 0;
            while i < m.len()
                invariant
                    i <= m@.len(),
                    key@ == token@,
                    node.data == YamlData::Mapping(*m),
                    first_key(m@, token@, 0) == first_key(m@, token@, i as int),
                decreases m.len() - i,
            {
                let hit = match &m[i].0.data {
                    YamlData::Str(k) => *k == key,
                    _ => false,
                };
                proof {
                    assert(hit == key_is(m@[i as int].0, token@));
                }
                if hit {
                    assert(first_key(m@, token@, i as int) == Some(i as int));
                    return Some(&m[i].1);
                }
                i = i + 1;
            }
            None
        },
        YamlData::Sequence(q) => {
            proof {
                assert(token@.subrange(0, token@.len() as int) =~= token@);
            }
            match crate::text::parse_index_at(token, 0, token.len()) {
                Some(i) => if i < q.len() {
                    Some(&q[i])
                } else {
                    None
                },
                None => None,
            }
        },
        _ => None,
    }
}

fn walk_pointer<'a>(root: &'a YamlNode, pointer: &str) -> (r: Option<&'a YamlNode>)
    ensures
        match r {
            Some(n) => pointer_target(*root, pointer@) == Some(*n),
            None => pointer_target(*root, pointer@) is None,
        },
{
    let pv = chars_of(pointer);
    if pv.len() == 0 {
        return Some(root);
    }
    let parts = split_chars(pointer, '/');
    let ghost toks = split_on(pointer@, '/').drop_first();
    let mut node = root;
    let mut i: usize = 1;
    proof {
        assert(views(parts@).drop_first().skip(0) =~= toks);
    }
    while i < parts.len()
        invariant
            1 <= i <= parts@.len(),
            views(parts@) == split_on(pointer@, '/'),
            toks == split_on(pointer@, '/').drop_first(),
            pointer@.len() > 0,
            pointer_target(*root, pointer@) == walk_tokens(*node, toks.skip(i - 1)),
        decreases parts.len() - i,
    {
        let raw = chars_of(parts[i].as_str());
        proof {
            assert(views(parts@)[i as int] == parts@[i as int]@);
            assert(toks.skip(i - 1)[0] == raw@);
            assert(toks.skip(i - 1).drop_first() =~= toks.skip(i as int));
        }
        let t1 = replace_exec(&raw, '~', '1', '/');
        let t2 = replace_exec(&t1, '~', '0', '~');
        match child(node, &t2) {
            Some(c) => {
                node = c;
            },
            None => {
                return None;
            },
        }
        i = i + 1;
    }
    proof {
        assert(toks.skip(i - 1) =~= Seq::<Seq<char>>::empty());
    }
    Some(node)
}

/// The first entry at or after `i` whose key is the string `key` and has a
/// position that fits.
pub open spec fn first_located_key(m: Seq<(YamlNode, YamlNode)>, key: Seq<char>, i: int) -> Option<
    int,
>
    decreases m.len() - i,
{
    if i < 0 || i >= m.len() {
        None
    } else if key_is(m[i].0, key) && file_position(m[i].0.line, m[i].0.col) is Some {
        Some(i)
    } else {
        first_located_key(m, key, i + 1)
    }
}

/// The position of the first mapping key equal to `key` that has one.
pub open spec fn key_position(node: YamlNode, key: Seq<char>) -> Option<(u32, u32)> {
    match node.data {
        YamlData::Mapping(m) => match first_located_key(m@, key, 0) {
            Some(i) => file_position(m@[i].0.line, m@[i].0.col),
            None => None,
        },
        _ => None,
    }
}

fn key_location(node: &YamlNode, key: &str) -> (r: Option<(u32, u32)>)
    ensures
        r == key_position(*node, key@),
{
    match &node.data {
        YamlData::Mapping(m) => {
            let k0 = owned(key);
            let mut i: usize = 0;
            while i < m.len()
                invariant
                    i <= m@.len(),
                    k0@ == key@,
                    node.data == YamlData::Mapping(*m),
                    first_located_key(m@, key@, 0) == first_located_key(m@, key@, i as int),
                decreases m.len() - i,
            {
                let hit = match &m[i].0.data {
                    YamlData::Str(k) => *k == k0,
                    _ => false,
                };
                proof {
                    assert(hit == key_is(m@[i as int].0, key@));
                }
                if hit {
                    let loc = marker_to_location(m[i].0.line, m[i].0.col);
                    if loc.is_some() {
                        assert(first_located_key(m@, key@, i as int) == Some(i as int));
                        return loc;
                    }
                }
                i = i + 1;
            }
            None
        },
        _ => None,
    }
}

/// The location of one violation: the addressed node's start, or, for an
/// unexpected property, the offending key's own position when it is found.
pub open spec fn violation_position(root: YamlNode, pointer: Seq<char>, key: Seq<char>) -> Option<
    (u32, u32),
> {
    match pointer_target(root, pointer) {
        None => None,
        Some(n) => if key.len() > 0 && key_position(n, key) is Some {
            key_position(n, key)
        } else {
            file_position(n.line, n.col)
        },
    }
}

/// Resolve every schema-violation location for one file over its parsed
/// frontmatter tree (`None` when the block did not parse): each
/// `(instance_path, unexpected_key)` yields the 1-based `(line, column)` of
/// the offending node, or `None`.
pub fn resolve_e0050_locations(root: Option<&YamlNode>, items: &[(&str, &str)]) -> (r: Vec<
    Option<(u32, u32)>,
>)
    ensures
        r@.len() == items@.len(),
        forall|i: int|
            0 <= i < r@.len() ==> #[trigger] r@[i] == match root {
                Some(t) => violation_position(*t, items@[i].0@, items@[i].1@),
                None => None,
            },
{
    let mut out: Vec<Option<(u32, u32)>> = Vec::new();
    let mut i: usize = 0;
    while i < items.len()
        invariant
            i <= items@.len(),
            out@.len() == i,
            forall|k: int|
                0 <= k < i ==> #[trigger] out@[k] == match root {
                    Some(t) => violation_position(*t, items@[k].0@, items@[k].1@),
                    None => None,
                },
        decreases items.len() - i,
    {
        let (pointer, key) = items[i];
        let loc = match root {
            None => None,
            Some(t) => match walk_pointer(t, pointer) {
                None => None,
                Some(n) => {
                    let kv = chars_of(key);
                    let by_key = if kv.len() > 0 {
                        key_location(n, key)
                    } else {
                        None
                    };
                    match by_key {
                        Some(l) => Some(l),
                        None => marker_to_location(n.line, n.col),
                    }
                },
            },
        };
        out.push(loc);
        i = i + 1;
    }
    out
}

/// Single-pointer convenience over [`resolve_e0050_locations`].
pub fn resolve_pointer_location(root: Option<&YamlNode>, pointer: &str) -> (r: Option<(u32, u32)>)
    ensures
        r == match root {
            Some(t) => violation_position(*t, pointer@, seq![]),
            None => None,
        },
{
    let items: Vec<(&str, &str)> = vec![(pointer, "")];
    proof {
        reveal_strlit("");
    }
    let all = resolve_e0050_locations(root, items.as_slice());
    all[0]
}

} // verus!
