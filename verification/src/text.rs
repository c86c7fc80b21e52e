//! Character- and byte-level text primitives shared by every module: UTF-8
//! widths, character classes, trimming, and decimal/hex rendering.
use vstd::prelude::*;
use vstd::string::StrSliceExecFns;
use vstd::string::StringExecFns;

verus! {

// ── UTF-8 widths ────────────────────────────────────────────────────────────

/// The number of bytes `c` occupies in UTF-8.
pub open spec fn char_width(c: char) -> nat {
    if (c as u32) < 0x80 {
        1
    } else if (c as u32) < 0x800 {
        2
    } else if (c as u32) < 0x10000 {
        3
    } else {
        4
    }
}

/// The number of bytes `s` occupies in UTF-8.
pub open spec fn byte_len(s: Seq<char>) -> nat
    decreases s.len(),
{
    if s.len() == 0 {
        0
    } else {
        char_width(s[0]) + byte_len(s.drop_first())
    }
}

/// Byte length is additive over concatenation.
pub proof fn lemma_byte_len_concat(a: Seq<char>, b: Seq<char>)
    ensures
        byte_len(a + b) == byte_len(a) + byte_len(b),
    decreases a.len(),
{
    if a.len() == 0 {
        assert(a + b =~= b);
    } else {
        assert((a + b).drop_first() =~= a.drop_first() + b);
        lemma_byte_len_concat(a.drop_first(), b);
    }
}

/// A sequence is at least as long in bytes as in characters, and an ASCII
/// sequence is exactly as long.
pub proof fn lemma_byte_len_ge_len(s: Seq<char>)
    ensures
        byte_len(s) >= s.len(),
        all_ascii(s) ==> byte_len(s) == s.len(),
    decreases s.len(),
{
    if s.len() > 0 {
        lemma_byte_len_ge_len(s.drop_first());
        if all_ascii(s) {
            assert(all_ascii(s.drop_first()));
        }
    }
}

/// Byte length of a prefix grows by the width of the next character.
pub proof fn lemma_byte_len_take_step(s: Seq<char>, i: int)
    requires
        0 <= i < s.len(),
    ensures
        byte_len(s.take(i + 1)) == byte_len(s.take(i)) + char_width(s[i]),
{
    assert(s.take(i + 1) =~= s.take(i) + seq![s[i]]);
    lemma_byte_len_concat(s.take(i), seq![s[i]]);
    assert(seq![s[i]].drop_first() =~= Seq::<char>::empty());
    assert(byte_len(seq![s[i]]) == char_width(s[i])) by {
        reveal_with_fuel(byte_len, 2);
    }
}

/// Byte length is monotone over prefixes.
pub proof fn lemma_byte_len_take_mono(s: Seq<char>, i: int, j: int)
    requires
        0 <= i <= j <= s.len(),
    ensures
        byte_len(s.take(i)) <= byte_len(s.take(j)),
    decreases j - i,
{
    if i < j {
        lemma_byte_len_take_mono(s, i, j - 1);
        lemma_byte_len_take_step(s, j - 1);
    }
}


/// The UTF-8 encoding that `str` uses has exactly [`byte_len`] bytes.
pub proof fn lemma_encode_utf8_len(s: Seq<char>)
    ensures
        vstd::utf8::encode_utf8(s).len() == byte_len(s),
    decreases s.len(),
{
    if s.len() > 0 {
        lemma_encode_utf8_len(s.drop_first());
        vstd::utf8::char_is_scalar(s[0]);
        let u = s[0] as u32;
        assert(vstd::utf8::encode_scalar(u).len() == char_width(s[0]));
    }
}

/// The byte length of `s` (`str::len`), as a count of UTF-8 bytes.
pub fn utf8_len(s: &str) -> (n: usize)
    ensures
        n == byte_len(s@),
{
    let b = s.as_bytes();
    let n = b.len();
    proof {
        lemma_encode_utf8_len(s@);
    }
    n
}

/// Whether every character is ASCII.
pub open spec fn all_ascii(s: Seq<char>) -> bool {
    forall|i: int| 0 <= i < s.len() ==> (#[trigger] s[i] as u32) < 0x80
}

/// The UTF-8 width of `c`.
pub fn char_len_utf8(c: char) -> (n: usize)
    ensures
        n == char_width(c),
{
    let u = c as u32;
    if u < 0x80 {
        1
    } else if u < 0x800 {
        2
    } else if u < 0x10000 {
        3
    } else {
        4
    }
}

/// The UTF-8 byte offset of the first `pos` characters of `s`.
pub fn byte_offset(s: &Vec<char>, pos: usize) -> (n: usize)
    requires
        pos <= s@.len(),
        byte_len(s@) <= usize::MAX,
    ensures
        n == byte_len(s@.take(pos as int)),
{
    let mut n: usize = 0;
    let mut i: usize = 0;
    proof {
        lemma_byte_len_take_mono(s@, pos as int, s@.len() as int);
        assert(s@.take(s@.len() as int) =~= s@);
    }
    while i < pos
        invariant
            i <= pos <= s@.len(),
            n == byte_len(s@.take(i as int)),
            byte_len(s@.take(pos as int)) <= usize::MAX,
        decreases pos - i,
    {
        proof {
            lemma_byte_len_take_step(s@, i as int);
            lemma_byte_len_take_mono(s@, i as int + 1, pos as int);
        }
        n = n + char_len_utf8(s[i]);
        i = i + 1;
    }
    n
}

// ── Conversions between `str`, `String` and character vectors ─────────────

/// Copy the characters of `s` into a vector.
pub fn chars_of(s: &str) -> (v: Vec<char>)
    ensures
        v@ == s@,
{
    let mut v: Vec<char> = Vec::new();
    for c in it: s.chars()
        invariant
            v@ == it.seq().take(it.index()),
    {
        v.push(c);
    }
    v
}

/// `String::push`: append one character.
#[verifier::external_body]
pub fn push_char(s: &mut String, c: char)
    ensures
        final(s)@ == old(s)@.push(c),
        final(s)@ == old(s)@ + seq![c],
{
    s.push(c);
}

/// Append a string slice.
pub fn push_str(s: &mut String, t: &str)
    ensures
        final(s)@ == old(s)@ + t@,
{
    s.append(t);
}

/// Append the characters `v[from..to]` to `s`.
pub fn push_chars(s: &mut String, v: &Vec<char>, from: usize, to: usize)
    requires
        from <= to <= v@.len(),
    ensures
        final(s)@ == old(s)@ + v@.subrange(from as int, to as int),
{
    let mut i = from;
    while i < to
        invariant
            from <= i <= to <= v@.len(),
            s@ == old(s)@ + v@.subrange(from as int, i as int),
        decreases to - i,
    {
        push_char(s, v[i]);
        i = i + 1;
        assert(v@.subrange(from as int, i as int) =~= v@.subrange(from as int, i - 1 as int).push(
            v@[i - 1],
        ));
    }
}

/// A `String` holding exactly the characters `v[from..to]`.
pub fn string_from(v: &Vec<char>, from: usize, to: usize) -> (s: String)
    requires
        from <= to <= v@.len(),
    ensures
        s@ == v@.subrange(from as int, to as int),
{
    let mut s = String::new();
    push_chars(&mut s, v, from, to);
    s
}

/// A `String` holding exactly the characters of `v`.
pub fn string_of(v: &Vec<char>) -> (s: String)
    ensures
        s@ == v@,
{
    let s = string_from(v, 0, v.len());
    assert(v@.subrange(0, v@.len() as int) =~= v@);
    s
}

/// Whether two string slices hold the same characters.
pub fn same_text(a: &str, b: &str) -> (r: bool)
    ensures
        r == (a@ == b@),
{
    let av = chars_of(a);
    let bv = chars_of(b);
    if av.len() != bv.len() {
        return false;
    }
    let m = matches_at(&av, 0, &bv);
    proof {
        if m {
            assert(av@ =~= av@.subrange(0, bv@.len() as int));
        } else if av@ == bv@ {
            assert(av@.subrange(0, bv@.len() as int) =~= av@);
        }
    }
    m
}

/// A `String` copy of a string slice.
pub fn owned(t: &str) -> (s: String)
    ensures
        s@ == t@,
{
    let mut s = String::new();
    push_str(&mut s, t);
    s
}

// ── Character classes ──────────────────────────────────────────────────────

/// ASCII whitespace as `u8::is_ascii_whitespace` defines it: space, tab, LF,
/// form feed, CR.
pub open spec fn is_ascii_ws(c: char) -> bool {
    c == ' ' || c == '\t' || c == '\n' || c == '\x0C' || c == '\r'
}

pub fn ascii_ws(c: char) -> (b: bool)
    ensures
        b == is_ascii_ws(c),
{
    c == ' ' || c == '\t' || c == '\n' || c == '\x0C' || c == '\r'
}

pub open spec fn is_digit(c: char) -> bool {
    '0' <= c <= '9'
}

pub fn ascii_digit(c: char) -> (b: bool)
    ensures
        b == is_digit(c),
{
    '0' <= c && c <= '9'
}

pub open spec fn is_ascii_letter(c: char) -> bool {
    ('a' <= c <= 'z') || ('A' <= c <= 'Z')
}

pub open spec fn is_ascii_alnum(c: char) -> bool {
    is_ascii_letter(c) || is_digit(c)
}

pub fn ascii_alnum(c: char) -> (b: bool)
    ensures
        b == is_ascii_alnum(c),
{
    ('a' <= c && c <= 'z') || ('A' <= c && c <= 'Z') || ('0' <= c && c <= '9')
}

/// The general category `Cc`: C0 controls, DEL, and C1 controls.
pub open spec fn is_control(c: char) -> bool {
    (c as u32) <= 0x1F || (0x7F <= (c as u32) && (c as u32) <= 0x9F)
}

pub fn control(c: char) -> (b: bool)
    ensures
        b == is_control(c),
{
    let u = c as u32;
    u <= 0x1F || (0x7F <= u && u <= 0x9F)
}

/// The Unicode `White_Space` property (the set `char::is_whitespace` tests).
pub open spec fn is_whitespace(c: char) -> bool {
    let u = c as u32;
    (0x09 <= u && u <= 0x0D) || u == 0x20 || u == 0x85 || u == 0xA0 || u == 0x1680 || (0x2000
        <= u && u <= 0x200A) || u == 0x2028 || u == 0x2029 || u == 0x202F || u == 0x205F || u
        == 0x3000
}

pub fn whitespace(c: char) -> (b: bool)
    ensures
        b == is_whitespace(c),
{
    let u = c as u32;
    (0x09 <= u && u <= 0x0D) || u == 0x20 || u == 0x85 || u == 0xA0 || u == 0x1680 || (0x2000
        <= u && u <= 0x200A) || u == 0x2028 || u == 0x2029 || u == 0x202F || u == 0x205F || u
        == 0x3000
}

/// Whether `c` has the Unicode `Alphabetic` property (as `char::is_alphabetic`).
pub uninterp spec fn unicode_alphabetic(c: char) -> bool;

/// Whether `c` is Unicode alphabetic or numeric (as `char::is_alphanumeric`).
pub uninterp spec fn unicode_alphanumeric(c: char) -> bool;

/// The full lowercase mapping of `c` (as `char::to_lowercase`).
pub uninterp spec fn unicode_lowercase(c: char) -> Seq<char>;

/// Calls `char::is_alphabetic`: the Unicode `Alphabetic` property; on ASCII it
/// holds exactly for the letters.
#[verifier::external_body]
pub fn alphabetic(c: char) -> (b: bool)
    ensures
        b == unicode_alphabetic(c),
        (c as u32) < 0x80 ==> (b <==> is_ascii_letter(c)),
{
    c.is_alphabetic()
}

/// Calls `char::is_alphanumeric`: `Alphabetic` or `Numeric`; on ASCII it holds
/// exactly for letters and digits.
#[verifier::external_body]
pub fn alphanumeric(c: char) -> (b: bool)
    ensures
        b == unicode_alphanumeric(c),
        (c as u32) < 0x80 ==> (b <==> is_ascii_alnum(c)),
{
    c.is_alphanumeric()
}

/// Calls `char::to_lowercase` and collects the mapping; an ASCII character
/// maps to its ASCII lowercase form.
#[verifier::external_body]
pub fn lowercase(c: char) -> (v: Vec<char>)
    ensures
        v@ == unicode_lowercase(c),
        ('A' <= c <= 'Z') ==> v@ == seq![((c as u32) + 32) as char],
        ((c as u32) < 0x80 && !('A' <= c <= 'Z')) ==> v@ == seq![c],
{
    c.to_lowercase().collect()
}

// ── Trimming ───────────────────────────────────────────────────────────────

/// Number of leading characters of `s` that satisfy Unicode whitespace.
pub open spec fn lead_ws(s: Seq<char>) -> nat
    decreases s.len(),
{
    if s.len() > 0 && is_whitespace(s[0]) {
        1 + lead_ws(s.drop_first())
    } else {
        0
    }
}

/// Number of trailing characters of `s` that satisfy Unicode whitespace.
pub open spec fn trail_ws(s: Seq<char>) -> nat
    decreases s.len(),
{
    if s.len() > 0 && is_whitespace(s.last()) {
        1 + trail_ws(s.drop_last())
    } else {
        0
    }
}

pub proof fn lemma_lead_ws_bound(s: Seq<char>)
    ensures
        lead_ws(s) <= s.len(),
    decreases s.len(),
{
    if s.len() > 0 && is_whitespace(s[0]) {
        lemma_lead_ws_bound(s.drop_first());
    }
}

pub proof fn lemma_trail_ws_bound(s: Seq<char>)
    ensures
        trail_ws(s) <= s.len(),
    decreases s.len(),
{
    if s.len() > 0 && is_whitespace(s.last()) {
        lemma_trail_ws_bound(s.drop_last());
    }
}

/// `str::trim_start`: `s` without its leading whitespace.
pub open spec fn trim_start(s: Seq<char>) -> Seq<char> {
    s.skip(lead_ws(s) as int)
}

/// `str::trim_end`: `s` without its trailing whitespace.
pub open spec fn trim_end(s: Seq<char>) -> Seq<char> {
    s.take(s.len() - trail_ws(s))
}

/// `str::trim`: `s` without leading or trailing whitespace.
pub open spec fn trim(s: Seq<char>) -> Seq<char> {
    trim_end(trim_start(s))
}

/// The index of the first non-whitespace character of `v[from..to]` (or `to`).
pub fn skip_ws_forward(v: &Vec<char>, from: usize, to: usize) -> (i: usize)
    requires
        from <= to <= v@.len(),
    ensures
        from <= i <= to,
        i - from == lead_ws(v@.subrange(from as int, to as int)),
{
    let mut i = from;
    while i < to && whitespace(v[i])
        invariant
            from <= i <= to <= v@.len(),
            lead_ws(v@.subrange(from as int, to as int)) == (i - from) + lead_ws(
                v@.subrange(i as int, to as int),
            ),
        decreases to - i,
    {
        assert(v@.subrange(i as int, to as int).drop_first() =~= v@.subrange(
            i + 1 as int,
            to as int,
        ));
        i = i + 1;
    }
    i
}

/// The end of `v[from..to]` with trailing whitespace removed.
pub fn skip_ws_backward(v: &Vec<char>, from: usize, to: usize) -> (j: usize)
    requires
        from <= to <= v@.len(),
    ensures
        from <= j <= to,
        to - j == trail_ws(v@.subrange(from as int, to as int)),
{
    let mut j = to;
    while j > from && whitespace(v[j - 1])
        invariant
            from <= j <= to <= v@.len(),
            trail_ws(v@.subrange(from as int, to as int)) == (to - j) + trail_ws(
                v@.subrange(from as int, j as int),
            ),
        decreases j - from,
    {
        assert(v@.subrange(from as int, j as int).drop_last() =~= v@.subrange(
            from as int,
            j - 1 as int,
        ));
        j = j - 1;
    }
    j
}

/// The bounds `[a, b)` of `trim(v[from..to])` within `v`.
pub fn trim_bounds(v: &Vec<char>, from: usize, to: usize) -> (r: (usize, usize))
    requires
        from <= to <= v@.len(),
    ensures
        from <= r.0 <= r.1 <= to,
        v@.subrange(r.0 as int, r.1 as int) == trim(v@.subrange(from as int, to as int)),
{
    let a = skip_ws_forward(v, from, to);
    let b = skip_ws_backward(v, a, to);
    proof {
        let s = v@.subrange(from as int, to as int);
        assert(trim_start(s) =~= v@.subrange(a as int, to as int));
        assert(trim_end(v@.subrange(a as int, to as int)) =~= v@.subrange(a as int, b as int));
    }
    (a, b)
}


// ── Matching ───────────────────────────────────────────────────────────────

/// Whether `p` occurs in `v` starting at character index `at`.
pub open spec fn occurs_at(v: Seq<char>, at: int, p: Seq<char>) -> bool {
    0 <= at && at + p.len() <= v.len() && v.subrange(at, at + p.len()) == p
}

pub fn matches_at(v: &Vec<char>, at: usize, p: &Vec<char>) -> (b: bool)
    ensures
        b == occurs_at(v@, at as int, p@),
{
    if at > v.len() || p.len() > v.len() - at {
        return false;
    }
    let mut i: usize = 0;
    while i < p.len()
        invariant
            at + p.len() <= v.len(),
            i <= p@.len(),
            forall|k: int| 0 <= k < i ==> v@[at + k] == p@[k],
        decreases p.len() - i,
    {
        if v[at + i] != p[i] {
            proof {
                assert(v@.subrange(at as int, at + p@.len())[i as int] != p@[i as int]);
            }
            return false;
        }
        i = i + 1;
    }
    assert(v@.subrange(at as int, at + p@.len()) =~= p@);
    true
}

/// The first index `>= from` at which `p` occurs in `v`, if any.
pub open spec fn first_occurrence(v: Seq<char>, from: int, p: Seq<char>) -> Option<int>
    decreases v.len() + 1 - from,
{
    if from < 0 || from + p.len() > v.len() {
        None
    } else if occurs_at(v, from, p) {
        Some(from)
    } else {
        first_occurrence(v, from + 1, p)
    }
}

pub fn find_from(v: &Vec<char>, from: usize, p: &Vec<char>) -> (r: Option<usize>)
    ensures
        r matches Some(i) ==> first_occurrence(v@, from as int, p@) == Some(i as int),
        r is None ==> first_occurrence(v@, from as int, p@) is None,
{
    let mut i = from;
    loop
        invariant
            from <= i,
            first_occurrence(v@, from as int, p@) == first_occurrence(v@, i as int, p@),
        decreases v@.len() + 1 - i,
    {
        if i > v.len() || p.len() > v.len() - i {
            return None;
        }
        if matches_at(v, i, p) {
            return Some(i);
        }
        assert(p@.len() > 0) by {
            if p@.len() == 0 {
                assert(v@.subrange(i as int, i as int) =~= p@);
            }
        }
        i = i + 1;
    }
}

/// Decimal value of a digit string.
pub open spec fn dec_value(s: Seq<char>) -> nat
    decreases s.len(),
{
    if s.len() == 0 {
        0
    } else {
        dec_value(s.drop_last()) * 10 + ((s.last() as u32) - 48) as nat
    }
}

/// Every character of `s` is an ASCII digit.
pub open spec fn all_digits(s: Seq<char>) -> bool {
    forall|i: int| 0 <= i < s.len() ==> is_digit(#[trigger] s[i])
}

pub proof fn lemma_dec_value_prefix_mono(s: Seq<char>, i: int)
    requires
        0 <= i <= s.len(),
        all_digits(s),
    ensures
        dec_value(s.take(i)) <= dec_value(s),
    decreases s.len() - i,
{
    if i < s.len() {
        assert(s.drop_last().take(i) =~= s.take(i)) by {
        }
        if i < s.len() {
            assert(all_digits(s.drop_last()));
            lemma_dec_value_prefix_mono(s.drop_last(), i);
        }
    } else {
        assert(s.take(i) =~= s);
    }
}

/// `str::parse::<u32>`: an optional `+` sign followed by one or more ASCII
/// digits whose value fits in `u32`.
pub open spec fn parse_u32(s: Seq<char>) -> Option<u32> {
    let d = if s.len() > 0 && s[0] == '+' {
        s.drop_first()
    } else {
        s
    };
    if d.len() > 0 && all_digits(d) && dec_value(d) <= u32::MAX {
        Some(dec_value(d) as u32)
    } else {
        None
    }
}

/// `str::parse::<u32>` over `v[from..to]`.
pub fn parse_u32_at(v: &Vec<char>, from: usize, to: usize) -> (r: Option<u32>)
    requires
        from <= to <= v@.len(),
    ensures
        r == parse_u32(v@.subrange(from as int, to as int)),
{
    let ghost s = v@.subrange(from as int, to as int);
    let signed = from < to && v[from] == '+';
    let start = if signed { from + 1 } else { from };
    let ghost d = v@.subrange(start as int, to as int);
    proof {
        if signed {
            assert(s[0] == v@[from as int]);
            assert(s.drop_first() =~= d);
        } else {
            if s.len() > 0 {
                assert(s[0] == v@[from as int]);
            }
            assert(s =~= d);
        }
        assert(parse_u32(s) == (if d.len() > 0 && all_digits(d) && dec_value(d) <= u32::MAX {
            Some(dec_value(d) as u32)
        } else {
            None
        }));
    }
    if start == to {
        return None;
    }
    let mut acc: u64 = 0;
    let mut i = start;
    while i < to
        invariant
            from <= start <= i <= to <= v@.len(),
            d == v@.subrange(start as int, to as int),
            parse_u32(v@.subrange(from as int, to as int)) == (if d.len() > 0 && all_digits(d)
                && dec_value(d) <= u32::MAX {
                Some(dec_value(d) as u32)
            } else {
                None
            }),
            all_digits(d.take(i - start)),
            acc == dec_value(d.take(i - start)),
            acc <= u32::MAX,
        decreases to - i,
    {
        let c = v[i];
        if !ascii_digit(c) {
            proof {
                assert(d[i - start] == c);
                assert(!is_digit(d[i - start]));
                assert(!all_digits(d));
            }
            return None;
        }
        let next: u64 = acc * 10 + ((c as u32) - 48) as u64;
        proof {
            let k = i - start;
            assert(d.take(k + 1).drop_last() =~= d.take(k));
            assert(d.take(k + 1).last() == c);
            assert(all_digits(d.take(k + 1)));
        }
        if next > 0xFFFF_FFFF {
            proof {
                let k = i - start;
                // every remaining character is a digit, or the parse fails anyway
                if all_digits(d) {
                    lemma_dec_value_prefix_mono(d, k + 1);
                    assert(dec_value(d.take(k + 1)) == next);
                    assert(dec_value(d) > u32::MAX);
                }
            }
            return None;
        }
        acc = next;
        i = i + 1;
    }
    proof {
        assert(d.take(d.len() as int) =~= d);
    }
    Some(acc as u32)
}

// ── Decimal and hexadecimal rendering ──────────────────────────────────────

/// The digit character for `d < 16` (lowercase or uppercase letters).
pub open spec fn digit_char(d: nat, upper: bool) -> char {
    if d < 10 {
        ((d + 48) as u32) as char
    } else if upper {
        ((d + 55) as u32) as char
    } else {
        ((d + 87) as u32) as char
    }
}

/// The base-`b` digits of `n`, most significant first, with no leading zero
/// (`"0"` for zero).
pub open spec fn digits(n: nat, b: nat, upper: bool) -> Seq<char>
    decreases n,
{
    if b < 2 || n < b {
        seq![digit_char(n % 16, upper)]
    } else {
        proof {
            assert(n / b < n) by (nonlinear_arith)
                requires
                    b >= 2,
                    n >= b,
            ;
        }
        digits(n / b, b, upper).push(digit_char(n % b, upper))
    }
}


/// Every character of a base-`b` rendering is an ASCII digit or letter.
pub proof fn lemma_digits_are_digit_chars(n: nat, b: nat, upper: bool)
    requires
        2 <= b <= 16,
    ensures
        forall|i: int|
            0 <= i < digits(n, b, upper).len() ==> 48 <= (#[trigger] digits(n, b, upper)[i] as u32)
                <= 102,
    decreases n,
{
    let s = digits(n, b, upper);
    if n >= b {
        assert(n / b < n) by (nonlinear_arith)
            requires
                b >= 2,
                n >= b,
        ;
        lemma_digits_are_digit_chars(n / b, b, upper);
        assert(n % b < 16) by (nonlinear_arith)
            requires
                2 <= b <= 16,
        ;
        lemma_digit_char_range(n % b, upper);
        let t = digits(n / b, b, upper);
        assert(s == t.push(digit_char(n % b, upper)));
        assert forall|i: int| 0 <= i < s.len() implies 48 <= (#[trigger] s[i] as u32) <= 102 by {
            if i < t.len() {
                assert(s[i] == t[i]);
            }
        }
    } else {
        lemma_digit_char_range(n % 16, upper);
        assert(s == seq![digit_char(n % 16, upper)]);
    }
}

proof fn lemma_digit_char_range(d: nat, upper: bool)
    requires
        d < 16,
    ensures
        48 <= (digit_char(d, upper) as u32) <= 102,
{
    let u: u32 = if d < 10 {
        (d + 48) as u32
    } else if upper {
        (d + 55) as u32
    } else {
        (d + 87) as u32
    };
    assert(digit_char(d, upper) == u as char);
    assert((u as char) as u32 == u);
}

/// The decimal rendering of `n` (`{}` of an unsigned integer).
pub open spec fn decimal(n: nat) -> Seq<char> {
    digits(n, 10, false)
}

/// `s` left-padded with `'0'` to at least `width` characters.
pub open spec fn zero_pad(s: Seq<char>, width: nat) -> Seq<char> {
    if s.len() >= width {
        s
    } else {
        Seq::new((width - s.len()) as nat, |_i: int| '0') + s
    }
}

/// Hexadecimal rendering padded to `width` (`{:0<width>x}` / `{:0<width>X}`).
pub open spec fn hex(n: nat, width: nat, upper: bool) -> Seq<char> {
    zero_pad(digits(n, 16, upper), width)
}

fn digit_of(d: u64, upper: bool) -> (c: char)
    requires
        d < 16,
    ensures
        c == digit_char(d as nat, upper),
{
    if d < 10 {
        ((d + 48) as u8) as char
    } else if upper {
        ((d + 55) as u8) as char
    } else {
        ((d + 87) as u8) as char
    }
}

/// Append the base-`b` digits of `n` to `s`.
pub fn push_digits(s: &mut String, n: u64, b: u64, upper: bool)
    requires
        2 <= b <= 16,
    ensures
        final(s)@ == old(s)@ + digits(n as nat, b as nat, upper),
    decreases n,
{
    if n < b {
        push_char(s, digit_of(n % 16, upper));
    } else {
        assert(n / b < n) by (nonlinear_arith)
            requires
                b >= 2,
                n >= b,
        ;
        push_digits(s, n / b, b, upper);
        push_char(s, digit_of(n % b, upper));
    }
}

/// Append `{n}` (decimal) to `s`.
pub fn push_decimal(s: &mut String, n: u64)
    ensures
        final(s)@ == old(s)@ + decimal(n as nat),
{
    push_digits(s, n, 10, false);
}

/// Append `n` in hex, zero-padded to `width` digits, to `s`.
pub fn push_hex(s: &mut String, n: u64, width: usize, upper: bool)
    ensures
        final(s)@ == old(s)@ + hex(n as nat, width as nat, upper),
{
    let mut body = String::new();
    push_digits(&mut body, n, 16, upper);
    let len = body.as_str().unicode_len();
    let mut k = len;
    let ghost before = s@;
    while k < width
        invariant
            len <= k <= width || (k == len && len >= width),
            s@ == before + Seq::new((k - len) as nat, |_i: int| '0'),
        decreases width - k,
    {
        push_char(s, '0');
        assert(Seq::new((k + 1 - len) as nat, |_i: int| '0') =~= Seq::new(
            (k - len) as nat,
            |_i: int| '0',
        ).push('0'));
        k = k + 1;
    }
    push_str(s, body.as_str());
    proof {
        if len >= width {
            assert(Seq::new(0nat, |_i: int| '0') =~= Seq::<char>::empty());
            assert(s@ =~= before + hex(n as nat, width as nat, upper));
        } else {
            assert(s@ =~= before + hex(n as nat, width as nat, upper));
        }
    }
}


// ── Line splitting ─────────────────────────────────────────────────────────

/// The views of a sequence of strings.
pub open spec fn views(v: Seq<String>) -> Seq<Seq<char>> {
    v.map_values(|x: String| x@)
}

/// `s` without one trailing CR.
pub open spec fn strip_cr(s: Seq<char>) -> Seq<char> {
    if s.len() > 0 && s.last() == '\r' {
        s.drop_last()
    } else {
        s
    }
}

/// Scanning `s` left to right: the pieces already closed by an LF, and the
/// piece still open after the last LF.
pub open spec fn lf_pieces(s: Seq<char>) -> (Seq<Seq<char>>, Seq<char>)
    decreases s.len(),
{
    if s.len() == 0 {
        (seq![], seq![])
    } else {
        let (done, cur) = lf_pieces(s.drop_last());
        if s.last() == '\n' {
            (done.push(cur), seq![])
        } else {
            (done, cur.push(s.last()))
        }
    }
}

/// `str::split('\n')`: every piece between LFs, empty ones included.
pub open spec fn split_lf(s: Seq<char>) -> Seq<Seq<char>> {
    lf_pieces(s).0.push(lf_pieces(s).1)
}

/// `str::lines`: the pieces between LFs, each LF-terminated piece without one
/// trailing CR, and no final empty piece.
pub open spec fn lines_of(s: Seq<char>) -> Seq<Seq<char>> {
    let closed = lf_pieces(s).0.map_values(|p: Seq<char>| strip_cr(p));
    if lf_pieces(s).1.len() == 0 {
        closed
    } else {
        closed.push(lf_pieces(s).1)
    }
}

fn lf_scan(s: &str) -> (r: (Vec<String>, Vec<char>))
    ensures
        views(r.0@) == lf_pieces(s@).0,
        r.1@ == lf_pieces(s@).1,
{
    let v = chars_of(s);
    let mut done: Vec<String> = Vec::new();
    let mut cur: Vec<char> = Vec::new();
    let mut i: usize = 0;
    proof {
        assert(v@.take(0) =~= Seq::<char>::empty());
        assert(views(done@) =~= Seq::<Seq<char>>::empty());
    }
    while i < v.len()
        invariant
            v@ == s@,
            i <= v@.len(),
            views(done@) == lf_pieces(v@.take(i as int)).0,
            cur@ == lf_pieces(v@.take(i as int)).1,
        decreases v.len() - i,
    {
        let c = v[i];
        proof {
            assert(v@.take(i + 1).drop_last() =~= v@.take(i as int));
        }
        if c == '\n' {
            let piece = string_of(&cur);
            let ghost before = done@;
            done.push(piece);
            proof {
                assert(views(done@) =~= views(before).push(piece@));
            }
            cur = Vec::new();
            proof {
                assert(cur@ =~= Seq::<char>::empty());
            }
        } else {
            cur.push(c);
        }
        i = i + 1;
    }
    proof {
        assert(v@.take(v@.len() as int) =~= v@);
    }
    (done, cur)
}

/// `str::split('\n')`, collected.
pub fn split_lines_lf(s: &str) -> (r: Vec<String>)
    ensures
        views(r@) == split_lf(s@),
{
    let (mut done, cur) = lf_scan(s);
    let ghost before = done@;
    let last = string_of(&cur);
    done.push(last);
    proof {
        assert(views(done@) =~= views(before).push(last@));
    }
    done
}

/// `str::lines`, collected.
pub fn text_lines(s: &str) -> (r: Vec<String>)
    ensures
        views(r@) == lines_of(s@),
{
    let (done, cur) = lf_scan(s);
    let ghost closed = lf_pieces(s@).0.map_values(|p: Seq<char>| strip_cr(p));
    let mut out: Vec<String> = Vec::new();
    let mut i: usize = 0;
    while i < done.len()
        invariant
            i <= done@.len(),
            views(done@) == lf_pieces(s@).0,
            closed == lf_pieces(s@).0.map_values(|p: Seq<char>| strip_cr(p)),
            views(out@) == closed.take(i as int),
        decreases done.len() - i,
    {
        let p = chars_of(done[i].as_str());
        proof {
            assert(views(done@)[i as int] == done@[i as int]@);
        }
        let n = p.len();
        let piece = if n > 0 && p[n - 1] == '\r' {
            string_from(&p, 0, n - 1)
        } else {
            string_of(&p)
        };
        proof {
            if n > 0 && p@[n - 1] == '\r' {
                assert(p@.subrange(0, n - 1) =~= p@.drop_last());
            }
            assert(piece@ == closed[i as int]);
        }
        let ghost before = out@;
        out.push(piece);
        proof {
            assert(views(out@) =~= views(before).push(piece@));
            assert(closed.take(i + 1) =~= closed.take(i as int).push(closed[i as int]));
        }
        i = i + 1;
    }
    proof {
        assert(closed.take(done@.len() as int) =~= closed);
    }
    if cur.len() > 0 {
        let ghost before = out@;
        let last = string_of(&cur);
        out.push(last);
        proof {
            assert(views(out@) =~= views(before).push(last@));
        }
    }
    out
}


// ── Cutting at a byte budget ───────────────────────────────────────────────

/// The number of leading characters of `s` whose UTF-8 encoding fits in
/// `budget` bytes: the longest prefix that ends on a character boundary.
pub open spec fn fit_count(s: Seq<char>, budget: int) -> nat
    decreases s.len(),
{
    if s.len() == 0 || char_width(s[0]) > budget {
        0
    } else {
        1 + fit_count(s.drop_first(), budget - char_width(s[0]))
    }
}

/// The longest prefix of `s` that fits in `budget` bytes.
pub open spec fn fit(s: Seq<char>, budget: int) -> Seq<char> {
    s.take(fit_count(s, budget) as int)
}

/// The fitted prefix is a prefix that does fit, and a longer one would not.
pub proof fn lemma_fit(s: Seq<char>, budget: int)
    ensures
        fit_count(s, budget) <= s.len(),
        budget >= 0 ==> byte_len(fit(s, budget)) <= budget,
        fit_count(s, budget) < s.len() ==> byte_len(s.take(fit_count(s, budget) as int + 1)) > budget,
        byte_len(s) <= budget ==> fit(s, budget) == s,
    decreases s.len(),
{
    if s.len() == 0 {
        assert(s.take(0) =~= s);
    } else if char_width(s[0]) > budget {
        assert(s.take(0) =~= Seq::<char>::empty());
        assert(s.take(1).drop_first() =~= Seq::<char>::empty());
        assert(byte_len(s.take(1)) >= char_width(s[0]));
        lemma_byte_len_take_step(s, 0);
        assert(byte_len(s) >= char_width(s[0]));
    } else {
        let t = s.drop_first();
        let w = char_width(s[0]);
        lemma_fit(t, budget - w);
        let k: int = fit_count(t, budget - w) as int;
        assert(s.take(k + 1).drop_first() =~= t.take(k));
        assert(byte_len(s.take(k + 1)) == w + byte_len(t.take(k)));
        if k < t.len() {
            assert(s.take(k + 2).drop_first() =~= t.take(k + 1));
            assert(byte_len(s.take(k + 2)) == w + byte_len(t.take(k + 1)));
        }
        if byte_len(s) <= budget {
            assert(t.take(k) =~= t);
            assert(s.take(k + 1) =~= s);
        }
    }
}

/// The number of leading characters of `v` that fit in `budget` bytes.
pub fn fit_chars(v: &Vec<char>, budget: usize) -> (k: usize)
    ensures
        k == fit_count(v@, budget as int),
{
    let mut i: usize = 0;
    let mut left: usize = budget;
    proof {
        assert(v@.skip(0) =~= v@);
    }
    while i < v.len() && char_len_utf8(v[i]) <= left
        invariant
            i <= v@.len(),
            left <= budget,
            fit_count(v@, budget as int) == i + fit_count(v@.skip(i as int), left as int),
        decreases v.len() - i,
    {
        proof {
            let t = v@.skip(i as int);
            assert(t[0] == v@[i as int]);
            assert(t.drop_first() =~= v@.skip(i + 1));
        }
        left = left - char_len_utf8(v[i]);
        i = i + 1;
    }
    proof {
        let t = v@.skip(i as int);
        if i < v@.len() {
            assert(t[0] == v@[i as int]);
        } else {
            assert(t.len() == 0);
        }
    }
    i
}


/// A decimal rendering is a nonempty string of ASCII digits whose value is
/// the number rendered.
pub proof fn lemma_decimal(n: nat)
    ensures
        decimal(n).len() > 0,
        all_digits(decimal(n)),
        dec_value(decimal(n)) == n,
    decreases n,
{
    let s = decimal(n);
    if n >= 10 {
        assert(n / 10 < n);
        lemma_decimal(n / 10);
        let t = decimal(n / 10);
        let d = (n % 10) as nat;
        assert(s == t.push(digit_char(d, false)));
        assert(digit_char(d, false) == ((d + 48) as u32) as char);
        assert(((((d + 48) as u32) as char) as u32) == d + 48);
        assert(s.drop_last() =~= t);
        assert(all_digits(s)) by {
            assert forall|i: int| 0 <= i < s.len() implies is_digit(#[trigger] s[i]) by {
                if i < t.len() {
                    assert(s[i] == t[i]);
                }
            }
        }
        assert(dec_value(s) == dec_value(t) * 10 + d);
        assert(n == (n / 10) * 10 + n % 10);
    } else {
        assert(s == seq![digit_char(n % 16, false)]);
        assert(n % 16 == n);
        assert(digit_char(n, false) == ((n + 48) as u32) as char);
        assert(((((n + 48) as u32) as char) as u32) == n + 48);
        assert(s.drop_last() =~= Seq::<char>::empty());
        assert(dec_value(Seq::<char>::empty()) == 0);
        assert(dec_value(s) == dec_value(s.drop_last()) * 10 + n);
    }
}

/// Distinct numbers have distinct decimal renderings.
pub proof fn lemma_decimal_injective(a: nat, b: nat)
    requires
        decimal(a) == decimal(b),
    ensures
        a == b,
{
    lemma_decimal(a);
    lemma_decimal(b);
}


// ── Splitting on a separator ───────────────────────────────────────────────

/// Scanning `s` left to right: the pieces closed by a `sep`, and the piece
/// still open after the last one.
pub open spec fn sep_scan(s: Seq<char>, sep: char) -> (Seq<Seq<char>>, Seq<char>)
    decreases s.len(),
{
    if s.len() == 0 {
        (seq![], seq![])
    } else {
        let (done, cur) = sep_scan(s.drop_last(), sep);
        if s.last() == sep {
            (done.push(cur), seq![])
        } else {
            (done, cur.push(s.last()))
        }
    }
}

/// `str::split(sep)`: every piece between separators, empty ones included.
pub open spec fn split_on(s: Seq<char>, sep: char) -> Seq<Seq<char>> {
    sep_scan(s, sep).0.push(sep_scan(s, sep).1)
}

/// `str::split(sep)`, collected.
pub fn split_chars(s: &str, sep: char) -> (r: Vec<String>)
    ensures
        views(r@) == split_on(s@, sep),
{
    let v = chars_of(s);
    let mut done: Vec<String> = Vec::new();
    let mut cur: Vec<char> = Vec::new();
    let mut i: usize = 0;
    proof {
        assert(v@.take(0) =~= Seq::<char>::empty());
        assert(views(done@) =~= Seq::<Seq<char>>::empty());
    }
    while i < v.len()
        invariant
            v@ == s@,
            i <= v@.len(),
            views(done@) == sep_scan(v@.take(i as int), sep).0,
            cur@ == sep_scan(v@.take(i as int), sep).1,
        decreases v.len() - i,
    {
        let c = v[i];
        proof {
            assert(v@.take(i + 1).drop_last() =~= v@.take(i as int));
        }
        if c == sep {
            let piece = string_of(&cur);
            let ghost before = done@;
            done.push(piece);
            proof {
                assert(views(done@) =~= views(before).push(piece@));
            }
            cur = Vec::new();
            proof {
                assert(cur@ =~= Seq::<char>::empty());
            }
        } else {
            cur.push(c);
        }
        i = i + 1;
    }
    proof {
        assert(v@.take(v@.len() as int) =~= v@);
    }
    let ghost before = done@;
    let last = string_of(&cur);
    done.push(last);
    proof {
        assert(views(done@) =~= views(before).push(last@));
    }
    done
}


/// `str::parse::<usize>`: an optional `+` sign followed by one or more ASCII
/// digits whose value fits in `usize`.
pub open spec fn parse_index(s: Seq<char>) -> Option<nat> {
    let d = if s.len() > 0 && s[0] == '+' {
        s.drop_first()
    } else {
        s
    };
    if d.len() > 0 && all_digits(d) && dec_value(d) <= usize::MAX {
        Some(dec_value(d))
    } else {
        None
    }
}

/// `str::parse::<usize>` over `v[from..to]`.
pub fn parse_index_at(v: &Vec<char>, from: usize, to: usize) -> (r: Option<usize>)
    requires
        from <= to <= v@.len(),
    ensures
        match r {
            Some(n) => parse_index(v@.subrange(from as int, to as int)) == Some(n as nat),
            None => parse_index(v@.subrange(from as int, to as int)) is None,
        },
{
    let ghost s = v@.subrange(from as int, to as int);
    let signed = from < to && v[from] == '+';
    let start = if signed {
        from + 1
    } else {
        from
    };
    let ghost d = v@.subrange(start as int, to as int);
    proof {
        if signed {
            assert(s[0] == v@[from as int]);
            assert(s.drop_first() =~= d);
        } else {
            if s.len() > 0 {
                assert(s[0] == v@[from as int]);
            }
            assert(s =~= d);
        }
    }
    if start == to {
        return None;
    }
    let mut acc: u128 = 0;
    let mut i = start;
    while i < to
        invariant
            from <= start <= i <= to <= v@.len(),
            d == v@.subrange(start as int, to as int),
            parse_index(v@.subrange(from as int, to as int)) == (if d.len() > 0 && all_digits(d)
                && dec_value(d) <= usize::MAX {
                Some(dec_value(d))
            } else {
                None::<nat>
            }),
            all_digits(d.take(i - start)),
            acc == dec_value(d.take(i - start)),
            acc <= usize::MAX,
        decreases to - i,
    {
        let c = v[i];
        if !ascii_digit(c) {
            proof {
                assert(d[i - start] == c);
                assert(!is_digit(d[i - start]));
                assert(!all_digits(d));
            }
            return None;
        }
        let next: u128 = acc * 10 + ((c as u32) - 48) as u128;
        proof {
            let k = i - start;
            assert(d.take(k + 1).drop_last() =~= d.take(k));
            assert(d.take(k + 1).last() == c);
            assert(all_digits(d.take(k + 1)));
        }
        if next > usize::MAX as u128 {
            proof {
                let k = i - start;
                if all_digits(d) {
                    lemma_dec_value_prefix_mono(d, k + 1);
                    assert(dec_value(d.take(k + 1)) == next);
                }
            }
            return None;
        }
        acc = next;
        i = i + 1;
    }
    proof {
        assert(d.take(d.len() as int) =~= d);
    }
    Some(acc as usize)
}


/// `str::parse::<u64>`: an optional `+`, then one or more ASCII digits whose
/// value fits a `u64`.
pub open spec fn parse_u64(s: Seq<char>) -> Option<u64> {
    let d = if s.len() > 0 && s[0] == '+' {
        s.drop_first()
    } else {
        s
    };
    if d.len() > 0 && all_digits(d) && dec_value(d) <= u64::MAX {
        Some(dec_value(d) as u64)
    } else {
        None
    }
}

/// `str::parse::<u64>`.
pub fn parse_u64_text(t: &str) -> (r: Option<u64>)
    ensures
        r == parse_u64(t@),
{
    let v = chars_of(t);
    let to = v.len();
    let ghost s = v@;
    let signed = 0 < to && v[0] == '+';
    let start: usize = if signed {
        1
    } else {
        0
    };
    let ghost d = v@.subrange(start as int, to as int);
    proof {
        if signed {
            assert(s.drop_first() =~= d);
        } else {
            assert(s =~= d);
        }
    }
    if start == to {
        return None;
    }
    let mut acc: u128 = 0;
    let mut i = start;
    while i < to
        invariant
            start <= i <= to == v@.len(),
            s == v@,
            v@ == t@,
            d == v@.subrange(start as int, to as int),
            parse_u64(s) == (if d.len() > 0 && all_digits(d) && dec_value(d) <= u64::MAX {
                Some(dec_value(d) as u64)
            } else {
                None::<u64>
            }),
            all_digits(d.take(i - start)),
            acc == dec_value(d.take(i - start)),
            acc <= u64::MAX,
        decreases to - i,
    {
        let c = v[i];
        if !ascii_digit(c) {
            proof {
                assert(d[i - start] == c);
                assert(!is_digit(d[i - start]));
                assert(!all_digits(d));
            }
            return None;
        }
        let next: u128 = acc * 10 + ((c as u32) - 48) as u128;
        proof {
            let k = i - start;
            assert(d.take(k + 1).drop_last() =~= d.take(k));
            assert(d.take(k + 1).last() == c);
            assert(all_digits(d.take(k + 1)));
        }
        if next > u64::MAX as u128 {
            proof {
                let k = i - start;
                if all_digits(d) {
                    lemma_dec_value_prefix_mono(d, k + 1);
                    assert(dec_value(d.take(k + 1)) == next);
                }
            }
            return None;
        }
        acc = next;
        i = i + 1;
    }
    proof {
        assert(d.take(to - start) =~= d);
    }
    Some(acc as u64)
}

} // verus!
