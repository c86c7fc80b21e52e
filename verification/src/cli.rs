//! Operator-input validation and print-boundary escaping for the command
//! line: the `explain` code argument, and visited-file trace paths.
use vstd::prelude::*;

use crate::text::{byte_len, char_len_utf8, chars_of, control, hex, is_control, is_digit, owned, push_char, push_hex, push_str, string_from};

verus! {

/// Whether `c` may stand in a code namespace (`[A-Z0-9]`).
pub open spec fn namespace_char(c: char) -> bool {
    ('A' <= c <= 'Z') || is_digit(c)
}

/// Whether `c` is a code class letter: error, lint or warning.
pub open spec fn class_letter(c: char) -> bool {
    c == 'E' || c == 'L' || c == 'W'
}

/// The position of the first `-` in `s`, if any.
pub open spec fn first_dash(s: Seq<char>) -> Option<int>
    decreases s.len(),
{
    if s.len() == 0 {
        None
    } else {
        match first_dash(s.drop_last()) {
            Some(i) => Some(i),
            None => if s.last() == '-' {
                Some(s.len() - 1)
            } else {
                None
            },
        }
    }
}

/// The short form of a code: no `-`, five bytes, a class letter then ASCII
/// digits.
pub open spec fn short_form(s: Seq<char>) -> bool {
    &&& first_dash(s) is None
    &&& byte_len(s) == 5
    &&& s.len() > 0
    &&& class_letter(s[0])
    &&& forall|i: int| 1 <= i < s.len() ==> is_digit(s[i])
}

/// What the `explain` code argument resolves to: a short form is put in
/// mdatron's namespace; a full code must be `<NAMESPACE>-<L><NNNN>`, with
/// the namespace `[A-Z][A-Z0-9]*`, the class letter one of `E`, `L`, `W`, and
/// four ASCII digits. Each refusal names its reason and echoes the input.
pub open spec fn explain_code(s: Seq<char>) -> Result<Seq<char>, Seq<char>> {
    if short_form(s) {
        Ok("MDATRON-"@ + s)
    } else {
        match first_dash(s) {
            None => Err(
                "code must have form '<NAMESPACE>-<L><NNNN>' (e.g. MDATRON-E0001); got: "@ + s,
            ),
            Some(p) => {
                if p == 0 {
                Err("code namespace is empty; got: "@ + s)
            } else if !('A' <= s[0] <= 'Z' && forall|i: int| 0 <= i < p ==> namespace_char(s[i])) {
                Err("code namespace must be [A-Z][A-Z0-9]*; got: "@ + s)
            } else if byte_len(s.skip(p + 1)) != 5 {
                Err("code body must be one letter + four digits (e.g. E0001); got: "@ + s)
            } else if !class_letter(s[p + 1]) {
                Err("code letter must be one of E (error), L (lint), W (warning); got: "@ + s)
            } else if !(forall|i: int| p + 2 <= i < s.len() ==> is_digit(s[i])) {
                Err("code body digits must be ASCII 0-9; got: "@ + s)
            } else {
                Ok(s)
            }
            },
        }
    }
}

proof fn lemma_first_dash(s: Seq<char>)
    ensures
        match first_dash(s) {
            Some(i) => 0 <= i < s.len() && s[i] == '-' && forall|j: int| 0 <= j < i ==> s[j] != '-',
            None => forall|j: int| 0 <= j < s.len() ==> s[j] != '-',
        },
    decreases s.len(),
{
    if s.len() > 0 {
        lemma_first_dash(s.drop_last());
        assert forall|j: int| 0 <= j < s.len() - 1 implies s.drop_last()[j] == s[j] by {}
    }
}

proof fn lemma_first_dash_at(s: Seq<char>, i: int)
    requires
        0 <= i < s.len(),
        s[i] == '-',
        forall|j: int| 0 <= j < i ==> s[j] != '-',
    ensures
        first_dash(s) == Some(i),
    decreases s.len(),
{
    if i < s.len() - 1 {
        lemma_first_dash_at(s.drop_last(), i);
    } else {
        lemma_first_dash(s.drop_last());
    }
}

fn byte_count(v: &Vec<char>, from: usize) -> (n: usize)
    requires
        from <= v@.len(),
        byte_len(v@) <= usize::MAX,
    ensures
        n == byte_len(v@.skip(from as int)),
{
    let mut n: usize = 0;
    let mut i: usize = v.len();
    proof {
        assert(v@.subrange(v@.len() as int, v@.len() as int) =~= Seq::<char>::empty());
        crate::text::lemma_byte_len_concat(v@.take(from as int), v@.skip(from as int));
        assert(v@.take(from as int) + v@.skip(from as int) =~= v@);
    }
    while i > from
        invariant
            from <= i <= v@.len(),
            n == byte_len(v@.subrange(i as int, v@.len() as int)),
            byte_len(v@.skip(from as int)) <= usize::MAX,
        decreases i - from,
    {
        proof {
            assert(v@.subrange(i - 1, v@.len() as int).drop_first() =~= v@.subrange(i as int, v@.len() as int));
            assert(v@.subrange(i - 1, v@.len() as int)[0] == v@[i - 1]);
            crate::text::lemma_byte_len_concat(v@.subrange(from as int, i - 1), v@.subrange(i - 1, v@.len() as int));
            assert(v@.subrange(from as int, i - 1) + v@.subrange(i - 1, v@.len() as int) =~= v@.skip(from as int));
        }
        n = n + char_len_utf8(v[i - 1]);
        i = i - 1;
    }
    proof {
        assert(v@.subrange(from as int, v@.len() as int) =~= v@.skip(from as int));
    }
    n
}

fn refusal(reason: &str, s: &str) -> (e: String)
    ensures
        e@ == reason@ + s@,
{
    let mut e = owned(reason);
    push_str(&mut e, s);
    e
}

/// Validate the `explain` code argument (see [`explain_code`]).
pub fn parse_explain_code(s: &str) -> (r: Result<String, String>)
    ensures
        match r {
            Ok(c) => explain_code(s@) == Ok::<Seq<char>, Seq<char>>(c@),
            Err(e) => explain_code(s@) == Err::<Seq<char>, Seq<char>>(e@),
        },
{
    let v = chars_of(s);
    let total = crate::text::utf8_len(s);
    proof {
        lemma_first_dash(v@);
        assert(v@.skip(0) =~= v@);
    }
    let mut found = false;
    let mut i: usize = 0;
    while i < v.len() && !found
        invariant
            i <= v@.len(),
            found ==> i < v@.len() && v@[i as int] == '-',
            forall|j: int| 0 <= j < i ==> v@[j] != '-',
        decreases v.len() - i, if found { 0int } else { 1int },
    {
        if v[i] == '-' {
            found = true;
        } else {
            i = i + 1;
        }
    }
    let dash: Option<usize> = if found {
        Some(i)
    } else {
        None
    };
    proof {
        if dash is None {
            if first_dash(v@) is Some {
                let p = first_dash(v@).unwrap();
                assert(v@[p] == '-');
            }
        } else {
            lemma_first_dash_at(v@, i as int);
        }
    }
    match dash {
        None => {
            let n = total;
            if n == 5 && v.len() > 0 && (v[0] == 'E' || v[0] == 'L' || v[0] == 'W') {
                let mut k: usize = 1;
                let mut all = true;
                while k < v.len()
                    invariant
                        1 <= k <= v@.len(),
                        all == (forall|j: int| 1 <= j < k ==> is_digit(v@[j])),
                    decreases v.len() - k,
                {
                    if !('0' <= v[k] && v[k] <= '9') {
                        all = false;
                    }
                    k = k + 1;
                }
                if all {
                    return Ok(refusal("MDATRON-", s));
                }
            }
            Err(refusal("code must have form '<NAMESPACE>-<L><NNNN>' (e.g. MDATRON-E0001); got: ", s))
        },
        Some(p) => {
            if p == 0 {
                return Err(refusal("code namespace is empty; got: ", s));
            }
            if !('A' <= v[0] && v[0] <= 'Z') {
                return Err(refusal("code namespace must be [A-Z][A-Z0-9]*; got: ", s));
            }
            let mut k: usize = 0;
            while k < p
                invariant
                    k <= p < v@.len(),
                    v@ == s@,
                    p > 0,
                    'A' <= v@[0] <= 'Z',
                    first_dash(s@) == Some(p as int),
                    forall|j: int| 0 <= j < k ==> namespace_char(v@[j]),
                decreases p - k,
            {
                let c = v[k];
                if !(('A' <= c && c <= 'Z') || ('0' <= c && c <= '9')) {
                    proof {
                        assert(!namespace_char(s@[k as int]));
                        assert(!(forall|i: int| 0 <= i < p ==> namespace_char(s@[i])));
                    }
                    return Err(refusal("code namespace must be [A-Z][A-Z0-9]*; got: ", s));
                }
                k = k + 1;
            }
            let body = byte_count(&v, p + 1);
            if body != 5 {
                return Err(refusal("code body must be one letter + four digits (e.g. E0001); got: ", s));
            }
            proof {
                if p + 1 >= v@.len() {
                    assert(v@.skip(p + 1) =~= Seq::<char>::empty());
                }
            }
            let letter = v[p + 1];
            if !(letter == 'E' || letter == 'L' || letter == 'W') {
                return Err(refusal("code letter must be one of E (error), L (lint), W (warning); got: ", s));
            }
            let mut k: usize = p + 2;
            while k < v.len()
                invariant
                    p + 2 <= k <= v@.len(),
                    v@ == s@,
                    p > 0,
                    'A' <= s@[0] <= 'Z',
                    first_dash(s@) == Some(p as int),
                    forall|j: int| 0 <= j < p ==> namespace_char(s@[j]),
                    byte_len(s@.skip(p + 1)) == 5,
                    class_letter(s@[p + 1]),
                    forall|j: int| p + 2 <= j < k ==> is_digit(v@[j]),
                decreases v.len() - k,
            {
                if !('0' <= v[k] && v[k] <= '9') {
                    proof {
                        assert(!is_digit(s@[k as int]));
                        assert(!(forall|i: int| p + 2 <= i < s@.len() ==> is_digit(s@[i])));
                    }
                    return Err(refusal("code body digits must be ASCII 0-9; got: ", s));
                }
                k = k + 1;
            }
            Ok(owned(s))
        },
    }
}

/// A trace path with every control character and the Unicode line and
/// paragraph separators written as `\u{XXXX}` (lowercase hex, at least four
/// digits).
pub open spec fn trace_escaped(s: Seq<char>) -> Seq<char>
    decreases s.len(),
{
    if s.len() == 0 {
        Seq::empty()
    } else {
        let c = s.last();
        trace_escaped(s.drop_last()) + if is_control(c) || c == '\u{2028}' || c == '\u{2029}' {
            "\\u{"@ + hex((c as u32) as nat, 4, false) + "}"@
        } else {
            seq![c]
        }
    }
}

/// Escape a visited-file trace path so an adverse filename cannot inject a
/// fake trace line.
pub fn escape_trace_path(s: &str) -> (out: String)
    ensures
        out@ == trace_escaped(s@),
{
    let v = chars_of(s);
    let mut out = String::new();
    let mut i: usize = 0;
    while i < v.len()
        invariant
            i <= v@.len(),
            out@ == trace_escaped(v@.take(i as int)),
        decreases v.len() - i,
    {
        let c = v[i];
        proof {
            assert(v@.take(i + 1).drop_last() =~= v@.take(i as int));
            assert(v@.take(i + 1).last() == c);
        }
        if control(c) || c == '\u{2028}' || c == '\u{2029}' {
            push_str(&mut out, "\\u{");
            let u: u32 = c as u32;
            push_hex(&mut out, u as u64, 4, false);
            push_str(&mut out, "}");
        } else {
            push_char(&mut out, c);
        }
        i = i + 1;
    }
    proof {
        assert(v@.take(v@.len() as int) =~= v@);
    }
    out
}

} // verus!
