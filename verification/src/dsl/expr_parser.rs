//! Recursive-descent parser for expression strings.
//!
//! Converts the expression strings in pattern YAML files into [`Expr`] trees.
//! Returns a [`ParseError`] with a byte position on failure.
//!
//! Grammar (lowest precedence first):
//! ```text
//! expression  = or_expr
//! or_expr     = and_expr ("or" and_expr)*
//! and_expr    = not_expr ("and" not_expr)*
//! not_expr    = "not" not_expr | in_expr
//! in_expr     = eq_expr (("in" | "not_in") eq_expr)?
//! eq_expr     = postfix (("==" | "!=") postfix)?
//! postfix     = primary ("." identifier)*
//! primary     = "(" expression ")" | string | int | bool | null | array | var_ref
//!             | "every" "(" identifier "in" expression "," expression ")"
//!             | "some"  "(" identifier "in" expression "," expression ")"
//!             | identifier "(" args ")"
//! var_ref     = "$" identifier            ; $self / $file / $project / $<binding>
//! identifier  = [alphabetic_][alphanumeric_]*
//! string      = '"' (escape | char)* '"'
//! escape      = '\"' | '\\' | '\n'
//! int         = '-'? digit+
//! array       = "[" (literal ("," literal)*)? "]"
//! ```
//!
//! The grammar is stated once more as the spec functions below (over the
//! input's characters, with positions counted in characters); every parser
//! function is proved to compute exactly what its spec function describes.
//! A keyword probe that would slice the input inside a multi-byte character
//! aborts; such inputs are excluded by the precondition of
//! [`parse_expression`].
use vstd::prelude::*;

use super::expr::{view_exprs, view_values, Expr, SExpr, SValue, SVar, DslValue, VarRef};
use crate::text::{
    all_digits, alphabetic, alphanumeric, ascii_digit, ascii_ws, byte_len, byte_offset,
    char_len_utf8, char_width, chars_of, dec_value, is_ascii_ws, is_digit, matches_at,
    occurs_at, owned, push_char, push_chars, push_str, string_from, unicode_alphabetic,
    unicode_alphanumeric, utf8_len,
};

verus! {

/// A parse failure: byte offset into the input plus an engine-authored message.
#[derive(Debug, PartialEq)]
pub struct ParseError {
    pub position: usize,
    pub message: String,
}

impl ParseError {
    fn new(position: usize, message: String) -> (e: Self)
        ensures
            e.position == position,
            e.message@ == message@,
    {
        Self { position, message }
    }
}

// ── Spec: the grammar over characters ───────────────────────────────────────

/// How a spec parse step fails: at a character position with a message; by
/// aborting (a keyword probe slicing inside a multi-byte character); or by
/// running out of the recursion budget (never happens with the budget the
/// parser starts from, as the parser's proof shows).
pub enum SFail {
    At(int, Seq<char>),
    Abort,
    Fuel,
}

/// A spec parse step's outcome: a value and the position after it, or a failure.
pub type SR<T> = Result<(T, int), SFail>;

/// Skip ASCII whitespace (`u8::is_ascii_whitespace`) starting at `p`.
pub open spec fn skip_ws(s: Seq<char>, p: int) -> int
    decreases s.len() - p,
{
    if 0 <= p < s.len() && is_ascii_ws(s[p]) {
        skip_ws(s, p + 1)
    } else {
        p
    }
}

pub open spec fn ident_start(c: char) -> bool {
    unicode_alphabetic(c) || c == '_'
}

pub open spec fn ident_continue(c: char) -> bool {
    unicode_alphanumeric(c) || c == '_'
}

/// The end of the run of identifier-continue characters starting at `p`.
pub open spec fn ident_end(s: Seq<char>, p: int) -> int
    decreases s.len() - p,
{
    if 0 <= p < s.len() && ident_continue(s[p]) {
        ident_end(s, p + 1)
    } else {
        p
    }
}

/// An identifier at `p`.
pub open spec fn sp_ident(s: Seq<char>, p: int) -> SR<Seq<char>> {
    if 0 <= p < s.len() && ident_start(s[p]) {
        let e = ident_end(s, p + 1);
        Ok((s.subrange(p, e), e))
    } else {
        Err(SFail::At(p, "expected identifier"@))
    }
}

/// Walk `n` bytes of characters from `p`: 0 when a character boundary is
/// reached exactly, 1 when the walk stops inside a character, 2 when the
/// input ends first.
pub open spec fn walk(s: Seq<char>, p: int, n: int) -> int
    decreases n,
{
    if n <= 0 {
        0
    } else if p < 0 || p >= s.len() {
        2
    } else if char_width(s[p]) > n {
        1
    } else {
        walk(s, p + 1, n - char_width(s[p]))
    }
}

/// The keyword probe: `Some(true)` when `kw` is at `p` and not followed by an
/// identifier character, `Some(false)` when not, `None` when the probe would
/// slice inside a multi-byte character (the abort case).
pub open spec fn kw_probe(s: Seq<char>, p: int, kw: Seq<char>) -> Option<bool> {
    let w = walk(s, p, byte_len(kw) as int);
    if w == 2 {
        Some(false)
    } else if w == 1 {
        None
    } else if !occurs_at(s, p, kw) {
        Some(false)
    } else if p + kw.len() < s.len() && ident_continue(s[p + kw.len()]) {
        Some(false)
    } else {
        Some(true)
    }
}

/// The recursion budget a parse step at `p` of rank `r` starts from.
pub open spec fn need(s: Seq<char>, p: int, r: int) -> int {
    20 * (s.len() - p) + r
}

pub open spec fn bx(e: SExpr) -> Box<SExpr> {
    Box::new(e)
}

/// `or_expr`.
pub open spec fn sp_or(s: Seq<char>, p: int, f: nat) -> SR<SExpr>
    decreases f, 1int,
{
    if f == 0 {
        Err(SFail::Fuel)
    } else {
        match sp_and(s, p, (f - 1) as nat) {
            Err(e) => Err(e),
            Ok((l, p1)) => sp_or_tail(s, l, p1, (f - 1) as nat),
        }
    }
}

/// The `("or" and_expr)*` loop.
pub open spec fn sp_or_tail(s: Seq<char>, l: SExpr, p: int, f: nat) -> SR<SExpr>
    decreases f, 0int,
{
    if f == 0 {
        Err(SFail::Fuel)
    } else {
        let p1 = skip_ws(s, p);
        match kw_probe(s, p1, "or"@) {
            None => Err(SFail::Abort),
            Some(false) => Ok((l, p1)),
            Some(true) => match sp_and(s, skip_ws(s, p1 + "or"@.len()), (f - 1) as nat) {
                Err(e) => Err(e),
                Ok((r, p2)) => sp_or_tail(s, SExpr::Or(bx(l), bx(r)), p2, (f - 1) as nat),
            },
        }
    }
}

/// `and_expr`.
pub open spec fn sp_and(s: Seq<char>, p: int, f: nat) -> SR<SExpr>
    decreases f, 1int,
{
    if f == 0 {
        Err(SFail::Fuel)
    } else {
        match sp_not(s, p, (f - 1) as nat) {
            Err(e) => Err(e),
            Ok((l, p1)) => sp_and_tail(s, l, p1, (f - 1) as nat),
        }
    }
}

/// The `("and" not_expr)*` loop.
pub open spec fn sp_and_tail(s: Seq<char>, l: SExpr, p: int, f: nat) -> SR<SExpr>
    decreases f, 0int,
{
    if f == 0 {
        Err(SFail::Fuel)
    } else {
        let p1 = skip_ws(s, p);
        match kw_probe(s, p1, "and"@) {
            None => Err(SFail::Abort),
            Some(false) => Ok((l, p1)),
            Some(true) => match sp_not(s, skip_ws(s, p1 + "and"@.len()), (f - 1) as nat) {
                Err(e) => Err(e),
                Ok((r, p2)) => sp_and_tail(s, SExpr::And(bx(l), bx(r)), p2, (f - 1) as nat),
            },
        }
    }
}

/// `not_expr`.
pub open spec fn sp_not(s: Seq<char>, p: int, f: nat) -> SR<SExpr>
    decreases f, 0int,
{
    if f == 0 {
        Err(SFail::Fuel)
    } else {
        let p1 = skip_ws(s, p);
        match kw_probe(s, p1, "not"@) {
            None => Err(SFail::Abort),
            Some(true) => match sp_not(s, skip_ws(s, p1 + "not"@.len()), (f - 1) as nat) {
                Err(e) => Err(e),
                Ok((e, p2)) => Ok((SExpr::Not(bx(e)), p2)),
            },
            Some(false) => sp_in(s, p1, (f - 1) as nat),
        }
    }
}

/// `in_expr`.
pub open spec fn sp_in(s: Seq<char>, p: int, f: nat) -> SR<SExpr>
    decreases f, 0int,
{
    if f == 0 {
        Err(SFail::Fuel)
    } else {
        match sp_eq(s, p, (f - 1) as nat) {
            Err(e) => Err(e),
            Ok((l, p1)) => {
                let p2 = skip_ws(s, p1);
                match kw_probe(s, p2, "not_in"@) {
                    None => Err(SFail::Abort),
                    Some(true) => match sp_eq(
                        s,
                        skip_ws(s, p2 + "not_in"@.len()),
                        (f - 1) as nat,
                    ) {
                        Err(e) => Err(e),
                        Ok((r, p3)) => Ok((SExpr::NotIn(bx(l), bx(r)), p3)),
                    },
                    Some(false) => match kw_probe(s, p2, "in"@) {
                        None => Err(SFail::Abort),
                        Some(true) => match sp_eq(
                            s,
                            skip_ws(s, p2 + "in"@.len()),
                            (f - 1) as nat,
                        ) {
                            Err(e) => Err(e),
                            Ok((r, p3)) => Ok((SExpr::In(bx(l), bx(r)), p3)),
                        },
                        Some(false) => Ok((l, p2)),
                    },
                }
            },
        }
    }
}

/// `eq_expr`.
pub open spec fn sp_eq(s: Seq<char>, p: int, f: nat) -> SR<SExpr>
    decreases f, 0int,
{
    if f == 0 {
        Err(SFail::Fuel)
    } else {
        match sp_postfix(s, p, (f - 1) as nat) {
            Err(e) => Err(e),
            Ok((l, p1)) => {
                let p2 = skip_ws(s, p1);
                if occurs_at(s, p2, "=="@) {
                    match sp_postfix(s, skip_ws(s, p2 + "=="@.len()), (f - 1) as nat) {
                        Err(e) => Err(e),
                        Ok((r, p3)) => Ok((SExpr::Eq(bx(l), bx(r)), p3)),
                    }
                } else if occurs_at(s, p2, "!="@) {
                    match sp_postfix(s, skip_ws(s, p2 + "!="@.len()), (f - 1) as nat) {
                        Err(e) => Err(e),
                        Ok((r, p3)) => Ok((SExpr::Ne(bx(l), bx(r)), p3)),
                    }
                } else {
                    Ok((l, p2))
                }
            },
        }
    }
}

/// `postfix`.
pub open spec fn sp_postfix(s: Seq<char>, p: int, f: nat) -> SR<SExpr>
    decreases f, 0int,
{
    if f == 0 {
        Err(SFail::Fuel)
    } else {
        match sp_primary(s, p, (f - 1) as nat) {
            Err(e) => Err(e),
            Ok((e, p1)) => sp_postfix_tail(s, e, p1, (f - 1) as nat),
        }
    }
}

/// Whether the character at `p` is a `.` introducing a field access.
pub open spec fn dot_is_field(s: Seq<char>, p: int) -> bool {
    0 <= p && p + 1 < s.len() && s[p] == '.' && ident_start(s[p + 1])
}

/// The `("." identifier)*` loop.
pub open spec fn sp_postfix_tail(s: Seq<char>, e: SExpr, p: int, f: nat) -> SR<SExpr>
    decreases f, 0int,
{
    if f == 0 {
        Err(SFail::Fuel)
    } else {
        let p1 = skip_ws(s, p);
        if dot_is_field(s, p1) {
            match sp_ident(s, p1 + 1) {
                Err(x) => Err(x),
                Ok((name, p2)) => sp_postfix_tail(
                    s,
                    SExpr::Field(bx(e), name),
                    p2,
                    (f - 1) as nat,
                ),
            }
        } else {
            Ok((e, p1))
        }
    }
}

/// `primary`.
pub open spec fn sp_primary(s: Seq<char>, p: int, f: nat) -> SR<SExpr>
    decreases f, 0int,
{
    if f == 0 {
        Err(SFail::Fuel)
    } else {
        let p1 = skip_ws(s, p);
        if p1 < 0 || p1 >= s.len() {
            Err(SFail::At(p1, "unexpected end of input"@))
        } else {
            let c = s[p1];
            if c == '"' {
                sp_string(s, p1)
            } else if c == '(' {
                match sp_or(s, p1 + 1, (f - 1) as nat) {
                    Err(e) => Err(e),
                    Ok((e, p2)) => {
                        let p3 = skip_ws(s, p2);
                        if occurs_at(s, p3, ")"@) {
                            Ok((e, p3 + 1))
                        } else {
                            Err(SFail::At(p3, "expected ')'"@))
                        }
                    },
                }
            } else if c == '[' {
                sp_array(s, p1, (f - 1) as nat)
            } else if c == '$' {
                sp_var(s, p1)
            } else if is_digit(c) || c == '-' {
                sp_int(s, p1)
            } else if ident_start(c) {
                sp_word(s, p1, (f - 1) as nat)
            } else {
                Err(SFail::At(p1, "unexpected character '"@ + seq![c] + "'"@))
            }
        }
    }
}

/// Whether `w` is one of the reserved operator keywords.
pub open spec fn reserved_word(w: Seq<char>) -> bool {
    w == "and"@ || w == "or"@ || w == "not"@ || w == "in"@ || w == "not_in"@
}

/// An identifier-led primary: a keyword literal, a quantifier, a call, or a
/// bare binding reference.
pub open spec fn sp_word(s: Seq<char>, p: int, f: nat) -> SR<SExpr>
    decreases f, 0int,
{
    if f == 0 {
        Err(SFail::Fuel)
    } else {
        match sp_ident(s, p) {
            Err(e) => Err(e),
            Ok((w, p1)) => if w == "true"@ {
                Ok((SExpr::Lit(SValue::Bool(true)), p1))
            } else if w == "false"@ {
                Ok((SExpr::Lit(SValue::Bool(false)), p1))
            } else if w == "null"@ {
                Ok((SExpr::Lit(SValue::Null), p1))
            } else if w == "every"@ {
                sp_quant(s, p1, true, (f - 1) as nat)
            } else if w == "some"@ {
                sp_quant(s, p1, false, (f - 1) as nat)
            } else if reserved_word(w) {
                Err(
                    SFail::At(
                        p,
                        "'"@ + w + "' is a reserved keyword, not a primary expression"@,
                    ),
                )
            } else {
                let p2 = skip_ws(s, p1);
                if occurs_at(s, p2, "("@) {
                    match sp_call_args(s, p2 + 1, (f - 1) as nat) {
                        Err(e) => Err(e),
                        Ok((args, p3)) => Ok((SExpr::Call(w, args), p3)),
                    }
                } else {
                    Ok((SExpr::Var(SVar::Binding(w)), p1))
                }
            },
        }
    }
}

/// The name of a quantifier kind.
pub open spec fn quant_name(every: bool) -> Seq<char> {
    if every {
        "every"@
    } else {
        "some"@
    }
}

/// The body of an `every(...)` / `some(...)` quantifier, after its keyword.
pub open spec fn sp_quant(s: Seq<char>, p: int, every: bool, f: nat) -> SR<SExpr>
    decreases f, 0int,
{
    if f == 0 {
        Err(SFail::Fuel)
    } else {
        let name = quant_name(every);
        let p1 = skip_ws(s, p);
        if !occurs_at(s, p1, "("@) {
            Err(SFail::At(p1, "expected '(' after '"@ + name + "'"@))
        } else {
            match sp_ident(s, skip_ws(s, p1 + 1)) {
                Err(e) => Err(e),
                Ok((b, p3)) => {
                    let p4 = skip_ws(s, p3);
                    match kw_probe(s, p4, "in"@) {
                        None => Err(SFail::Abort),
                        Some(false) => Err(
                            SFail::At(
                                p4,
                                "expected 'in' after binding name '"@ + b + "' in "@ + name
                                    + " quantifier"@,
                            ),
                        ),
                        Some(true) => match sp_or(
                            s,
                            skip_ws(s, p4 + "in"@.len()),
                            (f - 1) as nat,
                        ) {
                            Err(e) => Err(e),
                            Ok((coll, p6)) => {
                                let p7 = skip_ws(s, p6);
                                if !occurs_at(s, p7, ","@) {
                                    Err(
                                        SFail::At(
                                            p7,
                                            "expected ',' separating collection from predicate in "@
                                                + name,
                                        ),
                                    )
                                } else {
                                    match sp_or(s, skip_ws(s, p7 + 1), (f - 1) as nat) {
                                        Err(e) => Err(e),
                                        Ok((pred, p9)) => {
                                            let p10 = skip_ws(s, p9);
                                            if !occurs_at(s, p10, ")"@) {
                                                Err(
                                                    SFail::At(
                                                        p10,
                                                        "expected ')' closing "@ + name
                                                            + " quantifier"@,
                                                    ),
                                                )
                                            } else if every {
                                                Ok((SExpr::Every(b, bx(coll), bx(pred)), p10 + 1))
                                            } else {
                                                Ok((SExpr::Some_(b, bx(coll), bx(pred)), p10 + 1))
                                            }
                                        },
                                    }
                                }
                            },
                        },
                    }
                },
            }
        }
    }
}

/// Call arguments after the opening `(`.
pub open spec fn sp_call_args(s: Seq<char>, p: int, f: nat) -> SR<Seq<SExpr>>
    decreases f, 0int,
{
    if f == 0 {
        Err(SFail::Fuel)
    } else {
        let p1 = skip_ws(s, p);
        if occurs_at(s, p1, ")"@) {
            Ok((seq![], p1 + 1))
        } else {
            sp_args_loop(s, seq![], p1, (f - 1) as nat)
        }
    }
}

/// The argument loop: `expression ("," expression)* ")"`.
pub open spec fn sp_args_loop(s: Seq<char>, acc: Seq<SExpr>, p: int, f: nat) -> SR<Seq<SExpr>>
    decreases f, 0int,
{
    if f == 0 {
        Err(SFail::Fuel)
    } else {
        match sp_or(s, p, (f - 1) as nat) {
            Err(e) => Err(e),
            Ok((a, p1)) => {
                let p2 = skip_ws(s, p1);
                if occurs_at(s, p2, ","@) {
                    sp_args_loop(s, acc.push(a), skip_ws(s, p2 + 1), (f - 1) as nat)
                } else if occurs_at(s, p2, ")"@) {
                    Ok((acc.push(a), p2 + 1))
                } else {
                    Err(SFail::At(p2, "expected ',' or ')' in function call arguments"@))
                }
            },
        }
    }
}

/// A variable reference `$name`.
pub open spec fn sp_var(s: Seq<char>, p: int) -> SR<SExpr> {
    if !occurs_at(s, p, "$"@) {
        Err(SFail::At(p, "expected '$'"@))
    } else {
        match sp_ident(s, p + 1) {
            Err(e) => Err(e),
            Ok((w, p1)) => Ok(
                (
                    SExpr::Var(
                        if w == "self"@ {
                            SVar::SelfVar
                        } else if w == "file"@ {
                            SVar::File
                        } else if w == "project"@ {
                            SVar::Project
                        } else {
                            SVar::Binding(w)
                        },
                    ),
                    p1,
                ),
            ),
        }
    }
}

/// A string literal.
pub open spec fn sp_string(s: Seq<char>, p: int) -> SR<SExpr> {
    if !occurs_at(s, p, "\""@) {
        Err(SFail::At(p, "expected '\"'"@))
    } else {
        sp_string_body(s, seq![], p + 1)
    }
}

/// The characters of a string literal after its opening quote.
pub open spec fn sp_string_body(s: Seq<char>, acc: Seq<char>, p: int) -> SR<SExpr>
    decreases s.len() - p,
{
    if p < 0 || p >= s.len() {
        Err(SFail::At(p, "unterminated string literal"@))
    } else {
        let c = s[p];
        if c == '"' {
            Ok((SExpr::Lit(SValue::Str(acc)), p + 1))
        } else if c == '\\' {
            if p + 1 >= s.len() {
                Err(SFail::At(p + 1, "unterminated escape"@))
            } else {
                let e = s[p + 1];
                if e == '"' || e == '\\' {
                    sp_string_body(s, acc.push(e), p + 2)
                } else if e == 'n' {
                    sp_string_body(s, acc.push('\n'), p + 2)
                } else {
                    Err(SFail::At(p + 1, "invalid escape sequence '\\"@ + seq![e] + "'"@))
                }
            }
        } else {
            sp_string_body(s, acc.push(c), p + 1)
        }
    }
}

/// The end of the run of ASCII digits starting at `p`.
pub open spec fn digits_end(s: Seq<char>, p: int) -> int
    decreases s.len() - p,
{
    if 0 <= p < s.len() && is_digit(s[p]) {
        digits_end(s, p + 1)
    } else {
        p
    }
}

/// `str::parse::<i64>` of an optional `-` followed by ASCII digits.
pub open spec fn parse_i64(t: Seq<char>) -> Option<int> {
    if t.len() > 0 && t[0] == '-' {
        let v = dec_value(t.drop_first());
        if v <= 0x8000_0000_0000_0000 {
            Some(-v)
        } else {
            None
        }
    } else {
        let v = dec_value(t);
        if v <= 0x7FFF_FFFF_FFFF_FFFF {
            Some(v as int)
        } else {
            None
        }
    }
}

/// An integer literal.
pub open spec fn sp_int(s: Seq<char>, p: int) -> SR<SExpr> {
    let p1 = if 0 <= p < s.len() && s[p] == '-' {
        p + 1
    } else {
        p
    };
    let p2 = digits_end(s, p1);
    if p2 == p1 {
        Err(SFail::At(p, "expected integer digits"@))
    } else {
        let t = s.subrange(p, p2);
        match parse_i64(t) {
            Some(n) => Ok((SExpr::Lit(SValue::Int(n)), p2)),
            None => Err(SFail::At(p, "invalid integer '"@ + t + "'"@)),
        }
    }
}

/// An array literal.
pub open spec fn sp_array(s: Seq<char>, p: int, f: nat) -> SR<SExpr>
    decreases f, 0int,
{
    if f == 0 {
        Err(SFail::Fuel)
    } else if !occurs_at(s, p, "["@) {
        Err(SFail::At(p, "expected '['"@))
    } else {
        let p1 = skip_ws(s, p + 1);
        if occurs_at(s, p1, "]"@) {
            Ok((SExpr::Lit(SValue::Array(seq![])), p1 + 1))
        } else {
            sp_array_loop(s, seq![], p1, (f - 1) as nat)
        }
    }
}

/// The element loop of an array literal.
pub open spec fn sp_array_loop(s: Seq<char>, acc: Seq<SValue>, p: int, f: nat) -> SR<SExpr>
    decreases f, 0int,
{
    if f == 0 {
        Err(SFail::Fuel)
    } else {
        let p1 = skip_ws(s, p);
        match sp_primary(s, p1, (f - 1) as nat) {
            Err(e) => Err(e),
            Ok((e, p2)) => match e {
                SExpr::Lit(v) => {
                    let p3 = skip_ws(s, p2);
                    if occurs_at(s, p3, ","@) {
                        sp_array_loop(s, acc.push(v), p3 + 1, (f - 1) as nat)
                    } else if occurs_at(s, p3, "]"@) {
                        Ok((SExpr::Lit(SValue::Array(acc.push(v))), p3 + 1))
                    } else {
                        Err(SFail::At(p3, "expected ',' or ']' in array"@))
                    }
                },
                _ => Err(SFail::At(p1, "array elements must be literal values in v0.1.x"@)),
            },
        }
    }
}

/// The whole-input parse: an expression followed only by whitespace.
pub open spec fn spec_parse_expression(s: Seq<char>) -> SR<SExpr> {
    match sp_or(s, 0, need(s, 0, 12) as nat) {
        Err(e) => Err(e),
        Ok((e, p)) => {
            let p1 = skip_ws(s, p);
            if p1 < s.len() {
                Err(SFail::At(p1, "unexpected trailing input: '"@ + s.skip(p1) + "'"@))
            } else {
                Ok((e, p1))
            }
        },
    }
}

/// Whether parsing `s` aborts (a keyword probe would slice inside a
/// multi-byte character).
pub open spec fn parse_aborts(s: Seq<char>) -> bool {
    spec_parse_expression(s) matches Err(SFail::Abort)
}

/// How an executable parse result corresponds to a spec result: the same
/// value (by view) on success, and on failure the same message with the
/// character position converted to its UTF-8 byte offset.
pub open spec fn corresponds(r: Result<Expr, ParseError>, sp: SR<SExpr>, s: Seq<char>) -> bool {
    match sp {
        Ok((e, _)) => r matches Ok(x) && x.view() == e,
        Err(SFail::At(p, m)) => r matches Err(x) && x.position == byte_len(s.take(p))
            && x.message@ == m,
        _ => false,
    }
}


// ── The parser ───────────────────────────────────────────────────────────────

/// Whether a parse failure corresponds to a spec failure.
pub open spec fn fail_matches(x: ParseError, f: SFail, s: Seq<char>) -> bool {
    f matches SFail::At(p, m) && 0 <= p <= s.len() && x.position == byte_len(s.take(p))
        && x.message@ == m
}

/// Whether the spec step did not abort.
pub open spec fn no_abort<T>(r: SR<T>) -> bool {
    !(r matches Err(SFail::Abort))
}

/// Whether parsing `input` aborts: a keyword probe would slice inside a
/// multi-byte character. [`parse_expression`] takes exactly the inputs on
/// which this is false.
pub fn parse_would_abort(input: &str) -> (b: bool)
    ensures
        b == parse_aborts(input@),
{
    let v = chars_of(input);
    let _n = utf8_len(input);
    let mut p = Parser { input: v, pos: 0 };
    let ghost s = input@;
    let ghost f = need(s, 0, 12) as nat;
    match p.parse_or_expr(Ghost(f)) {
        Err(None) => true,
        _ => false,
    }
}

/// Parse `input` as a complete expression. Returns [`ParseError`] when it
/// does not parse (trailing input after the expression is also an error).
pub fn parse_expression(input: &str) -> (r: Result<Expr, ParseError>)
    requires
        !parse_aborts(input@),
    ensures
        corresponds(r, spec_parse_expression(input@), input@),
{
    let v = chars_of(input);
    let _n = utf8_len(input);
    let mut p = Parser { input: v, pos: 0 };
    let ghost s = input@;
    let ghost f = need(s, 0, 12) as nat;
    let expr = match p.parse_or_expr(Ghost(f)) {
        Ok(e) => e,
        Err(Some(x)) => return Err(x),
        Err(None) => {
            proof {
                assert(false);
            }
            return Err(ParseError::new(0, String::new()));
        },
    };
    p.skip_whitespace();
    if p.pos < p.input.len() {
        let mut m = owned("unexpected trailing input: '");
        push_chars(&mut m, &p.input, p.pos, p.input.len());
        push_str(&mut m, "'");
        proof {
            assert(s.subrange(p.pos as int, s.len() as int) =~= s.skip(p.pos as int));
        }
        return Err(p.fail(p.pos, m));
    }
    Ok(expr)
}

/// A `String` equal to a literal?
fn str_eq(a: &String, lit: &str) -> (b: bool)
    ensures
        b == (a@ == lit@),
{
    let av = chars_of(a.as_str());
    let lv = chars_of(lit);
    if av.len() != lv.len() {
        return false;
    }
    let m = matches_at(&av, 0, &lv);
    proof {
        if m {
            assert(av@ =~= av@.subrange(0, lv@.len() as int));
        } else {
            if av@ == lv@ {
                assert(av@.subrange(0, lv@.len() as int) =~= av@);
            }
        }
    }
    m
}

struct Parser {
    input: Vec<char>,
    pos: usize,
}

impl Parser {
    spec fn wf(&self) -> bool {
        self.pos <= self.input@.len() && byte_len(self.input@) <= usize::MAX
    }

    fn fail(&self, p: usize, message: String) -> (e: ParseError)
        requires
            p <= self.input@.len(),
            byte_len(self.input@) <= usize::MAX,
        ensures
            e.position == byte_len(self.input@.take(p as int)),
            e.message@ == message@,
    {
        ParseError::new(byte_offset(&self.input, p), message)
    }

    fn fail_some(&self, p: usize, message: String) -> (e: Option<ParseError>)
        requires
            p <= self.input@.len(),
            byte_len(self.input@) <= usize::MAX,
        ensures
            e matches Some(x) && x.position == byte_len(self.input@.take(p as int)) && x.message@ == message@,
    {
        Some(self.fail(p, message))
    }

    fn skip_whitespace(&mut self)
        requires
            old(self).wf(),
        ensures
            final(self).input@ == old(self).input@,
            final(self).wf(),
            final(self).pos == skip_ws(old(self).input@, old(self).pos as int),
            final(self).pos >= old(self).pos,
    {
        let ghost s = self.input@;
        let ghost p0 = self.pos as int;
        while self.pos < self.input.len() && ascii_ws(self.input[self.pos])
            invariant
                self.input@ == s,
                p0 <= self.pos,
                s == old(self).input@,
                self.wf(),
                skip_ws(s, self.pos as int) == skip_ws(s, p0),
            decreases self.input@.len() - self.pos,
        {
            self.pos = self.pos + 1;
        }
    }

    fn consume_str(&mut self, lit: &str) -> (b: bool)
        requires
            old(self).wf(),
        ensures
            final(self).input@ == old(self).input@,
            final(self).wf(),
            b == occurs_at(old(self).input@, old(self).pos as int, lit@),
            final(self).pos == (if b {
                old(self).pos + lit@.len()
            } else {
                old(self).pos as int
            }),
    {
        let v = chars_of(lit);
        let _ilen = self.input.len();
        if matches_at(&self.input, self.pos, &v) {
            self.pos = self.pos + v.len();
            true
        } else {
            false
        }
    }

    fn consume_keyword(&mut self, kw: &str) -> (b: Option<bool>)
        requires
            old(self).wf(),
        ensures
            final(self).input@ == old(self).input@,
            final(self).wf(),
            b == kw_probe(old(self).input@, old(self).pos as int, kw@),
            final(self).pos == (if b == Some(true) {
                old(self).pos + kw@.len()
            } else {
                old(self).pos as int
            }),
    {
        let ghost s = self.input@;
        let k = chars_of(kw);
        let n = utf8_len(kw);
        let _ilen = self.input.len();
        let w = walk_bytes(&self.input, self.pos, n);
        if w == 1 {
            return None;
        }
        if w != 0 {
            assert(w == 2);
            return Some(false);
        }
        if !matches_at(&self.input, self.pos, &k) {
            return Some(false);
        }
        let end = self.pos + k.len();
        if end < self.input.len() {
            let c = self.input[end];
            if alphanumeric(c) || c == '_' {
                return Some(false);
            }
        }
        self.pos = end;
        Some(true)
    }

    fn parse_identifier(&mut self) -> (r: Result<String, ParseError>)
        requires
            old(self).wf(),
        ensures
            final(self).input@ == old(self).input@,
            final(self).wf(),
            old(self).pos <= final(self).pos,
            match r {
                Ok(w) => sp_ident(old(self).input@, old(self).pos as int) matches Ok((v, p)) && w@
                    == v && final(self).pos == p && p > old(self).pos,
                Err(x) => sp_ident(old(self).input@, old(self).pos as int) matches Err(f)
                    && fail_matches(x, f, old(self).input@),
            },
    {
        let ghost s = self.input@;
        let start = self.pos;
        if start >= self.input.len() {
            return Err(self.fail(start, owned("expected identifier")));
        }
        let c = self.input[start];
        if !(alphabetic(c) || c == '_') {
            return Err(self.fail(start, owned("expected identifier")));
        }
        self.pos = start + 1;
        while self.pos < self.input.len() && (alphanumeric(self.input[self.pos]) || self.input[
            self.pos
        ] == '_')
            invariant
                self.input@ == s,
                s == old(self).input@,
                self.wf(),
                start < self.pos,
                ident_end(s, self.pos as int) == ident_end(s, start + 1),
            decreases self.input@.len() - self.pos,
        {
            self.pos = self.pos + 1;
        }
        Ok(string_from(&self.input, start, self.pos))
    }

    fn parse_or_expr(&mut self, Ghost(f): Ghost<nat>) -> (r: Result<Expr, Option<ParseError>>)
        requires
            old(self).wf(),
            f >= need(old(self).input@, old(self).pos as int, 12),
        ensures
            final(self).input@ == old(self).input@,
            final(self).wf(),
            old(self).pos <= final(self).pos,
            match r {
                Ok(e) => sp_or(old(self).input@, old(self).pos as int, f) matches Ok((v, p))
                    && e.view() == v && final(self).pos == p,
                Err(Some(x)) => sp_or(old(self).input@, old(self).pos as int, f) matches Err(ff)
                    && fail_matches(x, ff, old(self).input@),
                Err(None) => sp_or(old(self).input@, old(self).pos as int, f) matches Err(SFail::Abort),
            },
        decreases f, 2int,
    {
        let ghost s = self.input@;
        let ghost p0 = self.pos as int;
        let mut left = match self.parse_and_expr(Ghost((f - 1) as nat)) {
            Ok(e) => e,
            Err(x) => return Err(x),
        };
        let ghost mut g: nat = (f - 1) as nat;
        loop
            invariant_except_break
                sp_or(s, p0, f) == sp_or_tail(s, left.view(), self.pos as int, g),
            invariant
                self.input@ == s,
                s == old(self).input@,
                p0 == old(self).pos,
                self.wf(),
                p0 <= self.pos,
                g < f,
                g >= need(s, self.pos as int, 11),
            ensures
                sp_or(s, p0, f) == SR::<SExpr>::Ok((left.view(), self.pos as int)),
            decreases g,
        {
            self.skip_whitespace();
            let saved = self.pos;
            proof {
                reveal_strlit("or");
            }
            let hit = match self.consume_keyword("or") {
                Some(b) => b,
                None => return Err(None),
            };
            if hit {
                self.skip_whitespace();
                let right = match self.parse_and_expr(Ghost((g - 1) as nat)) {
                    Ok(e) => e,
                    Err(x) => return Err(x),
                };
                left = Expr::Or(Box::new(left), Box::new(right));
                proof {
                    g = (g - 1) as nat;
                }
            } else {
                self.pos = saved;
                break;
            }
        }
        Ok(left)
    }

    fn parse_and_expr(&mut self, Ghost(f): Ghost<nat>) -> (r: Result<Expr, Option<ParseError>>)
        requires
            old(self).wf(),
            f >= need(old(self).input@, old(self).pos as int, 11),
        ensures
            final(self).input@ == old(self).input@,
            final(self).wf(),
            old(self).pos <= final(self).pos,
            match r {
                Ok(e) => sp_and(old(self).input@, old(self).pos as int, f) matches Ok((v, p))
                    && e.view() == v && final(self).pos == p,
                Err(Some(x)) => sp_and(old(self).input@, old(self).pos as int, f) matches Err(ff)
                    && fail_matches(x, ff, old(self).input@),
                Err(None) => sp_and(old(self).input@, old(self).pos as int, f) matches Err(SFail::Abort),
            },
        decreases f, 2int,
    {
        let ghost s = self.input@;
        let ghost p0 = self.pos as int;
        let mut left = match self.parse_not_expr(Ghost((f - 1) as nat)) {
            Ok(e) => e,
            Err(x) => return Err(x),
        };
        let ghost mut g: nat = (f - 1) as nat;
        loop
            invariant_except_break
                sp_and(s, p0, f) == sp_and_tail(s, left.view(), self.pos as int, g),
            invariant
                self.input@ == s,
                s == old(self).input@,
                p0 == old(self).pos,
                self.wf(),
                p0 <= self.pos,
                g < f,
                g >= need(s, self.pos as int, 10),
            ensures
                sp_and(s, p0, f) == SR::<SExpr>::Ok((left.view(), self.pos as int)),
            decreases g,
        {
            self.skip_whitespace();
            let saved = self.pos;
            proof {
                reveal_strlit("and");
            }
            let hit = match self.consume_keyword("and") {
                Some(b) => b,
                None => return Err(None),
            };
            if hit {
                self.skip_whitespace();
                let right = match self.parse_not_expr(Ghost((g - 1) as nat)) {
                    Ok(e) => e,
                    Err(x) => return Err(x),
                };
                left = Expr::And(Box::new(left), Box::new(right));
                proof {
                    g = (g - 1) as nat;
                }
            } else {
                self.pos = saved;
                break;
            }
        }
        Ok(left)
    }

    fn parse_not_expr(&mut self, Ghost(f): Ghost<nat>) -> (r: Result<Expr, Option<ParseError>>)
        requires
            old(self).wf(),
            f >= need(old(self).input@, old(self).pos as int, 10),
        ensures
            final(self).input@ == old(self).input@,
            final(self).wf(),
            old(self).pos <= final(self).pos,
            match r {
                Ok(e) => sp_not(old(self).input@, old(self).pos as int, f) matches Ok((v, p))
                    && e.view() == v && final(self).pos == p,
                Err(Some(x)) => sp_not(old(self).input@, old(self).pos as int, f) matches Err(ff)
                    && fail_matches(x, ff, old(self).input@),
                Err(None) => sp_not(old(self).input@, old(self).pos as int, f) matches Err(SFail::Abort),
            },
        decreases f, 2int,
    {
        self.skip_whitespace();
        proof {
            reveal_strlit("not");
        }
        let hit = match self.consume_keyword("not") {
                Some(b) => b,
                None => return Err(None),
            };
            if hit {
            self.skip_whitespace();
            let inner = match self.parse_not_expr(Ghost((f - 1) as nat)) {
                Ok(e) => e,
                Err(x) => return Err(x),
            };
            Ok(Expr::Not(Box::new(inner)))
        } else {
            self.parse_in_expr(Ghost((f - 1) as nat))
        }
    }

    fn parse_in_expr(&mut self, Ghost(f): Ghost<nat>) -> (r: Result<Expr, Option<ParseError>>)
        requires
            old(self).wf(),
            f >= need(old(self).input@, old(self).pos as int, 9),
        ensures
            final(self).input@ == old(self).input@,
            final(self).wf(),
            old(self).pos <= final(self).pos,
            match r {
                Ok(e) => sp_in(old(self).input@, old(self).pos as int, f) matches Ok((v, p))
                    && e.view() == v && final(self).pos == p,
                Err(Some(x)) => sp_in(old(self).input@, old(self).pos as int, f) matches Err(ff)
                    && fail_matches(x, ff, old(self).input@),
                Err(None) => sp_in(old(self).input@, old(self).pos as int, f) matches Err(SFail::Abort),
            },
        decreases f, 2int,
    {
        let left = match self.parse_eq_expr(Ghost((f - 1) as nat)) {
            Ok(e) => e,
            Err(x) => return Err(x),
        };
        self.skip_whitespace();
        let saved = self.pos;
        proof {
            reveal_strlit("not_in");
            reveal_strlit("in");
        }
        let hit = match self.consume_keyword("not_in") {
                Some(b) => b,
                None => return Err(None),
            };
            if hit {
            self.skip_whitespace();
            let right = match self.parse_eq_expr(Ghost((f - 1) as nat)) {
                Ok(e) => e,
                Err(x) => return Err(x),
            };
            Ok(Expr::NotIn(Box::new(left), Box::new(right)))
        } else {
            let hit_in = match self.consume_keyword("in") {
                Some(b) => b,
                None => return Err(None),
            };
            if hit_in {
                self.skip_whitespace();
                let right = match self.parse_eq_expr(Ghost((f - 1) as nat)) {
                    Ok(e) => e,
                    Err(x) => return Err(x),
                };
                Ok(Expr::In(Box::new(left), Box::new(right)))
            } else {
                self.pos = saved;
                Ok(left)
            }
        }
    }

    fn parse_eq_expr(&mut self, Ghost(f): Ghost<nat>) -> (r: Result<Expr, Option<ParseError>>)
        requires
            old(self).wf(),
            f >= need(old(self).input@, old(self).pos as int, 8),
        ensures
            final(self).input@ == old(self).input@,
            final(self).wf(),
            old(self).pos <= final(self).pos,
            match r {
                Ok(e) => sp_eq(old(self).input@, old(self).pos as int, f) matches Ok((v, p))
                    && e.view() == v && final(self).pos == p,
                Err(Some(x)) => sp_eq(old(self).input@, old(self).pos as int, f) matches Err(ff)
                    && fail_matches(x, ff, old(self).input@),
                Err(None) => sp_eq(old(self).input@, old(self).pos as int, f) matches Err(SFail::Abort),
            },
        decreases f, 2int,
    {
        let left = match self.parse_postfix(Ghost((f - 1) as nat)) {
            Ok(e) => e,
            Err(x) => return Err(x),
        };
        self.skip_whitespace();
        proof {
            reveal_strlit("==");
            reveal_strlit("!=");
        }
        if self.consume_str("==") {
            self.skip_whitespace();
            let right = match self.parse_postfix(Ghost((f - 1) as nat)) {
                Ok(e) => e,
                Err(x) => return Err(x),
            };
            Ok(Expr::Eq(Box::new(left), Box::new(right)))
        } else if self.consume_str("!=") {
            self.skip_whitespace();
            let right = match self.parse_postfix(Ghost((f - 1) as nat)) {
                Ok(e) => e,
                Err(x) => return Err(x),
            };
            Ok(Expr::Ne(Box::new(left), Box::new(right)))
        } else {
            Ok(left)
        }
    }

    fn parse_postfix(&mut self, Ghost(f): Ghost<nat>) -> (r: Result<Expr, Option<ParseError>>)
        requires
            old(self).wf(),
            f >= need(old(self).input@, old(self).pos as int, 7),
        ensures
            final(self).input@ == old(self).input@,
            final(self).wf(),
            old(self).pos <= final(self).pos,
            match r {
                Ok(e) => sp_postfix(old(self).input@, old(self).pos as int, f) matches Ok((v, p))
                    && e.view() == v && final(self).pos == p,
                Err(Some(x)) => sp_postfix(old(self).input@, old(self).pos as int, f) matches Err(ff)
                    && fail_matches(x, ff, old(self).input@),
                Err(None) => sp_postfix(old(self).input@, old(self).pos as int, f) matches Err(SFail::Abort),
            },
        decreases f, 2int,
    {
        let ghost s = self.input@;
        let ghost p0 = self.pos as int;
        let mut expr = match self.parse_primary(Ghost((f - 1) as nat)) {
            Ok(e) => e,
            Err(x) => return Err(x),
        };
        let ghost mut g: nat = (f - 1) as nat;
        loop
            invariant_except_break
                sp_postfix(s, p0, f) == sp_postfix_tail(s, expr.view(), self.pos as int, g),
            invariant
                self.input@ == s,
                s == old(self).input@,
                p0 == old(self).pos,
                self.wf(),
                p0 <= self.pos,
                g < f,
                g >= need(s, self.pos as int, 6),
            ensures
                sp_postfix(s, p0, f) == SR::<SExpr>::Ok((expr.view(), self.pos as int)),
            decreases g,
        {
            self.skip_whitespace();
            let p = self.pos;
            let dot = p < self.input.len() && self.input[p] == '.' && p + 1 < self.input.len()
                && (alphabetic(self.input[p + 1]) || self.input[p + 1] == '_');
            if !dot {
                break;
            }
            self.pos = p + 1;
            let field = match self.parse_identifier() {
                Ok(w) => w,
                Err(x) => return Err(Some(x)),
            };
            expr = Expr::Field(Box::new(expr), field);
            proof {
                g = (g - 1) as nat;
            }
        }
        Ok(expr)
    }

    fn parse_primary(&mut self, Ghost(f): Ghost<nat>) -> (r: Result<Expr, Option<ParseError>>)
        requires
            old(self).wf(),
            f >= need(old(self).input@, old(self).pos as int, 6),
        ensures
            final(self).input@ == old(self).input@,
            final(self).wf(),
            old(self).pos <= final(self).pos,
            match r {
                Ok(e) => sp_primary(old(self).input@, old(self).pos as int, f) matches Ok((v, p))
                    && e.view() == v && final(self).pos == p,
                Err(Some(x)) => sp_primary(old(self).input@, old(self).pos as int, f) matches Err(ff)
                    && fail_matches(x, ff, old(self).input@),
                Err(None) => sp_primary(old(self).input@, old(self).pos as int, f) matches Err(SFail::Abort),
            },
        decreases f, 2int,
    {
        self.skip_whitespace();
        let p1 = self.pos;
        if p1 >= self.input.len() {
            return Err(self.fail_some(p1, owned("unexpected end of input")));
        }
        let c = self.input[p1];
        if c == '"' {
            lift(self.parse_string_literal())
        } else if c == '(' {
            self.pos = p1 + 1;
            let e = match self.parse_or_expr(Ghost((f - 1) as nat)) {
                Ok(e) => e,
                Err(x) => return Err(x),
            };
            self.skip_whitespace();
            proof {
                reveal_strlit(")");
            }
            if !self.consume_str(")") {
                return Err(self.fail_some(self.pos, owned("expected ')'")));
            }
            Ok(e)
        } else if c == '[' {
            self.parse_array_literal(Ghost((f - 1) as nat))
        } else if c == '$' {
            lift(self.parse_var_ref())
        } else if ascii_digit(c) || c == '-' {
            lift(self.parse_int_literal())
        } else if alphabetic(c) || c == '_' {
            self.parse_word(Ghost((f - 1) as nat))
        } else {
            let mut m = owned("unexpected character '");
            push_char(&mut m, c);
            push_str(&mut m, "'");
            Err(self.fail_some(p1, m))
        }
    }

    fn parse_word(&mut self, Ghost(f): Ghost<nat>) -> (r: Result<Expr, Option<ParseError>>)
        requires
            old(self).wf(),
            f >= need(old(self).input@, old(self).pos as int, 5),
        ensures
            final(self).input@ == old(self).input@,
            final(self).wf(),
            old(self).pos <= final(self).pos,
            match r {
                Ok(e) => sp_word(old(self).input@, old(self).pos as int, f) matches Ok((v, p))
                    && e.view() == v && final(self).pos == p,
                Err(Some(x)) => sp_word(old(self).input@, old(self).pos as int, f) matches Err(ff)
                    && fail_matches(x, ff, old(self).input@),
                Err(None) => sp_word(old(self).input@, old(self).pos as int, f) matches Err(SFail::Abort),
            },
        decreases f, 2int,
    {
        let start = self.pos;
        let ident = match self.parse_identifier() {
            Ok(w) => w,
            Err(x) => return Err(Some(x)),
        };
        if str_eq(&ident, "true") {
            Ok(Expr::Lit(DslValue::Bool(true)))
        } else if str_eq(&ident, "false") {
            Ok(Expr::Lit(DslValue::Bool(false)))
        } else if str_eq(&ident, "null") {
            Ok(Expr::Lit(DslValue::Null))
        } else if str_eq(&ident, "every") {
            self.parse_quantifier_body(true, Ghost((f - 1) as nat))
        } else if str_eq(&ident, "some") {
            self.parse_quantifier_body(false, Ghost((f - 1) as nat))
        } else if str_eq(&ident, "and") || str_eq(&ident, "or") || str_eq(&ident, "not") || str_eq(
            &ident,
            "in",
        ) || str_eq(&ident, "not_in") {
            let mut m = owned("'");
            push_str(&mut m, ident.as_str());
            push_str(&mut m, "' is a reserved keyword, not a primary expression");
            Err(self.fail_some(start, m))
        } else {
            let saved = self.pos;
            self.skip_whitespace();
            proof {
                reveal_strlit("(");
            }
            if self.consume_str("(") {
                let args = match self.parse_call_args(Ghost((f - 1) as nat)) {
                    Ok(a) => a,
                    Err(x) => return Err(x),
                };
                let e = Expr::Call(ident, args);
                proof {
                    let ghost ev = e.view();
                    assert(ev matches SExpr::Call(_, sargs) && sargs =~= view_exprs(args@));
                }
                Ok(e)
            } else {
                self.pos = saved;
                Ok(Expr::Var(VarRef::Binding(ident)))
            }
        }
    }

    fn parse_quantifier_body(&mut self, every: bool, Ghost(f): Ghost<nat>) -> (r: Result<
        Expr,
        Option<ParseError>,
    >)
        requires
            old(self).wf(),
            f >= need(old(self).input@, old(self).pos as int, 5),
        ensures
            final(self).input@ == old(self).input@,
            final(self).wf(),
            old(self).pos <= final(self).pos,
            match r {
                Ok(e) => sp_quant(old(self).input@, old(self).pos as int, every, f) matches Ok(
                    (v, p),
                ) && e.view() == v && final(self).pos == p,
                Err(Some(x)) => sp_quant(old(self).input@, old(self).pos as int, every, f) matches Err(
                    ff,
                ) && fail_matches(x, ff, old(self).input@),
                Err(None) => sp_quant(old(self).input@, old(self).pos as int, every, f) matches Err(SFail::Abort),
            },
        decreases f, 2int,
    {
        let name = if every {
            "every"
        } else {
            "some"
        };
        assert(name@ == quant_name(every));
        self.skip_whitespace();
        proof {
            reveal_strlit("(");
            reveal_strlit(")");
            reveal_strlit(",");
            reveal_strlit("in");
        }
        if !self.consume_str("(") {
            let mut m = owned("expected '(' after '");
            push_str(&mut m, name);
            push_str(&mut m, "'");
            return Err(self.fail_some(self.pos, m));
        }
        self.skip_whitespace();
        let binding = match self.parse_identifier() {
            Ok(w) => w,
            Err(x) => return Err(Some(x)),
        };
        self.skip_whitespace();
        let hit = match self.consume_keyword("in") {
            Some(b) => b,
            None => return Err(None),
        };
        if !hit {
            let mut m = owned("expected 'in' after binding name '");
            push_str(&mut m, binding.as_str());
            push_str(&mut m, "' in ");
            push_str(&mut m, name);
            push_str(&mut m, " quantifier");
            return Err(self.fail_some(self.pos, m));
        }
        self.skip_whitespace();
        let collection = match self.parse_or_expr(Ghost((f - 1) as nat)) {
            Ok(e) => e,
            Err(x) => return Err(x),
        };
        self.skip_whitespace();
        if !self.consume_str(",") {
            let mut m = owned("expected ',' separating collection from predicate in ");
            push_str(&mut m, name);
            return Err(self.fail_some(self.pos, m));
        }
        self.skip_whitespace();
        let predicate = match self.parse_or_expr(Ghost((f - 1) as nat)) {
            Ok(e) => e,
            Err(x) => return Err(x),
        };
        self.skip_whitespace();
        if !self.consume_str(")") {
            let mut m = owned("expected ')' closing ");
            push_str(&mut m, name);
            push_str(&mut m, " quantifier");
            return Err(self.fail_some(self.pos, m));
        }
        if every {
            Ok(Expr::Every(binding, Box::new(collection), Box::new(predicate)))
        } else {
            Ok(Expr::Some_(binding, Box::new(collection), Box::new(predicate)))
        }
    }

    #[verifier::rlimit(50)]
    fn parse_call_args(&mut self, Ghost(f): Ghost<nat>) -> (r: Result<Vec<Expr>, Option<ParseError>>)
        requires
            old(self).wf(),
            f >= need(old(self).input@, old(self).pos as int, 14),
        ensures
            final(self).input@ == old(self).input@,
            final(self).wf(),
            old(self).pos <= final(self).pos,
            match r {
                Ok(a) => sp_call_args(old(self).input@, old(self).pos as int, f) matches Ok(
                    (v, p),
                ) && view_exprs(a@) == v && final(self).pos == p,
                Err(Some(x)) => sp_call_args(old(self).input@, old(self).pos as int, f) matches Err(
                    ff,
                ) && fail_matches(x, ff, old(self).input@),
                Err(None) => sp_call_args(old(self).input@, old(self).pos as int, f) matches Err(SFail::Abort),
            },
        decreases f, 2int,
    {
        let ghost s = self.input@;
        let ghost p0 = self.pos as int;
        let mut args: Vec<Expr> = Vec::new();
        self.skip_whitespace();
        proof {
            reveal_strlit(")");
            reveal_strlit(",");
        }
        if self.consume_str(")") {
            assert(view_exprs(args@) =~= seq![]);
            return Ok(args);
        }
        let ghost mut g: nat = (f - 1) as nat;
        assert(view_exprs(args@) =~= seq![]);
        loop
            invariant
                self.input@ == s,
                s == old(self).input@,
                p0 == old(self).pos,
                self.wf(),
                p0 <= self.pos,
                g < f,
                g >= need(s, self.pos as int, 13),
                sp_call_args(s, p0, f) == sp_args_loop(s, view_exprs(args@), self.pos as int, g),
            decreases g,
        {
            proof {
                reveal_strlit(")");
                reveal_strlit(",");
            }
            let arg = match self.parse_or_expr(Ghost((g - 1) as nat)) {
                Ok(e) => e,
                Err(x) => return Err(x),
            };
            let ghost before = args@;
            args.push(arg);
            assert(view_exprs(args@) =~= view_exprs(before).push(arg.view()));
            self.skip_whitespace();
            if self.consume_str(",") {
                self.skip_whitespace();
                proof {
                    g = (g - 1) as nat;
                }
                continue ;
            }
            if self.consume_str(")") {
                return Ok(args);
            }
            return Err(
                self.fail_some(self.pos, owned("expected ',' or ')' in function call arguments")),
            );
        }
    }

    fn parse_var_ref(&mut self) -> (r: Result<Expr, ParseError>)
        requires
            old(self).wf(),
        ensures
            final(self).input@ == old(self).input@,
            final(self).wf(),
            old(self).pos <= final(self).pos,
            match r {
                Ok(e) => sp_var(old(self).input@, old(self).pos as int) matches Ok((v, p))
                    && e.view() == v && final(self).pos == p,
                Err(x) => sp_var(old(self).input@, old(self).pos as int) matches Err(ff)
                    && fail_matches(x, ff, old(self).input@),
            },
    {
        proof {
            reveal_strlit("$");
        }
        if !self.consume_str("$") {
            return Err(self.fail(self.pos, owned("expected '$'")));
        }
        let ident = match self.parse_identifier() {
            Ok(w) => w,
            Err(x) => return Err(x),
        };
        let var = if str_eq(&ident, "self") {
            VarRef::SelfVar
        } else if str_eq(&ident, "file") {
            VarRef::File
        } else if str_eq(&ident, "project") {
            VarRef::Project
        } else {
            VarRef::Binding(ident)
        };
        Ok(Expr::Var(var))
    }

    fn parse_string_literal(&mut self) -> (r: Result<Expr, ParseError>)
        requires
            old(self).wf(),
        ensures
            final(self).input@ == old(self).input@,
            final(self).wf(),
            old(self).pos <= final(self).pos,
            match r {
                Ok(e) => sp_string(old(self).input@, old(self).pos as int) matches Ok((v, p))
                    && e.view() == v && final(self).pos == p,
                Err(x) => sp_string(old(self).input@, old(self).pos as int) matches Err(ff)
                    && fail_matches(x, ff, old(self).input@),
            },
    {
        let ghost s = self.input@;
        let ghost p0 = self.pos as int;
        proof {
            reveal_strlit("\"");
        }
        if !self.consume_str("\"") {
            return Err(self.fail(self.pos, owned("expected '\"'")));
        }
        let mut value = String::new();
        loop
            invariant
                self.input@ == s,
                s == old(self).input@,
                p0 == old(self).pos,
                self.wf(),
                p0 < self.pos,
                sp_string(s, p0) == sp_string_body(s, value@, self.pos as int),
            decreases s.len() - self.pos,
        {
            if self.pos >= self.input.len() {
                return Err(self.fail(self.pos, owned("unterminated string literal")));
            }
            let c = self.input[self.pos];
            if c == '"' {
                self.pos = self.pos + 1;
                return Ok(Expr::Lit(DslValue::Str(value)));
            }
            if c == '\\' {
                self.pos = self.pos + 1;
                if self.pos >= self.input.len() {
                    return Err(self.fail(self.pos, owned("unterminated escape")));
                }
                let e = self.input[self.pos];
                if e == '"' || e == '\\' {
                    push_char(&mut value, e);
                } else if e == 'n' {
                    push_char(&mut value, '\n');
                } else {
                    let mut m = owned("invalid escape sequence '\\");
                    push_char(&mut m, e);
                    push_str(&mut m, "'");
                    return Err(self.fail(self.pos, m));
                }
                self.pos = self.pos + 1;
            } else {
                push_char(&mut value, c);
                self.pos = self.pos + 1;
            }
        }
    }

    fn parse_int_literal(&mut self) -> (r: Result<Expr, ParseError>)
        requires
            old(self).wf(),
        ensures
            final(self).input@ == old(self).input@,
            final(self).wf(),
            old(self).pos <= final(self).pos,
            match r {
                Ok(e) => sp_int(old(self).input@, old(self).pos as int) matches Ok((v, p))
                    && e.view() == v && final(self).pos == p,
                Err(x) => sp_int(old(self).input@, old(self).pos as int) matches Err(ff)
                    && fail_matches(x, ff, old(self).input@),
            },
    {
        let ghost s = self.input@;
        let start = self.pos;
        if self.pos < self.input.len() && self.input[self.pos] == '-' {
            self.pos = self.pos + 1;
        }
        let digits_start = self.pos;
        while self.pos < self.input.len() && ascii_digit(self.input[self.pos])
            invariant
                self.input@ == s,
                s == old(self).input@,
                self.wf(),
                digits_start <= self.pos,
                digits_end(s, self.pos as int) == digits_end(s, digits_start as int),
                forall|k: int| digits_start <= k < self.pos ==> is_digit(#[trigger] s[k]),
            decreases self.input@.len() - self.pos,
        {
            self.pos = self.pos + 1;
        }
        if self.pos == digits_start {
            return Err(self.fail(start, owned("expected integer digits")));
        }
        match parse_i64_at(&self.input, start, digits_start, self.pos) {
            Some(n) => Ok(Expr::Lit(DslValue::Int(n))),
            None => {
                let mut m = owned("invalid integer '");
                push_chars(&mut m, &self.input, start, self.pos);
                push_str(&mut m, "'");
                Err(self.fail(start, m))
            },
        }
    }

    fn parse_array_literal(&mut self, Ghost(f): Ghost<nat>) -> (r: Result<Expr, Option<ParseError>>)
        requires
            old(self).wf(),
            f >= need(old(self).input@, old(self).pos as int, 5),
        ensures
            final(self).input@ == old(self).input@,
            final(self).wf(),
            old(self).pos <= final(self).pos,
            match r {
                Ok(e) => sp_array(old(self).input@, old(self).pos as int, f) matches Ok((v, p))
                    && e.view() == v && final(self).pos == p,
                Err(Some(x)) => sp_array(old(self).input@, old(self).pos as int, f) matches Err(ff)
                    && fail_matches(x, ff, old(self).input@),
                Err(None) => sp_array(old(self).input@, old(self).pos as int, f) matches Err(SFail::Abort),
            },
        decreases f, 2int,
    {
        let ghost s = self.input@;
        let ghost p0 = self.pos as int;
        let start = self.pos;
        proof {
            reveal_strlit("[");
            reveal_strlit("]");
            reveal_strlit(",");
        }
        if !self.consume_str("[") {
            return Err(self.fail_some(start, owned("expected '['")));
        }
        let mut elements: Vec<DslValue> = Vec::new();
        self.skip_whitespace();
        if self.consume_str("]") {
            let e = Expr::Lit(DslValue::Array(elements));
            proof {
                let ghost ev = e.view();
                assert(ev matches SExpr::Lit(SValue::Array(xs)) && xs =~= seq![]);
            }
            return Ok(e);
        }
        let ghost mut g: nat = (f - 1) as nat;
        assert(view_values(elements@) =~= seq![]);
        loop
            invariant
                self.input@ == s,
                s == old(self).input@,
                p0 == old(self).pos,
                self.wf(),
                p0 <= self.pos,
                g < f,
                g >= need(s, self.pos as int, 7),
                sp_array(s, p0, f) == sp_array_loop(s, view_values(elements@), self.pos as int, g),
            decreases g,
        {
            proof {
                reveal_strlit("]");
                reveal_strlit(",");
            }
            self.skip_whitespace();
            let elem_start = self.pos;
            let elem = match self.parse_primary(Ghost((g - 1) as nat)) {
                Ok(e) => e,
                Err(x) => return Err(x),
            };
            let ghost before = elements@;
            match elem {
                Expr::Lit(v) => {
                    elements.push(v);
                },
                _ => {
                    return Err(
                        self.fail_some(
                            elem_start,
                            owned("array elements must be literal values in v0.1.x"),
                        ),
                    );
                },
            }
            assert(view_values(elements@) =~= view_values(before).push(elements@.last().view()));
            self.skip_whitespace();
            if self.consume_str(",") {
                proof {
                    g = (g - 1) as nat;
                }
                continue ;
            }
            if self.consume_str("]") {
                let e = Expr::Lit(DslValue::Array(elements));
                proof {
                    let ghost ev = e.view();
                    assert(ev matches SExpr::Lit(SValue::Array(xs)) && xs =~= view_values(
                        elements@,
                    ));
                }
                return Ok(e);
            }
            return Err(self.fail_some(self.pos, owned("expected ',' or ']' in array")));
        }
    }
}

/// Walk `n` bytes of characters of `s` from `p` (see [`walk`]).
fn walk_bytes(s: &Vec<char>, p: usize, n: usize) -> (w: u8)
    requires
        p <= s@.len(),
    ensures
        w as int == walk(s@, p as int, n as int),
        w <= 2,
{
    let mut i = p;
    let mut rem = n;
    while rem > 0
        invariant
            p <= i <= s@.len(),
            walk(s@, i as int, rem as int) == walk(s@, p as int, n as int),
        decreases rem,
    {
        if i >= s.len() {
            return 2;
        }
        let w = char_len_utf8(s[i]);
        if w > rem {
            return 1;
        }
        rem = rem - w;
        i = i + 1;
    }
    0
}

/// The value `parse_i64` gives a digit string `d`, negated when `negative`.
pub open spec fn i64_of(d: Seq<char>, negative: bool) -> Option<int> {
    if negative {
        if dec_value(d) <= 0x8000_0000_0000_0000 {
            Some(-dec_value(d))
        } else {
            None
        }
    } else {
        if dec_value(d) <= 0x7FFF_FFFF_FFFF_FFFF {
            Some(dec_value(d) as int)
        } else {
            None
        }
    }
}

/// `str::parse::<i64>` of `v[start..end]`, where `v[digits..end]` are ASCII
/// digits and `v[start..digits]` is empty or a single `-`.
fn parse_i64_at(v: &Vec<char>, start: usize, digits: usize, end: usize) -> (r: Option<i64>)
    requires
        start <= digits < end <= v@.len(),
        digits == start || (digits == start + 1 && v@[start as int] == '-'),
        forall|k: int| digits <= k < end ==> is_digit(#[trigger] v@[k]),
    ensures
        r matches Some(n) ==> parse_i64(v@.subrange(start as int, end as int)) == Some(n as int),
        r is None ==> parse_i64(v@.subrange(start as int, end as int)) is None,
{
    let ghost t = v@.subrange(start as int, end as int);
    let ghost d = v@.subrange(digits as int, end as int);
    let negative = digits > start;
    let limit: u64 = if negative {
        0x8000_0000_0000_0000
    } else {
        0x7FFF_FFFF_FFFF_FFFF
    };
    proof {
        if negative {
            assert(t[0] == '-');
            assert(t.drop_first() =~= d);
        } else {
            assert(t =~= d);
            if t.len() > 0 {
                assert(is_digit(t[0]));
            }
        }
        assert(all_digits(d));
    }
    proof {
        assert(parse_i64(t) == i64_of(d, negative));
    }
    let mut acc: u64 = 0;
    let mut i = digits;
    while i < end
        invariant
            start <= digits <= i <= end <= v@.len(),
            t == v@.subrange(start as int, end as int),
            parse_i64(t) == i64_of(d, negative),
            limit == (if negative { 0x8000_0000_0000_0000u64 } else { 0x7FFF_FFFF_FFFF_FFFFu64 }),
            d == v@.subrange(digits as int, end as int),
            all_digits(d),
            acc == dec_value(d.take(i - digits)),
            acc <= limit,
            limit == 0x8000_0000_0000_0000 || limit == 0x7FFF_FFFF_FFFF_FFFF,
        decreases end - i,
    {
        let c = v[i];
        assert(c == d[i - digits]);
        assert(is_digit(d[i - digits]));
        let dv: u64 = ((c as u32) - 48) as u64;
        proof {
            let k = i - digits;
            assert(d.take(k + 1).drop_last() =~= d.take(k));
            assert(d.take(k + 1).last() == c);
            assert(dec_value(d.take(k + 1)) == acc * 10 + dv);
        }
        if acc > (limit - dv) / 10 {
            proof {
                let k = i - digits;
                assert(acc * 10 + dv > limit) by (nonlinear_arith)
                    requires
                        acc > (limit - dv) / 10,
                        dv <= 9,
                        limit >= 9,
                ;
                crate::text::lemma_dec_value_prefix_mono(d, k + 1);
            }
            return None;
        }
        proof {
            assert(acc * 10 + dv <= limit) by (nonlinear_arith)
                requires
                    acc <= (limit - dv) / 10,
                    dv <= 9,
                    limit >= 9,
            ;
        }
        acc = acc * 10 + dv;
        i = i + 1;
    }
    proof {
        assert(d.take(d.len() as int) =~= d);
    }
    if negative {
        if acc == 0x8000_0000_0000_0000 {
            Some(i64::MIN)
        } else {
            Some(-(acc as i64))
        }
    } else {
        Some(acc as i64)
    }
}


/// A parse step that cannot abort, read as one that could.
fn lift(r: Result<Expr, ParseError>) -> (o: Result<Expr, Option<ParseError>>)
    ensures
        match r {
            Ok(e) => o == Ok::<Expr, Option<ParseError>>(e),
            Err(x) => o == Err::<Expr, Option<ParseError>>(Some(x)),
        },
{
    match r {
        Ok(e) => Ok(e),
        Err(x) => Err(Some(x)),
    }
}

} // verus!
