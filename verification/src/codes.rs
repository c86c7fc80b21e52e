//! Reserved error-code allocation table: every code the engine emits falls in
//! one of the reserved ranges checked by [`is_reserved_mdatron_code`].
use vstd::prelude::*;

use crate::text::{chars_of, matches_at, occurs_at, parse_u32, parse_u32_at};

verus! {

/// Whether `letter`/`n` fall in a reserved range: `E0001`–`E0109`,
/// `W0040`–`W0099`, `L0001`–`L0099`.
pub open spec fn in_reserved_range(letter: char, n: u32) -> bool {
    ||| letter == 'E' && 1 <= n <= 109
    ||| letter == 'W' && 40 <= n <= 99
    ||| letter == 'L' && 1 <= n <= 99
}

/// `code` is `MDATRON-` followed by a range letter and a `u32` number (as
/// `str::parse` reads it) inside that letter's reserved range.
pub open spec fn reserved_code(code: Seq<char>) -> bool {
    let p = "MDATRON-"@;
    &&& occurs_at(code, 0, p)
    &&& code.len() > p.len()
    &&& match parse_u32(code.skip(p.len() as int + 1)) {
        Some(n) => in_reserved_range(code[p.len() as int], n),
        None => false,
    }
}

/// Returns true if `code` is a syntactically valid mdatron-reserved code.
pub fn is_reserved_mdatron_code(code: &str) -> (b: bool)
    ensures
        b == reserved_code(code@),
{
    let v = chars_of(code);
    let p = chars_of("MDATRON-");
    if !matches_at(&v, 0, &p) {
        return false;
    }
    let plen = p.len();
    if v.len() <= plen {
        return false;
    }
    let letter = v[plen];
    let n = match parse_u32_at(&v, plen + 1, v.len()) {
        Some(n) => n,
        None => {
            assert(v@.subrange(plen + 1, v@.len() as int) =~= v@.skip(plen + 1));
            return false;
        },
    };
    assert(v@.subrange(plen + 1, v@.len() as int) =~= v@.skip(plen + 1));
    if letter == 'E' {
        1 <= n && n <= 109
    } else if letter == 'W' {
        40 <= n && n <= 99
    } else if letter == 'L' {
        1 <= n && n <= 99
    } else {
        false
    }
}

} // verus!
