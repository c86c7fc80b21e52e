//! Input-format versioning: each adopter input file may declare
//! `mdatron_format_version`, a version on the input contract, so an
//! unknown-future-format file is a legible break ("declares format v2, engine
//! supports v1") instead of an opaque parse error. Files born versioned
//! require the field; the others take it optional, absent meaning v1.
use vstd::prelude::*;

use crate::error::Error;
use crate::text::{decimal, owned, push_decimal, push_str};

verus! {

/// The highest input-format version this engine understands.
pub const SUPPORTED_INPUT_FORMAT_VERSION: u32 = 1;

/// The verdict on a declared version: `None` when it is acceptable, else the
/// refusal message.
pub open spec fn version_refusal(file: Seq<char>, declared: Option<u32>, required: bool) -> Option<Seq<char>> {
    match declared {
        None => if required {
            Some(
                "'"@ + file + "' must declare `mdatron_format_version: 1` (this file format is versioned)"@,
            )
        } else {
            None
        },
        Some(v) => if v == 0 {
            Some("'"@ + file + "' declares mdatron_format_version 0; input-format versions start at 1"@)
        } else if v > SUPPORTED_INPUT_FORMAT_VERSION {
            Some(
                "'"@ + file + "' declares mdatron_format_version "@ + decimal(v as nat)
                    + ", but this mdatron supports up to 1 \u{2014} upgrade mdatron, or use a file written for v1"@,
            )
        } else {
            None
        },
    }
}

/// Check the version `file` declares (`None`: the field is absent) against
/// the supported range; `required` marks a file format born versioned.
pub fn check_declared_version(file: &str, declared: Option<u32>, required: bool) -> (r: Result<(), Error>)
    ensures
        match version_refusal(file@, declared, required) {
            None => r is Ok,
            Some(m) => r matches Err(Error::Config(x)) && x@ == m,
        },
{
    match declared {
        None => {
            if required {
                let mut m = owned("'");
                push_str(&mut m, file);
                push_str(&mut m, "' must declare `mdatron_format_version: 1` (this file format is versioned)");
                return Err(Error::Config(m));
            }
            Ok(())
        },
        Some(v) => {
            if v == 0 {
                let mut m = owned("'");
                push_str(&mut m, file);
                push_str(&mut m, "' declares mdatron_format_version 0; input-format versions start at 1");
                return Err(Error::Config(m));
            }
            if v > SUPPORTED_INPUT_FORMAT_VERSION {
                let mut m = owned("'");
                push_str(&mut m, file);
                push_str(&mut m, "' declares mdatron_format_version ");
                push_decimal(&mut m, v as u64);
                push_str(
                    &mut m,
                    ", but this mdatron supports up to 1 \u{2014} upgrade mdatron, or use a file written for v1",
                );
                return Err(Error::Config(m));
            }
            Ok(())
        },
    }
}

} // verus!
