//! The engine's load-time error: a governance or configuration file that
//! cannot be used as written.
use vstd::prelude::*;

verus! {

/// A configuration error, carrying its engine-authored message.
#[derive(Debug, Clone, PartialEq, Eq)]
pub enum Error {
    Config(String),
}

} // verus!
