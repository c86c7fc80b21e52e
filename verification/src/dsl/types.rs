//! AST types for parsed pattern files.
use vstd::prelude::*;

use crate::text::chars_of;

verus! {

/// Top-level pattern file: an optional `mdatron_dsl_version` declaration plus a
/// `pattern` block.
#[derive(Debug, Clone, PartialEq, Eq)]
pub struct PatternFile {
    pub mdatron_dsl_version: Option<u32>,
    pub pattern: Pattern,
}

/// A named group of rules sharing a `keys:` declaration.
#[derive(Debug, Clone, PartialEq, Eq)]
pub struct Pattern {
    pub id: String,
    pub description: Option<String>,
    /// Deprecated and inert: parsed for DSL-v1 compatibility, never read.
    pub phases: Vec<String>,
    pub keys: Vec<KeyDecl>,
    pub rules: Vec<Rule>,
}

/// A cross-file index declaration, queryable from any rule in the pattern via
/// `key("<name>", <value>)` expressions.
#[derive(Debug, Clone, PartialEq, Eq)]
pub struct KeyDecl {
    pub name: String,
    /// File path or glob pattern from which entries are extracted.
    pub source: String,
    /// JSONPath into each source file's parsed structure that yields the entries.
    pub select: String,
    /// JSONPath into each entry that yields the index key.
    pub indexed_by: String,
}

/// A single declarative rule.
#[derive(Debug, Clone, PartialEq, Eq)]
pub struct Rule {
    pub id: String,
    pub context: ContextSelector,
    /// Local bindings evaluated before the assertion, in declaration order.
    pub let_bindings: Vec<(String, String)>,
    /// Assertion expression; the rule fires when it evaluates to false.
    pub assert: String,
    pub code: String,
    /// Message template with `{{...}}` interpolation slots.
    pub message: String,
    /// Deprecated and inert: parsed for DSL-v1 compatibility, never consumed.
    pub location: Option<LocationSpec>,
}

/// What artifacts a rule applies to: a bare string (a schema_class slug or a
/// path glob) or a `{ schema_class, path }` object.
#[derive(Debug, Clone, PartialEq, Eq)]
pub enum ContextSelector {
    Bare(String),
    Combined { schema_class: Option<String>, path: Option<String> },
}

/// Whether `s` contains a glob metacharacter or a path separator.
pub open spec fn has_glob_char(s: Seq<char>) -> bool {
    exists|i: int| 0 <= i < s.len() && (s[i] == '*' || s[i] == '?' || s[i] == '/')
}

fn contains_glob_char(s: &String) -> (b: bool)
    ensures
        b == has_glob_char(s@),
{
    let v = chars_of(s.as_str());
    let mut i: usize = 0;
    while i < v.len()
        invariant
            v@ == s@,
            i <= v@.len(),
            forall|k: int| 0 <= k < i ==> !(v@[k] == '*' || v@[k] == '?' || v@[k] == '/'),
        decreases v.len() - i,
    {
        let c = v[i];
        if c == '*' || c == '?' || c == '/' {
            return true;
        }
        i = i + 1;
    }
    false
}

impl ContextSelector {
    /// Whether this selector is a path glob: a bare string, or the `path` of
    /// the object form, containing `*`, `?`, or `/`.
    pub open spec fn spec_is_path_glob(&self) -> bool {
        match self {
            ContextSelector::Bare(s) => has_glob_char(s@),
            ContextSelector::Combined { path: Some(p), .. } => has_glob_char(p@),
            _ => false,
        }
    }

    /// Returns true if this selector is a path glob (contains `*`, `?`, or `/`).
    pub fn is_path_glob(&self) -> (b: bool)
        ensures
            b == self.spec_is_path_glob(),
    {
        match self {
            ContextSelector::Bare(s) => contains_glob_char(s),
            ContextSelector::Combined { path: Some(p), .. } => contains_glob_char(p),
            _ => false,
        }
    }
}

/// Override for the source-span location attached to a finding (deprecated).
#[derive(Debug, Clone, PartialEq, Eq)]
pub struct LocationSpec {
    pub field: Option<String>,
    pub expression: Option<String>,
}

} // verus!
