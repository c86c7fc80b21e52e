//! The run-level memo of cross-file reference-target parsing.
//!
//! One [`RefMemo`] belongs to one run: a marker rule's target document is
//! resolved once per run per [`MarkerKey`] (key presence doubles as the mark
//! that the rule-level findings were already reported), and a link target's
//! heading-slug set is computed once per run rather than once per referring
//! file. Everything it caches derives from the run's immutable snapshot.
use std::collections::{HashMap, HashSet};

use vstd::prelude::*;

use crate::route::{ElementClass, MarkerRule};
use crate::text::owned;

verus! {

/// The resolution identity of a marker rule: two rules with the same key
/// resolve the same member set (the pattern plays no part in resolution), so
/// they share one memo entry.
#[derive(Debug, Clone, PartialEq, Eq, Hash)]
pub struct MarkerKey {
    pub target_doc: String,
    pub target_section: Option<String>,
    pub element: ElementClass,
}

impl MarkerKey {
    /// The memo key of one marker rule.
    pub fn of(rule: &MarkerRule) -> (k: Self)
        ensures
            k.target_doc@ == rule.target_doc@,
            k.element == rule.element,
            match (k.target_section, rule.target_section) {
                (Some(a), Some(b)) => a@ == b@,
                (None, None) => true,
                _ => false,
            },
    {
        MarkerKey {
            target_doc: owned(rule.target_doc.as_str()),
            target_section: match &rule.target_section {
                Some(s) => Some(owned(s.as_str())),
                None => None,
            },
            element: rule.element,
        }
    }
}

/// The resolution outcome of one marker rule key.
#[derive(Debug)]
pub enum MarkerMembers {
    /// The target parsed; references resolve against this set.
    Resolved(HashSet<String>),
    /// The rule is disabled (its target failed confinement, its section
    /// heading is absent, or the target was never captured): a rule-level
    /// finding was emitted and the rule's lines are skipped.
    Disabled,
    /// The target is present but unverifiable (not UTF-8, or opened but
    /// unreadable): each matching line reports `W0048`, never a false `E0112`.
    Unverifiable,
}

/// The per-run reference-target memo, created before the per-file walk.
#[derive(Debug, Default)]
pub struct RefMemo {
    /// Marker member states by rule key; a present key means the rule-level
    /// findings were already reported this run.
    pub marker_members: HashMap<MarkerKey, MarkerMembers>,
    /// Link anchor slug sets by root-relative target path; `None` when the
    /// target exists but is not anchor-checkable.
    pub link_slugs: HashMap<String, Option<HashSet<String>>>,
}

} // verus!
