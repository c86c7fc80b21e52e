//! The one immutable snapshot: each input is read once into this structure
//! and every check runs against these bytes. Capture is idempotent per path,
//! every capture is bounded per file and in aggregate, and after the seal no
//! new capture is accepted.
//!
//! Reading is the program's job: it opens the confined path through no-follow
//! handles, reads at most one byte past the per-file limit, and hands the
//! outcome to [`Snapshot::capture`], which decides what is stored.
use vstd::prelude::*;
use vstd::utf8::{encode_utf8, valid_utf8};

use crate::confine::ConfinedPath;
use crate::diagnostic::{escape_path_text, escape_text};
use crate::text::{decimal, owned, push_decimal, push_str};

verus! {

/// The run's failure, as the capture step raises it.
#[derive(Debug, Clone, PartialEq, Eq)]
pub enum VerifyError {
    /// An input could not be read during verification.
    Io { path: String, error: String },
    /// A declared resource bound was exceeded.
    BoundExceeded { bound: String, detail: String },
}

/// Successfully captured bytes, classified once at capture.
#[derive(Debug)]
pub enum Content {
    /// Valid UTF-8: the shape every text consumer requires.
    Utf8(String),
    /// A valid capture that is not UTF-8; byte consumers use it.
    Raw(Vec<u8>),
}

/// The bytes a content holds.
pub open spec fn content_bytes(c: Content) -> Seq<u8> {
    match c {
        Content::Utf8(s) => encode_utf8(s@),
        Content::Raw(b) => b@,
    }
}

impl Content {
    pub fn bytes(&self) -> (b: &[u8])
        ensures
            b@ == content_bytes(*self),
    {
        match self {
            Content::Utf8(s) => s.as_str().as_bytes(),
            Content::Raw(b) => b.as_slice(),
        }
    }

    pub fn text(&self) -> (t: Option<&str>)
        ensures
            match self {
                Content::Utf8(s) => t matches Some(x) && x@ == s@,
                Content::Raw(_) => t is None,
            },
    {
        match self {
            Content::Utf8(s) => Some(s.as_str()),
            Content::Raw(_) => None,
        }
    }
}

/// The capture-time state of one input path.
#[derive(Debug)]
pub enum Captured {
    Content(Content),
    /// The file exceeded the per-file byte budget: recorded, its bytes
    /// dropped and not counted in the aggregate.
    TooLarge { limit: usize },
    /// The confined open succeeded but the content is not verifiable (a read
    /// failure past the open, or not a regular file).
    OpenedUnreadable { error: String },
    /// No-follow resolution refused a symlinked component.
    SymlinkRefused { component: String, tag: Option<u32> },
    /// The confined open itself failed: absent target or I/O refusal.
    OpenIo { error: String },
}

/// What opening and reading one confined path produced.
#[derive(Debug)]
pub enum ReadOutcome {
    /// The bytes read: the whole file, or one byte more than the limit.
    Read(Vec<u8>),
    /// The open succeeded and the read failed.
    ReadFailed(String),
    /// A component was a symlink or reparse point.
    Symlink { component: String, tag: Option<u32> },
    /// The leaf is not a regular file.
    NotRegular,
    /// The open failed.
    OpenFailed(String),
}

/// The number of bytes a state stores (and counts in the aggregate).
pub open spec fn stored_bytes(c: Captured) -> nat {
    match c {
        Captured::Content(k) => content_bytes(k).len(),
        _ => 0,
    }
}

/// Whether `c` is the state a capture of `outcome` records under a per-file
/// limit of `max`: an oversized read becomes `TooLarge`; a read within the
/// limit becomes its content, text exactly when it is valid UTF-8; the
/// refusals map one to one.
pub open spec fn captured_from(c: Captured, outcome: ReadOutcome, max: usize) -> bool {
    match outcome {
        ReadOutcome::Read(b) => if b@.len() > max {
            c == Captured::TooLarge { limit: max }
        } else {
            c matches Captured::Content(k) && content_bytes(k) == b@ && (k is Utf8 <==> valid_utf8(
                b@,
            ))
        },
        ReadOutcome::ReadFailed(e) => c matches Captured::OpenedUnreadable { error } && error@
            == e@,
        ReadOutcome::Symlink { component, tag } => c matches Captured::SymlinkRefused {
            component: p,
            tag: t,
        } && p@ == component@ && t == tag,
        ReadOutcome::NotRegular => c matches Captured::OpenedUnreadable { error } && error@
            == "not a regular file"@,
        ReadOutcome::OpenFailed(e) => c matches Captured::OpenIo { error } && error@ == e@,
    }
}

/// The bytes a capture of `outcome` would store under the per-file limit.
pub open spec fn outcome_bytes(outcome: ReadOutcome, max: usize) -> nat {
    match outcome {
        ReadOutcome::Read(b) => if b@.len() > max {
            0
        } else {
            b@.len()
        },
        _ => 0,
    }
}

/// Calls `String::from_utf8`: text exactly when the bytes are valid UTF-8,
/// holding those same bytes; otherwise the bytes back unchanged.
#[verifier::external_body]
pub(crate) fn decode_utf8(bytes: Vec<u8>) -> (r: Result<String, Vec<u8>>)
    ensures
        match r {
            Ok(s) => valid_utf8(bytes@) && encode_utf8(s@) == bytes@,
            Err(b) => !valid_utf8(bytes@) && b@ == bytes@,
        },
{
    match String::from_utf8(bytes) {
        Ok(s) => Ok(s),
        Err(e) => Err(e.into_bytes()),
    }
}

/// The immutable snapshot: capture-once storage plus the capture budget.
#[derive(Debug)]
pub struct Snapshot {
    files: Vec<(String, Captured)>,
    aggregate: usize,
    max_file_bytes: usize,
    max_aggregate_bytes: usize,
    sealed: bool,
}

/// The paths of the stored entries.
pub open spec fn entry_keys(es: Seq<(String, Captured)>) -> Seq<Seq<char>> {
    es.map_values(|e: (String, Captured)| e.0@)
}

/// The stored entries as a map from path to state.
pub open spec fn entries_map(es: Seq<(String, Captured)>) -> Map<Seq<char>, Captured>
    decreases es.len(),
{
    if es.len() == 0 {
        Map::empty()
    } else {
        entries_map(es.drop_last()).insert(es.last().0@, es.last().1)
    }
}

/// The bytes stored across the entries.
pub open spec fn entries_bytes(es: Seq<(String, Captured)>) -> nat
    decreases es.len(),
{
    if es.len() == 0 {
        0
    } else {
        entries_bytes(es.drop_last()) + stored_bytes(es.last().1)
    }
}

proof fn lemma_entries_map_has(es: Seq<(String, Captured)>, k: Seq<char>)
    ensures
        entries_map(es).contains_key(k) <==> entry_keys(es).contains(k),
    decreases es.len(),
{
    if es.len() > 0 {
        lemma_entries_map_has(es.drop_last(), k);
        assert(entry_keys(es.drop_last()) =~= entry_keys(es).drop_last());
        if entry_keys(es).contains(k) && es.last().0@ != k {
            let i = choose|i: int| 0 <= i < entry_keys(es).len() && entry_keys(es)[i] == k;
            assert(entry_keys(es.drop_last())[i] == k);
        }
        if entry_keys(es.drop_last()).contains(k) {
            let i = choose|i: int|
                0 <= i < entry_keys(es.drop_last()).len() && entry_keys(es.drop_last())[i] == k;
            assert(entry_keys(es)[i] == k);
        }
        if es.last().0@ == k {
            assert(entry_keys(es)[es.len() - 1] == k);
        }
    }
}

proof fn lemma_entries_map_at(es: Seq<(String, Captured)>, i: int)
    requires
        0 <= i < es.len(),
        entry_keys(es).no_duplicates(),
    ensures
        entries_map(es).contains_key(es[i].0@),
        entries_map(es)[es[i].0@] == es[i].1,
    decreases es.len(),
{
    if i < es.len() - 1 {
        assert(entry_keys(es.drop_last()) =~= entry_keys(es).drop_last());
        lemma_entries_map_at(es.drop_last(), i);
        assert(es.drop_last()[i] == es[i]);
        assert(entry_keys(es)[i] != entry_keys(es)[es.len() - 1]);
    }
}

impl Snapshot {
    /// The captured states by path.
    pub closed spec fn view(&self) -> Map<Seq<char>, Captured> {
        entries_map(self.files@)
    }

    /// The bytes counted against the aggregate budget.
    pub closed spec fn aggregate(&self) -> nat {
        self.aggregate as nat
    }

    pub closed spec fn max_file(&self) -> usize {
        self.max_file_bytes
    }

    pub closed spec fn max_aggregate(&self) -> usize {
        self.max_aggregate_bytes
    }

    pub closed spec fn is_sealed(&self) -> bool {
        self.sealed
    }

    /// Well-formedness: one entry per path, and the aggregate counts exactly
    /// the stored bytes and stays within its budget.
    pub closed spec fn wf(&self) -> bool {
        &&& entry_keys(self.files@).no_duplicates()
        &&& self.aggregate == entries_bytes(self.files@)
        &&& self.aggregate <= self.max_aggregate_bytes
    }

    /// A well-formed snapshot's aggregate never exceeds its budget.
    pub proof fn lemma_aggregate_within_budget(&self)
        requires
            self.wf(),
        ensures
            self.aggregate() <= self.max_aggregate(),
    {
    }

    pub fn new(max_file_bytes: usize, max_aggregate_bytes: usize) -> (s: Self)
        ensures
            s.wf(),
            s@ == Map::<Seq<char>, Captured>::empty(),
            s.aggregate() == 0,
            s.max_file() == max_file_bytes,
            s.max_aggregate() == max_aggregate_bytes,
            !s.is_sealed(),
    {
        let s = Snapshot {
            files: Vec::new(),
            aggregate: 0,
            max_file_bytes,
            max_aggregate_bytes,
            sealed: false,
        };
        proof {
            assert(entry_keys(s.files@) =~= Seq::<Seq<char>>::empty());
        }
        s
    }

    /// Seal the snapshot at the capture-complete seam: any later capture of a
    /// new path fails.
    pub fn seal(&mut self)
        requires
            old(self).wf(),
        ensures
            final(self).wf(),
            final(self).is_sealed(),
            final(self)@ == old(self)@,
            final(self).aggregate() == old(self).aggregate(),
            final(self).max_file() == old(self).max_file(),
            final(self).max_aggregate() == old(self).max_aggregate(),
    {
        self.sealed = true;
    }

    fn position(&self, rel: &str) -> (r: Option<usize>)
        ensures
            match r {
                Some(i) => i < self.files@.len() && self.files@[i as int].0@ == rel@,
                None => !entry_keys(self.files@).contains(rel@),
            },
    {
        let key = owned(rel);
        let mut i: usize = 0;
        while i < self.files.len()
            invariant
                key@ == rel@,
                i <= self.files@.len(),
                forall|k: int| 0 <= k < i ==> self.files@[k].0@ != rel@,
            decreases self.files.len() - i,
        {
            if self.files[i].0 == key {
                return Some(i);
            }
            i = i + 1;
        }
        proof {
            if entry_keys(self.files@).contains(rel@) {
                let k = choose|k: int|
                    0 <= k < entry_keys(self.files@).len() && entry_keys(self.files@)[k] == rel@;
                assert(self.files@[k].0@ == rel@);
            }
        }
        None
    }

    /// Record the state of `rel` from what reading it produced, unless it is
    /// already captured; return its state.
    ///
    /// A sealed snapshot refuses with an engine-defect `Io` error. A path
    /// already captured returns its stored state and changes nothing (the
    /// outcome is not consulted: read-once). Otherwise the outcome is
    /// classified; content within the per-file limit that would overrun the
    /// aggregate budget is refused with `BoundExceeded`, storing nothing.
    pub fn capture(&mut self, rel: &ConfinedPath, outcome: ReadOutcome) -> (r: Result<
        &Captured,
        VerifyError,
    >)
        requires
            old(self).wf(),
        ensures
            final(self).wf(),
            old(self).aggregate() <= old(self).max_aggregate(),
            final(self).aggregate() <= final(self).max_aggregate(),
            final(self).is_sealed() == old(self).is_sealed(),
            final(self).max_file() == old(self).max_file(),
            final(self).max_aggregate() == old(self).max_aggregate(),
            old(self).is_sealed() ==> (r matches Err(VerifyError::Io { path, error }) && path@
                == escape_text(rel@) && error@
                == "capture after the seam sealed the snapshot (engine defect)"@ && final(self)@
                == old(self)@ && final(self).aggregate() == old(self).aggregate()),
            !old(self).is_sealed() && old(self)@.contains_key(rel@) ==> (r matches Ok(c) && *c
                == old(self)@[rel@] && final(self)@ == old(self)@ && final(self).aggregate()
                == old(self).aggregate()),
            !old(self).is_sealed() && !old(self)@.contains_key(rel@) && old(self).aggregate()
                + outcome_bytes(outcome, old(self).max_file()) > old(self).max_aggregate() ==> (
            r matches Err(VerifyError::BoundExceeded { bound, detail }) && bound@
                == "aggregate-snapshot-size"@ && detail@ == "the captured inputs exceed the "@
                + decimal(old(self).max_aggregate() as nat) + "-byte aggregate limit"@
                && final(self)@ == old(self)@ && final(self).aggregate() == old(self).aggregate()),
            !old(self).is_sealed() && !old(self)@.contains_key(rel@) && old(self).aggregate()
                + outcome_bytes(outcome, old(self).max_file()) <= old(self).max_aggregate() ==> (
            r matches Ok(c) && captured_from(*c, outcome, old(self).max_file()) && final(self)@
                == old(self)@.insert(rel@, *c) && final(self).aggregate() == old(self).aggregate()
                + outcome_bytes(outcome, old(self).max_file())),
    {
        proof {
            lemma_entries_map_has(self.files@, rel@);
        }
        if self.sealed {
            return Err(
                VerifyError::Io {
                    path: escape_path_text(rel.as_path()),
                    error: owned("capture after the seam sealed the snapshot (engine defect)"),
                },
            );
        }
        match self.position(rel.as_path()) {
            Some(i) => {
                proof {
                    lemma_entries_map_at(self.files@, i as int);
                }
                return Ok(&self.files[i].1);
            },
            None => {},
        }
        let max_file_bytes = self.max_file_bytes;
        let state = match outcome {
            ReadOutcome::Read(bytes) => {
                if bytes.len() > max_file_bytes {
                    Captured::TooLarge { limit: max_file_bytes }
                } else {
                    if bytes.len() > self.max_aggregate_bytes - self.aggregate {
                        let mut detail = owned("the captured inputs exceed the ");
                        push_decimal(&mut detail, self.max_aggregate_bytes as u64);
                        push_str(&mut detail, "-byte aggregate limit");
                        return Err(
                            VerifyError::BoundExceeded {
                                bound: owned("aggregate-snapshot-size"),
                                detail,
                            },
                        );
                    }
                    self.aggregate = self.aggregate + bytes.len();
                    match decode_utf8(bytes) {
                        Ok(s) => Captured::Content(Content::Utf8(s)),
                        Err(b) => Captured::Content(Content::Raw(b)),
                    }
                }
            },
            ReadOutcome::ReadFailed(e) => Captured::OpenedUnreadable { error: e },
            ReadOutcome::Symlink { component, tag } => Captured::SymlinkRefused { component, tag },
            ReadOutcome::NotRegular => Captured::OpenedUnreadable {
                error: owned("not a regular file"),
            },
            ReadOutcome::OpenFailed(e) => Captured::OpenIo { error: e },
        };
        let key = owned(rel.as_path());
        let ghost before = self.files@;
        self.files.push((key, state));
        let n = self.files.len() - 1;
        proof {
            assert(self.files@.drop_last() =~= before);
            assert(entry_keys(self.files@) =~= entry_keys(before).push(rel@));
            assert(entries_map(self.files@) == entries_map(before).insert(rel@, self.files@[n as int].1));
        }
        Ok(&self.files[n].1)
    }

    /// The whole-run bound error a config-scoped consumer raises on a
    /// `TooLarge` state, with the adopter path escaped.
    pub fn too_large_error(rel: &str, limit: usize) -> (e: VerifyError)
        ensures
            e matches VerifyError::BoundExceeded { bound, detail } && bound@
                == "max-input-size-per-file"@ && detail@ == "'"@ + escape_text(rel@)
                + "' exceeds the "@ + decimal(limit as nat) + "-byte per-file limit"@,
    {
        let mut detail = owned("'");
        let shown = escape_path_text(rel);
        push_str(&mut detail, shown.as_str());
        push_str(&mut detail, "' exceeds the ");
        push_decimal(&mut detail, limit as u64);
        push_str(&mut detail, "-byte per-file limit");
        VerifyError::BoundExceeded { bound: owned("max-input-size-per-file"), detail }
    }

    /// The captured state of `rel`, if it was captured.
    pub fn get(&self, rel: &str) -> (r: Option<&Captured>)
        requires
            self.wf(),
        ensures
            match r {
                Some(c) => self@.contains_key(rel@) && *c == self@[rel@],
                None => !self@.contains_key(rel@),
            },
    {
        proof {
            lemma_entries_map_has(self.files@, rel@);
        }
        match self.position(rel) {
            Some(i) => {
                proof {
                    lemma_entries_map_at(self.files@, i as int);
                }
                Some(&self.files[i].1)
            },
            None => None,
        }
    }

    /// The UTF-8 text of a captured file, when its state is text content.
    pub fn text(&self, rel: &str) -> (r: Option<&str>)
        requires
            self.wf(),
        ensures
            match r {
                Some(t) => self@.contains_key(rel@) && (self@[rel@] matches Captured::Content(
                    Content::Utf8(s),
                ) && t@ == s@),
                None => !(self@.contains_key(rel@) && self@[rel@] matches Captured::Content(
                    Content::Utf8(_),
                )),
            },
    {
        match self.get(rel) {
            Some(Captured::Content(c)) => c.text(),
            _ => None,
        }
    }
}

} // verus!
