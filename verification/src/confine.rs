//! Path confinement decided on path text, and the classification of refused
//! reparse points.
//!
//! [`confine_lexically`] decides confinement on the path text alone,
//! component-wise, touching no filesystem: a target that does not exist is
//! judged on exactly the same basis as one that does. Opening a confined path
//! through no-follow handles is the program's job; the violations it reports
//! are the types below.
use vstd::prelude::*;

use crate::text::{owned, push_hex, push_str, sep_scan, split_chars, split_on, views};

verus! {

/// A path proven confinement-safe: relative, made only of normal components
/// (no root, no `..`, no `.`), joined by `/`. The sole constructor is
/// [`confine_lexically`].
#[derive(Debug, Clone, PartialEq, Eq)]
pub struct ConfinedPath(String);

impl View for ConfinedPath {
    type V = Seq<char>;

    closed spec fn view(&self) -> Seq<char> {
        self.0@
    }
}

impl ConfinedPath {
    /// The normalized, root-relative path text.
    pub fn as_path(&self) -> (p: &str)
        ensures
            p@ == self@,
    {
        self.0.as_str()
    }
}

/// A confinement violation decidable from the path text alone.
#[derive(Debug, Clone, Copy, PartialEq, Eq, Structural)]
pub enum LexicalViolation {
    /// Absolute path (a root component).
    Absolute,
    /// A `..` component: parent segments are rejected outright, escaping or
    /// not.
    ParentSegment,
}

/// A violation surfaced while opening a lexically-confined path.
#[derive(Debug)]
pub enum OpenViolation {
    /// A component was a symbolic link (or, on Windows, any reparse point);
    /// `tag` is the reparse tag when one could be read.
    Symlink { component: String, tag: Option<u32> },
    /// The leaf exists and opened but is not a regular file.
    NotRegular,
    /// Ordinary IO failure (not found, permission, not-a-directory).
    Io(String),
}

/// No-follow file type of a directory entry: a symbolic link is reported as
/// such whatever its target.
#[derive(Debug, Clone, Copy, PartialEq, Eq, Structural)]
pub enum EntryType {
    Dir,
    File,
    Symlink,
    Other,
}

/// One listed directory entry: its name and its no-follow file type.
#[derive(Debug, Clone)]
pub struct DirEntryInfo {
    pub name: String,
    pub file_type: EntryType,
}

/// A violation surfaced while listing a directory under the governed root.
#[derive(Debug)]
pub enum ListViolation {
    /// A component of the listed path was a symbolic link or reparse point.
    Symlink { component: String, tag: Option<u32> },
    /// The directory (or a component of its path) does not exist.
    NotFound,
    /// Ordinary IO failure (permission, not-a-directory, ...).
    Io(String),
}

/// Whether a path piece is a normal component: not empty, not `.`, not `..`.
pub open spec fn is_normal_piece(p: Seq<char>) -> bool {
    p.len() > 0 && p != seq!['.'] && p != seq!['.', '.']
}

/// The normal components among `ps`, in order.
pub open spec fn normal_pieces(ps: Seq<Seq<char>>) -> Seq<Seq<char>>
    decreases ps.len(),
{
    if ps.len() == 0 {
        seq![]
    } else if is_normal_piece(ps.last()) {
        normal_pieces(ps.drop_last()).push(ps.last())
    } else {
        normal_pieces(ps.drop_last())
    }
}

/// Components joined by `/`.
pub open spec fn join_slash(ps: Seq<Seq<char>>) -> Seq<char>
    decreases ps.len(),
{
    if ps.len() == 0 {
        seq![]
    } else if ps.len() == 1 {
        ps[0]
    } else {
        join_slash(ps.drop_last()) + seq!['/'] + ps.last()
    }
}

/// The confinement decision on path text: a leading `/` is absolute; any
/// `..` component is a parent segment; otherwise the normal components,
/// joined by `/`.
pub open spec fn confinement(s: Seq<char>) -> Result<Seq<char>, LexicalViolation> {
    if s.len() > 0 && s[0] == '/' {
        Err(LexicalViolation::Absolute)
    } else if exists|i: int|
        0 <= i < split_on(s, '/').len() && #[trigger] split_on(s, '/')[i] == seq!['.', '.'] {
        Err(LexicalViolation::ParentSegment)
    } else {
        Ok(join_slash(normal_pieces(split_on(s, '/'))))
    }
}

/// Decide confinement of an adopter-supplied source path on its text alone:
/// relative paths of normal components are accepted (`.` is dropped); a root
/// or a `..` anywhere is refused. Needs no filesystem access.
pub fn confine_lexically(source: &str) -> (r: Result<ConfinedPath, LexicalViolation>)
    ensures
        match r {
            Ok(p) => confinement(source@) == Ok::<Seq<char>, LexicalViolation>(p@),
            Err(v) => confinement(source@) == Err::<Seq<char>, LexicalViolation>(v),
        },
{
    let pieces = split_chars(source, '/');
    let ghost ps = split_on(source@, '/');
    let v = crate::text::chars_of(source);
    if v.len() > 0 && v[0] == '/' {
        return Err(LexicalViolation::Absolute);
    }
    assert(!(source@.len() > 0 && source@[0] == '/'));
    let mut out = String::new();
    let mut count: usize = 0;
    let mut i: usize = 0;
    proof {
        assert(ps.take(0) =~= Seq::<Seq<char>>::empty());
    }
    while i < pieces.len()
        invariant
            views(pieces@) == ps,
            ps == split_on(source@, '/'),
            !(source@.len() > 0 && source@[0] == '/'),
            i <= ps.len(),
            forall|k: int| 0 <= k < i ==> ps[k] != seq!['.', '.'],
            out@ == join_slash(normal_pieces(ps.take(i as int))),
            count == normal_pieces(ps.take(i as int)).len(),
            count <= i,
        decreases pieces.len() - i,
    {
        let p = crate::text::chars_of(pieces[i].as_str());
        proof {
            assert(views(pieces@)[i as int] == pieces@[i as int]@);
            assert(ps.take(i + 1).drop_last() =~= ps.take(i as int));
            assert(ps.take(i + 1).last() == ps[i as int]);
        }
        if p.len() == 2 && p[0] == '.' && p[1] == '.' {
            proof {
                assert(p@ =~= seq!['.', '.']);
                assert(split_on(source@, '/')[i as int] == seq!['.', '.']);
            }
            return Err(LexicalViolation::ParentSegment);
        }
        let normal = p.len() > 0 && !(p.len() == 1 && p[0] == '.');
        proof {
            if p.len() == 1 && p@[0] == '.' {
                assert(p@ =~= seq!['.']);
            }
            if normal {
                assert(p@ != seq!['.']);
                assert(p@ != seq!['.', '.']);
            }
            assert(normal == is_normal_piece(ps[i as int]));
        }
        if normal {
            let ghost prev = normal_pieces(ps.take(i as int));
            if count > 0 {
                crate::text::push_char(&mut out, '/');
            }
            push_str(&mut out, pieces[i].as_str());
            proof {
                let now = prev.push(ps[i as int]);
                assert(now.drop_last() =~= prev);
                if count == 0 {
                    assert(prev.len() == 0);
                    assert(out@ =~= join_slash(now));
                } else {
                    assert(out@ =~= join_slash(now));
                }
            }
            count = count + 1;
        }
        i = i + 1;
    }
    proof {
        assert(ps.take(ps.len() as int) =~= ps);
        assert(!(exists|k: int| 0 <= k < ps.len() && #[trigger] ps[k] == seq!['.', '.']));
    }
    Ok(ConfinedPath(out))
}

/// A component that can stand in a confined path: normal, and free of `/`.
pub open spec fn plain_component(p: Seq<char>) -> bool {
    is_normal_piece(p) && !p.contains('/')
}

proof fn lemma_sep_scan_append_plain(s: Seq<char>, x: Seq<char>, sep: char)
    requires
        !x.contains(sep),
    ensures
        sep_scan(s + x, sep) == (sep_scan(s, sep).0, sep_scan(s, sep).1 + x),
    decreases x.len(),
{
    if x.len() == 0 {
        assert(s + x =~= s);
        assert(sep_scan(s, sep).1 + x =~= sep_scan(s, sep).1);
    } else {
        assert(!x.drop_last().contains(sep)) by {
            if x.drop_last().contains(sep) {
                let k = choose|k: int| 0 <= k < x.drop_last().len() && x.drop_last()[k] == sep;
                assert(x[k] == sep);
            }
        }
        lemma_sep_scan_append_plain(s, x.drop_last(), sep);
        assert((s + x).drop_last() =~= s + x.drop_last());
        assert((s + x).last() == x.last());
        assert(x.last() != sep) by {
            if x.last() == sep {
                assert(x[x.len() - 1] == sep);
            }
        }
        assert(sep_scan(s, sep).1 + x.drop_last() + seq![x.last()] =~= sep_scan(s, sep).1 + x);
    }
}

proof fn lemma_sep_scan_join(st: Seq<Seq<char>>)
    requires
        st.len() > 0,
        forall|i: int| 0 <= i < st.len() ==> plain_component(#[trigger] st[i]),
    ensures
        sep_scan(join_slash(st), '/') == (st.drop_last(), st.last()),
    decreases st.len(),
{
    if st.len() == 1 {
        assert(plain_component(st[0]));
        lemma_sep_scan_append_plain(Seq::<char>::empty(), st[0], '/');
        assert(Seq::<char>::empty() + st[0] =~= st[0]);
        assert(st.drop_last() =~= Seq::<Seq<char>>::empty());
        assert(Seq::<char>::empty() + st[0] =~= st[0]);
    } else {
        let dl = st.drop_last();
        assert forall|i: int| 0 <= i < dl.len() implies plain_component(#[trigger] dl[i]) by {
            assert(dl[i] == st[i]);
        }
        lemma_sep_scan_join(dl);
        let a = join_slash(dl) + seq!['/'];
        assert((join_slash(dl) + seq!['/']).drop_last() =~= join_slash(dl));
        assert(sep_scan(a, '/') == (dl.drop_last().push(dl.last()), Seq::<char>::empty()));
        assert(dl.drop_last().push(dl.last()) =~= dl);
        assert(plain_component(st.last())) by {
            assert(st.last() == st[st.len() - 1]);
        }
        lemma_sep_scan_append_plain(a, st.last(), '/');
        assert(Seq::<char>::empty() + st.last() =~= st.last());
    }
}

proof fn lemma_join_starts(st: Seq<Seq<char>>)
    requires
        st.len() > 0,
    ensures
        join_slash(st).len() >= st[0].len(),
        join_slash(st).take(st[0].len() as int) == st[0],
    decreases st.len(),
{
    if st.len() > 1 {
        lemma_join_starts(st.drop_last());
        assert(st.drop_last()[0] == st[0]);
        let j = join_slash(st.drop_last());
        assert((j + seq!['/'] + st.last()).take(st[0].len() as int) =~= j.take(st[0].len() as int));
    } else {
        assert(st[0].take(st[0].len() as int) =~= st[0]);
    }
}

proof fn lemma_normal_pieces_all(st: Seq<Seq<char>>)
    requires
        forall|i: int| 0 <= i < st.len() ==> is_normal_piece(#[trigger] st[i]),
    ensures
        normal_pieces(st) == st,
    decreases st.len(),
{
    if st.len() > 0 {
        let dl = st.drop_last();
        assert forall|i: int| 0 <= i < dl.len() implies is_normal_piece(#[trigger] dl[i]) by {
            assert(dl[i] == st[i]);
        }
        lemma_normal_pieces_all(dl);
        assert(is_normal_piece(st.last())) by {
            assert(st.last() == st[st.len() - 1]);
        }
        assert(dl.push(st.last()) =~= st);
    }
}

/// A path joined from plain components is accepted by the lexical check
/// unchanged.
pub proof fn lemma_join_confined(st: Seq<Seq<char>>)
    requires
        forall|i: int| 0 <= i < st.len() ==> plain_component(#[trigger] st[i]),
    ensures
        confinement(join_slash(st)) == Ok::<Seq<char>, LexicalViolation>(join_slash(st)),
{
    let j = join_slash(st);
    if st.len() == 0 {
        assert(j =~= Seq::<char>::empty());
        assert(sep_scan(j, '/') == (Seq::<Seq<char>>::empty(), Seq::<char>::empty()));
        let sp = split_on(j, '/');
        assert(sp =~= seq![Seq::<char>::empty()]);
        assert(!is_normal_piece(sp[0]));
        assert(normal_pieces(sp) =~= Seq::<Seq<char>>::empty()) by {
            assert(sp.drop_last() =~= Seq::<Seq<char>>::empty());
            assert(sp.last() == sp[0]);
            assert(normal_pieces(sp.drop_last()) =~= Seq::<Seq<char>>::empty());
        }
        assert(!(exists|i: int| 0 <= i < sp.len() && #[trigger] sp[i] == seq!['.', '.'])) by {
            if exists|i: int| 0 <= i < sp.len() && #[trigger] sp[i] == seq!['.', '.'] {
                let i = choose|i: int| 0 <= i < sp.len() && #[trigger] sp[i] == seq!['.', '.'];
                assert(sp[i].len() == 0);
            }
        }
    } else {
        lemma_sep_scan_join(st);
        let sp = split_on(j, '/');
        assert(sp =~= st.drop_last().push(st.last()));
        assert(sp =~= st);
        assert forall|i: int| 0 <= i < st.len() implies is_normal_piece(#[trigger] st[i]) by {
            assert(plain_component(st[i]));
        }
        lemma_normal_pieces_all(st);
        assert(!(exists|i: int| 0 <= i < sp.len() && #[trigger] sp[i] == seq!['.', '.'])) by {
            if exists|i: int| 0 <= i < sp.len() && #[trigger] sp[i] == seq!['.', '.'] {
                let i = choose|i: int| 0 <= i < sp.len() && #[trigger] sp[i] == seq!['.', '.'];
                assert(is_normal_piece(st[i]));
            }
        }
        lemma_join_starts(st);
        assert(plain_component(st[0]));
        assert(j[0] == st[0][0]) by {
            assert(j.take(st[0].len() as int)[0] == j[0]);
        }
        assert(st[0][0] != '/') by {
            if st[0][0] == '/' {
                assert(st[0].contains('/'));
            }
        }
    }
}


proof fn lemma_sep_scan_plain(s: Seq<char>, sep: char)
    ensures
        forall|i: int| 0 <= i < sep_scan(s, sep).0.len() ==> !(#[trigger] sep_scan(s, sep).0[i]).contains(sep),
        !sep_scan(s, sep).1.contains(sep),
    decreases s.len(),
{
    if s.len() > 0 {
        lemma_sep_scan_plain(s.drop_last(), sep);
        let (done, cur) = sep_scan(s.drop_last(), sep);
        if s.last() != sep {
            assert(!cur.push(s.last()).contains(sep)) by {
                if cur.push(s.last()).contains(sep) {
                    let k = choose|k: int| 0 <= k < cur.push(s.last()).len() && cur.push(s.last())[k] == sep;
                    if k < cur.len() {
                        assert(cur[k] == sep);
                    }
                }
            }
        } else {
            assert(!Seq::<char>::empty().contains(sep));
            assert forall|i: int| 0 <= i < done.push(cur).len() implies !(#[trigger] done.push(cur)[i]).contains(sep) by {
                if i < done.len() {
                    assert(done.push(cur)[i] == done[i]);
                }
            }
        }
    }
}

proof fn lemma_normal_pieces_plain(ps: Seq<Seq<char>>)
    requires
        forall|i: int| 0 <= i < ps.len() ==> !(#[trigger] ps[i]).contains('/'),
    ensures
        forall|i: int| 0 <= i < normal_pieces(ps).len() ==> plain_component(#[trigger] normal_pieces(ps)[i]),
    decreases ps.len(),
{
    if ps.len() > 0 {
        let dl = ps.drop_last();
        assert forall|i: int| 0 <= i < dl.len() implies !(#[trigger] dl[i]).contains('/') by {
            assert(dl[i] == ps[i]);
        }
        lemma_normal_pieces_plain(dl);
        assert(!ps.last().contains('/')) by {
            assert(ps.last() == ps[ps.len() - 1]);
        }
        let np = normal_pieces(ps);
        let nd = normal_pieces(dl);
        if is_normal_piece(ps.last()) {
            assert(np == nd.push(ps.last()));
            assert forall|i: int| 0 <= i < np.len() implies plain_component(#[trigger] np[i]) by {
                if i < nd.len() {
                    assert(np[i] == nd[i]);
                }
            }
        } else {
            assert(np == nd);
        }
    }
}

/// Confinement is idempotent: a confined path is accepted by the lexical
/// check again, unchanged.
pub proof fn lemma_confinement_idempotent(s: Seq<char>)
    requires
        confinement(s) is Ok,
    ensures
        confinement(confinement(s)->Ok_0) == confinement(s),
{
    let sp = split_on(s, '/');
    lemma_sep_scan_plain(s, '/');
    assert forall|i: int| 0 <= i < sp.len() implies !(#[trigger] sp[i]).contains('/') by {
        let (done, cur) = sep_scan(s, '/');
        if i < done.len() {
            assert(sp[i] == done[i]);
        } else {
            assert(sp[i] == cur);
        }
    }
    lemma_normal_pieces_plain(sp);
    lemma_join_confined(normal_pieces(sp));
}

// ── Reparse-point classes ──────────────────────────────────────────────────

/// Microsoft-assigned reparse tags (ntifs.h), stable ABI values.
pub const IO_REPARSE_TAG_MOUNT_POINT: u32 = 0xA000_0003;
pub const IO_REPARSE_TAG_SYMLINK: u32 = 0xA000_000C;
pub const IO_REPARSE_TAG_DEDUP: u32 = 0x8000_0013;
pub const IO_REPARSE_TAG_WOF: u32 = 0x8000_0017;
pub const IO_REPARSE_TAG_CLOUD: u32 = 0x9000_001A;
pub const IO_REPARSE_TAG_PROJFS: u32 = 0x9000_001C;
/// The name-surrogate bit: the reparse point stands for another name.
pub const REPARSE_TAG_NAME_SURROGATE: u32 = 0x2000_0000;
/// The cloud-file family mask: the cloud tags differ only in bits 12-15.
pub const CLOUD_FAMILY_MASK: u32 = 0xFFFF_0FFF;

/// What kind of reparse point a refused component was.
#[derive(Debug, Clone, Copy, PartialEq, Eq, Structural)]
pub enum ReparseClass {
    /// A symbolic link, junction, or volume mount point; tagless refusals are
    /// always this class.
    NameSurrogate,
    /// A cloud-provider Files-On-Demand placeholder.
    CloudPlaceholder,
    /// A WOF-compressed file.
    WofCompressed,
    /// A Data Deduplication stub.
    Deduplicated,
    /// A projected-filesystem placeholder.
    ProjectedFile,
    /// A reparse tag without a name here; refused all the same.
    Unknown,
}

/// The class of a reparse tag, in priority order: no tag, the cloud family,
/// WOF, dedup, ProjFS, any other name surrogate, then unknown.
pub open spec fn reparse_class(tag: Option<u32>) -> ReparseClass {
    match tag {
        None => ReparseClass::NameSurrogate,
        Some(t) => if t & CLOUD_FAMILY_MASK == IO_REPARSE_TAG_CLOUD {
            ReparseClass::CloudPlaceholder
        } else if t == IO_REPARSE_TAG_WOF {
            ReparseClass::WofCompressed
        } else if t == IO_REPARSE_TAG_DEDUP {
            ReparseClass::Deduplicated
        } else if t == IO_REPARSE_TAG_PROJFS {
            ReparseClass::ProjectedFile
        } else if t & REPARSE_TAG_NAME_SURROGATE != 0 {
            ReparseClass::NameSurrogate
        } else {
            ReparseClass::Unknown
        },
    }
}

/// Classify a refused reparse point by its tag (`None`: a Unix symlink, or a
/// tag that could not be read, treated as a link).
pub fn classify_reparse(tag: Option<u32>) -> (c: ReparseClass)
    ensures
        c == reparse_class(tag),
{
    match tag {
        None => ReparseClass::NameSurrogate,
        Some(t) => if t & CLOUD_FAMILY_MASK == IO_REPARSE_TAG_CLOUD {
            ReparseClass::CloudPlaceholder
        } else if t == IO_REPARSE_TAG_WOF {
            ReparseClass::WofCompressed
        } else if t == IO_REPARSE_TAG_DEDUP {
            ReparseClass::Deduplicated
        } else if t == IO_REPARSE_TAG_PROJFS {
            ReparseClass::ProjectedFile
        } else if t & REPARSE_TAG_NAME_SURROGATE != 0 {
            ReparseClass::NameSurrogate
        } else {
            ReparseClass::Unknown
        },
    }
}

/// The adopter-facing description of a refused reparse point.
#[derive(Debug, Clone, PartialEq, Eq)]
pub struct ReparseDescription {
    /// A noun phrase for "resolves through ...".
    pub what: String,
    /// A class-specific remedy, or `None` where each finding site keeps its
    /// own "replace the symlink" wording.
    pub help: Option<String>,
}

/// The closing clause of every remedy.
pub open spec fn never_follows() -> Seq<char> {
    "mdatron never follows reparse points"@
}

/// A tag as `0x` and eight lowercase hex digits.
pub open spec fn tag_hex(t: u32) -> Seq<char> {
    "0x"@ + crate::text::hex(t as nat, 8, false)
}

/// The description text and remedy of a refused reparse point.
pub open spec fn reparse_text(tag: Option<u32>) -> (Seq<char>, Option<Seq<char>>) {
    match tag {
        None => ("a symbolic link"@, None),
        Some(t) => match reparse_class(tag) {
            ReparseClass::NameSurrogate => if t == IO_REPARSE_TAG_SYMLINK {
                ("a symbolic link"@, None)
            } else if t == IO_REPARSE_TAG_MOUNT_POINT {
                ("a junction or volume mount point (reparse tag 0xa0000003)"@, None)
            } else {
                ("a name-surrogate reparse point (tag "@ + tag_hex(t) + ")"@, None)
            },
            ReparseClass::CloudPlaceholder => (
                "a cloud-file placeholder (reparse tag "@ + tag_hex(t) + ")"@,
                Some(
                    "hydrate the file (OneDrive: 'Always keep on this device') or move the project off the synced folder \u{2014} "@
                        + never_follows(),
                ),
            ),
            ReparseClass::WofCompressed => (
                "a WOF-compressed file (reparse tag "@ + tag_hex(t) + "; compact / CompactOS)"@,
                Some(
                    "decompress it (`compact /u <file>`) or copy it out of the compressed folder \u{2014} "@
                        + never_follows(),
                ),
            ),
            ReparseClass::Deduplicated => (
                "a data-deduplicated file (reparse tag "@ + tag_hex(t) + ")"@,
                Some(
                    "exclude the project from Data Deduplication or copy the file to a non-deduplicated volume \u{2014} "@
                        + never_follows(),
                ),
            ),
            ReparseClass::ProjectedFile => (
                "a projected-filesystem placeholder (reparse tag "@ + tag_hex(t)
                    + "; ProjFS / VFS for Git)"@,
                Some(
                    "hydrate the file through its provider or copy it out of the virtualized tree \u{2014} "@
                        + never_follows(),
                ),
            ),
            ReparseClass::Unknown => (
                "a reparse point (tag "@ + tag_hex(t) + ")"@,
                Some(
                    "replace it with a plain file or directory inside the governed tree \u{2014} "@
                        + never_follows(),
                ),
            ),
        },
    }
}

fn tagged(head: &str, t: u32, tail: &str) -> (s: String)
    ensures
        s@ == head@ + tag_hex(t) + tail@,
{
    let mut s = owned(head);
    push_str(&mut s, "0x");
    push_hex(&mut s, t as u64, 8, false);
    push_str(&mut s, tail);
    s
}

fn remedy(head: &str) -> (s: Option<String>)
    ensures
        s matches Some(h) && h@ == head@ + never_follows(),
{
    let mut s = owned(head);
    push_str(&mut s, "mdatron never follows reparse points");
    Some(s)
}

/// Describe a refused reparse point for a message and help. The refusal
/// itself never varies by class; only the remedy does.
pub fn describe_reparse(tag: Option<u32>) -> (d: ReparseDescription)
    ensures
        d.what@ == reparse_text(tag).0,
        match d.help {
            Some(h) => reparse_text(tag).1 == Some(h@),
            None => reparse_text(tag).1 is None,
        },
{
    match tag {
        None => ReparseDescription { what: owned("a symbolic link"), help: None },
        Some(t) => match classify_reparse(tag) {
            ReparseClass::NameSurrogate => if t == IO_REPARSE_TAG_SYMLINK {
                ReparseDescription { what: owned("a symbolic link"), help: None }
            } else if t == IO_REPARSE_TAG_MOUNT_POINT {
                ReparseDescription {
                    what: owned("a junction or volume mount point (reparse tag 0xa0000003)"),
                    help: None,
                }
            } else {
                ReparseDescription {
                    what: tagged("a name-surrogate reparse point (tag ", t, ")"),
                    help: None,
                }
            },
            ReparseClass::CloudPlaceholder => ReparseDescription {
                what: tagged("a cloud-file placeholder (reparse tag ", t, ")"),
                help: remedy(
                    "hydrate the file (OneDrive: 'Always keep on this device') or move the project off the synced folder \u{2014} ",
                ),
            },
            ReparseClass::WofCompressed => ReparseDescription {
                what: tagged("a WOF-compressed file (reparse tag ", t, "; compact / CompactOS)"),
                help: remedy(
                    "decompress it (`compact /u <file>`) or copy it out of the compressed folder \u{2014} ",
                ),
            },
            ReparseClass::Deduplicated => ReparseDescription {
                what: tagged("a data-deduplicated file (reparse tag ", t, ")"),
                help: remedy(
                    "exclude the project from Data Deduplication or copy the file to a non-deduplicated volume \u{2014} ",
                ),
            },
            ReparseClass::ProjectedFile => ReparseDescription {
                what: tagged(
                    "a projected-filesystem placeholder (reparse tag ",
                    t,
                    "; ProjFS / VFS for Git)",
                ),
                help: remedy(
                    "hydrate the file through its provider or copy it out of the virtualized tree \u{2014} ",
                ),
            },
            ReparseClass::Unknown => ReparseDescription {
                what: tagged("a reparse point (tag ", t, ")"),
                help: remedy(
                    "replace it with a plain file or directory inside the governed tree \u{2014} ",
                ),
            },
        },
    }
}

} // verus!
