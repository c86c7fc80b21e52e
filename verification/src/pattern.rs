//! Adopter-declared patterns: line patterns compiled on the linear-time
//! engine (`regex_lite`) and file globs (`glob`), each compiled once and kept
//! with its source text.
use vstd::prelude::*;

use glob::Pattern as CompiledGlob;

verus! {

#[verifier::external_type_specification]
#[verifier::external_body]
pub struct ExRegex(regex_lite::Regex);

/// Whether `regex_lite` compiles `pattern` (its syntax is valid and the
/// compiled program fits the engine's default size limit).
pub uninterp spec fn regex_compiles(pattern: Seq<char>) -> bool;

/// The text of the error `regex_lite` reports for a pattern it refuses.
pub uninterp spec fn regex_error(pattern: Seq<char>) -> Seq<char>;

/// The leftmost match of `pattern` in `haystack` as `regex_lite` reports it:
/// `None` when nothing matches, otherwise the text of capture group 1 (`None`
/// when the group did not participate, or the pattern has no such group).
pub uninterp spec fn regex_group1(pattern: Seq<char>, haystack: Seq<char>) -> Option<
    Option<Seq<char>>,
>;

/// Every successive non-overlapping match of `pattern` in `haystack`, as
/// `regex_lite` finds them: each match's starting byte offset, and the text
/// of each of its capture groups (group 0 is the whole match; `None` for a
/// group that did not participate).
pub uninterp spec fn regex_scan(pattern: Seq<char>, haystack: Seq<char>) -> Seq<
    (int, Seq<Option<Seq<char>>>),
>;

/// The text view of a scan result.
pub open spec fn scan_view<'h>(r: Seq<(usize, Vec<Option<&'h str>>)>) -> Seq<(int, Seq<Option<Seq<char>>>)> {
    r.map_values(
        |m: (usize, Vec<Option<&'h str>>)|
            (
                m.0 as int,
                m.1@.map_values(
                    |g: Option<&'h str>|
                        match g {
                            Some(t) => Some(t@),
                            None => None,
                        },
                ),
            ),
    )
}

/// A compiled pattern together with the source text it was compiled from.
/// The only constructor is [`LinePattern::compile`].
#[derive(Debug)]
pub struct LinePattern {
    source: String,
    regex: regex_lite::Regex,
}

impl LinePattern {
    /// The source text the pattern was compiled from.
    pub closed spec fn source(&self) -> Seq<char> {
        self.source@
    }

    /// Compile `source`; `Err` with the engine's message when it refuses it.
    pub fn compile(source: &str) -> (r: Result<LinePattern, String>)
        ensures
            r is Ok <==> regex_compiles(source@),
            r matches Ok(p) ==> p.source() == source@,
            r matches Err(e) ==> e@ == regex_error(source@),
    {
        compile_regex(source)
    }

    /// The source text.
    pub fn as_str(&self) -> (s: &str)
        ensures
            s@ == self.source(),
    {
        self.source.as_str()
    }

    /// The capture-group-1 text of the leftmost match in `haystack`.
    pub fn group1<'h>(&self, haystack: &'h str) -> (r: Option<Option<&'h str>>)
        ensures
            r matches Some(g) ==> regex_group1(self.source(), haystack@) matches Some(h) && (
            match g {
                Some(t) => h == Some(t@),
                None => h is None,
            }),
            r is None ==> regex_group1(self.source(), haystack@) is None,
    {
        match_group1(self, haystack)
    }
}

impl LinePattern {
    /// Every successive non-overlapping match in `haystack`, each with its
    /// starting byte offset (a character boundary) and its group texts.
    pub fn scan<'h>(&self, haystack: &'h str) -> (r: Vec<(usize, Vec<Option<&'h str>>)>)
        ensures
            scan_view(r@) == regex_scan(self.source(), haystack@),
            forall|k: int| 0 <= k < r@.len() ==> crate::link::on_boundary(haystack@, (#[trigger] r@[k]).0 as int)
                && r@[k].0 <= crate::text::byte_len(haystack@),
    {
        scan_matches(self, haystack)
    }
}

/// Calls `regex_lite::Regex::captures_iter` on the pattern's compiled regex
/// and reads each match's `start()` and the `as_str()` of every group
/// (`Captures::get`). The crate documents match offsets as valid slicing
/// positions of the haystack, so each start is a character boundary.
#[verifier::external_body]
fn scan_matches<'h>(p: &LinePattern, haystack: &'h str) -> (r: Vec<(usize, Vec<Option<&'h str>>)>)
    ensures
        scan_view(r@) == regex_scan(p.source(), haystack@),
        forall|k: int| 0 <= k < r@.len() ==> crate::link::on_boundary(haystack@, (#[trigger] r@[k]).0 as int)
            && r@[k].0 <= crate::text::byte_len(haystack@),
{
    let mut out = Vec::new();
    for caps in p.regex.captures_iter(haystack) {
        let start = match caps.get(0) {
            Some(m) => m.start(),
            None => 0,
        };
        let groups: Vec<Option<&'h str>> = caps.iter().map(|g| g.map(|m| m.as_str())).collect();
        out.push((start, groups));
    }
    out
}

/// Calls `regex_lite::Regex::new`, which returns `Ok` exactly when the
/// pattern compiles; the compiled regex is kept with its source text, and a
/// refusal is rendered with the error's `Display`.
#[verifier::external_body]
fn compile_regex(source: &str) -> (r: Result<LinePattern, String>)
    ensures
        r is Ok <==> regex_compiles(source@),
        r matches Ok(p) ==> p.source() == source@,
        r matches Err(e) ==> e@ == regex_error(source@),
{
    match regex_lite::Regex::new(source) {
        Ok(regex) => Ok(LinePattern { source: source.to_string(), regex }),
        Err(e) => Err(e.to_string()),
    }
}

/// Calls `regex_lite::Regex::captures` on the pattern's compiled regex, then
/// `Captures::get(1)` and `Match::as_str`: the leftmost match, and the text
/// of its first capture group when that group participated.
#[verifier::external_body]
fn match_group1<'h>(p: &LinePattern, haystack: &'h str) -> (r: Option<Option<&'h str>>)
    ensures
        r matches Some(g) ==> regex_group1(p.source(), haystack@) matches Some(h) && (match g {
            Some(t) => h == Some(t@),
            None => h is None,
        }),
        r is None ==> regex_group1(p.source(), haystack@) is None,
{
    match p.regex.captures(haystack) {
        Some(caps) => match caps.get(1) {
            Some(m) => Some(Some(m.as_str())),
            None => Some(None),
        },
        None => None,
    }
}

#[verifier::external_type_specification]
#[verifier::external_body]
pub struct ExCompiledGlob(CompiledGlob);

/// Whether `glob` compiles `pattern` as a glob.
pub uninterp spec fn glob_compiles(pattern: Seq<char>) -> bool;

/// The text of the error `glob` reports for a pattern it refuses.
pub uninterp spec fn glob_error(pattern: Seq<char>) -> Seq<char>;

/// Whether the glob `pattern` matches the whole of `path` (with `glob`'s
/// default match options).
pub uninterp spec fn glob_matches(pattern: Seq<char>, path: Seq<char>) -> bool;

/// A compiled file glob together with its source text. The only constructor
/// is [`FileGlob::compile`].
#[derive(Debug)]
pub struct FileGlob {
    source: String,
    pattern: CompiledGlob,
}

impl FileGlob {
    /// The source text the glob was compiled from.
    pub closed spec fn source(&self) -> Seq<char> {
        self.source@
    }

    /// Compile `source`; `Err` with the parser's message when it is not a
    /// valid glob.
    pub fn compile(source: &str) -> (r: Result<FileGlob, String>)
        ensures
            r is Ok <==> glob_compiles(source@),
            r matches Ok(g) ==> g.source() == source@,
            r matches Err(e) ==> e@ == glob_error(source@),
    {
        compile_glob(source)
    }

    /// The source text.
    pub fn as_str(&self) -> (s: &str)
        ensures
            s@ == self.source(),
    {
        self.source.as_str()
    }

    /// Whether the glob matches the root-relative path `path`.
    pub fn matches_path(&self, path: &str) -> (b: bool)
        ensures
            b == glob_matches(self.source(), path@),
    {
        glob_match(self, path)
    }
}

/// Calls `glob::Pattern::new`, which returns `Ok` exactly when the text is a
/// valid glob; the compiled pattern is kept with its source text, and a
/// refusal is rendered with the error's `Display`.
#[verifier::external_body]
fn compile_glob(source: &str) -> (r: Result<FileGlob, String>)
    ensures
        r is Ok <==> glob_compiles(source@),
        r matches Ok(g) ==> g.source() == source@,
        r matches Err(e) ==> e@ == glob_error(source@),
{
    match CompiledGlob::new(source) {
        Ok(pattern) => Ok(FileGlob { source: source.to_string(), pattern }),
        Err(e) => Err(e.to_string()),
    }
}

/// Calls `glob::Pattern::matches` on the compiled pattern (what
/// `Pattern::matches_path` does for a UTF-8 path).
#[verifier::external_body]
fn glob_match(g: &FileGlob, path: &str) -> (b: bool)
    ensures
        b == glob_matches(g.source(), path@),
{
    g.pattern.matches(path)
}

} // verus!
