//! Resolution of macro-qualified module references.
//!
//! A defined-module instance may reference an external module package by setting
//! its `type` to a macro-qualified, version-pinned path such as
//! `$LIB/1.3.9/drum_voice/drum_voice.yaml`. The leading `$` macro is the
//! discriminator: any `type` beginning with it is an external reference, while
//! every other `type` is a built-in type name or an inline defined-module type.
//!
//! The reserved `latest` version alias resolves to the highest numeric version
//! directory under the macro root. The directory listing that choice needs is
//! taken as an argument (see [`latest_listing_root`]), so resolution itself
//! never touches the file system.
use vstd::prelude::*;
use vstd::string::*;

use crate::diagnostics::{plain_error, Diagnostic, ErrorCode, Severity};
use crate::library_version::{parse_version, version_lt, LibraryVersion};
use crate::name_map::NameMap;
use crate::text::{concat2, concat3, find_char, first_index_of, lemma_first_index_of_bounds, owned, owned_range, str_eq};

verus! {

/// Leading character that marks a module `type` as an external reference.
pub const MACRO_PREFIX: char = '$';

/// Separator between segments of a macro-qualified reference.
pub const REFERENCE_SEPARATOR: char = '/';

/// Built-in name of the immutable, seeded standard-library macro root.
pub const LIB_MACRO: &'static str = "$LIB";

/// Built-in name of the mutable, user-owned macro root.
pub const USER_LIB_MACRO: &'static str = "$USER_LIB";

/// Reserved version path segment that resolves to the highest available
/// version directory under the configured macro root.
pub const LATEST_VERSION_ALIAS: &'static str = "latest";

/// `true` when `module_type` begins with the macro prefix.
pub open spec fn is_reference(module_type: Seq<char>) -> bool {
    module_type.len() > 0 && module_type[0] == '$'
}

/// Returns `true` when a module `type` is an external macro-qualified reference.
pub fn is_external_reference(module_type: &str) -> (external: bool)
    ensures
        external == is_reference(module_type@),
{
    crate::text::starts_with_char(module_type, MACRO_PREFIX)
}

/// Configured macro roots, mapping a macro name (e.g. `$LIB`) to its base
/// directory. An unknown macro is a hard error rather than a silent fallback.
/// Two sets of roots are equal when they map the same macros to the same
/// directories, whatever order they were registered in.
#[derive(Clone, Debug, PartialEq, Eq)]
pub struct MacroRoots {
    roots: NameMap<String>,
}

impl View for MacroRoots {
    type V = Map<Seq<char>, Seq<char>>;

    closed spec fn view(&self) -> Map<Seq<char>, Seq<char>> {
        Map::new(|name: Seq<char>| self.roots.lookup(name) is Some, |name: Seq<char>| self.roots.lookup(name)->0@)
    }
}

impl Default for MacroRoots {
    fn default() -> (roots: Self)
        ensures
            roots@ == Map::<Seq<char>, Seq<char>>::empty(),
    {
        MacroRoots::new()
    }
}

impl MacroRoots {
    /// Creates an empty set of macro roots.
    pub fn new() -> (roots: Self)
        ensures
            roots@ == Map::<Seq<char>, Seq<char>>::empty(),
    {
        let roots = MacroRoots { roots: NameMap::new() };
        assert(roots@ =~= Map::<Seq<char>, Seq<char>>::empty());
        roots
    }

    /// Registers `root` as the base directory for `macro_name`, replacing any
    /// earlier registration of the same macro.
    pub fn with_root(self, macro_name: &str, root: &str) -> (roots: Self)
        ensures
            roots@ == self@.insert(macro_name@, root@),
    {
        let ghost before = self@;
        let mut roots = self;
        roots.roots.insert(macro_name, owned(root));
        assert(roots@ =~= before.insert(macro_name@, root@));
        roots
    }

    /// Returns the base directory configured for `macro_name`, if any.
    pub fn root(&self, macro_name: &str) -> (root: Option<&str>)
        ensures
            match root {
                Some(r) => self@.contains_key(macro_name@) && r@ == self@[macro_name@],
                None => !self@.contains_key(macro_name@),
            },
    {
        match self.roots.get(macro_name) {
            Some(r) => Some(r.as_str()),
            None => None,
        }
    }
}

/// Failure to resolve a macro-qualified module reference to a path.
#[derive(Clone, Debug, PartialEq, Eq)]
pub enum ModuleReferenceError {
    /// The `type` is not an external reference (does not begin with `$`).
    NotAReference { module_type: String },
    /// The reference names a macro root that is not configured.
    UnknownMacro { macro_name: String },
    /// The reference has no path after its macro root.
    Malformed { reference: String },
    /// The reference tries to escape its macro root (via `..`, `.` or an
    /// absolute segment).
    PathEscape { reference: String },
    /// The `latest` alias could not be resolved to a concrete version directory.
    LatestUnavailable { reference: String, root: String, message: String },
}

/// The text of a [`ModuleReferenceError`].
pub enum ReferenceFailure {
    NotAReference { module_type: Seq<char> },
    UnknownMacro { macro_name: Seq<char> },
    Malformed { reference: Seq<char> },
    PathEscape { reference: Seq<char> },
    LatestUnavailable { reference: Seq<char>, root: Seq<char>, message: Seq<char> },
}

impl View for ModuleReferenceError {
    type V = ReferenceFailure;

    open spec fn view(&self) -> ReferenceFailure {
        match self {
            ModuleReferenceError::NotAReference { module_type } => ReferenceFailure::NotAReference {
                module_type: module_type@,
            },
            ModuleReferenceError::UnknownMacro { macro_name } => ReferenceFailure::UnknownMacro {
                macro_name: macro_name@,
            },
            ModuleReferenceError::Malformed { reference } => ReferenceFailure::Malformed { reference: reference@ },
            ModuleReferenceError::PathEscape { reference } => ReferenceFailure::PathEscape { reference: reference@ },
            ModuleReferenceError::LatestUnavailable { reference, root, message } => ReferenceFailure::LatestUnavailable {
                reference: reference@,
                root: root@,
                message: message@,
            },
        }
    }
}

/// The diagnostic code each reference failure maps to.
pub open spec fn reference_error_code(error: ReferenceFailure) -> ErrorCode {
    match error {
        ReferenceFailure::NotAReference { .. } => ErrorCode::LibraryMalformedReference,
        ReferenceFailure::UnknownMacro { .. } => ErrorCode::LibraryUnknownMacro,
        ReferenceFailure::Malformed { .. } => ErrorCode::LibraryMalformedReference,
        ReferenceFailure::PathEscape { .. } => ErrorCode::LibraryPathEscape,
        ReferenceFailure::LatestUnavailable { .. } => ErrorCode::LibraryLatestUnavailable,
    }
}

/// The message each reference failure is reported with.
pub open spec fn reference_error_message(error: ReferenceFailure) -> Seq<char> {
    match error {
        ReferenceFailure::NotAReference { module_type } => "module type "@ + module_type
            + " is not an external macro reference"@,
        ReferenceFailure::UnknownMacro { macro_name } => "unknown module library macro "@ + macro_name,
        ReferenceFailure::Malformed { reference } => "malformed module reference "@ + reference
            + ": missing package path"@,
        ReferenceFailure::PathEscape { reference } => "module reference "@ + reference + " escapes its library root"@,
        ReferenceFailure::LatestUnavailable { reference, root, message } => "module reference "@ + reference
            + " cannot resolve latest under "@ + root + ": "@ + message,
    }
}

impl ModuleReferenceError {
    /// Renders the error as a validation diagnostic.
    pub fn to_diagnostic(&self) -> (diagnostic: Diagnostic)
        ensures
            plain_error(diagnostic, reference_error_code(self@), reference_error_message(self@)),
    {
        match self {
            ModuleReferenceError::NotAReference { module_type } => Diagnostic::new(
                ErrorCode::LibraryMalformedReference,
                Severity::Error,
                concat3("module type ", module_type.as_str(), " is not an external macro reference"),
            ),
            ModuleReferenceError::UnknownMacro { macro_name } => Diagnostic::new(
                ErrorCode::LibraryUnknownMacro,
                Severity::Error,
                concat2("unknown module library macro ", macro_name.as_str()),
            ),
            ModuleReferenceError::Malformed { reference } => Diagnostic::new(
                ErrorCode::LibraryMalformedReference,
                Severity::Error,
                concat3("malformed module reference ", reference.as_str(), ": missing package path"),
            ),
            ModuleReferenceError::PathEscape { reference } => Diagnostic::new(
                ErrorCode::LibraryPathEscape,
                Severity::Error,
                concat3("module reference ", reference.as_str(), " escapes its library root"),
            ),
            ModuleReferenceError::LatestUnavailable { reference, root, message } => {
                let mut text = concat3("module reference ", reference.as_str(), " cannot resolve latest under ");
                text.append(root.as_str());
                text.append(": ");
                text.append(message.as_str());
                Diagnostic::new(ErrorCode::LibraryLatestUnavailable, Severity::Error, text)
            },
        }
    }
}

/// `true` when the segment of `s` starting at `i` is exactly `..`.
pub open spec fn parent_segment_at(s: Seq<char>, i: int) -> bool {
    &&& 0 <= i
    &&& i + 1 < s.len()
    &&& s[i] == '.'
    &&& s[i + 1] == '.'
    &&& (i == 0 || s[i - 1] == '/')
    &&& (i + 2 == s.len() || s[i + 2] == '/')
}

/// `true` when a relative path has a component other than a plain name: a
/// root (leading `/`), a leading `.` component, or a `..` component.
pub open spec fn escapes_root(relative: Seq<char>) -> bool {
    ||| relative.len() > 0 && relative[0] == '/'
    ||| relative =~= seq!['.']
    ||| relative.len() >= 2 && relative[0] == '.' && relative[1] == '/'
    ||| exists|i: int| parent_segment_at(relative, i)
}

/// The first `/`-separated segment of `s`.
pub open spec fn first_segment(s: Seq<char>) -> Seq<char> {
    s.take(first_index_of(s, '/'))
}

/// Everything after the first `/` of `s` (empty when there is none).
pub open spec fn after_first_segment(s: Seq<char>) -> Seq<char> {
    if first_index_of(s, '/') < s.len() {
        s.skip(first_index_of(s, '/') + 1)
    } else {
        Seq::empty()
    }
}

/// The macro name of a reference: the text before its first `/`.
pub open spec fn macro_of(reference: Seq<char>) -> Seq<char> {
    first_segment(reference)
}

/// The path of a reference below its macro root.
pub open spec fn relative_of(reference: Seq<char>) -> Seq<char> {
    after_first_segment(reference)
}

/// `true` when the first segment of `relative` is the `latest` alias.
pub open spec fn names_latest(relative: Seq<char>) -> bool {
    first_segment(relative) == seq!['l', 'a', 't', 'e', 's', 't']
}

/// `base` joined with a relative `path`, inserting a `/` unless `base` is
/// empty or already ends with one.
pub open spec fn join_path(base: Seq<char>, path: Seq<char>) -> Seq<char> {
    if base.len() == 0 || base.last() == '/' {
        base + path
    } else {
        base + seq!['/'] + path
    }
}

/// The plain-name segments of `rest`, each preceded by `/`: empty and `.`
/// segments are dropped, as path component iteration drops them.
pub open spec fn normal_tail(rest: Seq<char>) -> Seq<char>
    decreases rest.len(),
{
    if rest.len() == 0 {
        Seq::empty()
    } else {
        let k = first_index_of(rest, '/');
        let segment = rest.take(k);
        let piece = if segment.len() == 0 || segment == seq!['.'] {
            Seq::<char>::empty()
        } else {
            seq!['/'] + segment
        };
        if 0 <= k < rest.len() {
            proof {
                lemma_first_index_of_bounds(rest, '/');
            }
            piece + normal_tail(rest.skip(k + 1))
        } else {
            piece
        }
    }
}

/// One entry of a macro root's directory listing.
#[derive(Clone, Debug, PartialEq, Eq)]
pub enum ListedEntry {
    /// An entry that was read; `name` is absent when it is not valid UTF-8.
    Entry { name: Option<String>, is_directory: bool },
    /// An entry that could not be read, with the error's message.
    Unreadable(String),
}

/// The listing of a macro root: its entries in listing order, or the message
/// of the error that prevented reading it.
pub type DirectoryListing = Result<Vec<ListedEntry>, String>;

/// The version an entry offers, if it is a directory with a version name.
pub open spec fn entry_version(entry: ListedEntry) -> Option<Seq<nat>> {
    match entry {
        ListedEntry::Entry { name: Some(name), is_directory: true } => parse_version(name@),
        _ => None,
    }
}

/// The name of a named entry.
pub open spec fn entry_name(entry: ListedEntry) -> Seq<char> {
    match entry {
        ListedEntry::Entry { name: Some(name), .. } => name@,
        _ => Seq::empty(),
    }
}

/// Scans entries in order keeping the first entry with the greatest version;
/// an unreadable entry stops the scan with its message.
pub open spec fn scan_latest(entries: Seq<ListedEntry>, best: Option<(Seq<nat>, Seq<char>)>) -> Result<Option<(Seq<nat>, Seq<char>)>, Seq<char>>
    decreases entries.len(),
{
    if entries.len() == 0 {
        Ok(best)
    } else {
        match entries[0] {
            ListedEntry::Unreadable(message) => Err(message@),
            ListedEntry::Entry { .. } => {
                let next = match entry_version(entries[0]) {
                    Some(v) => if best is None || version_lt(best.unwrap().0, v) {
                        Some((v, entry_name(entries[0])))
                    } else {
                        best
                    },
                    None => best,
                };
                scan_latest(entries.drop_first(), next)
            },
        }
    }
}

/// Message used when a macro root holds no version directory.
pub open spec fn no_versions_message() -> Seq<char> {
    "no numeric version directories exist"@
}

/// The `latest` version directory name a listing yields, or the message of
/// why there is none.
pub open spec fn latest_in(listing: DirectoryListing) -> Result<Seq<char>, Seq<char>> {
    match listing {
        Err(message) => Err(message@),
        Ok(entries) => match scan_latest(entries@, None) {
            Err(message) => Err(message),
            Ok(None) => Err(no_versions_message()),
            Ok(Some(best)) => Ok(best.1),
        },
    }
}

/// `true` when resolving `reference` needs the listing of its macro root.
pub open spec fn needs_listing(reference: Seq<char>, roots: Map<Seq<char>, Seq<char>>) -> bool {
    &&& is_reference(reference)
    &&& roots.contains_key(macro_of(reference))
    &&& relative_of(reference).len() > 0
    &&& !escapes_root(relative_of(reference))
    &&& names_latest(relative_of(reference))
}

/// What resolving `reference` against `roots` yields, given the listing of
/// its macro root when the `latest` alias needs one.
pub open spec fn resolution(reference: Seq<char>, roots: Map<Seq<char>, Seq<char>>, listing: Option<DirectoryListing>) -> Result<Seq<char>, ReferenceFailure> {
    let name = macro_of(reference);
    let relative = relative_of(reference);
    if !is_reference(reference) {
        Err(ReferenceFailure::NotAReference { module_type: reference })
    } else if !roots.contains_key(name) {
        Err(ReferenceFailure::UnknownMacro { macro_name: name })
    } else if relative.len() == 0 {
        Err(ReferenceFailure::Malformed { reference })
    } else if escapes_root(relative) {
        Err(ReferenceFailure::PathEscape { reference })
    } else if !names_latest(relative) {
        Ok(join_path(roots[name], relative))
    } else {
        match latest_in(listing.unwrap()) {
            Ok(version) => Ok(join_path(roots[name], version + normal_tail(after_first_segment(relative)))),
            Err(message) => Err(ReferenceFailure::LatestUnavailable { reference, root: roots[name], message }),
        }
    }
}

/// Splits `reference` at its first `/`.
fn split_reference(reference: &str) -> (parts: (String, String))
    ensures
        parts.0@ == first_segment(reference@),
        parts.1@ == after_first_segment(reference@),
{
    let len = reference.unicode_len();
    let k = find_char(reference, REFERENCE_SEPARATOR);
    let head = owned_range(reference, 0, k);
    if k < len {
        (head, owned_range(reference, k + 1, len))
    } else {
        (head, String::new())
    }
}

/// Collects the characters of `s`.
fn chars_of(s: &str) -> (chars: Vec<char>)
    ensures
        chars@ == s@,
{
    let len = s.unicode_len();
    let mut chars: Vec<char> = Vec::with_capacity(len);
    let mut i: usize = 0;
    while i < len
        invariant
            len == s@.len(),
            i <= len,
            chars@ == s@.take(i as int),
        decreases len - i,
    {
        chars.push(s.get_char(i));
        assert(s@.take(i as int + 1) =~= s@.take(i as int).push(s@[i as int]));
        i = i + 1;
    }
    assert(s@.take(len as int) =~= s@);
    chars
}

/// Decides whether a relative path escapes its root.
pub fn path_escapes(relative: &str) -> (escapes: bool)
    ensures
        escapes == escapes_root(relative@),
{
    let c = chars_of(relative);
    let len = c.len();
    if len > 0 && c[0] == '/' {
        return true;
    }
    if len == 1 && c[0] == '.' {
        assert(relative@ =~= seq!['.']);
        return true;
    }
    if len >= 2 && c[0] == '.' && c[1] == '/' {
        return true;
    }
    let mut i: usize = 0;
    while i < len
        invariant
            c@ == relative@,
            len == c@.len(),
            i <= len,
            forall|j: int| 0 <= j < i ==> !parent_segment_at(relative@, j),
        decreases len - i,
    {
        if i + 1 < len && c[i] == '.' && c[i + 1] == '.' && (i == 0 || c[i - 1] == '/') && (i + 2 == len || c[i + 2] == '/') {
            assert(parent_segment_at(relative@, i as int));
            return true;
        }
        i = i + 1;
    }
    assert forall|j: int| !parent_segment_at(relative@, j) by {
        if j >= i {
            assert(!(j + 1 < relative@.len()));
        }
    }
    if len == 1 {
        assert(!(relative@ =~= seq!['.']) ==> relative@ != seq!['.']);
    }
    false
}

/// Builds `normal_tail(rest)`.
fn build_normal_tail(rest: &str) -> (tail: String)
    ensures
        tail@ == normal_tail(rest@),
    decreases rest@.len(),
{
    let len = rest.unicode_len();
    if len == 0 {
        return String::new();
    }
    let k = find_char(rest, REFERENCE_SEPARATOR);
    proof {
        lemma_first_index_of_bounds(rest@, '/');
    }
    let segment = rest.substring_char(0, k);
    let mut piece = String::new();
    if !(k == 0 || str_eq(segment, ".")) {
        piece = concat2("/", segment);
    }
    proof {
        reveal_strlit(".");
        reveal_strlit("/");
        assert("."@ =~= seq!['.']);
    }
    if k < len {
        let remainder = rest.substring_char(k + 1, len);
        let tail = build_normal_tail(remainder);
        piece.append(tail.as_str());
        piece
    } else {
        piece
    }
}

/// `base` joined with `path`.
pub fn join(base: &str, path: &str) -> (joined: String)
    ensures
        joined@ == join_path(base@, path@),
{
    let len = base.unicode_len();
    if len == 0 || base.get_char(len - 1) == '/' {
        concat2(base, path)
    } else {
        proof {
            reveal_strlit("/");
        }
        concat3(base, "/", path)
    }
}

/// The root directory whose listing [`resolve`] needs for `reference`, or
/// `None` when it needs none.
pub fn latest_listing_root(reference: &str, roots: &MacroRoots) -> (root: Option<String>)
    ensures
        match root {
            Some(r) => needs_listing(reference@, roots@) && r@ == roots@[macro_of(reference@)],
            None => !needs_listing(reference@, roots@),
        },
{
    if !is_external_reference(reference) {
        return None;
    }
    let (macro_name, relative) = split_reference(reference);
    let root = roots.root(macro_name.as_str());
    if root.is_none() || relative.unicode_len() == 0 || path_escapes(relative.as_str()) {
        return None;
    }
    let (first, _) = split_reference(relative.as_str());
    proof {
        reveal_strlit("latest");
        assert("latest"@ =~= seq!['l', 'a', 't', 'e', 's', 't']);
    }
    if str_eq(first.as_str(), LATEST_VERSION_ALIAS) {
        Some(owned(root.unwrap()))
    } else {
        None
    }
}

/// Selects the `latest` version directory name from a macro root listing.
fn latest_version_directory_name(listing: &DirectoryListing, reference: &str, root: &str) -> (name: Result<String, ModuleReferenceError>)
    ensures
        match latest_in(*listing) {
            Ok(version) => name is Ok && name.unwrap()@ == version,
            Err(message) => name is Err && name.unwrap_err()@ == (ReferenceFailure::LatestUnavailable {
                reference: reference@,
                root: root@,
                message,
            }),
        },
{
    let entries = match listing {
        Err(message) => {
            return Err(ModuleReferenceError::LatestUnavailable {
                reference: owned(reference),
                root: owned(root),
                message: message.clone(),
            });
        },
        Ok(entries) => entries,
    };
    let mut best: Option<(LibraryVersion, String)> = None;
    let ghost mut best_view: Option<(Seq<nat>, Seq<char>)> = None;
    let mut i: usize = 0;
    assert(entries@.skip(0) =~= entries@);
    while i < entries.len()
        invariant
            i <= entries@.len(),
            match *listing {
                Ok(es) => es@ == entries@,
                Err(_) => false,
            },
            scan_latest(entries@.skip(i as int), best_view) == scan_latest(entries@, None),
            match best {
                Some(b) => best_view == Some((b.0@, b.1@)),
                None => best_view is None,
            },
        decreases entries@.len() - i,
    {
        let ghost rest = entries@.skip(i as int);
        assert(rest.drop_first() =~= entries@.skip(i as int + 1));
        assert(rest[0] == entries@[i as int]);
        match &entries[i] {
            ListedEntry::Unreadable(message) => {
                assert(rest.len() > 0);
                assert(scan_latest(rest, best_view) == Err::<Option<(Seq<nat>, Seq<char>)>, Seq<char>>(message@));
                return Err(ModuleReferenceError::LatestUnavailable {
                    reference: owned(reference),
                    root: owned(root),
                    message: message.clone(),
                });
            },
            ListedEntry::Entry { name, is_directory } => {
                if *is_directory {
                    if let Some(entry_name) = name {
                        let version = LibraryVersion::parse(entry_name.as_str());
                        if let Some(version) = version {
                            let newer = match &best {
                                None => true,
                                Some(current) => current.0.is_older_than(&version),
                            };
                            if newer {
                                proof {
                                    best_view = Some((version@, entry_name@));
                                }
                                best = Some((version, entry_name.clone()));
                            }
                        }
                    }
                }
            },
        }
        i = i + 1;
    }
    match best {
        Some(b) => Ok(b.1),
        None => {
            proof {
                reveal_strlit("no numeric version directories exist");
            }
            Err(ModuleReferenceError::LatestUnavailable {
                reference: owned(reference),
                root: owned(root),
                message: owned("no numeric version directories exist"),
            })
        },
    }
}

/// Resolves a macro-qualified `reference` to a path under its configured
/// macro root.
///
/// The reference is `$MACRO/<relative>`; the macro root is looked up in
/// `roots` and the relative portion is joined onto it after rejecting any
/// component that would escape the root (`..`, `.` or absolute). If the first
/// relative segment is `latest`, it is replaced with the highest numeric
/// version directory in `listing`, the listing of the macro root, which must
/// be supplied whenever [`latest_listing_root`] names a root.
pub fn resolve(reference: &str, roots: &MacroRoots, listing: &Option<DirectoryListing>) -> (resolved: Result<String, ModuleReferenceError>)
    requires
        needs_listing(reference@, roots@) ==> listing is Some,
    ensures
        match resolved {
            Ok(path) => resolution(reference@, roots@, *listing) == Ok::<Seq<char>, ReferenceFailure>(path@),
            Err(error) => resolution(reference@, roots@, *listing) == Err::<Seq<char>, ReferenceFailure>(error@),
        },
{
    if !is_external_reference(reference) {
        return Err(ModuleReferenceError::NotAReference { module_type: owned(reference) });
    }
    let (macro_name, relative) = split_reference(reference);
    let root = match roots.root(macro_name.as_str()) {
        None => {
            return Err(ModuleReferenceError::UnknownMacro { macro_name });
        },
        Some(root) => root,
    };
    if relative.unicode_len() == 0 {
        return Err(ModuleReferenceError::Malformed { reference: owned(reference) });
    }
    if path_escapes(relative.as_str()) {
        return Err(ModuleReferenceError::PathEscape { reference: owned(reference) });
    }
    let (first, rest) = split_reference(relative.as_str());
    proof {
        reveal_strlit("latest");
        assert("latest"@ =~= seq!['l', 'a', 't', 'e', 's', 't']);
    }
    if !str_eq(first.as_str(), LATEST_VERSION_ALIAS) {
        return Ok(join(root, relative.as_str()));
    }
    let listing = match listing {
        Some(listing) => listing,
        None => {
            assert(false);
            return Err(ModuleReferenceError::Malformed { reference: owned(reference) });
        },
    };
    let latest = latest_version_directory_name(listing, reference, root)?;
    let mut resolved_relative = latest;
    let tail = build_normal_tail(rest.as_str());
    resolved_relative.append(tail.as_str());
    Ok(join(root, resolved_relative.as_str()))
}

proof fn lemma_scan_latest_maximal(entries: Seq<ListedEntry>, best: Option<(Seq<nat>, Seq<char>)>, chosen: (Seq<nat>, Seq<char>))
    requires
        scan_latest(entries, best) == Ok::<Option<(Seq<nat>, Seq<char>)>, Seq<char>>(Some(chosen)),
    ensures
        best == Some(chosen) || exists|k: int|
            0 <= k < entries.len() && entry_version(entries[k]) == Some(chosen.0) && entry_name(entries[k]) == chosen.1,
        best is Some ==> !version_lt(chosen.0, best.unwrap().0),
        forall|j: int| 0 <= j < entries.len() && (#[trigger] entry_version(entries[j])) is Some
            ==> !version_lt(chosen.0, entry_version(entries[j]).unwrap()),
    decreases entries.len(),
{
    if entries.len() == 0 {
        if best is Some {
            crate::library_version::lemma_version_lt_irreflexive(chosen.0);
        }
    } else {
        let next = match entry_version(entries[0]) {
            Some(v) => if best is None || version_lt(best.unwrap().0, v) {
                Some((v, entry_name(entries[0])))
            } else {
                best
            },
            None => best,
        };
        let rest = entries.drop_first();
        lemma_scan_latest_maximal(rest, next, chosen);
        // the chosen version is at least `next`, which is at least `best`
        // and at least the first entry's version
        if let Some(v) = entry_version(entries[0]) {
            if best is Some && !version_lt(best.unwrap().0, v) {
                // next == best
                if version_lt(chosen.0, v) {
                    if best.unwrap().0 == v {
                    } else {
                        crate::library_version::lemma_version_lt_total(best.unwrap().0, v);
                        crate::library_version::lemma_version_lt_transitive(chosen.0, v, best.unwrap().0);
                    }
                }
            } else if best is Some {
                if version_lt(chosen.0, best.unwrap().0) {
                    crate::library_version::lemma_version_lt_transitive(chosen.0, best.unwrap().0, v);
                }
            }
        }
        assert forall|j: int| 0 <= j < entries.len() && (#[trigger] entry_version(entries[j])) is Some
            implies !version_lt(chosen.0, entry_version(entries[j]).unwrap()) by {
            if j > 0 {
                assert(entries[j] == rest[j - 1]);
            }
        }
        if next != Some(chosen) {
            let k = choose|k: int|
                0 <= k < rest.len() && entry_version(rest[k]) == Some(chosen.0) && entry_name(rest[k]) == chosen.1;
            assert(entries[k + 1] == rest[k]);
        } else if next != best {
            assert(entry_version(entries[0]) == Some(chosen.0));
        }
    }
}

/// `latest` resolves to a listed version directory whose version is not
/// older than that of any other listed version directory.
pub proof fn law_latest_is_the_highest_version(entries: Vec<ListedEntry>, name: Seq<char>)
    requires
        latest_in(Ok(entries)) == Ok::<Seq<char>, Seq<char>>(name),
    ensures
        exists|k: int|
            0 <= k < entries@.len() && (#[trigger] entry_version(entries@[k])) is Some && entry_name(entries@[k]) == name
                && forall|j: int| 0 <= j < entries@.len() && (#[trigger] entry_version(entries@[j])) is Some
                    ==> !version_lt(entry_version(entries@[k]).unwrap(), entry_version(entries@[j]).unwrap()),
{
    let scanned = scan_latest(entries@, None);
    assert(scanned is Ok);
    let found = scanned->Ok_0;
    assert(found is Some);
    let chosen = found->Some_0;
    lemma_scan_latest_maximal(entries@, None, chosen);
    let k = choose|k: int|
        0 <= k < entries@.len() && entry_version(entries@[k]) == Some(chosen.0) && entry_name(entries@[k]) == chosen.1;
    assert(entry_version(entries@[k]) is Some);
}

/// A reference that does not use the `latest` alias resolves the same way
/// whatever listing is supplied.
pub proof fn law_pinned_resolution_ignores_listings(
    reference: Seq<char>,
    roots: Map<Seq<char>, Seq<char>>,
    first: Option<DirectoryListing>,
    second: Option<DirectoryListing>,
)
    requires
        !needs_listing(reference, roots),
    ensures
        resolution(reference, roots, first) == resolution(reference, roots, second),
{
}

} // verus!
