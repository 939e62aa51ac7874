//! Seeded standard-library extraction for reusable module packages.
//!
//! Hosts seed a versioned standard library under the configured `$LIB` root
//! during preparation. Extraction is CRC-gated: a version directory whose
//! recorded CRC matches the bundle is left untouched. This module holds the
//! decisions of seeding (validation, the CRC, the manifest format and the
//! skip decision); the host performs the file-system work.
use vstd::prelude::*;
use vstd::string::*;

use crate::diagnostics::{plain_error, Diagnostic, ErrorCode, Severity};
use crate::library_version::is_digit;
use crate::module_reference::{escapes_root, join};
use crate::module_reference::join_path;
use crate::text::{concat2, concat3, decimal_string, decimal_text, owned};

verus! {

/// Manifest file written inside each seeded version directory.
pub const STANDARD_LIBRARY_CRC_FILENAME: &'static str = ".dandrum-library.crc";

/// Current bundled standard-library version.
pub const BUNDLED_STANDARD_LIBRARY_VERSION: &'static str = "1.0.0";

/// Package path of the bundled drum voice entry.
pub const BUNDLED_DRUM_VOICE_PATH: &'static str = "drum_voice/drum_voice.yaml";

/// Package path of the bundled drum machine entry.
pub const BUNDLED_DRUM_MACHINE_PATH: &'static str = "drum_machine/drum_machine.yaml";

/// One file bundled into a seeded module-library version.
#[derive(Clone, Debug, PartialEq, Eq)]
pub struct SeededLibraryFile {
    pub path: String,
    pub contents: Vec<u8>,
}

/// A complete seeded module-library version.
#[derive(Clone, Debug, PartialEq, Eq)]
pub struct SeededLibrary {
    pub version: String,
    pub files: Vec<SeededLibraryFile>,
}

/// Outcome of a seed attempt.
#[derive(Clone, Debug, PartialEq, Eq)]
pub enum SeedResult {
    /// The target version already had the same recorded CRC, so no extraction ran.
    SkippedUnchanged { version: String, crc: u32 },
    /// A version directory was extracted or replaced.
    Extracted { version: String, crc: u32 },
}

/// Failure to seed the module library.
#[derive(Clone, Debug, PartialEq, Eq)]
pub enum ModuleLibrarySeedError {
    MissingHomeDirectory,
    InvalidVersion { version: String },
    PathEscape { path: String },
    Io { path: String, message: String },
}

/// The diagnostic code each seed failure maps to.
pub open spec fn seed_error_code(error: ModuleLibrarySeedError) -> ErrorCode {
    match error {
        ModuleLibrarySeedError::PathEscape { .. } => ErrorCode::LibraryPathEscape,
        _ => ErrorCode::LibrarySeedFailed,
    }
}

/// The message each seed failure is reported with.
pub open spec fn seed_error_message(error: ModuleLibrarySeedError) -> Seq<char> {
    match error {
        ModuleLibrarySeedError::MissingHomeDirectory => "cannot determine a default module library root; set DANDRUM_MODULE_LIBRARY_ROOT"@,
        ModuleLibrarySeedError::InvalidVersion { version } => "invalid seeded module library version "@ + version@,
        ModuleLibrarySeedError::PathEscape { path } => "seeded module library file path "@ + path@
            + " escapes its version root"@,
        ModuleLibrarySeedError::Io { path, message } => "failed to seed module library at "@ + path@ + ": "@
            + message@,
    }
}

impl ModuleLibrarySeedError {
    pub fn to_diagnostic(&self) -> (diagnostic: Diagnostic)
        ensures
            plain_error(diagnostic, seed_error_code(*self), seed_error_message(*self)),
    {
        match self {
            ModuleLibrarySeedError::MissingHomeDirectory => Diagnostic::new(
                ErrorCode::LibrarySeedFailed,
                Severity::Error,
                owned("cannot determine a default module library root; set DANDRUM_MODULE_LIBRARY_ROOT"),
            ),
            ModuleLibrarySeedError::InvalidVersion { version } => Diagnostic::new(
                ErrorCode::LibrarySeedFailed,
                Severity::Error,
                concat2("invalid seeded module library version ", version.as_str()),
            ),
            ModuleLibrarySeedError::PathEscape { path } => Diagnostic::new(
                ErrorCode::LibraryPathEscape,
                Severity::Error,
                concat3("seeded module library file path ", path.as_str(), " escapes its version root"),
            ),
            ModuleLibrarySeedError::Io { path, message } => {
                let mut text = concat3("failed to seed module library at ", path.as_str(), ": ");
                text.append(message.as_str());
                Diagnostic::new(ErrorCode::LibrarySeedFailed, Severity::Error, text)
            },
        }
    }
}

/// Returns the immutable standard module-library bundle shipped with the
/// engine, holding the given entry YAML of its two packages.
pub fn bundled_standard_library(drum_voice_yaml: Vec<u8>, drum_machine_yaml: Vec<u8>) -> (library: SeededLibrary)
    ensures
        library.version@ == BUNDLED_STANDARD_LIBRARY_VERSION@,
        library.files@.len() == 2,
        library.files@[0].path@ == BUNDLED_DRUM_VOICE_PATH@,
        library.files@[0].contents@ == drum_voice_yaml@,
        library.files@[1].path@ == BUNDLED_DRUM_MACHINE_PATH@,
        library.files@[1].contents@ == drum_machine_yaml@,
{
    let mut files: Vec<SeededLibraryFile> = Vec::new();
    files.push(SeededLibraryFile { path: owned(BUNDLED_DRUM_VOICE_PATH), contents: drum_voice_yaml });
    files.push(SeededLibraryFile { path: owned(BUNDLED_DRUM_MACHINE_PATH), contents: drum_machine_yaml });
    SeededLibrary { version: owned(BUNDLED_STANDARD_LIBRARY_VERSION), files }
}

/// `true` when `version` is one or more non-empty runs of ASCII digits
/// separated by single dots.
pub open spec fn valid_version_name(version: Seq<char>) -> bool {
    &&& version.len() > 0
    &&& forall|i: int| 0 <= i < version.len() ==> is_digit(#[trigger] version[i]) || version[i] == '.'
    &&& version[0] != '.'
    &&& version.last() != '.'
    &&& forall|i: int| 0 <= i < version.len() - 1 && #[trigger] version[i] == '.' ==> version[i + 1] != '.'
}

/// Rejects a version name that is not dot-separated digit runs.
pub fn validate_version(version: &str) -> (checked: Result<(), ModuleLibrarySeedError>)
    ensures
        valid_version_name(version@) <==> checked is Ok,
        checked matches Err(error) ==> error matches ModuleLibrarySeedError::InvalidVersion { version: v } && v@ == version@,
{
    let len = version.unicode_len();
    let mut ok = len > 0;
    if ok {
        ok = version.get_char(0) != '.' && version.get_char(len - 1) != '.';
    }
    let mut i: usize = 0;
    while ok && i < len
        invariant
            len == version@.len(),
            i <= len,
            ok ==> len > 0 && version@[0] != '.' && version@.last() != '.',
            ok ==> forall|j: int| 0 <= j < i ==> is_digit(#[trigger] version@[j]) || version@[j] == '.',
            ok ==> forall|j: int| 0 <= j < i && j < len - 1 && #[trigger] version@[j] == '.' ==> version@[j + 1] != '.',
            !ok ==> !valid_version_name(version@),
        decreases len - i,
    {
        let c = version.get_char(i);
        if !(('0' <= c && c <= '9') || c == '.') {
            ok = false;
        } else if c == '.' && i + 1 < len && version.get_char(i + 1) == '.' {
            ok = false;
        }
        i = i + 1;
    }
    if ok {
        Ok(())
    } else {
        Err(ModuleLibrarySeedError::InvalidVersion { version: owned(version) })
    }
}

/// Rejects a bundled file path that is absolute or has a `.` or `..`
/// component.
pub fn reject_file_path_escape(path: &str) -> (checked: Result<(), ModuleLibrarySeedError>)
    ensures
        escapes_root(path@) <==> checked is Err,
        checked matches Err(error) ==> error matches ModuleLibrarySeedError::PathEscape { path: p } && p@ == path@,
{
    if crate::module_reference::path_escapes(path) {
        Err(ModuleLibrarySeedError::PathEscape { path: owned(path) })
    } else {
        Ok(())
    }
}

/// The reflected CRC-32 polynomial.
pub open spec fn crc32_polynomial() -> u32 {
    0xedb8_8320u32
}

/// One bit step of the reflected CRC-32 shift register.
pub open spec fn crc_bit_step(crc: u32) -> u32 {
    if crc & 1 == 1 {
        (crc >> 1u32) ^ crc32_polynomial()
    } else {
        (crc >> 1u32) ^ 0u32
    }
}

/// `n` bit steps.
pub open spec fn crc_bit_steps(crc: u32, n: nat) -> u32
    decreases n,
{
    if n == 0 {
        crc
    } else {
        crc_bit_steps(crc_bit_step(crc), (n - 1) as nat)
    }
}

/// The register after absorbing one byte.
pub open spec fn crc_byte(crc: u32, byte: u8) -> u32 {
    crc_bit_steps(crc ^ (byte as u32), 8)
}

/// The register after absorbing `bytes` in order.
pub open spec fn crc_bytes(crc: u32, bytes: Seq<u8>) -> u32
    decreases bytes.len(),
{
    if bytes.len() == 0 {
        crc
    } else {
        crc_bytes(crc_byte(crc, bytes[0]), bytes.drop_first())
    }
}

/// Absorbs `bytes` into the running (un-finalized) CRC-32 register.
pub fn crc32_update(crc: u32, bytes: &[u8]) -> (updated: u32)
    ensures
        updated == crc_bytes(crc, bytes@),
{
    let mut value = crc;
    let mut i: usize = 0;
    assert(bytes@.skip(0) =~= bytes@);
    while i < bytes.len()
        invariant
            i <= bytes@.len(),
            crc_bytes(value, bytes@.skip(i as int)) == crc_bytes(crc, bytes@),
        decreases bytes@.len() - i,
    {
        let ghost start = value;
        assert(bytes@.skip(i as int).drop_first() =~= bytes@.skip(i as int + 1));
        value = value ^ (bytes[i] as u32);
        let mut bit: usize = 0;
        while bit < 8
            invariant
                bit <= 8,
                crc_bit_steps(value, (8 - bit) as nat) == crc_byte(start, bytes@[i as int]),
            decreases 8 - bit,
        {
            let mask: u32 = if value & 1 == 1 { 0xedb8_8320 } else { 0 };
            value = (value >> 1) ^ mask;
            bit = bit + 1;
        }
        i = i + 1;
    }
    assert(bytes@.skip(i as int) =~= Seq::<u8>::empty());
    value
}

/// Lexicographic order on paths, by character.
pub open spec fn path_le(a: Seq<char>, b: Seq<char>) -> bool
    decreases a.len(),
{
    if a.len() == 0 {
        true
    } else if b.len() == 0 {
        false
    } else if a[0] < b[0] {
        true
    } else if a[0] > b[0] {
        false
    } else {
        path_le(a.drop_first(), b.drop_first())
    }
}

/// Compares two paths character by character.
fn path_is_le(a: &str, b: &str) -> (le: bool)
    ensures
        le == path_le(a@, b@),
{
    let la = a.unicode_len();
    let lb = b.unicode_len();
    let mut i: usize = 0;
    assert(a@.skip(0) =~= a@);
    assert(b@.skip(0) =~= b@);
    while i < la && i < lb
        invariant
            la == a@.len(),
            lb == b@.len(),
            i <= la,
            i <= lb,
            path_le(a@, b@) == path_le(a@.skip(i as int), b@.skip(i as int)),
        decreases la - i,
    {
        let x = a.get_char(i);
        let y = b.get_char(i);
        assert(a@.skip(i as int)[0] == x);
        assert(b@.skip(i as int)[0] == y);
        if x < y {
            return true;
        }
        if x > y {
            return false;
        }
        assert(a@.skip(i as int).drop_first() =~= a@.skip(i as int + 1));
        assert(b@.skip(i as int).drop_first() =~= b@.skip(i as int + 1));
        i = i + 1;
    }
    i == la
}

/// Inserts `file` into path-sorted `sorted` after every file whose path
/// orders at or before its own (a stable insertion).
pub open spec fn insert_by_path(sorted: Seq<SeededLibraryFile>, file: SeededLibraryFile) -> Seq<SeededLibraryFile>
    decreases sorted.len(),
{
    if sorted.len() == 0 {
        seq![file]
    } else if path_le(sorted.last().path@, file.path@) {
        sorted.push(file)
    } else {
        insert_by_path(sorted.drop_last(), file).push(sorted.last())
    }
}

/// The files stably sorted by path.
pub open spec fn sort_by_path(files: Seq<SeededLibraryFile>) -> Seq<SeededLibraryFile>
    decreases files.len(),
{
    if files.len() == 0 {
        Seq::empty()
    } else {
        insert_by_path(sort_by_path(files.drop_last()), files.last())
    }
}

/// The files at the positions `order` lists.
pub open spec fn pick(files: Seq<SeededLibraryFile>, order: Seq<usize>) -> Seq<SeededLibraryFile> {
    Seq::new(order.len(), |i: int| files[order[i] as int])
}

proof fn lemma_insert_by_path_split(sorted: Seq<SeededLibraryFile>, file: SeededLibraryFile, j: int)
    requires
        0 <= j <= sorted.len(),
        forall|t: int| j <= t < sorted.len() ==> !path_le(#[trigger] sorted[t].path@, file.path@),
        j == 0 || path_le(sorted[j - 1].path@, file.path@),
    ensures
        insert_by_path(sorted, file) == sorted.take(j).push(file) + sorted.skip(j),
    decreases sorted.len(),
{
    if sorted.len() == 0 {
        assert(sorted.take(j).push(file) + sorted.skip(j) =~= seq![file]);
    } else if j == sorted.len() {
        assert(sorted.take(j) =~= sorted);
        assert(sorted.skip(j) =~= Seq::<SeededLibraryFile>::empty());
        assert(sorted.take(j).push(file) + sorted.skip(j) =~= sorted.push(file));
    } else {
        let shorter = sorted.drop_last();
        assert(!path_le(sorted.last().path@, file.path@));
        assert forall|t: int| j <= t < shorter.len() implies !path_le(#[trigger] shorter[t].path@, file.path@) by {
            assert(shorter[t] == sorted[t]);
        }
        if j > 0 {
            assert(shorter[j - 1] == sorted[j - 1]);
        }
        lemma_insert_by_path_split(shorter, file, j);
        assert(shorter.take(j) =~= sorted.take(j));
        assert(sorted.take(j).push(file) + sorted.skip(j) =~= (shorter.take(j).push(file) + shorter.skip(j)).push(sorted.last()));
    }
}

/// The order (as positions into `files`) that stably sorts them by path.
fn path_sort_order(files: &Vec<SeededLibraryFile>) -> (order: Vec<usize>)
    ensures
        forall|i: int| 0 <= i < order@.len() ==> order@[i] < files@.len(),
        pick(files@, order@) == sort_by_path(files@),
{
    let mut order: Vec<usize> = Vec::new();
    let mut k: usize = 0;
    assert(pick(files@, order@) =~= sort_by_path(files@.take(0)));
    while k < files.len()
        invariant
            k <= files@.len(),
            order@.len() == k,
            forall|i: int| 0 <= i < order@.len() ==> order@[i] < k,
            pick(files@, order@) == sort_by_path(files@.take(k as int)),
        decreases files@.len() - k,
    {
        let ghost sorted = pick(files@, order@);
        let mut j: usize = order.len();
        while j > 0 && !path_is_le(files[order[j - 1]].path.as_str(), files[k].path.as_str())
            invariant
                j <= order@.len(),
                k < files@.len(),
                sorted == pick(files@, order@),
                forall|i: int| 0 <= i < order@.len() ==> order@[i] < k,
                forall|t: int| j <= t < sorted.len() ==> !path_le(#[trigger] sorted[t].path@, files@[k as int].path@),
            decreases j,
        {
            j = j - 1;
        }
        proof {
            lemma_insert_by_path_split(sorted, files@[k as int], j as int);
            assert(files@.take(k as int + 1).drop_last() =~= files@.take(k as int));
            assert(files@.take(k as int + 1).last() == files@[k as int]);
        }
        order.insert(j, k);
        assert(pick(files@, order@) =~= sorted.take(j as int).push(files@[k as int]) + sorted.skip(j as int));
        k = k + 1;
    }
    assert(files@.take(k as int) =~= files@);
    order
}

proof fn lemma_path_le_total(a: Seq<char>, b: Seq<char>)
    ensures
        path_le(a, b) || path_le(b, a),
    decreases a.len(),
{
    if a.len() > 0 && b.len() > 0 && a[0] == b[0] {
        lemma_path_le_total(a.drop_first(), b.drop_first());
    }
}

proof fn lemma_path_le_transitive(a: Seq<char>, b: Seq<char>, c: Seq<char>)
    requires
        path_le(a, b),
        path_le(b, c),
    ensures
        path_le(a, c),
    decreases a.len(),
{
    if a.len() > 0 && b.len() > 0 && c.len() > 0 && a[0] == b[0] && b[0] == c[0] {
        lemma_path_le_transitive(a.drop_first(), b.drop_first(), c.drop_first());
    }
}

proof fn lemma_path_le_antisymmetric(a: Seq<char>, b: Seq<char>)
    requires
        path_le(a, b),
        path_le(b, a),
    ensures
        a == b,
    decreases a.len(),
{
    if a.len() > 0 {
        assert(b.len() > 0);
        assert(a[0] == b[0]);
        lemma_path_le_antisymmetric(a.drop_first(), b.drop_first());
        assert(a.len() == b.len());
        assert forall|i: int| 0 <= i < a.len() implies a[i] == b[i] by {
            if i > 0 {
                assert(a[i] == a.drop_first()[i - 1]);
                assert(b[i] == b.drop_first()[i - 1]);
            }
        }
        assert(a =~= b);
    } else {
        if b.len() > 0 {
            assert(!path_le(b, a));
        }
        assert(a =~= b);
    }
}

/// The files are in ascending path order.
pub open spec fn sorted_by_path(files: Seq<SeededLibraryFile>) -> bool {
    forall|i: int, j: int| 0 <= i < j < files.len() ==> path_le(#[trigger] files[i].path@, #[trigger] files[j].path@)
}

proof fn lemma_insert_by_path(sorted: Seq<SeededLibraryFile>, file: SeededLibraryFile)
    requires
        sorted_by_path(sorted),
    ensures
        insert_by_path(sorted, file).to_multiset() == sorted.to_multiset().insert(file),
        sorted_by_path(insert_by_path(sorted, file)),
    decreases sorted.len(),
{
    broadcast use vstd::seq_lib::group_to_multiset_ensures;

    if sorted.len() == 0 {
        assert(sorted =~= Seq::<SeededLibraryFile>::empty());
        assert(seq![file] =~= sorted.push(file));
    } else {
        let last = sorted.last();
        let rest = sorted.drop_last();
        assert(sorted =~= rest.push(last));
        if path_le(last.path@, file.path@) {
            let r = sorted.push(file);
            assert forall|i: int, j: int| 0 <= i < j < r.len() implies path_le(
                #[trigger] r[i].path@,
                #[trigger] r[j].path@,
            ) by {
                if j == r.len() - 1 && i < sorted.len() - 1 {
                    assert(path_le(sorted[i].path@, sorted[sorted.len() - 1].path@));
                    lemma_path_le_transitive(sorted[i].path@, last.path@, file.path@);
                }
            }
        } else {
            lemma_path_le_total(last.path@, file.path@);
            assert(sorted_by_path(rest)) by {
                assert forall|i: int, j: int| 0 <= i < j < rest.len() implies path_le(
                    #[trigger] rest[i].path@,
                    #[trigger] rest[j].path@,
                ) by {
                    assert(rest[i] == sorted[i] && rest[j] == sorted[j]);
                }
            }
            lemma_insert_by_path(rest, file);
            let inner = insert_by_path(rest, file);
            let r = inner.push(last);
            assert forall|i: int| 0 <= i < inner.len() implies path_le(#[trigger] inner[i].path@, last.path@) by {
                assert(inner.contains(inner[i]));
                assert(inner.to_multiset().count(inner[i]) > 0);
                if inner[i] != file {
                    assert(rest.to_multiset().count(inner[i]) > 0);
                    let k = choose|k: int| 0 <= k < rest.len() && rest[k] == inner[i];
                    assert(sorted[k] == rest[k]);
                    assert(path_le(sorted[k].path@, sorted[sorted.len() - 1].path@));
                }
            }
            assert forall|i: int, j: int| 0 <= i < j < r.len() implies path_le(
                #[trigger] r[i].path@,
                #[trigger] r[j].path@,
            ) by {
                assert(r[i] == inner[i]);
                if j < r.len() - 1 {
                    assert(r[j] == inner[j]);
                }
            }
            assert(r.to_multiset() =~= sorted.to_multiset().insert(file));
        }
    }
}

proof fn lemma_sort_by_path(files: Seq<SeededLibraryFile>)
    ensures
        sort_by_path(files).to_multiset() == files.to_multiset(),
        sorted_by_path(sort_by_path(files)),
    decreases files.len(),
{
    broadcast use vstd::seq_lib::group_to_multiset_ensures;

    if files.len() == 0 {
        assert(files =~= Seq::<SeededLibraryFile>::empty());
        assert(sort_by_path(files) =~= files);
    } else {
        lemma_sort_by_path(files.drop_last());
        lemma_insert_by_path(sort_by_path(files.drop_last()), files.last());
        assert(files =~= files.drop_last().push(files.last()));
    }
}

/// Two path-sorted file lists holding the same files are the same list when
/// no two different files share a path.
proof fn lemma_sorted_unique(a: Seq<SeededLibraryFile>, b: Seq<SeededLibraryFile>)
    requires
        sorted_by_path(a),
        sorted_by_path(b),
        a.to_multiset() == b.to_multiset(),
        forall|x: SeededLibraryFile, y: SeededLibraryFile|
            #[trigger] a.to_multiset().count(x) > 0 && #[trigger] a.to_multiset().count(y) > 0 && x.path@ == y.path@
                ==> x == y,
    ensures
        a == b,
    decreases a.len(),
{
    broadcast use vstd::seq_lib::group_to_multiset_ensures;

    assert(a.to_multiset().len() == a.len());
    assert(b.to_multiset().len() == b.len());
    assert(a.len() == b.len());
    if a.len() == 0 {
        assert(a =~= b);
    } else {
        let n = a.len() - 1;
        let x = a[n];
        let y = b[n];
        assert(b.contains(y));
        assert(b.to_multiset().count(y) > 0);
        assert(a.contains(y));
        assert(a.contains(x));
        assert(a.to_multiset().count(x) > 0);
        assert(b.contains(x));
        let i = choose|i: int| 0 <= i < a.len() && a[i] == y;
        let j = choose|j: int| 0 <= j < b.len() && b[j] == x;
        if x != y {
            assert(i < n && j < n);
            assert(path_le(a[i].path@, a[n].path@));
            assert(path_le(b[j].path@, b[n].path@));
            lemma_path_le_antisymmetric(x.path@, y.path@);
        }
        let a2 = a.drop_last();
        let b2 = b.drop_last();
        assert(a.remove(n) =~= a2);
        assert(b.remove(n) =~= b2);
        assert(a2.to_multiset() == b2.to_multiset());
        assert forall|i: int, j: int| 0 <= i < j < a2.len() implies path_le(
            #[trigger] a2[i].path@,
            #[trigger] a2[j].path@,
        ) by {
            assert(a2[i] == a[i] && a2[j] == a[j]);
        }
        assert forall|i: int, j: int| 0 <= i < j < b2.len() implies path_le(
            #[trigger] b2[i].path@,
            #[trigger] b2[j].path@,
        ) by {
            assert(b2[i] == b[i] && b2[j] == b[j]);
        }
        assert forall|u: SeededLibraryFile, v: SeededLibraryFile|
            #[trigger] a2.to_multiset().count(u) > 0 && #[trigger] a2.to_multiset().count(v) > 0 && u.path@ == v.path@
                implies u == v by {
            assert(a.to_multiset().count(u) > 0);
            assert(a.to_multiset().count(v) > 0);
        }
        lemma_sorted_unique(a2, b2);
        assert(a =~= a2.push(x));
        assert(b =~= b2.push(y));
    }
}

/// The CRC of a library does not depend on the order its files are listed
/// in, so long as no two different files share a path.
pub proof fn law_crc_ignores_file_order(a: SeededLibrary, b: SeededLibrary)
    requires
        a.version@ == b.version@,
        a.files@.to_multiset() == b.files@.to_multiset(),
        forall|i: int, j: int|
            0 <= i < a.files@.len() && 0 <= j < a.files@.len() && (#[trigger] a.files@[i]).path@
                == (#[trigger] a.files@[j]).path@ ==> a.files@[i] == a.files@[j],
    ensures
        library_crc(a) == library_crc(b),
{
    broadcast use vstd::seq_lib::group_to_multiset_ensures;

    lemma_sort_by_path(a.files@);
    lemma_sort_by_path(b.files@);
    let sa = sort_by_path(a.files@);
    let sb = sort_by_path(b.files@);
    assert forall|x: SeededLibraryFile, y: SeededLibraryFile|
        #[trigger] sa.to_multiset().count(x) > 0 && #[trigger] sa.to_multiset().count(y) > 0 && x.path@ == y.path@
            implies x == y by {
        assert(a.files@.contains(x));
        assert(a.files@.contains(y));
        let i = choose|i: int| 0 <= i < a.files@.len() && a.files@[i] == x;
        let j = choose|j: int| 0 <= j < a.files@.len() && a.files@[j] == y;
        assert(a.files@[i].path@ == a.files@[j].path@);
    }
    lemma_sorted_unique(sa, sb);
}

/// The register after absorbing one library file: a NUL, its path, a NUL and
/// its contents.
pub open spec fn crc_file(crc: u32, file: SeededLibraryFile) -> u32 {
    crc_bytes(crc_bytes(crc_bytes(crc_bytes(crc, seq![0u8]), vstd::utf8::encode_utf8(file.path@)), seq![0u8]), file.contents@)
}

/// The register after absorbing `files` in order.
pub open spec fn crc_files(crc: u32, files: Seq<SeededLibraryFile>) -> u32
    decreases files.len(),
{
    if files.len() == 0 {
        crc
    } else {
        crc_files(crc_file(crc, files[0]), files.drop_first())
    }
}

/// The CRC-32 of a library: its version, then its files in path order.
pub open spec fn library_crc(library: SeededLibrary) -> u32 {
    !crc_files(crc_bytes(0xffff_ffffu32, vstd::utf8::encode_utf8(library.version@)), sort_by_path(library.files@))
}

/// The standard CRC-32 of `bytes`: the reflected register started at all
/// ones, inverted at the end.
pub open spec fn crc32(bytes: Seq<u8>) -> u32 {
    !crc_bytes(0xffff_ffffu32, bytes)
}

/// The bytes a library file contributes to the library's checksum: a NUL,
/// its path in UTF-8, a NUL and its contents.
pub open spec fn file_record(file: SeededLibraryFile) -> Seq<u8> {
    seq![0u8] + vstd::utf8::encode_utf8(file.path@) + seq![0u8] + file.contents@
}

/// The records of `files`, one after another.
pub open spec fn file_records(files: Seq<SeededLibraryFile>) -> Seq<u8>
    decreases files.len(),
{
    if files.len() == 0 {
        Seq::empty()
    } else {
        file_record(files[0]) + file_records(files.drop_first())
    }
}

/// The byte string a library's checksum covers: its version in UTF-8, then
/// the record of each file in path order.
pub open spec fn library_bytes(library: SeededLibrary) -> Seq<u8> {
    vstd::utf8::encode_utf8(library.version@) + file_records(sort_by_path(library.files@))
}

proof fn lemma_crc_bytes_append(crc: u32, a: Seq<u8>, b: Seq<u8>)
    ensures
        crc_bytes(crc, a + b) == crc_bytes(crc_bytes(crc, a), b),
    decreases a.len(),
{
    if a.len() > 0 {
        assert((a + b).drop_first() =~= a.drop_first() + b);
        assert((a + b)[0] == a[0]);
        lemma_crc_bytes_append(crc_byte(crc, a[0]), a.drop_first(), b);
    } else {
        assert(a + b =~= b);
    }
}

proof fn lemma_crc_files_records(crc: u32, files: Seq<SeededLibraryFile>)
    ensures
        crc_files(crc, files) == crc_bytes(crc, file_records(files)),
    decreases files.len(),
{
    if files.len() > 0 {
        let f = files[0];
        let path = vstd::utf8::encode_utf8(f.path@);
        lemma_crc_bytes_append(crc, seq![0u8], path);
        lemma_crc_bytes_append(crc, seq![0u8] + path, seq![0u8]);
        lemma_crc_bytes_append(crc, seq![0u8] + path + seq![0u8], f.contents@);
        lemma_crc_bytes_append(crc, file_record(f), file_records(files.drop_first()));
        lemma_crc_files_records(crc_file(crc, f), files.drop_first());
    }
}

/// The library checksum is the standard CRC-32 of the library's version
/// followed by, for each file in path order, a NUL, the file's path, a NUL
/// and the file's contents.
pub proof fn law_library_crc_is_crc32_of_its_bytes(library: SeededLibrary)
    ensures
        library_crc(library) == crc32(library_bytes(library)),
{
    let version = vstd::utf8::encode_utf8(library.version@);
    let files = sort_by_path(library.files@);
    lemma_crc_files_records(crc_bytes(0xffff_ffffu32, version), files);
    lemma_crc_bytes_append(0xffff_ffffu32, version, file_records(files));
}

/// Computes [`library_crc`].
pub fn seeded_library_crc(library: &SeededLibrary) -> (crc: u32)
    ensures
        crc == library_crc(*library),
{
    let order = path_sort_order(&library.files);
    let ghost sorted = sort_by_path(library.files@);
    let separator: [u8; 1] = [0u8];
    assert(separator@ =~= seq![0u8]);
    let mut crc = crc32_update(0xffff_ffff, library.version.as_str().as_bytes());
    let ghost start = crc;
    let mut i: usize = 0;
    assert(sorted.skip(0) =~= sorted);
    while i < order.len()
        invariant
            i <= order@.len(),
            separator@ == seq![0u8],
            forall|t: int| 0 <= t < order@.len() ==> order@[t] < library.files@.len(),
            pick(library.files@, order@) == sorted,
            crc_files(crc, sorted.skip(i as int)) == crc_files(start, sorted),
        decreases order@.len() - i,
    {
        let file = &library.files[order[i]];
        assert(sorted.skip(i as int)[0] == *file);
        assert(sorted.skip(i as int).drop_first() =~= sorted.skip(i as int + 1));
        crc = crc32_update(crc, separator.as_slice());
        crc = crc32_update(crc, file.path.as_str().as_bytes());
        crc = crc32_update(crc, separator.as_slice());
        crc = crc32_update(crc, file.contents.as_slice());
        i = i + 1;
    }
    assert(sorted.skip(i as int) =~= Seq::<SeededLibraryFile>::empty());
    !crc
}

/// The lowercase hexadecimal digit for `n < 16`.
pub open spec fn hex_digit(n: int) -> char {
    "0123456789abcdef"@[n]
}

/// The eight lowercase hexadecimal digits of `crc`, most significant first.
pub open spec fn hex8(crc: u32) -> Seq<char> {
    Seq::new(8, |i: int| hex_digit(((crc >> ((4 * (7 - i)) as u32)) & 0xf) as int))
}

/// The manifest text recording `crc`: eight lowercase hex digits and a newline.
pub open spec fn manifest_text(crc: u32) -> Seq<char> {
    hex8(crc).push('\n')
}

/// Formats the manifest text for `crc`.
pub fn format_crc(crc: u32) -> (text: String)
    ensures
        text@ == manifest_text(crc),
{
    let digits: &'static str = "0123456789abcdef";
    proof {
        reveal_strlit("0123456789abcdef");
        reveal_strlit("\n");
    }
    let mut text = String::new();
    let mut i: u32 = 0;
    while i < 8
        invariant
            i <= 8,
            digits@ == "0123456789abcdef"@,
            digits@.len() == 16,
            text@ == hex8(crc).take(i as int),
        decreases 8 - i,
    {
        let shift: u32 = 4 * (7 - i);
        let nibble = ((crc >> shift) & 0xf) as usize;
        assert(((crc >> shift) & 0xf) < 16) by (bit_vector);
        let digit = digits.substring_char(nibble, nibble + 1);
        text.append(digit);
        assert(hex8(crc).take(i as int + 1) =~= hex8(crc).take(i as int) + digit@);
        i = i + 1;
    }
    text.append("\n");
    assert(hex8(crc).take(8) =~= hex8(crc));
    text
}

/// The value of a hexadecimal digit character.
pub open spec fn hex_value(c: char) -> nat {
    if '0' <= c && c <= '9' {
        (c as nat - '0' as nat) as nat
    } else if 'a' <= c && c <= 'f' {
        (c as nat - 'a' as nat + 10) as nat
    } else {
        (c as nat - 'A' as nat + 10) as nat
    }
}

pub open spec fn is_hex_digit(c: char) -> bool {
    ('0' <= c && c <= '9') || ('a' <= c && c <= 'f') || ('A' <= c && c <= 'F')
}

/// The value of a string of hexadecimal digits.
pub open spec fn hex_number(digits: Seq<char>) -> nat
    decreases digits.len(),
{
    if digits.len() == 0 {
        0
    } else {
        hex_number(digits.drop_last()) * 16 + hex_value(digits.last())
    }
}

/// `true` for the characters Unicode classifies as white space.
pub open spec fn is_white_space(c: char) -> bool {
    ||| c == ' '
    ||| '\t' <= c && c <= '\r'
    ||| c == '\u{85}'
    ||| c == '\u{a0}'
    ||| c == '\u{1680}'
    ||| '\u{2000}' <= c && c <= '\u{200a}'
    ||| c == '\u{2028}'
    ||| c == '\u{2029}'
    ||| c == '\u{202f}'
    ||| c == '\u{205f}'
    ||| c == '\u{3000}'
}

/// `true` when `text[from..to]` has no surrounding white space to trim.
pub open spec fn trimmed_bounds(text: Seq<char>, from: int, to: int) -> bool {
    &&& 0 <= from <= to <= text.len()
    &&& forall|i: int| 0 <= i < from ==> is_white_space(#[trigger] text[i])
    &&& forall|i: int| to <= i < text.len() ==> is_white_space(#[trigger] text[i])
    &&& from < to ==> !is_white_space(text[from]) && !is_white_space(text[to - 1])
}

/// The digits of the trimmed text `text[from..to]`: without one leading `+`.
pub open spec fn recorded_digits(text: Seq<char>, from: int, to: int) -> Seq<char> {
    let core = text.subrange(from, to);
    if core.len() > 0 && core[0] == '+' {
        core.drop_first()
    } else {
        core
    }
}

/// The CRC a manifest text records: the text without surrounding white space
/// read as a hexadecimal `u32` (an optional `+`, then one or more hex digits).
pub open spec fn recorded_value(text: Seq<char>, from: int, to: int) -> Option<nat> {
    let digits = recorded_digits(text, from, to);
    if digits.len() == 0 || exists|i: int| 0 <= i < digits.len() && !is_hex_digit(#[trigger] digits[i]) {
        None
    } else if hex_number(digits) > u32::MAX {
        None
    } else {
        Some(hex_number(digits))
    }
}

proof fn lemma_hex_prefix_monotone(digits: Seq<char>, i: int)
    requires
        0 <= i <= digits.len(),
    ensures
        hex_number(digits.take(i)) <= hex_number(digits),
    decreases digits.len() - i,
{
    if i < digits.len() {
        lemma_hex_prefix_monotone(digits, i + 1);
        assert(digits.take(i + 1).drop_last() =~= digits.take(i));
    } else {
        assert(digits.take(i) =~= digits);
    }
}

/// Reads the CRC recorded in a manifest text, if it holds one.
pub fn parse_recorded_crc(text: &str) -> (crc: Option<u32>)
    ensures
        exists|from: int, to: int|
            trimmed_bounds(text@, from, to) && match recorded_value(text@, from, to) {
                Some(v) => crc == Some(v as u32),
                None => crc is None,
            },
{
    let len = text.unicode_len();
    let mut from: usize = 0;
    while from < len && is_white_space_char(text.get_char(from))
        invariant
            len == text@.len(),
            from <= len,
            forall|i: int| 0 <= i < from ==> is_white_space(#[trigger] text@[i]),
        decreases len - from,
    {
        from = from + 1;
    }
    let mut to: usize = len;
    while to > from && is_white_space_char(text.get_char(to - 1))
        invariant
            len == text@.len(),
            from <= to <= len,
            forall|i: int| to <= i < len ==> is_white_space(#[trigger] text@[i]),
        decreases to,
    {
        to = to - 1;
    }
    assert(trimmed_bounds(text@, from as int, to as int));
    let ghost core = text@.subrange(from as int, to as int);
    let mut start = from;
    if from < to && text.get_char(from) == '+' {
        start = from + 1;
    }
    let ghost digits = recorded_digits(text@, from as int, to as int);
    assert(digits =~= text@.subrange(start as int, to as int));
    if start == to {
        assert(recorded_value(text@, from as int, to as int) is None);
        return None;
    }
    let mut value: u32 = 0;
    let mut i: usize = start;
    while i < to
        invariant
            len == text@.len(),
            start <= i <= to <= len,
            digits == text@.subrange(start as int, to as int),
            digits == recorded_digits(text@, from as int, to as int),
            digits.len() > 0,
            trimmed_bounds(text@, from as int, to as int),
            forall|j: int| 0 <= j < i - start ==> is_hex_digit(#[trigger] digits[j]),
            value == hex_number(digits.take(i - start)),
        decreases to - i,
    {
        let c = text.get_char(i);
        assert(digits[i - start] == c);
        let d: u32 = if '0' <= c && c <= '9' {
            (c as u32) - ('0' as u32)
        } else if 'a' <= c && c <= 'f' {
            (c as u32) - ('a' as u32) + 10
        } else if 'A' <= c && c <= 'F' {
            (c as u32) - ('A' as u32) + 10
        } else {
            assert(!is_hex_digit(digits[i - start]));
            assert(recorded_value(text@, from as int, to as int) is None);
            return None;
        };
        assert(digits.take(i - start + 1).drop_last() =~= digits.take(i - start));
        assert(digits.take(i - start + 1).last() == c);
        proof {
            lemma_hex_prefix_monotone(digits, i - start + 1);
        }
        assert(hex_number(digits.take(i - start + 1)) == value * 16 + d);
        let scaled = value.checked_mul(16);
        if scaled.is_none() {
            assert(recorded_value(text@, from as int, to as int) is None);
            return None;
        }
        let next = scaled.unwrap().checked_add(d);
        if next.is_none() {
            assert(recorded_value(text@, from as int, to as int) is None);
            return None;
        }
        value = next.unwrap();
        i = i + 1;
    }
    assert(digits.take(i - start) =~= digits);
    assert(recorded_value(text@, from as int, to as int) == Some(value as nat));
    Some(value)
}

proof fn lemma_hex_digits()
    ensures
        forall|n: int|
            0 <= n < 16 ==> {
                &&& is_hex_digit(#[trigger] hex_digit(n))
                &&& hex_value(hex_digit(n)) == n
                &&& !is_white_space(hex_digit(n))
                &&& hex_digit(n) != '+'
            },
{
    reveal_strlit("0123456789abcdef");
    assert forall|n: int| 0 <= n < 16 implies {
        &&& is_hex_digit(#[trigger] hex_digit(n))
        &&& hex_value(hex_digit(n)) == n
        &&& !is_white_space(hex_digit(n))
        &&& hex_digit(n) != '+'
    } by {
        let digits = "0123456789abcdef"@;
        assert(digits =~= seq!['0', '1', '2', '3', '4', '5', '6', '7', '8', '9', 'a', 'b', 'c', 'd', 'e', 'f']);
    }
}

proof fn lemma_nibble_step(crc: u32, s: u32)
    by (bit_vector)
    requires
        s <= 24,
    ensures
        (crc >> (s + 4) as u32) * 16 + ((crc >> s) & 0xf) == crc >> s,
{
}

/// The first `k` digits of `hex8(crc)` read as a number are the top `4 * k`
/// bits of `crc`.
proof fn lemma_hex8_value(crc: u32, k: int)
    requires
        1 <= k <= 8,
    ensures
        hex_number(hex8(crc).take(k)) == (crc >> ((32 - 4 * k) as u32)) as nat,
    decreases k,
{
    lemma_hex_digits();
    let h = hex8(crc);
    let s = (32 - 4 * k) as u32;
    let nibble = (crc >> s) & 0xf;
    assert(((crc >> s) & 0xf) < 16) by (bit_vector);
    assert(h[k - 1] == hex_digit(nibble as int));
    assert(hex_value(h[k - 1]) == nibble);
    assert(h.take(k).drop_last() =~= h.take(k - 1));
    assert(h.take(k).last() == h[k - 1]);
    assert(hex_number(h.take(k)) == hex_number(h.take(k - 1)) * 16 + nibble);
    if k == 1 {
        assert(h.take(0) =~= Seq::<char>::empty());
        assert((crc >> 28u32) & 0xf == crc >> 28u32) by (bit_vector);
    } else {
        lemma_hex8_value(crc, k - 1);
        assert(((32 - 4 * (k - 1)) as u32) == (s + 4) as u32);
        lemma_nibble_step(crc, s);
    }
}

/// The manifest a seed writes records the bundle's CRC: read back without
/// its surrounding white space, as hexadecimal, it gives that CRC again, so
/// seeding the same bundle a second time is skipped.
pub proof fn law_manifest_records_its_crc(crc: u32, from: int, to: int)
    requires
        trimmed_bounds(manifest_text(crc), from, to),
    ensures
        recorded_value(manifest_text(crc), from, to) == Some(crc as nat),
{
    lemma_hex_digits();
    reveal_strlit("0123456789abcdef");
    let text = manifest_text(crc);
    let h = hex8(crc);
    assert forall|i: int| 0 <= i < 8 implies !is_white_space(#[trigger] text[i]) && is_hex_digit(text[i]) && text[i]
        != '+' by {
        let shift = (4 * (7 - i)) as u32;
        assert(((crc >> shift) & 0xf) < 16) by (bit_vector);
        assert(text[i] == hex_digit(((crc >> shift) & 0xf) as int));
    }
    assert(is_white_space(text[8]));
    if from > 0 {
        assert(is_white_space(text[0]));
    }
    if to < 8 {
        if from < to {
            assert(is_white_space(text[to]));
        } else {
            assert(is_white_space(text[0]));
        }
    }
    if to == 9 {
        assert(!is_white_space(text[8]));
    }
    assert(from == 0 && to == 8);
    let digits = recorded_digits(text, from, to);
    assert(digits =~= h);
    lemma_hex8_value(crc, 8);
    assert(h.take(8) =~= h);
    assert(crc >> 0u32 == crc) by (bit_vector);
}

/// Classifies a character as Unicode white space.
fn is_white_space_char(c: char) -> (white: bool)
    ensures
        white == is_white_space(c),
{
    c == ' ' || ('\t' <= c && c <= '\r') || c == '\u{85}' || c == '\u{a0}' || c == '\u{1680}'
        || ('\u{2000}' <= c && c <= '\u{200a}') || c == '\u{2028}' || c == '\u{2029}' || c == '\u{202f}'
        || c == '\u{205f}' || c == '\u{3000}'
}

/// The part of a version name before its last `.` (the whole name when it
/// has none): the stem a path extension replaces.
pub open spec fn version_stem(version: Seq<char>) -> Seq<char> {
    if exists|i: int| 0 <= i < version.len() && version[i] == '.' {
        version.take(last_dot(version))
    } else {
        version
    }
}

/// The position of the last `.` in `s`.
pub open spec fn last_dot(s: Seq<char>) -> int {
    choose|i: int| 0 <= i < s.len() && s[i] == '.' && forall|j: int| i < j < s.len() ==> s[j] != '.'
}

/// Where seeding a library under a root writes, and what it records.
pub struct SeedPlan {
    /// CRC of the bundle.
    pub crc: u32,
    /// The published version directory.
    pub version_root: String,
    /// The CRC manifest inside the published version directory.
    pub manifest_path: String,
    /// The sibling directory files are extracted into before publishing.
    pub staging_root: String,
    /// The CRC manifest inside the staging directory.
    pub staging_manifest: String,
    /// Where an existing version directory is moved while it is replaced.
    pub backup_root: String,
    /// The text the manifest records.
    pub manifest_text: String,
    /// The extraction target of each file, in library order.
    pub file_targets: Vec<String>,
}

/// `true` when `plan` is the plan for seeding `library` under `root` from
/// process `process_id`.
pub open spec fn is_seed_plan(plan: SeedPlan, root: Seq<char>, library: SeededLibrary, process_id: u32) -> bool {
    let version = library.version@;
    let pid = decimal_text(process_id as nat);
    &&& plan.crc == library_crc(library)
    &&& plan.version_root@ == join_path(root, version)
    &&& plan.manifest_path@ == join_path(join_path(root, version), STANDARD_LIBRARY_CRC_FILENAME@)
    &&& plan.staging_root@ == join_path(root, seq!['.'] + version + ".extracting."@ + pid)
    &&& plan.staging_manifest@ == join_path(plan.staging_root@, STANDARD_LIBRARY_CRC_FILENAME@)
    &&& plan.backup_root@ == join_path(root, version_stem(version) + ".replacing."@ + pid)
    &&& plan.manifest_text@ == manifest_text(library_crc(library))
    &&& plan.file_targets@.len() == library.files@.len()
    &&& forall|i: int| 0 <= i < library.files@.len() ==> (#[trigger] plan.file_targets@[i])@ == join_path(
        plan.staging_root@,
        library.files@[i].path@,
    )
}

/// Computes the stem of a version name.
fn stem_of(version: &str) -> (stem: String)
    ensures
        stem@ == version_stem(version@),
{
    let len = version.unicode_len();
    let mut i: usize = len;
    while i > 0 && version.get_char(i - 1) != '.'
        invariant
            len == version@.len(),
            i <= len,
            forall|j: int| i <= j < len ==> version@[j] != '.',
        decreases i,
    {
        i = i - 1;
    }
    if i == 0 {
        assert(!exists|j: int| 0 <= j < version@.len() && version@[j] == '.');
        owned(version)
    } else {
        let k = i - 1;
        assert(version@[k as int] == '.');
        assert(exists|j: int| 0 <= j < version@.len() && version@[j] == '.');
        let ghost chosen = last_dot(version@);
        assert(0 <= chosen < version@.len() && version@[chosen] == '.' && forall|j: int| chosen < j < version@.len() ==> version@[j] != '.');
        assert(chosen == k as int) by {
            if chosen < k {
                assert(version@[k as int] != '.');
            }
            if chosen > k {
                assert(version@[chosen] != '.');
            }
        }
        crate::text::owned_range(version, 0, k)
    }
}

/// Validates `library` and plans seeding it under `root`. The version must be
/// dot-separated digit runs and no file path may escape the version root
/// (the first escaping file is reported).
pub fn plan_seed(root: &str, library: &SeededLibrary, process_id: u32) -> (plan: Result<SeedPlan, ModuleLibrarySeedError>)
    ensures
        !valid_version_name(library.version@) ==> (plan matches Err(ModuleLibrarySeedError::InvalidVersion { version })
            && version@ == library.version@),
        valid_version_name(library.version@) && (exists|i: int| 0 <= i < library.files@.len() && escapes_root(#[trigger] library.files@[i].path@))
            ==> (plan matches Err(ModuleLibrarySeedError::PathEscape { path }) && exists|k: int|
                0 <= k < library.files@.len() && escapes_root(library.files@[k].path@) && library.files@[k].path@ == path@
                    && forall|j: int| 0 <= j < k ==> !escapes_root(#[trigger] library.files@[j].path@)),
        valid_version_name(library.version@) && (forall|i: int| 0 <= i < library.files@.len() ==> !escapes_root(#[trigger] library.files@[i].path@))
            ==> (plan matches Ok(p) && is_seed_plan(p, root@, *library, process_id)),
{
    validate_version(library.version.as_str())?;
    let mut i: usize = 0;
    while i < library.files.len()
        invariant
            i <= library.files@.len(),
            valid_version_name(library.version@),
            forall|j: int| 0 <= j < i ==> !escapes_root(#[trigger] library.files@[j].path@),
        decreases library.files@.len() - i,
    {
        reject_file_path_escape(library.files[i].path.as_str())?;
        i = i + 1;
    }
    let crc = seeded_library_crc(library);
    let version = library.version.as_str();
    let pid = decimal_string(process_id as u64);
    proof {
        reveal_strlit(".");
        reveal_strlit(".extracting.");
        reveal_strlit(".replacing.");
    }
    let version_root = join(root, version);
    let manifest_path = join(version_root.as_str(), STANDARD_LIBRARY_CRC_FILENAME);
    let mut staging_name = concat3(".", version, ".extracting.");
    staging_name.append(pid.as_str());
    assert(staging_name@ == seq!['.'] + version@ + ".extracting."@ + pid@);
    let staging_root = join(root, staging_name.as_str());
    let staging_manifest = join(staging_root.as_str(), STANDARD_LIBRARY_CRC_FILENAME);
    let stem = stem_of(version);
    let mut backup_name = concat2(stem.as_str(), ".replacing.");
    backup_name.append(pid.as_str());
    let backup_root = join(root, backup_name.as_str());
    let mut file_targets: Vec<String> = Vec::with_capacity(library.files.len());
    let mut k: usize = 0;
    while k < library.files.len()
        invariant
            k <= library.files@.len(),
            file_targets@.len() == k,
            forall|j: int| 0 <= j < k ==> (#[trigger] file_targets@[j])@ == join_path(staging_root@, library.files@[j].path@),
        decreases library.files@.len() - k,
    {
        file_targets.push(join(staging_root.as_str(), library.files[k].path.as_str()));
        k = k + 1;
    }
    Ok(SeedPlan {
        crc,
        version_root,
        manifest_path,
        staging_root,
        staging_manifest,
        backup_root,
        manifest_text: format_crc(crc),
        file_targets,
    })
}

/// The result of a seed attempt that found `recorded` in the version's
/// manifest: skipped when it matches the bundle's CRC, `None` when the
/// version must be extracted.
pub fn skipped_if_unchanged(library: &SeededLibrary, crc: u32, recorded: Option<u32>) -> (skipped: Option<SeedResult>)
    ensures
        recorded == Some(crc) ==> (skipped matches Some(SeedResult::SkippedUnchanged { version, crc: c })
            && version@ == library.version@ && c == crc),
        recorded != Some(crc) ==> skipped is None,
{
    match recorded {
        Some(value) => if value == crc {
            Some(SeedResult::SkippedUnchanged { version: owned(library.version.as_str()), crc })
        } else {
            None
        },
        None => None,
    }
}

/// The result of a seed attempt that extracted the library.
pub fn extracted_result(library: &SeededLibrary, crc: u32) -> (result: SeedResult)
    ensures
        result matches SeedResult::Extracted { version, crc: c } && version@ == library.version@ && c == crc,
{
    SeedResult::Extracted { version: owned(library.version.as_str()), crc }
}

} // verus!
