//! Module package format.
//!
//! A reusable module ships as a self-contained folder package: a directory
//! `<name>/` holding an entry YAML `<name>.yaml` whose file name mirrors the
//! folder name, plus any co-located resources. The package references that
//! a package's definitions make are listed, so that the packages they name
//! can be loaded into the same definition registry.
use vstd::prelude::*;

use crate::diagnostics::{plain_error, Diagnostic, ErrorCode, Severity};
use crate::kernel::{DefinitionRegistry, GraphDefinition};
use crate::module_reference::{
    is_external_reference, is_reference, reference_error_code, reference_error_message, ModuleReferenceError,
};
use crate::name_map::{ascending, lemma_lookup_at, lookup_pairs, pair_names, NameMap};
use crate::text::{concat3, owned, str_eq};

verus! {

/// Extension of a module package entry YAML file.
pub const PACKAGE_ENTRY_EXTENSION: &'static str = "yaml";

/// Failure to load a module package.
#[derive(Debug, PartialEq, Eq)]
pub enum ModulePackageError {
    /// The reference could not be resolved to an on-disk path.
    Reference(ModuleReferenceError),
    /// The entry YAML could not be read.
    ReadFailed { path: String, message: String },
    /// The entry file name does not mirror its folder name.
    NameMismatch { path: String, expected: String },
    /// Kernel graph-definition parsing or validation failed.
    Kernel(Diagnostic),
}

/// The diagnostic code each package failure maps to.
pub open spec fn package_error_code(error: ModulePackageError) -> ErrorCode {
    match error {
        ModulePackageError::Reference(reference) => reference_error_code(reference@),
        ModulePackageError::ReadFailed { .. } => ErrorCode::LibraryPackageReadFailed,
        ModulePackageError::NameMismatch { .. } => ErrorCode::LibraryPackageNameMismatch,
        ModulePackageError::Kernel(diagnostic) => diagnostic.code,
    }
}

/// The message each package failure other than a kernel one is reported
/// with; a reference failure keeps its own message.
pub open spec fn package_error_message(error: ModulePackageError) -> Seq<char> {
    match error {
        ModulePackageError::Reference(reference) => reference_error_message(reference@),
        ModulePackageError::ReadFailed { path, message } => "failed to read module package "@ + path@ + ": "@
            + message@,
        ModulePackageError::NameMismatch { path, expected } => "module package entry "@ + path@ + " must be named "@
            + expected@ + "."@ + PACKAGE_ENTRY_EXTENSION@ + " to mirror its folder"@,
        ModulePackageError::Kernel(diagnostic) => diagnostic.message@,
    }
}

impl ModulePackageError {
    /// Renders the error as a validation diagnostic: a kernel failure is its
    /// own diagnostic; every other failure is an error with its code.
    pub fn to_diagnostic(&self) -> (diagnostic: Diagnostic)
        ensures
            match self {
                ModulePackageError::Kernel(d) => diagnostic == *d,
                _ => plain_error(diagnostic, package_error_code(*self), package_error_message(*self)),
            },
    {
        match self {
            ModulePackageError::Reference(error) => error.to_diagnostic(),
            ModulePackageError::ReadFailed { path, message } => {
                let mut text = concat3("failed to read module package ", path.as_str(), ": ");
                text.append(message.as_str());
                Diagnostic::new(ErrorCode::LibraryPackageReadFailed, Severity::Error, text)
            },
            ModulePackageError::NameMismatch { path, expected } => {
                let mut text = concat3("module package entry ", path.as_str(), " must be named ");
                text.append(expected.as_str());
                text.append(".");
                text.append(PACKAGE_ENTRY_EXTENSION);
                text.append(" to mirror its folder");
                Diagnostic::new(ErrorCode::LibraryPackageNameMismatch, Severity::Error, text)
            },
            ModulePackageError::Kernel(diagnostic) => diagnostic.clone(),
        }
    }
}

impl From<ModuleReferenceError> for ModulePackageError {
    fn from(error: ModuleReferenceError) -> (package_error: Self) {
        ModulePackageError::Reference(error)
    }
}

impl vstd::std_specs::convert::FromSpecImpl<ModuleReferenceError> for ModulePackageError {
    open spec fn obeys_from_spec() -> bool {
        true
    }

    open spec fn from_spec(error: ModuleReferenceError) -> ModulePackageError {
        ModulePackageError::Reference(error)
    }
}

/// What `std::path::Path::parent` returns for the path `path`, as text.
pub uninterp spec fn path_parent(path: Seq<char>) -> Option<Seq<char>>;

/// What `std::path::Path::file_name` returns for the path `path`, as text.
pub uninterp spec fn path_file_name(path: Seq<char>) -> Option<Seq<char>>;

/// The path `path` without its final component (`std::path::Path::parent`).
/// The contract claims only that the result is a function of the path text.
#[verifier::external_body]
fn parent_of(path: &str) -> (parent: Option<String>)
    ensures
        match parent {
            Some(p) => path_parent(path@) == Some(p@),
            None => path_parent(path@) is None,
        },
{
    std::path::Path::new(path).parent().map(|p| p.to_string_lossy().into_owned())
}

/// The final component of the path `path` (`std::path::Path::file_name`).
/// The contract claims only that the result is a function of the path text.
#[verifier::external_body]
fn file_name_of(path: &str) -> (name: Option<String>)
    ensures
        match name {
            Some(n) => path_file_name(path@) == Some(n@),
            None => path_file_name(path@) is None,
        },
{
    std::path::Path::new(path).file_name().map(|n| n.to_string_lossy().into_owned())
}

/// The folder a package entry at `path` lives in: its parent, or `.` when it
/// has none.
pub open spec fn package_folder(path: Seq<char>) -> Seq<char> {
    match path_parent(path) {
        Some(parent) => parent,
        None => "."@,
    }
}

/// The package root and name check for the entry at `path`, given what the
/// path functions answer: `parent` for the entry's parent, `folder` for the
/// final name of the package root (the parent, or `.` without one) and
/// `entry` for the entry's own final name. The root is the parent, or `.`;
/// when the root has a final name, the entry must be named after it with the
/// `.yaml` extension.
pub fn check_package_entry(
    path: &str,
    parent: Option<String>,
    folder: Option<String>,
    entry: Option<String>,
) -> (root: Result<String, ModulePackageError>)
    ensures
        ({
            let root_text = match parent {
                Some(p) => p@,
                None => "."@,
            };
            match folder {
                Some(f) => if (entry matches Some(e) && e@ == f@ + "."@ + PACKAGE_ENTRY_EXTENSION@) {
                    root matches Ok(r) && r@ == root_text
                } else {
                    root matches Err(ModulePackageError::NameMismatch { path: p, expected }) && p@ == path@
                        && expected@ == f@
                },
                None => root matches Ok(r) && r@ == root_text,
            }
        }),
{
    let root = match parent {
        Some(parent) => parent,
        None => owned("."),
    };
    match folder {
        Some(folder) => {
            let expected = concat3(folder.as_str(), ".", PACKAGE_ENTRY_EXTENSION);
            let matches = match &entry {
                Some(name) => str_eq(name.as_str(), expected.as_str()),
                None => false,
            };
            if matches {
                Ok(root)
            } else {
                Err(ModulePackageError::NameMismatch { path: owned(path), expected: folder })
            }
        },
        None => Ok(root),
    }
}

/// Checks that the package entry at `path` is named after its folder (the
/// folder's name with the `.yaml` extension) and returns the folder, the
/// package root. A folder without a final name imposes no check.
pub fn validate_package_entry_path(path: &str) -> (root: Result<String, ModulePackageError>)
    ensures
        match path_file_name(package_folder(path@)) {
            Some(folder) => if path_file_name(path@) == Some(folder + "."@ + PACKAGE_ENTRY_EXTENSION@) {
                root matches Ok(r) && r@ == package_folder(path@)
            } else {
                root matches Err(ModulePackageError::NameMismatch { path: p, expected }) && p@ == path@ && expected@
                    == folder
            },
            None => root matches Ok(r) && r@ == package_folder(path@),
        },
{
    let parent = parent_of(path);
    let root_text = match &parent {
        Some(p) => p.clone(),
        None => owned("."),
    };
    let folder = file_name_of(root_text.as_str());
    let entry = file_name_of(path);
    check_package_entry(path, parent, folder, entry)
}

/// `def` has a node instantiating `reference`.
pub open spec fn instantiates(def: GraphDefinition, reference: Seq<char>) -> bool {
    exists|i: int| 0 <= i < def.nodes@.len() && (#[trigger] def.nodes@[i]).definition_ref@ == reference
}

/// Some definition of `registry` has a node instantiating `reference`.
pub open spec fn registry_instantiates(registry: DefinitionRegistry, reference: Seq<char>) -> bool {
    exists|name: Seq<char>| #[trigger] registry.lookup(name) matches Some(d) && instantiates(d, reference)
}

/// `reference` is an external reference instantiated by `root` or by a
/// definition of `registry`.
pub open spec fn referenced_externally(root: GraphDefinition, registry: DefinitionRegistry, reference: Seq<char>) -> bool {
    &&& is_reference(reference)
    &&& instantiates(root, reference) || registry_instantiates(registry, reference)
}

/// Adds every external reference a node of `def` instantiates to `found`.
fn add_external_references(def: &GraphDefinition, found: &mut NameMap<bool>)
    ensures
        forall|r: Seq<char>|
            (#[trigger] final(found).lookup(r) is Some) == (old(found).lookup(r) is Some || (is_reference(r)
                && instantiates(*def, r))),
{
    let mut i: usize = 0;
    while i < def.nodes.len()
        invariant
            i <= def.nodes@.len(),
            forall|r: Seq<char>|
                (#[trigger] found.lookup(r) is Some) == (old(found).lookup(r) is Some || (is_reference(r) && exists|j: int|
                    0 <= j < i && (#[trigger] def.nodes@[j]).definition_ref@ == r)),
        decreases def.nodes@.len() - i,
    {
        let reference = def.nodes[i].definition_ref.as_str();
        let ghost before = *found;
        if is_external_reference(reference) {
            found.insert(reference, true);
        }
        proof {
            assert forall|r: Seq<char>|
                (#[trigger] found.lookup(r) is Some) == (old(found).lookup(r) is Some || (is_reference(r) && exists|j: int|
                    0 <= j < i + 1 && (#[trigger] def.nodes@[j]).definition_ref@ == r)) by {
                if r == reference@ && is_reference(r) {
                    assert(def.nodes@[i as int].definition_ref@ == r);
                } else if exists|j: int| 0 <= j < i + 1 && (#[trigger] def.nodes@[j]).definition_ref@ == r {
                    let j = choose|j: int| 0 <= j < i + 1 && (#[trigger] def.nodes@[j]).definition_ref@ == r;
                    if j == i {
                        assert(r == reference@);
                    }
                }
            }
        }
        i = i + 1;
    }
}

/// The external references instantiated by `root` or by any definition of
/// `registry`, each once, in ascending order.
pub fn external_references(root: &GraphDefinition, registry: &DefinitionRegistry) -> (references: Vec<String>)
    ensures
        ascending(references@.map_values(|r: String| r@)),
        forall|r: Seq<char>|
            referenced_externally(*root, *registry, r) <==> references@.map_values(|s: String| s@).contains(r),
{
    let mut found: NameMap<bool> = NameMap::new();
    add_external_references(root, &mut found);
    let definitions = registry.definitions();
    definitions.assert_wf();
    let ghost pairs = definitions.pairs();
    let mut k: usize = 0;
    while k < definitions.len()
        invariant
            k <= pairs.len(),
            pairs == definitions.pairs(),
            *definitions == registry.definitions,
            crate::name_map::distinct_names(pairs),
            forall|r: Seq<char>|
                (#[trigger] found.lookup(r) is Some) == (is_reference(r) && (instantiates(*root, r) || exists|t: int|
                    0 <= t < k && instantiates(#[trigger] pairs[t].1, r))),
        decreases pairs.len() - k,
    {
        let ghost before = found;
        add_external_references(definitions.value_at(k), &mut found);
        proof {
            assert forall|r: Seq<char>|
                (#[trigger] found.lookup(r) is Some) == (is_reference(r) && (instantiates(*root, r) || exists|t: int|
                    0 <= t < k + 1 && instantiates(#[trigger] pairs[t].1, r))) by {
                if is_reference(r) && instantiates(pairs[k as int].1, r) {
                    assert(found.lookup(r) is Some);
                }
            }
        }
        k = k + 1;
    }
    proof {
        assert forall|r: Seq<char>| #[trigger] registry_instantiates(*registry, r) == (exists|t: int|
            0 <= t < pairs.len() && instantiates(#[trigger] pairs[t].1, r)) by {
            if exists|t: int| 0 <= t < pairs.len() && instantiates(#[trigger] pairs[t].1, r) {
                let t = choose|t: int| 0 <= t < pairs.len() && instantiates(#[trigger] pairs[t].1, r);
                lemma_lookup_at(pairs, t);
                assert(registry.lookup(pairs[t].0) == Some(pairs[t].1));
            }
            if exists|name: Seq<char>| #[trigger] registry.lookup(name) matches Some(d) && instantiates(d, r) {
                let name = choose|name: Seq<char>| #[trigger] registry.lookup(name) matches Some(d) && instantiates(d, r);
                let t = choose|t: int| 0 <= t < pairs.len() && pairs[t].0 == name;
                assert(registry.lookup(name) == Some(pairs[t].1));
            }
        }
    }
    found.assert_wf();
    proof {
        found.lemma_ascending();
    }
    let mut references: Vec<String> = Vec::new();
    let mut i: usize = 0;
    while i < found.len()
        invariant
            i <= found.pairs().len(),
            references@.map_values(|r: String| r@) == pair_names(found.pairs()).take(i as int),
        decreases found.pairs().len() - i,
    {
        let name = owned(found.name_at(i));
        let ghost before = references@;
        references.push(name);
        proof {
            assert(references@.map_values(|r: String| r@) =~= before.map_values(|r: String| r@).push(name@));
            assert(references@.map_values(|r: String| r@) =~= pair_names(found.pairs()).take(i + 1));
        }
        i = i + 1;
    }
    proof {
        let names = pair_names(found.pairs());
        assert(names.take(i as int) =~= names);
        assert forall|r: Seq<char>| referenced_externally(*root, *registry, r) <==> names.contains(r) by {
            if names.contains(r) {
                let j = choose|j: int| 0 <= j < names.len() && names[j] == r;
                assert(found.pairs()[j].0 == r);
                assert(lookup_pairs(found.pairs(), r) is Some);
            }
            if found.lookup(r) is Some {
                let j = choose|j: int| 0 <= j < found.pairs().len() && found.pairs()[j].0 == r;
                assert(names[j] == r);
            }
        }
    }
    references
}

/// The registry `base` after registering each definition of `defs` in order,
/// a later one replacing an earlier one of the same name.
pub open spec fn registered_after(base: DefinitionRegistry, defs: Seq<GraphDefinition>, name: Seq<char>) -> Option<
    GraphDefinition,
>
    decreases defs.len(),
{
    if defs.len() == 0 {
        base.lookup(name)
    } else if defs.last().name@ == name {
        Some(defs.last())
    } else {
        registered_after(base, defs.drop_last(), name)
    }
}

/// The definitions of `registry`, in name order.
pub open spec fn registry_definitions(registry: DefinitionRegistry) -> Seq<GraphDefinition> {
    registry.definitions.pairs().map_values(|p: (Seq<char>, GraphDefinition)| p.1)
}

/// Position of the first of `pending` that `registry` does not hold yet (the
/// length when it holds them all).
pub open spec fn first_unloaded(registry: DefinitionRegistry, pending: Seq<String>) -> int
    decreases pending.len(),
{
    if pending.len() == 0 {
        0
    } else if registry.lookup(pending[0]@) is None {
        0
    } else {
        1 + first_unloaded(registry, pending.drop_first())
    }
}

proof fn lemma_first_unloaded(registry: DefinitionRegistry, pending: Seq<String>)
    ensures
        0 <= first_unloaded(registry, pending) <= pending.len(),
        first_unloaded(registry, pending) < pending.len() ==> registry.lookup(
            pending[first_unloaded(registry, pending)]@,
        ) is None,
        forall|j: int| 0 <= j < first_unloaded(registry, pending) ==> registry.lookup(#[trigger] pending[j]@) is Some,
    decreases pending.len(),
{
    if pending.len() > 0 && registry.lookup(pending[0]@) is Some {
        let rest = pending.drop_first();
        lemma_first_unloaded(registry, rest);
        assert forall|j: int| 0 <= j < first_unloaded(registry, pending) implies registry.lookup(
            #[trigger] pending[j]@,
        ) is Some by {
            if j > 0 {
                assert(pending[j] == rest[j - 1]);
            }
        }
        if first_unloaded(registry, pending) < pending.len() {
            assert(pending[first_unloaded(registry, pending)] == rest[first_unloaded(registry, rest)]);
        }
    }
}

/// Takes the next package reference to load off the front of `pending`,
/// passing over those `registry` already holds: the reference, if any is
/// left, and what remains after it.
pub fn next_unloaded(registry: &DefinitionRegistry, pending: Vec<String>) -> (next: (Option<String>, Vec<String>))
    ensures
        ({
            let k = first_unloaded(*registry, pending@);
            if k < pending@.len() {
                next.0 matches Some(r) && r@ == pending@[k]@ && next.1@ == pending@.skip(k + 1)
            } else {
                next.0 is None && next.1@.len() == 0
            }
        }),
{
    proof {
        lemma_first_unloaded(*registry, pending@);
    }
    let ghost all = pending@;
    let mut rest = pending;
    while rest.len() > 0
        invariant
            all == pending@,
            0 <= all.len() - rest@.len() <= first_unloaded(*registry, all),
            rest@ == all.skip(all.len() - rest@.len()),
            0 <= first_unloaded(*registry, all) <= all.len(),
            first_unloaded(*registry, all) < all.len() ==> registry.lookup(all[first_unloaded(*registry, all)]@) is None,
            forall|j: int| 0 <= j < first_unloaded(*registry, all) ==> registry.lookup(#[trigger] all[j]@) is Some,
        decreases rest@.len(),
    {
        let ghost taken = all.len() - rest@.len();
        let reference = rest.remove(0);
        proof {
            assert(reference == all[taken]);
            assert(rest@ =~= all.skip(taken + 1));
        }
        match registry.get(reference.as_str()) {
            None => {
                proof {
                    if taken < first_unloaded(*registry, all) {
                        assert(registry.lookup(all[taken]@) is Some);
                    }
                    assert(taken == first_unloaded(*registry, all));
                }
                return (Some(reference), rest);
            },
            Some(_) => {},
        }
    }
    (None, rest)
}

/// Merges a loaded nested package into `registry`: every definition of its
/// own registry in name order, then the package's definition; and queues the
/// external references they make after `pending`.
pub fn absorb_package(
    registry: DefinitionRegistry,
    pending: Vec<String>,
    nested: GraphDefinition,
    nested_registry: DefinitionRegistry,
) -> (next: (DefinitionRegistry, Vec<String>))
    ensures
        forall|name: Seq<char>|
            #[trigger] next.0.lookup(name) == registered_after(
                registry,
                registry_definitions(nested_registry).push(nested),
                name,
            ),
        next.1@.take(pending@.len() as int) == pending@,
        ascending(next.1@.skip(pending@.len() as int).map_values(|r: String| r@)),
        forall|r: Seq<char>|
            referenced_externally(nested, nested_registry, r) <==> next.1@.skip(pending@.len() as int).map_values(
                |s: String| s@,
            ).contains(r),
{
    let references = external_references(&nested, &nested_registry);
    let ghost defs = registry_definitions(nested_registry);
    let values = nested_registry.definitions.into_values();
    let mut registry = registry;
    let ghost base = registry;
    let mut values = values;
    while values.len() > 0
        invariant
            defs.len() == (defs.len() - values@.len()) + values@.len(),
            values@.len() <= defs.len(),
            values@ == defs.skip(defs.len() - values@.len()),
            forall|name: Seq<char>|
                #[trigger] registry.lookup(name) == registered_after(base, defs.take(defs.len() - values@.len()), name),
        decreases values@.len(),
    {
        let ghost done = defs.len() - values@.len();
        let definition = values.remove(0);
        proof {
            assert(definition == defs[done]);
            assert(values@ =~= defs.skip(done + 1));
            assert(defs.take(done + 1).drop_last() =~= defs.take(done));
        }
        registry = registry.with_definition(definition);
    }
    proof {
        assert(defs.take(defs.len() as int) =~= defs);
    }
    registry = registry.with_definition(nested);
    proof {
        assert(defs.push(nested).drop_last() =~= defs);
    }
    let ghost before = pending@;
    let mut pending = pending;
    let mut i: usize = 0;
    while i < references.len()
        invariant
            i <= references@.len(),
            pending@ == before + references@.take(i as int),
        decreases references@.len() - i,
    {
        pending.push(references[i].clone());
        proof {
            assert(pending@ =~= before + references@.take(i + 1));
        }
        i = i + 1;
    }
    proof {
        assert(references@.take(references@.len() as int) =~= references@);
        assert(pending@.take(before.len() as int) =~= before);
        assert(pending@.skip(before.len() as int) =~= references@);
    }
    (registry, pending)
}

} // verus!
