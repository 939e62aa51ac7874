//! A parsed YAML value tree, and the check that turns away document shapes
//! the kernel front end no longer accepts.
use vstd::prelude::*;

use crate::diagnostics::{Diagnostic, Diagnostics, ErrorCode, Severity};
use crate::text::{concat3, contains_pair, has_pair, owned, str_eq};
use crate::kernel::document::text_of_str;
use crate::validation::{findings_of, text_of, Finding};

verus! {

/// A YAML value. Numbers are kept only as far as the front end reads them:
/// an integer that fits in `i64`, or some other number.
#[derive(Debug, PartialEq, Eq)]
pub enum YamlValue {
    Null,
    Bool(bool),
    Int(i64),
    OtherNumber,
    Str(String),
    Sequence(Vec<YamlValue>),
    Mapping(Vec<YamlEntry>),
    Tagged(Box<YamlValue>),
}

/// One key/value pair of a YAML mapping.
#[derive(Debug, PartialEq, Eq)]
pub struct YamlEntry {
    pub key: YamlValue,
    pub value: YamlValue,
}

pub const FIELD_RENDER: &'static str = "render";

pub const FIELD_VOICE_ALLOCATION: &'static str = "voice_allocation";

pub const FIELD_PARAMETERS: &'static str = "parameters";

pub const FIELD_ASSET_BINDINGS: &'static str = "asset_bindings";

pub const FIELD_MODULE_DEFINITIONS: &'static str = "module_definitions";

pub const FIELD_MODULES: &'static str = "modules";

pub const FIELD_TYPE: &'static str = "type";

pub const FIELD_ID: &'static str = "id";

pub const RENDER_REPLACEMENT: &'static str = "render settings belong to the host or render invocation";

pub const VOICE_ALLOCATION_REPLACEMENT: &'static str = "voice allocation is expressed with a poly node";

pub const ASSET_BINDINGS_REPLACEMENT: &'static str = "declare assets as resource static parameters";

pub const DEFINITION_PARAMETERS_REPLACEMENT: &'static str = "declare tunables as public control input ports";

pub const MODULE_PARAMETERS_REPLACEMENT: &'static str =
    "use static for construction-time values or defaults for control input overrides";

pub const LEGACY_BINDING_MESSAGE: &'static str =
    "legacy '${name}' binding syntax is not supported; use '$name' only for static parameter pass-through and maps_to for public control ports";

pub const LEGACY_BINDING_FIX: &'static str =
    "replace static ${name} with $name, or map a public control port with maps_to";

/// `text` holds the legacy `${` binding prefix.
pub open spec fn legacy_binding_text(text: Seq<char>) -> bool {
    has_pair(text, '$', '{')
}

/// Some string anywhere in `value` (keys included) holds the legacy `${`
/// binding prefix.
pub open spec fn mentions_legacy_binding(value: YamlValue) -> bool
    decreases value,
{
    match value {
        YamlValue::Str(text) => legacy_binding_text(text@),
        YamlValue::Sequence(items) => exists|i: int|
            #![trigger items@[i]]
            0 <= i < items@.len() && mentions_legacy_binding(items@[i]),
        YamlValue::Mapping(entries) => exists|i: int|
            #![trigger entries@[i]]
            0 <= i < entries@.len() && (mentions_legacy_binding(entries@[i].key) || mentions_legacy_binding(
                entries@[i].value,
            )),
        YamlValue::Tagged(inner) => mentions_legacy_binding(*inner),
        _ => false,
    }
}

/// Position of the first entry of `entries` whose key is the string `name`
/// (the length when none is).
pub open spec fn field_position(entries: Seq<YamlEntry>, name: Seq<char>) -> int
    decreases entries.len(),
{
    if entries.len() == 0 {
        0
    } else {
        let i = field_position(entries.drop_last(), name);
        if i < entries.len() - 1 {
            i
        } else if entries.last().key matches YamlValue::Str(k) && k@ == name {
            entries.len() - 1
        } else {
            entries.len() as int
        }
    }
}

/// The value of the field `name` of a mapping.
pub open spec fn field(entries: Seq<YamlEntry>, name: Seq<char>) -> Option<YamlValue> {
    let i = field_position(entries, name);
    if 0 <= i < entries.len() {
        Some(entries[i].value)
    } else {
        None
    }
}

/// The string held by the field `name` of a mapping, when it holds one.
pub open spec fn string_field(entries: Seq<YamlEntry>, name: Seq<char>) -> Option<Seq<char>> {
    match field(entries, name) {
        Some(YamlValue::Str(s)) => Some(s@),
        _ => None,
    }
}

/// A refusal of a legacy shape: its code, message, the module or definition
/// it is about when known, and the suggested fix.
pub struct LegacyRefusal {
    pub code: ErrorCode,
    pub message: Seq<char>,
    pub context: Option<Seq<char>>,
    pub fix: Seq<char>,
}

/// The refusal of a legacy field `name` found in a mapping.
pub open spec fn field_refusal(
    name: Seq<char>,
    code: ErrorCode,
    replacement: Seq<char>,
    context: Option<Seq<char>>,
) -> LegacyRefusal {
    LegacyRefusal {
        code,
        message: "legacy field '"@ + name + "' is not supported in kernel documents; "@ + replacement,
        context,
        fix: replacement,
    }
}

/// The refusal of the first of the first `n` node entries that has a legacy
/// `parameters` field or mentions a legacy binding.
pub open spec fn modules_refusal(modules: Seq<YamlValue>, n: nat) -> Option<LegacyRefusal>
    decreases n,
{
    if n == 0 || n > modules.len() {
        None
    } else {
        match modules_refusal(modules, (n - 1) as nat) {
            Some(r) => Some(r),
            None => match modules[n - 1] {
                YamlValue::Mapping(entries) => {
                    let id = string_field(entries@, FIELD_ID@);
                    if field(entries@, FIELD_PARAMETERS@) is Some {
                        Some(
                            field_refusal(
                                FIELD_PARAMETERS@,
                                ErrorCode::KernelDocumentLegacyParameters,
                                MODULE_PARAMETERS_REPLACEMENT@,
                                id,
                            ),
                        )
                    } else if mentions_legacy_binding(modules[n - 1]) {
                        Some(
                            LegacyRefusal {
                                code: ErrorCode::KernelDocumentLegacyBinding,
                                message: LEGACY_BINDING_MESSAGE@,
                                context: id,
                                fix: LEGACY_BINDING_FIX@,
                            },
                        )
                    } else {
                        None
                    }
                },
                _ => None,
            },
        }
    }
}

/// The refusal for a `modules` field: only a sequence is looked into.
pub open spec fn modules_field_refusal(value: Option<YamlValue>) -> Option<LegacyRefusal> {
    match value {
        Some(YamlValue::Sequence(items)) => modules_refusal(items@, items@.len()),
        _ => None,
    }
}

/// The refusal for the first of the first `n` composite definitions that
/// carries a legacy field or a legacy node.
pub open spec fn definitions_refusal(definitions: Seq<YamlValue>, n: nat) -> Option<LegacyRefusal>
    decreases n,
{
    if n == 0 || n > definitions.len() {
        None
    } else {
        match definitions_refusal(definitions, (n - 1) as nat) {
            Some(r) => Some(r),
            None => match definitions[n - 1] {
                YamlValue::Mapping(entries) => {
                    let name = string_field(entries@, FIELD_TYPE@);
                    if field(entries@, FIELD_ASSET_BINDINGS@) is Some {
                        Some(
                            field_refusal(
                                FIELD_ASSET_BINDINGS@,
                                ErrorCode::KernelDocumentLegacyAssetBindings,
                                ASSET_BINDINGS_REPLACEMENT@,
                                name,
                            ),
                        )
                    } else if field(entries@, FIELD_PARAMETERS@) is Some {
                        Some(
                            field_refusal(
                                FIELD_PARAMETERS@,
                                ErrorCode::KernelDocumentLegacyParameters,
                                DEFINITION_PARAMETERS_REPLACEMENT@,
                                name,
                            ),
                        )
                    } else {
                        modules_field_refusal(field(entries@, FIELD_MODULES@))
                    }
                },
                _ => None,
            },
        }
    }
}

/// Why a document value has a legacy shape, if it has one: the first of the
/// root fields `render`, `voice_allocation`, `asset_bindings`, then the root
/// nodes, then each composite definition in order.
pub open spec fn legacy_refusal(value: YamlValue) -> Option<LegacyRefusal> {
    match value {
        YamlValue::Mapping(root) => if field(root@, FIELD_RENDER@) is Some {
            Some(field_refusal(FIELD_RENDER@, ErrorCode::KernelDocumentLegacyRender, RENDER_REPLACEMENT@, None))
        } else if field(root@, FIELD_VOICE_ALLOCATION@) is Some {
            Some(
                field_refusal(
                    FIELD_VOICE_ALLOCATION@,
                    ErrorCode::KernelDocumentLegacyVoiceAllocation,
                    VOICE_ALLOCATION_REPLACEMENT@,
                    None,
                ),
            )
        } else if field(root@, FIELD_ASSET_BINDINGS@) is Some {
            Some(
                field_refusal(
                    FIELD_ASSET_BINDINGS@,
                    ErrorCode::KernelDocumentLegacyAssetBindings,
                    ASSET_BINDINGS_REPLACEMENT@,
                    None,
                ),
            )
        } else {
            match modules_field_refusal(field(root@, FIELD_MODULES@)) {
                Some(r) => Some(r),
                None => match field(root@, FIELD_MODULE_DEFINITIONS@) {
                    Some(YamlValue::Sequence(definitions)) => definitions_refusal(
                        definitions@,
                        definitions@.len(),
                    ),
                    _ => None,
                },
            }
        },
        _ => None,
    }
}

/// The document value has a shape the kernel front end turns away.
pub open spec fn legacy_shape(value: YamlValue) -> bool {
    legacy_refusal(value) is Some
}

/// `d` reports `refusal`.
pub open spec fn reports_refusal(d: Diagnostic, refusal: LegacyRefusal) -> bool {
    &&& d.code == refusal.code
    &&& d.severity == Severity::Error
    &&& d.message@ == refusal.message
    &&& text_of(d.module_id) == refusal.context
    &&& d.port_name is None
    &&& d.expected is None
    &&& d.actual is None
    &&& text_of(d.suggested_fix) == Some(refusal.fix)
}

/// The entry's key is the string `name`.
pub open spec fn key_is(entry: YamlEntry, name: Seq<char>) -> bool {
    entry.key matches YamlValue::Str(k) && k@ == name
}

proof fn lemma_field_position(entries: Seq<YamlEntry>, name: Seq<char>)
    ensures
        0 <= field_position(entries, name) <= entries.len(),
        field_position(entries, name) < entries.len() ==> key_is(entries[field_position(entries, name)], name),
        forall|j: int| 0 <= j < field_position(entries, name) ==> !key_is(#[trigger] entries[j], name),
    decreases entries.len(),
{
    if entries.len() > 0 {
        lemma_field_position(entries.drop_last(), name);
        let i = field_position(entries.drop_last(), name);
        assert forall|j: int| 0 <= j < field_position(entries, name) implies !key_is(#[trigger] entries[j], name) by {
            if j < entries.len() - 1 {
                assert(entries[j] == entries.drop_last()[j]);
            }
        }
        if i < entries.len() - 1 {
            assert(entries[i] == entries.drop_last()[i]);
        }
    }
}

/// The value of the field `name` of a mapping.
fn field_of<'a>(entries: &'a Vec<YamlEntry>, name: &str) -> (value: Option<&'a YamlValue>)
    ensures
        match value {
            Some(v) => field(entries@, name@) == Some(*v),
            None => field(entries@, name@) is None,
        },
{
    proof {
        lemma_field_position(entries@, name@);
    }
    let mut i: usize = 0;
    while i < entries.len()
        invariant
            i <= entries@.len(),
            0 <= field_position(entries@, name@) <= entries@.len(),
            field_position(entries@, name@) < entries@.len() ==> key_is(
                entries@[field_position(entries@, name@)],
                name@,
            ),
            forall|j: int| 0 <= j < field_position(entries@, name@) ==> !key_is(#[trigger] entries@[j], name@),
            forall|j: int| 0 <= j < i ==> !key_is(#[trigger] entries@[j], name@),
        decreases entries@.len() - i,
    {
        if let YamlValue::Str(key) = &entries[i].key {
            if str_eq(key.as_str(), name) {
                assert(key_is(entries@[i as int], name@));
                assert(field_position(entries@, name@) == i);
                return Some(&entries[i].value);
            }
        }
        i = i + 1;
    }
    None
}

/// The string held by the field `name` of a mapping, when it holds one.
pub(crate) fn string_field_of<'a>(entries: &'a Vec<YamlEntry>, name: &str) -> (text: Option<&'a str>)
    ensures
        match text {
            Some(t) => string_field(entries@, name@) == Some(t@),
            None => string_field(entries@, name@) is None,
        },
{
    match field_of(entries, name) {
        Some(YamlValue::Str(s)) => Some(s.as_str()),
        _ => None,
    }
}

proof fn lemma_item_mentions(value: YamlValue, items: Vec<YamlValue>, i: int)
    requires
        value == YamlValue::Sequence(items),
        0 <= i < items@.len(),
        mentions_legacy_binding(items@[i]),
    ensures
        mentions_legacy_binding(value),
{
    assert(value->Sequence_0@[i] == items@[i]);
}

proof fn lemma_no_item_mentions(value: YamlValue, items: Vec<YamlValue>)
    requires
        value == YamlValue::Sequence(items),
        forall|j: int| #![trigger items@[j]] 0 <= j < items@.len() ==> !mentions_legacy_binding(items@[j]),
    ensures
        !mentions_legacy_binding(value),
{
}

proof fn lemma_entry_mentions(value: YamlValue, entries: Vec<YamlEntry>, i: int)
    requires
        value == YamlValue::Mapping(entries),
        0 <= i < entries@.len(),
        mentions_legacy_binding(entries@[i].key) || mentions_legacy_binding(entries@[i].value),
    ensures
        mentions_legacy_binding(value),
{
}

proof fn lemma_no_entry_mentions(value: YamlValue, entries: Vec<YamlEntry>)
    requires
        value == YamlValue::Mapping(entries),
        forall|j: int|
            #![trigger entries@[j]]
            0 <= j < entries@.len() ==> !(mentions_legacy_binding(entries@[j].key) || mentions_legacy_binding(
                entries@[j].value,
            )),
    ensures
        !mentions_legacy_binding(value),
{
}

/// Whether some string anywhere in `value` holds the legacy `${` prefix.
fn contains_legacy_binding(value: &YamlValue) -> (found: bool)
    ensures
        found == mentions_legacy_binding(*value),
    decreases *value,
{
    match value {
        YamlValue::Str(text) => {
            let found = contains_pair(text.as_str(), '$', '{');
            assert(found == mentions_legacy_binding(*value));
            found
        },
        YamlValue::Sequence(items) => {
            let mut i: usize = 0;
            while i < items.len()
                invariant
                    *value == YamlValue::Sequence(*items),
                    i <= items@.len(),
                    forall|j: int| #![trigger items@[j]] 0 <= j < i ==> !mentions_legacy_binding(items@[j]),
                decreases items@.len() - i,
            {
                proof {
                    let ghost v = *value;
                    assert(decreases_to!(v => v->Sequence_0));
                    assert(decreases_to!(*items => items@));
                    assert(decreases_to!(items@ => items@[i as int]));
                }
                if contains_legacy_binding(&items[i]) {
                    proof {
                        lemma_item_mentions(*value, *items, i as int);
                    }
                    return true;
                }
                i = i + 1;
            }
            proof {
                lemma_no_item_mentions(*value, *items);
            }
            false
        },
        YamlValue::Mapping(entries) => {
            let mut i: usize = 0;
            while i < entries.len()
                invariant
                    *value == YamlValue::Mapping(*entries),
                    i <= entries@.len(),
                    forall|j: int|
                        #![trigger entries@[j]]
                        0 <= j < i ==> !(mentions_legacy_binding(entries@[j].key) || mentions_legacy_binding(
                            entries@[j].value,
                        )),
                decreases entries@.len() - i,
            {
                proof {
                    let ghost v = *value;
                    assert(decreases_to!(v => v->Mapping_0));
                    assert(decreases_to!(*entries => entries@));
                    assert(decreases_to!(entries@ => entries@[i as int]));
                    assert(decreases_to!(entries@[i as int] => entries@[i as int].key));
                    assert(decreases_to!(entries@[i as int] => entries@[i as int].value));
                }
                if contains_legacy_binding(&entries[i].key) || contains_legacy_binding(&entries[i].value) {
                    proof {
                        lemma_entry_mentions(*value, *entries, i as int);
                    }
                    return true;
                }
                i = i + 1;
            }
            proof {
                lemma_no_entry_mentions(*value, *entries);
            }
            false
        },
        YamlValue::Tagged(inner) => contains_legacy_binding(inner),
        _ => false,
    }
}

/// `checked` is what a check that finds `refusal` (or none) returns.
pub open spec fn refused_as(checked: Result<(), Diagnostics>, refusal: Option<LegacyRefusal>) -> bool {
    match refusal {
        None => checked is Ok,
        Some(r) => checked matches Err(d) && d@.len() == 1 && reports_refusal(d@[0], r),
    }
}

/// The finding a refusal is reported by.
pub open spec fn refusal_finding(refusal: LegacyRefusal) -> Finding {
    (refusal.code, refusal.context, None, None, None, Some(refusal.fix))
}

/// The findings a document value with a legacy shape is turned away with.
pub open spec fn legacy_findings(value: YamlValue) -> Seq<Finding> {
    match legacy_refusal(value) {
        Some(r) => seq![refusal_finding(r)],
        None => Seq::empty(),
    }
}

/// An error diagnostic reporting a refusal.
fn refusal_diagnostic(code: ErrorCode, message: String, context: Option<&str>, fix: &str) -> (diagnostic: Diagnostic)
    ensures
        reports_refusal(
            diagnostic,
            LegacyRefusal { code, message: message@, context: text_of_str(context), fix: fix@ },
        ),
{
    let diagnostic = Diagnostic::new(code, Severity::Error, message).with_suggested_fix(owned(fix));
    match context {
        Some(c) => diagnostic.with_module_id(owned(c)),
        None => diagnostic,
    }
}

/// Turns away the legacy field `name` of a mapping, when it is present.
fn reject_field(
    entries: &Vec<YamlEntry>,
    name: &str,
    code: ErrorCode,
    replacement: &str,
    context: Option<&str>,
) -> (checked: Result<(), Diagnostics>)
    ensures
        refused_as(
            checked,
            if field(entries@, name@) is Some {
                Some(field_refusal(name@, code, replacement@, text_of_str(context)))
            } else {
                None
            },
        ),
{
    if field_of(entries, name).is_none() {
        return Ok(());
    }
    let mut message = concat3("legacy field '", name, "' is not supported in kernel documents; ");
    message.append(replacement);
    Err(Diagnostics::single(refusal_diagnostic(code, message, context, replacement)))
}

proof fn lemma_modules_refusal_settles(modules: Seq<YamlValue>, k: nat, n: nat)
    requires
        k <= n <= modules.len(),
        modules_refusal(modules, k) is Some,
    ensures
        modules_refusal(modules, n) == modules_refusal(modules, k),
    decreases n - k,
{
    if k < n {
        lemma_modules_refusal_settles(modules, k, (n - 1) as nat);
    }
}

proof fn lemma_definitions_refusal_settles(definitions: Seq<YamlValue>, k: nat, n: nat)
    requires
        k <= n <= definitions.len(),
        definitions_refusal(definitions, k) is Some,
    ensures
        definitions_refusal(definitions, n) == definitions_refusal(definitions, k),
    decreases n - k,
{
    if k < n {
        lemma_definitions_refusal_settles(definitions, k, (n - 1) as nat);
    }
}

/// Turns away the first node entry of `modules` with a legacy shape.
fn reject_modules(modules: &Vec<YamlValue>) -> (checked: Result<(), Diagnostics>)
    ensures
        refused_as(checked, modules_refusal(modules@, modules@.len())),
{
    let mut i: usize = 0;
    while i < modules.len()
        invariant
            i <= modules@.len(),
            modules_refusal(modules@, i as nat) is None,
        decreases modules@.len() - i,
    {
        if let YamlValue::Mapping(entries) = &modules[i] {
            let id = string_field_of(entries, FIELD_ID);
            let checked = reject_field(
                entries,
                FIELD_PARAMETERS,
                ErrorCode::KernelDocumentLegacyParameters,
                MODULE_PARAMETERS_REPLACEMENT,
                id,
            );
            if checked.is_err() {
                proof {
                    lemma_modules_refusal_settles(modules@, (i + 1) as nat, modules@.len());
                }
                return checked;
            }
            if contains_legacy_binding(&modules[i]) {
                proof {
                    lemma_modules_refusal_settles(modules@, (i + 1) as nat, modules@.len());
                }
                let diagnostic = refusal_diagnostic(
                    ErrorCode::KernelDocumentLegacyBinding,
                    owned(LEGACY_BINDING_MESSAGE),
                    id,
                    LEGACY_BINDING_FIX,
                );
                return Err(Diagnostics::single(diagnostic));
            }
        }
        i = i + 1;
    }
    Ok(())
}

/// Turns away a `modules` field holding a node entry with a legacy shape.
fn reject_modules_field(value: Option<&YamlValue>) -> (checked: Result<(), Diagnostics>)
    ensures
        refused_as(
            checked,
            modules_field_refusal(
                match value {
                    Some(v) => Some(*v),
                    None => None,
                },
            ),
        ),
{
    match value {
        Some(YamlValue::Sequence(items)) => reject_modules(items),
        _ => Ok(()),
    }
}

/// Turns away the first composite definition of `definitions` with a legacy
/// shape.
fn reject_definitions(definitions: &Vec<YamlValue>) -> (checked: Result<(), Diagnostics>)
    ensures
        refused_as(checked, definitions_refusal(definitions@, definitions@.len())),
{
    let mut i: usize = 0;
    while i < definitions.len()
        invariant
            i <= definitions@.len(),
            definitions_refusal(definitions@, i as nat) is None,
        decreases definitions@.len() - i,
    {
        if let YamlValue::Mapping(entries) = &definitions[i] {
            let name = string_field_of(entries, FIELD_TYPE);
            let checked = reject_field(
                entries,
                FIELD_ASSET_BINDINGS,
                ErrorCode::KernelDocumentLegacyAssetBindings,
                ASSET_BINDINGS_REPLACEMENT,
                name,
            );
            if checked.is_err() {
                proof {
                    lemma_definitions_refusal_settles(definitions@, (i + 1) as nat, definitions@.len());
                }
                return checked;
            }
            let checked = reject_field(
                entries,
                FIELD_PARAMETERS,
                ErrorCode::KernelDocumentLegacyParameters,
                DEFINITION_PARAMETERS_REPLACEMENT,
                name,
            );
            if checked.is_err() {
                proof {
                    lemma_definitions_refusal_settles(definitions@, (i + 1) as nat, definitions@.len());
                }
                return checked;
            }
            let checked = reject_modules_field(field_of(entries, FIELD_MODULES));
            if checked.is_err() {
                proof {
                    lemma_definitions_refusal_settles(definitions@, (i + 1) as nat, definitions@.len());
                }
                return checked;
            }
        }
        i = i + 1;
    }
    Ok(())
}

/// Turns away a document in a shape the kernel front end no longer accepts:
/// root `render`, `voice_allocation` or `asset_bindings` fields, node
/// `parameters`, composite `asset_bindings` or `parameters`, and the legacy
/// `${name}` binding syntax anywhere in a node. The first such shape found is
/// reported, with the node or definition it is in when that has a name.
pub fn reject_legacy_document_shape(value: &YamlValue) -> (checked: Result<(), Diagnostics>)
    ensures
        refused_as(checked, legacy_refusal(*value)),
        checked is Ok <==> !legacy_shape(*value),
        checked matches Err(d) ==> findings_of(d@) == legacy_findings(*value),
{
    let checked = reject_shape(value);
    proof {
        if checked is Err {
            assert(findings_of(checked->Err_0@) =~= legacy_findings(*value));
        }
    }
    checked
}

fn reject_shape(value: &YamlValue) -> (checked: Result<(), Diagnostics>)
    ensures
        refused_as(checked, legacy_refusal(*value)),
{
    let root = match value {
        YamlValue::Mapping(root) => root,
        _ => {
            return Ok(());
        },
    };
    let checked = reject_field(root, FIELD_RENDER, ErrorCode::KernelDocumentLegacyRender, RENDER_REPLACEMENT, None);
    if checked.is_err() {
        return checked;
    }
    let checked = reject_field(
        root,
        FIELD_VOICE_ALLOCATION,
        ErrorCode::KernelDocumentLegacyVoiceAllocation,
        VOICE_ALLOCATION_REPLACEMENT,
        None,
    );
    if checked.is_err() {
        return checked;
    }
    let checked = reject_field(
        root,
        FIELD_ASSET_BINDINGS,
        ErrorCode::KernelDocumentLegacyAssetBindings,
        ASSET_BINDINGS_REPLACEMENT,
        None,
    );
    if checked.is_err() {
        return checked;
    }
    let checked = reject_modules_field(field_of(root, FIELD_MODULES));
    if checked.is_err() {
        return checked;
    }
    match field_of(root, FIELD_MODULE_DEFINITIONS) {
        Some(YamlValue::Sequence(definitions)) => reject_definitions(definitions),
        _ => Ok(()),
    }
}

} // verus!
