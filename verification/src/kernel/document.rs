//! The kernel patch document front end: the plain form a parsed patch
//! document takes, and its conversion into graph definitions. Root patches
//! and inline composites go through the same graph-declaration conversion.
use vstd::prelude::*;

use crate::diagnostics::{Diagnostic, Diagnostics, ErrorCode, Severity};
use crate::kernel::yaml::{key_is, string_field, string_field_of, YamlEntry, YamlValue};
use crate::kernel::{
    param_named, param_position, ChannelCount, Connection, ControlDefault, DefinitionRegistry, GraphDefinition, LatencySpec,
    Multiplicity, Node, NodeId, Port, PortDirection, PortRef, SignalType, StaticArg, StaticParam, StaticType,
    StaticValue,
};
use crate::name_map::{distinct_names, lookup_pairs, NameMap};
use crate::text::{concat2, concat3, find_char, first_index_of, lemma_first_index_of_bounds, owned, owned_range, str_eq};
use crate::validation::{findings_of, static_type_name, static_type_text, text_of, Finding};

verus! {

/// Optional descriptive data carried beside the root graph definition.
#[derive(Debug, PartialEq, Eq)]
pub struct KernelPatchMetadata {
    name: Option<String>,
    version: Option<String>,
    author: Option<String>,
}

/// The text of an optional string.
pub open spec fn text_of_option(text: Option<String>) -> Option<Seq<char>> {
    match text {
        Some(s) => Some(s@),
        None => None,
    }
}

/// The text of an optional borrowed string.
pub open spec fn text_of_str(text: Option<&str>) -> Option<Seq<char>> {
    match text {
        Some(s) => Some(s@),
        None => None,
    }
}

fn borrow_text(text: &Option<String>) -> (borrowed: Option<&str>)
    ensures
        text_of_str(borrowed) == text_of_option(*text),
{
    match text {
        Some(s) => Some(s.as_str()),
        None => None,
    }
}

impl KernelPatchMetadata {
    pub fn new(name: Option<String>, version: Option<String>, author: Option<String>) -> (metadata: Self)
        ensures
            metadata.name_text() == text_of_option(name),
            metadata.version_text() == text_of_option(version),
            metadata.author_text() == text_of_option(author),
    {
        KernelPatchMetadata { name, version, author }
    }

    pub closed spec fn name_text(&self) -> Option<Seq<char>> {
        text_of_option(self.name)
    }

    pub closed spec fn version_text(&self) -> Option<Seq<char>> {
        text_of_option(self.version)
    }

    pub closed spec fn author_text(&self) -> Option<Seq<char>> {
        text_of_option(self.author)
    }

    pub fn name(&self) -> (name: Option<&str>)
        ensures
            text_of_str(name) == self.name_text(),
    {
        borrow_text(&self.name)
    }

    pub fn version(&self) -> (version: Option<&str>)
        ensures
            text_of_str(version) == self.version_text(),
    {
        borrow_text(&self.version)
    }

    pub fn author(&self) -> (author: Option<&str>)
        ensures
            text_of_str(author) == self.author_text(),
    {
        borrow_text(&self.author)
    }
}

impl Default for KernelPatchMetadata {
    fn default() -> (metadata: Self)
        ensures
            metadata.name_text() is None,
            metadata.version_text() is None,
            metadata.author_text() is None,
    {
        KernelPatchMetadata { name: None, version: None, author: None }
    }
}

/// Parses a `module.port` port reference: the node id before the first `.`
/// and the port name after it. A reference without a `.` is rejected with a
/// single parse diagnostic that shows the expected form and the text given.
pub fn parse_reference(reference: &str) -> (parsed: Result<PortRef, Diagnostics>)
    ensures
        ({
            let dot = first_index_of(reference@, '.');
            match parsed {
                Ok(r) => dot < reference@.len() && r.node.0@ == reference@.take(dot) && r.port@ == reference@.skip(
                    dot + 1,
                ),
                Err(d) => {
                    &&& dot == reference@.len()
                    &&& d@.len() == 1
                    &&& d@[0].code == ErrorCode::KernelDocumentParseFailed
                    &&& d@[0].severity == Severity::Error
                    &&& d@[0].message@ == "port reference '"@ + reference@ + "' must have the form module.port"@
                    &&& d@[0].module_id is None
                    &&& d@[0].port_name is None
                    &&& d@[0].expected matches Some(e) && e@ == "module.port"@
                    &&& d@[0].actual matches Some(a) && a@ == reference@
                    &&& d@[0].suggested_fix is None
                },
            }
        }),
{
    proof {
        lemma_first_index_of_bounds(reference@, '.');
    }
    let len = reference.unicode_len();
    let dot = find_char(reference, '.');
    if dot == len {
        let message = concat3("port reference '", reference, "' must have the form module.port");
        let diagnostic = Diagnostic::new(ErrorCode::KernelDocumentParseFailed, Severity::Error, message)
            .with_expected(owned("module.port"))
            .with_actual(owned(reference));
        return Err(Diagnostics::single(diagnostic));
    }
    let node = owned_range(reference, 0, dot);
    let port = owned_range(reference, dot + 1, len);
    proof {
        assert(node@ =~= reference@.take(dot as int));
        assert(port@ =~= reference@.skip(dot + 1));
    }
    Ok(PortRef::new(NodeId(node), port.as_str()))
}

/// Metadata as written in a patch document.
#[derive(Debug, PartialEq, Eq)]
pub struct MetadataDocument {
    pub name: Option<String>,
    pub version: Option<String>,
    pub author: Option<String>,
}

/// The declared type of a static parameter as written in a document.
#[derive(Clone, Copy, Debug, PartialEq, Eq, Structural)]
pub enum StaticTypeDocument {
    Int,
    Enum,
    Resource,
}

/// The kind of resource a resource static parameter names.
#[derive(Clone, Copy, Debug, PartialEq, Eq, Structural)]
pub enum ResourceKindDocument {
    Sample,
    ImpulseResponse,
}

/// A static parameter declaration as written in a document.
#[derive(Debug, PartialEq, Eq)]
pub struct StaticParamDocument {
    pub name: String,
    pub static_type: StaticTypeDocument,
    pub resource_kind: Option<ResourceKindDocument>,
    pub default: Option<YamlValue>,
}

/// A channel count as written in a document: a literal, or the name of a
/// static parameter with or without a leading `$`.
#[derive(Debug, PartialEq, Eq)]
pub enum ChannelDocument {
    Literal(u32),
    Param(String),
}

/// A port declaration as written in a document; control values are `f64`
/// bit patterns.
#[derive(Debug, PartialEq, Eq)]
pub struct PortDocument {
    pub name: String,
    pub direction: PortDirection,
    pub signal: SignalType,
    pub channels: ChannelDocument,
    pub multiplicity: Multiplicity,
    pub default: Option<u64>,
    pub min: Option<u64>,
    pub max: Option<u64>,
    pub unit: Option<String>,
    pub maps_to: Vec<String>,
    pub maps_from: Vec<String>,
}

/// The text of each string of `texts`.
pub open spec fn texts(texts: Seq<String>) -> Seq<Seq<char>> {
    texts.map_values(|t: String| t@)
}

/// `reference` has the `module.port` form.
pub open spec fn well_formed_reference(reference: Seq<char>) -> bool {
    first_index_of(reference, '.') < reference.len()
}

/// `parsed` is what `reference` names: the node before its first `.` and
/// the port after it.
pub open spec fn parses_to(parsed: PortRef, reference: Seq<char>) -> bool {
    let dot = first_index_of(reference, '.');
    &&& dot < reference.len()
    &&& parsed.node.0@ == reference.take(dot)
    &&& parsed.port@ == reference.skip(dot + 1)
}

/// The finding a reference without the `module.port` form is reported by.
pub open spec fn reference_finding(reference: Seq<char>) -> Finding {
    (ErrorCode::KernelDocumentParseFailed, None, None, Some("module.port"@), Some(reference), None)
}

/// The first reference of `references` without the `module.port` form.
pub open spec fn first_bad_reference(references: Seq<Seq<char>>) -> Option<Seq<char>>
    decreases references.len(),
{
    if references.len() == 0 {
        None
    } else {
        match first_bad_reference(references.drop_last()) {
            Some(r) => Some(r),
            None => if well_formed_reference(references.last()) {
                None
            } else {
                Some(references.last())
            },
        }
    }
}

proof fn lemma_first_bad_reference_settles(references: Seq<Seq<char>>, k: int)
    requires
        0 <= k <= references.len(),
        first_bad_reference(references.take(k)) is Some,
    ensures
        first_bad_reference(references) == first_bad_reference(references.take(k)),
    decreases references.len() - k,
{
    if k < references.len() {
        assert(references.take(k + 1).drop_last() =~= references.take(k));
        lemma_first_bad_reference_settles(references, k + 1);
    } else {
        assert(references.take(k) =~= references);
    }
}

/// Parses each reference of `references` in order, stopping at the first
/// one without the `module.port` form.
pub fn parse_references(references: &Vec<String>) -> (parsed: Result<Vec<PortRef>, Diagnostics>)
    ensures
        match parsed {
            Ok(refs) => {
                &&& first_bad_reference(texts(references@)) is None
                &&& refs@.len() == references@.len()
                &&& forall|i: int| 0 <= i < refs@.len() ==> parses_to(#[trigger] refs@[i], references@[i]@)
            },
            Err(d) => first_bad_reference(texts(references@)) matches Some(r) && findings_of(d@) == seq![
                reference_finding(r),
            ],
        },
{
    let mut refs: Vec<PortRef> = Vec::new();
    let mut i: usize = 0;
    while i < references.len()
        invariant
            i <= references@.len(),
            refs@.len() == i,
            first_bad_reference(texts(references@).take(i as int)) is None,
            forall|j: int| 0 <= j < i ==> parses_to(#[trigger] refs@[j], references@[j]@),
        decreases references@.len() - i,
    {
        let ghost prefix = texts(references@).take(i + 1);
        proof {
            assert(prefix.drop_last() =~= texts(references@).take(i as int));
            assert(prefix.last() == references@[i as int]@);
        }
        match parse_reference(references[i].as_str()) {
            Ok(r) => {
                refs.push(r);
            },
            Err(d) => {
                proof {
                    lemma_first_bad_reference_settles(texts(references@), i + 1);
                    assert(findings_of(d@) =~= seq![reference_finding(references@[i as int]@)]);
                }
                return Err(d);
            },
        }
        i = i + 1;
    }
    proof {
        assert(texts(references@).take(i as int) =~= texts(references@));
    }
    Ok(refs)
}

/// `channels` is the channel count `document` declares: a parameter name
/// loses one leading `$`.
pub open spec fn channels_converted(channels: ChannelCount, document: ChannelDocument) -> bool {
    match document {
        ChannelDocument::Literal(v) => channels == ChannelCount::Literal(v),
        ChannelDocument::Param(name) => channels matches ChannelCount::Param(n) && n@ == (if name@.len() > 0
            && name@[0] == '$' {
            name@.skip(1)
        } else {
            name@
        }),
    }
}

/// `control` is the control default a port document declares: none without
/// a `default`, else the default with the range and unit given beside it.
pub open spec fn control_converted(control: Option<ControlDefault>, document: PortDocument) -> bool {
    match document.default {
        None => control is None,
        Some(bits) => control matches Some(c) && c.default_bits == bits && c.min_bits == document.min
            && c.max_bits == document.max && text_of(c.unit) == text_of(document.unit),
    }
}

/// The first malformed internal reference of a port document, `maps_to`
/// before `maps_from`.
pub open spec fn port_failure(document: PortDocument) -> Option<Seq<char>> {
    match first_bad_reference(texts(document.maps_to@)) {
        Some(r) => Some(r),
        None => first_bad_reference(texts(document.maps_from@)),
    }
}

/// `port` is the port `document` declares.
pub open spec fn port_converted(port: Port, document: PortDocument) -> bool {
    &&& port.name@ == document.name@
    &&& port.direction == document.direction
    &&& port.signal_type == document.signal
    &&& channels_converted(port.channels, document.channels)
    &&& port.multiplicity == document.multiplicity
    &&& control_converted(port.control_default, document)
    &&& port.maps_to@.len() == document.maps_to@.len()
    &&& forall|i: int| 0 <= i < port.maps_to@.len() ==> parses_to(#[trigger] port.maps_to@[i], document.maps_to@[i]@)
    &&& port.maps_from@.len() == document.maps_from@.len()
    &&& forall|i: int|
        0 <= i < port.maps_from@.len() ==> parses_to(#[trigger] port.maps_from@[i], document.maps_from@[i]@)
}

fn convert_channels(document: &ChannelDocument) -> (channels: ChannelCount)
    ensures
        channels_converted(channels, *document),
{
    match document {
        ChannelDocument::Literal(v) => ChannelCount::Literal(*v),
        ChannelDocument::Param(name) => {
            let len = name.unicode_len();
            if len > 0 && name.get_char(0) == '$' {
                let tail = owned_range(name.as_str(), 1, len);
                proof {
                    assert(tail@ =~= name@.skip(1));
                }
                ChannelCount::Param(tail)
            } else {
                ChannelCount::Param(name.clone())
            }
        },
    }
}

fn convert_control(document: &PortDocument) -> (control: Option<ControlDefault>)
    ensures
        control_converted(control, *document),
{
    match document.default {
        None => None,
        Some(bits) => {
            let mut control = ControlDefault::new(bits);
            if let Some(min) = document.min {
                control = control.with_min(min);
            }
            if let Some(max) = document.max {
                control = control.with_max(max);
            }
            if let Some(unit) = &document.unit {
                control = control.with_unit(unit.as_str());
            }
            Some(control)
        },
    }
}

/// Converts a port declaration: its signal, channel count, multiplicity,
/// control default and internal mappings.
pub fn convert_port(document: &PortDocument) -> (port: Result<Port, Diagnostics>)
    ensures
        match port {
            Ok(p) => port_failure(*document) is None && port_converted(p, *document),
            Err(d) => port_failure(*document) matches Some(r) && findings_of(d@) == seq![reference_finding(r)],
        },
{
    let channels = convert_channels(&document.channels);
    let mut port = match document.direction {
        PortDirection::Input => Port::input(document.name.as_str(), document.signal, channels),
        PortDirection::Output => Port::output(document.name.as_str(), document.signal, channels),
    };
    port = port.with_multiplicity(document.multiplicity);
    port.control_default = convert_control(document);
    let targets = match parse_references(&document.maps_to) {
        Ok(targets) => targets,
        Err(d) => {
            return Err(d);
        },
    };
    let sources = match parse_references(&document.maps_from) {
        Ok(sources) => sources,
        Err(d) => {
            return Err(d);
        },
    };
    port.maps_to = targets;
    port.maps_from = sources;
    Ok(port)
}

/// A static value by its parts: its type, its integer, its text.
pub type ValueText = (StaticType, int, Seq<char>);

/// The parts of a static value.
pub open spec fn value_text(value: StaticValue) -> ValueText {
    match value {
        StaticValue::Int(i) => (StaticType::Int, i as int, Seq::empty()),
        StaticValue::Enum(e) => (StaticType::Enum, 0, e@),
        StaticValue::Resource(p) => (StaticType::Resource, 0, p@),
    }
}

/// `kind` names a resource kind.
pub open spec fn resource_kind_text(kind: Seq<char>) -> bool {
    kind == "sample"@ || kind == "impulse_response"@
}

/// The path of a resource reference written as a mapping with exactly the
/// fields `kind` (a resource kind) and `path` (a string).
pub open spec fn resource_path(value: YamlValue) -> Option<Seq<char>> {
    match value {
        YamlValue::Mapping(entries) => if entries@.len() == 2 && ((key_is(entries@[0], "kind"@) && key_is(
            entries@[1],
            "path"@,
        )) || (key_is(entries@[0], "path"@) && key_is(entries@[1], "kind"@))) && (string_field(
            entries@,
            "kind"@,
        ) matches Some(k) && resource_kind_text(k)) {
            string_field(entries@, "path"@)
        } else {
            None
        },
        _ => None,
    }
}

/// What a document value converts to as a static value of type `expected`.
pub open spec fn converted_value(value: YamlValue, expected: StaticType) -> Option<ValueText> {
    match expected {
        StaticType::Int => match value {
            YamlValue::Int(i) => Some((StaticType::Int, i as int, Seq::empty())),
            _ => None,
        },
        StaticType::Enum => match value {
            YamlValue::Str(s) => Some((StaticType::Enum, 0, s@)),
            _ => None,
        },
        StaticType::Resource => match resource_path(value) {
            Some(p) => Some((StaticType::Resource, 0, p)),
            None => None,
        },
    }
}

/// The finding a value that does not fit its declared type is reported by.
pub open spec fn value_mismatch(expected: StaticType) -> Finding {
    (ErrorCode::KernelDocumentParseFailed, None, None, Some(static_type_text(expected)), None, None)
}

/// The type a literal static argument is read as when its definition does
/// not declare the parameter: an integer, a resource reference, or else an
/// enumeration value.
pub open spec fn inferred_type(value: YamlValue) -> StaticType {
    if value is Int {
        StaticType::Int
    } else if resource_path(value) is Some {
        StaticType::Resource
    } else {
        StaticType::Enum
    }
}

fn resource_path_of(value: &YamlValue) -> (path: Option<String>)
    ensures
        text_of(path) == resource_path(*value),
{
    let entries = match value {
        YamlValue::Mapping(entries) => entries,
        _ => {
            return None;
        },
    };
    if entries.len() != 2 {
        return None;
    }
    let first_kind = key_named(&entries[0], "kind");
    let first_path = key_named(&entries[0], "path");
    let second_kind = key_named(&entries[1], "kind");
    let second_path = key_named(&entries[1], "path");
    if !((first_kind && second_path) || (first_path && second_kind)) {
        return None;
    }
    let kind_ok = match string_field_of(entries, "kind") {
        Some(kind) => str_eq(kind, "sample") || str_eq(kind, "impulse_response"),
        None => false,
    };
    if !kind_ok {
        return None;
    }
    match string_field_of(entries, "path") {
        Some(path) => Some(owned(path)),
        None => None,
    }
}

fn key_named(entry: &YamlEntry, name: &str) -> (named: bool)
    ensures
        named == key_is(*entry, name@),
{
    match &entry.key {
        YamlValue::Str(key) => str_eq(key.as_str(), name),
        _ => false,
    }
}

/// The type a literal static argument is read as when its definition does
/// not declare the parameter.
pub fn infer_static_type(value: &YamlValue) -> (static_type: StaticType)
    ensures
        static_type == inferred_type(*value),
{
    if let YamlValue::Int(_) = value {
        StaticType::Int
    } else if resource_path_of(value).is_some() {
        StaticType::Resource
    } else {
        StaticType::Enum
    }
}

/// Converts a document value to a static value of type `expected`, or
/// reports that it does not fit.
pub fn convert_static_value(value: &YamlValue, expected: StaticType) -> (converted: Result<StaticValue, Diagnostics>)
    ensures
        match converted {
            Ok(v) => converted_value(*value, expected) == Some(value_text(v)),
            Err(d) => converted_value(*value, expected) is None && findings_of(d@) == seq![value_mismatch(expected)],
        },
{
    let converted = match expected {
        StaticType::Int => match value {
            YamlValue::Int(i) => Some(StaticValue::Int(*i)),
            _ => None,
        },
        StaticType::Enum => match value {
            YamlValue::Str(s) => Some(StaticValue::Enum(s.clone())),
            _ => None,
        },
        StaticType::Resource => match resource_path_of(value) {
            Some(p) => Some(StaticValue::Resource(p)),
            None => None,
        },
    };
    match converted {
        Some(v) => Ok(v),
        None => {
            let name = static_type_name(expected);
            let message = concat3("static value does not match declared type ", name, "");
            let diagnostic = Diagnostic::new(ErrorCode::KernelDocumentParseFailed, Severity::Error, message)
                .with_expected(owned(name));
            let d = Diagnostics::single(diagnostic);
            proof {
                assert(findings_of(d@) =~= seq![value_mismatch(expected)]);
            }
            Err(d)
        },
    }
}

/// The static type a parameter document declares.
pub open spec fn declared_static_type(document: StaticTypeDocument) -> StaticType {
    match document {
        StaticTypeDocument::Int => StaticType::Int,
        StaticTypeDocument::Enum => StaticType::Enum,
        StaticTypeDocument::Resource => StaticType::Resource,
    }
}

/// The finding a resource parameter without a resource kind is reported by.
pub open spec fn missing_kind_finding() -> Finding {
    (
        ErrorCode::KernelDocumentParseFailed,
        None,
        None,
        Some("resource_kind: sample or impulse_response"@),
        None,
        None,
    )
}

/// Why a static parameter document does not convert, if it does not.
pub open spec fn param_failure(document: StaticParamDocument) -> Option<Finding> {
    if document.static_type == StaticTypeDocument::Resource && document.resource_kind is None {
        Some(missing_kind_finding())
    } else {
        match document.default {
            Some(v) => if converted_value(v, declared_static_type(document.static_type)) is None {
                Some(value_mismatch(declared_static_type(document.static_type)))
            } else {
                None
            },
            None => None,
        }
    }
}

/// `param` is the parameter `document` declares.
pub open spec fn param_converted(param: StaticParam, document: StaticParamDocument) -> bool {
    &&& param.name@ == document.name@
    &&& param.static_type == declared_static_type(document.static_type)
    &&& match document.default {
        Some(v) => param.default matches Some(d) && converted_value(v, param.static_type) == Some(value_text(d)),
        None => param.default is None,
    }
}

/// Converts a static parameter declaration; a resource parameter must name
/// its resource kind, and a default must fit the declared type.
pub fn convert_static_param(document: &StaticParamDocument) -> (param: Result<StaticParam, Diagnostics>)
    ensures
        match param {
            Ok(p) => param_failure(*document) is None && param_converted(p, *document),
            Err(d) => param_failure(*document) matches Some(f) && findings_of(d@) == seq![f],
        },
{
    let static_type = match document.static_type {
        StaticTypeDocument::Int => StaticType::Int,
        StaticTypeDocument::Enum => StaticType::Enum,
        StaticTypeDocument::Resource => {
            if document.resource_kind.is_none() {
                let message = concat3(
                    "resource static parameter '",
                    document.name.as_str(),
                    "' must declare resource_kind",
                );
                let diagnostic = Diagnostic::new(ErrorCode::KernelDocumentParseFailed, Severity::Error, message)
                    .with_expected(owned("resource_kind: sample or impulse_response"));
                let d = Diagnostics::single(diagnostic);
                proof {
                    assert(findings_of(d@) =~= seq![missing_kind_finding()]);
                }
                return Err(d);
            }
            StaticType::Resource
        },
    };
    let mut param = StaticParam::new(document.name.as_str(), static_type);
    if let Some(default) = &document.default {
        match convert_static_value(default, static_type) {
            Ok(v) => {
                param = param.with_default(v);
            },
            Err(d) => {
                return Err(d);
            },
        }
    }
    Ok(param)
}

/// A node instance as written in a document: its static arguments and its
/// control default overrides (as `f64` bit patterns), by name.
#[derive(Debug, PartialEq, Eq)]
pub struct NodeDocument {
    pub id: String,
    pub definition_type: String,
    pub static_args: NameMap<YamlValue>,
    pub defaults: NameMap<u64>,
}

pub const NODE_LEGACY_BINDING_FIX: &'static str =
    "replace ${name} with $name for static pass-through, or map a public control port";

/// A static argument by its parts: literal (0), pass-through (1) or
/// expression (2), with the value or text it holds.
pub open spec fn arg_text(arg: StaticArg) -> (nat, ValueText) {
    match arg {
        StaticArg::Literal(v) => (0, value_text(v)),
        StaticArg::ParamRef(name) => (1, (StaticType::Int, 0, name@)),
        StaticArg::Expression(text) => (2, (StaticType::Int, 0, text@)),
    }
}

/// The type the definition `definition_type` declares for its static
/// parameter `name`, when the registry knows both.
pub open spec fn declared_param_type(
    registry: DefinitionRegistry,
    definition_type: Seq<char>,
    name: Seq<char>,
) -> Option<StaticType> {
    match registry.lookup(definition_type) {
        Some(d) => match param_named(d.static_params@, name) {
            Some(p) => Some(p.static_type),
            None => None,
        },
        None => None,
    }
}

/// What the static argument `value` of node `id` converts to: a string
/// starting with `${` is refused as a legacy binding, one starting with `$`
/// is a pass-through when it holds no space and an expression otherwise;
/// anything else is a literal of the declared (else inferred) type.
pub open spec fn arg_outcome(id: Seq<char>, declared: Option<StaticType>, value: YamlValue) -> Result<
    (nat, ValueText),
    Finding,
> {
    let literal_type = match declared {
        Some(t) => t,
        None => inferred_type(value),
    };
    let literal = match converted_value(value, literal_type) {
        Some(v) => Ok((0nat, v)),
        None => Err(value_mismatch(literal_type)),
    };
    match value {
        YamlValue::Str(s) => if s@.len() >= 2 && s@[0] == '$' && s@[1] == '{' {
            Err(
                (
                    ErrorCode::KernelDocumentLegacyBinding,
                    Some(id),
                    None,
                    None,
                    None,
                    Some(NODE_LEGACY_BINDING_FIX@),
                ),
            )
        } else if s@.len() >= 1 && s@[0] == '$' {
            if first_index_of(s@, ' ') == s@.len() {
                Ok((1nat, (StaticType::Int, 0, s@.skip(1))))
            } else {
                Ok((2nat, (StaticType::Int, 0, s@)))
            }
        } else {
            literal
        },
        _ => literal,
    }
}

/// The type each definition (by name) declares for each of its static
/// parameters (by name), when known.
pub type DeclaredTypes = spec_fn(Seq<char>, Seq<char>) -> Option<StaticType>;

/// The declared parameter types a registry knows.
pub open spec fn registry_types(registry: DefinitionRegistry) -> DeclaredTypes {
    |definition_type: Seq<char>, name: Seq<char>| declared_param_type(registry, definition_type, name)
}

/// The outcome for the static argument `name` = `value` of a node document.
pub open spec fn node_arg_outcome(
    document: NodeDocument,
    declared: DeclaredTypes,
    name: Seq<char>,
    value: YamlValue,
) -> Result<(nat, ValueText), Finding> {
    arg_outcome(document.id@, declared(document.definition_type@, name), value)
}

/// The failure of the first of the first `n` static arguments (in name
/// order) that does not convert.
pub open spec fn args_failure(document: NodeDocument, declared: DeclaredTypes, n: nat) -> Option<Finding>
    decreases n,
{
    if n == 0 || n > document.static_args.pairs().len() {
        None
    } else {
        match args_failure(document, declared, (n - 1) as nat) {
            Some(f) => Some(f),
            None => {
                let pair = document.static_args.pairs()[n - 1];
                match node_arg_outcome(document, declared, pair.0, pair.1) {
                    Err(f) => Some(f),
                    Ok(_) => None,
                }
            },
        }
    }
}

/// Why a node document does not convert, if it does not.
pub open spec fn node_failure(document: NodeDocument, declared: DeclaredTypes) -> Option<Finding> {
    args_failure(document, declared, document.static_args.pairs().len())
}

/// `node` is the node `document` declares.
pub open spec fn node_converted(node: Node, document: NodeDocument, declared: DeclaredTypes) -> bool {
    &&& node.id.0@ == document.id@
    &&& node.definition_ref@ == document.definition_type@
    &&& forall|name: Seq<char>|
        match #[trigger] document.static_args.lookup(name) {
            Some(v) => node.static_args.lookup(name) matches Some(a) && node_arg_outcome(
                document,
                declared,
                name,
                v,
            ) == Ok::<(nat, ValueText), Finding>(arg_text(a)),
            None => node.static_args.lookup(name) is None,
        }
    &&& forall|name: Seq<char>| #[trigger]
        node.port_default_overrides.lookup(name) == document.defaults.lookup(name)
}

proof fn lemma_lookup_extend<V>(pairs: Seq<(Seq<char>, V)>, i: int, name: Seq<char>)
    requires
        distinct_names(pairs),
        0 <= i < pairs.len(),
    ensures
        lookup_pairs(pairs.take(i + 1), name) == if name == pairs[i].0 {
            Some(pairs[i].1)
        } else {
            lookup_pairs(pairs.take(i), name)
        },
{
    let longer = pairs.take(i + 1);
    let shorter = pairs.take(i);
    if name == pairs[i].0 {
        assert(longer[i].0 == name);
        let k = choose|k: int| 0 <= k < longer.len() && longer[k].0 == name;
        assert(k == i);
    } else {
        if exists|k: int| 0 <= k < longer.len() && longer[k].0 == name {
            let k = choose|k: int| 0 <= k < longer.len() && longer[k].0 == name;
            assert(shorter[k].0 == name);
            let m = choose|m: int| 0 <= m < shorter.len() && shorter[m].0 == name;
            assert(longer[m].0 == name);
            assert(k == m);
        } else {
            assert forall|k: int| 0 <= k < shorter.len() implies shorter[k].0 != name by {
                assert(longer[k] == shorter[k]);
            }
        }
    }
}

proof fn lemma_lookup_whole<V>(pairs: Seq<(Seq<char>, V)>)
    ensures
        forall|name: Seq<char>| lookup_pairs(pairs.take(pairs.len() as int), name) == lookup_pairs(pairs, name),
{
    assert(pairs.take(pairs.len() as int) =~= pairs);
}

proof fn lemma_args_failure_settles(document: NodeDocument, declared: DeclaredTypes, k: nat, n: nat)
    requires
        k <= n <= document.static_args.pairs().len(),
        args_failure(document, declared, k) is Some,
    ensures
        args_failure(document, declared, n) == args_failure(document, declared, k),
    decreases n - k,
{
    if k < n {
        lemma_args_failure_settles(document, declared, k, (n - 1) as nat);
    }
}

/// Converts one static argument of node `id`.
fn convert_arg(
    id: &str,
    definition_type: &str,
    registry: &DefinitionRegistry,
    name: &str,
    value: &YamlValue,
) -> (arg: Result<StaticArg, Diagnostics>)
    ensures
        match arg {
            Ok(a) => arg_outcome(id@, declared_param_type(*registry, definition_type@, name@), *value) == Ok::<
                (nat, ValueText),
                Finding,
            >(arg_text(a)),
            Err(d) => arg_outcome(id@, declared_param_type(*registry, definition_type@, name@), *value) matches Err(
                f,
            ) && findings_of(d@) == seq![f],
        },
{
    if let YamlValue::Str(text) = value {
        let len = text.unicode_len();
        if len >= 2 && text.get_char(0) == '$' && text.get_char(1) == '{' {
            let mut message = concat3("node '", id, "' uses legacy binding '");
            message.append(text.as_str());
            message.append("'; use '$name' for static parameter pass-through");
            let diagnostic = Diagnostic::new(ErrorCode::KernelDocumentLegacyBinding, Severity::Error, message)
                .with_module_id(owned(id))
                .with_suggested_fix(owned(NODE_LEGACY_BINDING_FIX));
            let d = Diagnostics::single(diagnostic);
            proof {
                assert(findings_of(d@) =~= seq![
                    (
                        ErrorCode::KernelDocumentLegacyBinding,
                        Some(id@),
                        None,
                        None,
                        None,
                        Some(NODE_LEGACY_BINDING_FIX@),
                    ),
                ]);
            }
            return Err(d);
        }
        if len >= 1 && text.get_char(0) == '$' {
            if find_char(text.as_str(), ' ') == len {
                let tail = owned_range(text.as_str(), 1, len);
                proof {
                    assert(tail@ =~= text@.skip(1));
                }
                return Ok(StaticArg::ParamRef(tail));
            } else {
                return Ok(StaticArg::Expression(text.clone()));
            }
        }
    }
    let declared = match registry.get(definition_type) {
        Some(definition) => match definition.static_param(name) {
            Some(param) => Some(param.static_type),
            None => None,
        },
        None => None,
    };
    let literal_type = match declared {
        Some(t) => t,
        None => infer_static_type(value),
    };
    match convert_static_value(value, literal_type) {
        Ok(v) => Ok(StaticArg::Literal(v)),
        Err(d) => Err(d),
    }
}

/// Converts a node instance: each static argument in name order (the first
/// that does not convert is reported), then each control default override.
pub fn convert_node(document: &NodeDocument, registry: &DefinitionRegistry) -> (node: Result<Node, Diagnostics>)
    ensures
        match node {
            Ok(n) => node_failure(*document, registry_types(*registry)) is None && node_converted(
                n,
                *document,
                registry_types(*registry),
            ),
            Err(d) => node_failure(*document, registry_types(*registry)) matches Some(f) && findings_of(d@)
                == seq![f],
        },
{
    let ghost declared = registry_types(*registry);
    document.static_args.assert_wf();
    document.defaults.assert_wf();
    let ghost args = document.static_args.pairs();
    let ghost defaults = document.defaults.pairs();
    let mut node = Node::new(NodeId(document.id.clone()), document.definition_type.as_str());
    let count = document.static_args.len();
    let mut i: usize = 0;
    while i < count
        invariant
            count == args.len(),
            args == document.static_args.pairs(),
            distinct_names(args),
            i <= count,
            node.id.0@ == document.id@,
            node.definition_ref@ == document.definition_type@,
            node.port_default_overrides.pairs().len() == 0,
            declared == registry_types(*registry),
            args_failure(*document, declared, i as nat) is None,
            forall|name: Seq<char>|
                match #[trigger] lookup_pairs(args.take(i as int), name) {
                    Some(v) => node.static_args.lookup(name) matches Some(a) && node_arg_outcome(
                        *document,
                        declared,
                        name,
                        v,
                    ) == Ok::<(nat, ValueText), Finding>(arg_text(a)),
                    None => node.static_args.lookup(name) is None,
                },
        decreases count - i,
    {
        let name = document.static_args.name_at(i);
        let value = document.static_args.value_at(i);
        match convert_arg(document.id.as_str(), document.definition_type.as_str(), registry, name, value) {
            Ok(arg) => {
                let ghost before = node;
                node = node.with_static_arg(name, arg);
                proof {
                    assert forall|other: Seq<char>|
                        match #[trigger] lookup_pairs(args.take(i + 1), other) {
                            Some(v) => node.static_args.lookup(other) matches Some(a) && node_arg_outcome(
                                *document,
                                declared,
                                other,
                                v,
                            ) == Ok::<(nat, ValueText), Finding>(arg_text(a)),
                            None => node.static_args.lookup(other) is None,
                        } by {
                        lemma_lookup_extend(args, i as int, other);
                    }
                }
            },
            Err(d) => {
                proof {
                    lemma_args_failure_settles(*document, declared, (i + 1) as nat, args.len());
                }
                return Err(d);
            },
        }
        i = i + 1;
    }
    let ghost converted_args = node.static_args;
    let count = document.defaults.len();
    let mut k: usize = 0;
    while k < count
        invariant
            count == defaults.len(),
            defaults == document.defaults.pairs(),
            distinct_names(defaults),
            k <= count,
            node.id.0@ == document.id@,
            node.definition_ref@ == document.definition_type@,
            node.static_args == converted_args,
            forall|name: Seq<char>| #[trigger]
                node.port_default_overrides.lookup(name) == lookup_pairs(defaults.take(k as int), name),
        decreases count - k,
    {
        let name = document.defaults.name_at(k);
        let bits = *document.defaults.value_at(k);
        node = node.with_default_override(name, bits);
        proof {
            assert forall|other: Seq<char>| #[trigger]
                node.port_default_overrides.lookup(other) == lookup_pairs(defaults.take(k + 1), other) by {
                lemma_lookup_extend(defaults, k as int, other);
            }
        }
        k = k + 1;
    }
    proof {
        lemma_lookup_whole(args);
        lemma_lookup_whole(defaults);
    }
    Ok(node)
}

/// A connection as written in a document: two `module.port` references.
#[derive(Debug, PartialEq, Eq)]
pub struct ConnectionDocument {
    pub from: String,
    pub to: String,
}

/// The failure of the first item of `items` that fails.
pub open spec fn first_failure<A>(items: Seq<A>, failure: spec_fn(A) -> Option<Finding>) -> Option<Finding>
    decreases items.len(),
{
    if items.len() == 0 {
        None
    } else {
        match first_failure(items.drop_last(), failure) {
            Some(f) => Some(f),
            None => failure(items.last()),
        }
    }
}

proof fn lemma_first_failure_settles<A>(items: Seq<A>, failure: spec_fn(A) -> Option<Finding>, k: int)
    requires
        0 <= k <= items.len(),
        first_failure(items.take(k), failure) is Some,
    ensures
        first_failure(items, failure) == first_failure(items.take(k), failure),
    decreases items.len() - k,
{
    if k < items.len() {
        assert(items.take(k + 1).drop_last() =~= items.take(k));
        lemma_first_failure_settles(items, failure, k + 1);
    } else {
        assert(items.take(k) =~= items);
    }
}

proof fn lemma_first_failure_step<A>(items: Seq<A>, failure: spec_fn(A) -> Option<Finding>, i: int)
    requires
        0 <= i < items.len(),
        first_failure(items.take(i), failure) is None,
    ensures
        first_failure(items.take(i + 1), failure) == failure(items[i]),
{
    assert(items.take(i + 1).drop_last() =~= items.take(i));
}

proof fn lemma_first_failure_whole<A>(items: Seq<A>, failure: spec_fn(A) -> Option<Finding>)
    ensures
        first_failure(items.take(items.len() as int), failure) == first_failure(items, failure),
{
    assert(items.take(items.len() as int) =~= items);
}

/// Why a static parameter fails to convert, as a function.
pub open spec fn param_failures() -> spec_fn(StaticParamDocument) -> Option<Finding> {
    |p: StaticParamDocument| param_failure(p)
}

/// Why a port fails to convert, as a function.
pub open spec fn port_failures() -> spec_fn(PortDocument) -> Option<Finding> {
    |p: PortDocument|
        match port_failure(p) {
            Some(r) => Some(reference_finding(r)),
            None => None,
        }
}

/// Why a node fails to convert, as a function.
pub open spec fn node_failures(declared: DeclaredTypes) -> spec_fn(NodeDocument) -> Option<Finding> {
    |n: NodeDocument| node_failure(n, declared)
}

/// Why a connection fails to convert, as a function: its source reference
/// is read before its destination.
pub open spec fn connection_failures() -> spec_fn(ConnectionDocument) -> Option<Finding> {
    |c: ConnectionDocument|
        if !well_formed_reference(c.from@) {
            Some(reference_finding(c.from@))
        } else if !well_formed_reference(c.to@) {
            Some(reference_finding(c.to@))
        } else {
            None
        }
}

/// The finding an unsupported definition implementation is reported by.
pub open spec fn implementation_failure(name: Seq<char>, implementation: Option<Seq<char>>) -> Option<Finding> {
    match implementation {
        Some(selected) => if selected == "script"@ {
            None
        } else {
            Some(
                (
                    ErrorCode::KernelDefinitionImplementationUnsupported,
                    Some(name),
                    None,
                    Some("script"@),
                    Some(selected),
                    None,
                ),
            )
        },
        None => None,
    }
}

/// Why a graph declaration fails to convert: its implementation, then its
/// static parameters, then its ports, each in order.
pub open spec fn declaration_failure(
    name: Seq<char>,
    implementation: Option<Seq<char>>,
    params: Seq<StaticParamDocument>,
    ports: Seq<PortDocument>,
) -> Option<Finding> {
    match implementation_failure(name, implementation) {
        Some(f) => Some(f),
        None => match first_failure(params, param_failures()) {
            Some(f) => Some(f),
            None => first_failure(ports, port_failures()),
        },
    }
}

/// `definition` is the graph declaration named `name` with the given static
/// parameters and ports, and nothing inside.
pub open spec fn declaration_converted(
    definition: GraphDefinition,
    name: Seq<char>,
    params: Seq<StaticParamDocument>,
    ports: Seq<PortDocument>,
) -> bool {
    &&& definition.name@ == name
    &&& definition.static_params@.len() == params.len()
    &&& forall|i: int|
        0 <= i < params.len() ==> param_converted(#[trigger] definition.static_params@[i], params[i])
    &&& definition.ports@.len() == ports.len()
    &&& forall|i: int| 0 <= i < ports.len() ==> port_converted(#[trigger] definition.ports@[i], ports[i])
    &&& definition.latency == LatencySpec::Zero
}

/// Converts a graph declaration: its name, implementation, static
/// parameters and ports.
pub fn convert_declaration(
    name: &str,
    implementation: Option<&str>,
    static_params: &Vec<StaticParamDocument>,
    ports: &Vec<PortDocument>,
) -> (definition: Result<GraphDefinition, Diagnostics>)
    ensures
        match definition {
            Ok(d) => {
                &&& declaration_failure(name@, text_of_str(implementation), static_params@, ports@) is None
                &&& declaration_converted(d, name@, static_params@, ports@)
                &&& d.nodes@.len() == 0
                &&& d.connections@.len() == 0
            },
            Err(d) => declaration_failure(name@, text_of_str(implementation), static_params@, ports@) matches Some(
                f,
            ) && findings_of(d@) == seq![f],
        },
{
    if let Some(selected) = implementation {
        if !str_eq(selected, "script") {
            let mut message = concat3("definition '", name, "' selects unsupported implementation '");
            message.append(selected);
            message.append("'");
            let diagnostic = Diagnostic::new(
                ErrorCode::KernelDefinitionImplementationUnsupported,
                Severity::Error,
                message,
            ).with_module_id(owned(name)).with_expected(owned("script")).with_actual(owned(selected));
            let d = Diagnostics::single(diagnostic);
            proof {
                assert(findings_of(d@) =~= seq![implementation_failure(name@, text_of_str(implementation))->0]);
            }
            return Err(d);
        }
    }
    let mut graph = GraphDefinition::new(name);
    let mut i: usize = 0;
    while i < static_params.len()
        invariant
            i <= static_params@.len(),
            implementation_failure(name@, text_of_str(implementation)) is None,
            graph.name@ == name@,
            graph.static_params@.len() == i,
            forall|j: int| 0 <= j < i ==> param_converted(#[trigger] graph.static_params@[j], static_params@[j]),
            first_failure(static_params@.take(i as int), param_failures()) is None,
            graph.ports@.len() == 0,
            graph.nodes@.len() == 0,
            graph.connections@.len() == 0,
            graph.latency == LatencySpec::Zero,
        decreases static_params@.len() - i,
    {
        proof {
            lemma_first_failure_step(static_params@, param_failures(), i as int);
        }
        match convert_static_param(&static_params[i]) {
            Ok(param) => {
                graph = graph.with_static_param(param);
            },
            Err(d) => {
                proof {
                    lemma_first_failure_settles(static_params@, param_failures(), i + 1);
                }
                return Err(d);
            },
        }
        i = i + 1;
    }
    proof {
        lemma_first_failure_whole(static_params@, param_failures());
    }
    let mut k: usize = 0;
    while k < ports.len()
        invariant
            k <= ports@.len(),
            implementation_failure(name@, text_of_str(implementation)) is None,
            graph.name@ == name@,
            graph.static_params@.len() == static_params@.len(),
            forall|j: int|
                0 <= j < static_params@.len() ==> param_converted(
                    #[trigger] graph.static_params@[j],
                    static_params@[j],
                ),
            first_failure(static_params@, param_failures()) is None,
            graph.ports@.len() == k,
            forall|j: int| 0 <= j < k ==> port_converted(#[trigger] graph.ports@[j], ports@[j]),
            first_failure(ports@.take(k as int), port_failures()) is None,
            graph.nodes@.len() == 0,
            graph.connections@.len() == 0,
            graph.latency == LatencySpec::Zero,
        decreases ports@.len() - k,
    {
        proof {
            lemma_first_failure_step(ports@, port_failures(), k as int);
        }
        match convert_port(&ports[k]) {
            Ok(port) => {
                graph = graph.with_port(port);
            },
            Err(d) => {
                proof {
                    lemma_first_failure_settles(ports@, port_failures(), k + 1);
                }
                return Err(d);
            },
        }
        k = k + 1;
    }
    proof {
        lemma_first_failure_whole(ports@, port_failures());
    }
    Ok(graph)
}

/// Why a graph fails to convert: its declaration, then its nodes, then its
/// connections, each in order.
pub open spec fn graph_failure(
    name: Seq<char>,
    implementation: Option<Seq<char>>,
    params: Seq<StaticParamDocument>,
    ports: Seq<PortDocument>,
    nodes: Seq<NodeDocument>,
    connections: Seq<ConnectionDocument>,
    declared: DeclaredTypes,
) -> Option<Finding> {
    match declaration_failure(name, implementation, params, ports) {
        Some(f) => Some(f),
        None => match first_failure(nodes, node_failures(declared)) {
            Some(f) => Some(f),
            None => first_failure(connections, connection_failures()),
        },
    }
}

/// `connection` is the connection `document` declares.
pub open spec fn connection_converted(connection: Connection, document: ConnectionDocument) -> bool {
    parses_to(connection.source, document.from@) && parses_to(connection.destination, document.to@)
}

/// `definition` is the graph the documents declare.
pub open spec fn graph_converted(
    definition: GraphDefinition,
    name: Seq<char>,
    params: Seq<StaticParamDocument>,
    ports: Seq<PortDocument>,
    nodes: Seq<NodeDocument>,
    connections: Seq<ConnectionDocument>,
    declared: DeclaredTypes,
) -> bool {
    &&& declaration_converted(definition, name, params, ports)
    &&& definition.nodes@.len() == nodes.len()
    &&& forall|i: int| 0 <= i < nodes.len() ==> node_converted(#[trigger] definition.nodes@[i], nodes[i], declared)
    &&& definition.connections@.len() == connections.len()
    &&& forall|i: int|
        0 <= i < connections.len() ==> connection_converted(#[trigger] definition.connections@[i], connections[i])
}

/// Converts a graph declaration with its nodes and connections; the nodes'
/// literal static arguments take the types `registry` declares for them.
pub fn convert_graph(
    name: &str,
    implementation: Option<&str>,
    static_params: &Vec<StaticParamDocument>,
    ports: &Vec<PortDocument>,
    nodes: &Vec<NodeDocument>,
    connections: &Vec<ConnectionDocument>,
    registry: &DefinitionRegistry,
) -> (definition: Result<GraphDefinition, Diagnostics>)
    ensures
        match definition {
            Ok(d) => {
                &&& graph_failure(
                    name@,
                    text_of_str(implementation),
                    static_params@,
                    ports@,
                    nodes@,
                    connections@,
                    registry_types(*registry),
                ) is None
                &&& graph_converted(
                    d,
                    name@,
                    static_params@,
                    ports@,
                    nodes@,
                    connections@,
                    registry_types(*registry),
                )
            },
            Err(d) => graph_failure(
                name@,
                text_of_str(implementation),
                static_params@,
                ports@,
                nodes@,
                connections@,
                registry_types(*registry),
            ) matches Some(f) && findings_of(d@) == seq![f],
        },
{
    let ghost declared = registry_types(*registry);
    let mut graph = match convert_declaration(name, implementation, static_params, ports) {
        Ok(graph) => graph,
        Err(d) => {
            return Err(d);
        },
    };
    let mut i: usize = 0;
    while i < nodes.len()
        invariant
            declared == registry_types(*registry),
            i <= nodes@.len(),
            declaration_failure(name@, text_of_str(implementation), static_params@, ports@) is None,
            declaration_converted(graph, name@, static_params@, ports@),
            graph.nodes@.len() == i,
            forall|j: int| 0 <= j < i ==> node_converted(#[trigger] graph.nodes@[j], nodes@[j], declared),
            first_failure(nodes@.take(i as int), node_failures(declared)) is None,
            graph.connections@.len() == 0,
        decreases nodes@.len() - i,
    {
        proof {
            lemma_first_failure_step(nodes@, node_failures(declared), i as int);
        }
        match convert_node(&nodes[i], registry) {
            Ok(node) => {
                graph = graph.with_node(node);
            },
            Err(d) => {
                proof {
                    lemma_first_failure_settles(nodes@, node_failures(declared), i + 1);
                }
                return Err(d);
            },
        }
        i = i + 1;
    }
    proof {
        lemma_first_failure_whole(nodes@, node_failures(declared));
    }
    let mut k: usize = 0;
    while k < connections.len()
        invariant
            declared == registry_types(*registry),
            k <= connections@.len(),
            declaration_failure(name@, text_of_str(implementation), static_params@, ports@) is None,
            declaration_converted(graph, name@, static_params@, ports@),
            graph.nodes@.len() == nodes@.len(),
            forall|j: int| 0 <= j < nodes@.len() ==> node_converted(#[trigger] graph.nodes@[j], nodes@[j], declared),
            first_failure(nodes@, node_failures(declared)) is None,
            graph.connections@.len() == k,
            forall|j: int|
                0 <= j < k ==> connection_converted(#[trigger] graph.connections@[j], connections@[j]),
            first_failure(connections@.take(k as int), connection_failures()) is None,
        decreases connections@.len() - k,
    {
        proof {
            lemma_first_failure_step(connections@, connection_failures(), k as int);
        }
        let source = match parse_reference(connections[k].from.as_str()) {
            Ok(r) => r,
            Err(d) => {
                proof {
                    lemma_first_failure_settles(connections@, connection_failures(), k + 1);
                    assert(findings_of(d@) =~= seq![reference_finding(connections@[k as int].from@)]);
                }
                return Err(d);
            },
        };
        let destination = match parse_reference(connections[k].to.as_str()) {
            Ok(r) => r,
            Err(d) => {
                proof {
                    lemma_first_failure_settles(connections@, connection_failures(), k + 1);
                    assert(findings_of(d@) =~= seq![reference_finding(connections@[k as int].to@)]);
                }
                return Err(d);
            },
        };
        graph = graph.with_connection(Connection::new(source, destination));
        k = k + 1;
    }
    proof {
        lemma_first_failure_whole(connections@, connection_failures());
    }
    Ok(graph)
}

/// An inline composite definition as written in a document.
#[derive(Debug, PartialEq, Eq)]
pub struct CompositeDocument {
    pub definition_type: String,
    pub implementation: Option<String>,
    pub static_params: Vec<StaticParamDocument>,
    pub ports: Vec<PortDocument>,
    pub modules: Vec<NodeDocument>,
    pub connections: Vec<ConnectionDocument>,
}

/// A whole patch document: metadata, the root graph's own declaration,
/// nodes and connections, and its inline composite definitions.
#[derive(Debug, PartialEq, Eq)]
pub struct PatchDocument {
    pub metadata: MetadataDocument,
    pub static_params: Vec<StaticParamDocument>,
    pub ports: Vec<PortDocument>,
    pub module_definitions: Vec<CompositeDocument>,
    pub modules: Vec<NodeDocument>,
    pub connections: Vec<ConnectionDocument>,
}

/// A patch document converted into the kernel graph model.
#[derive(Debug)]
pub struct KernelPatch {
    pub metadata: KernelPatchMetadata,
    pub root: GraphDefinition,
    pub registry: DefinitionRegistry,
}

impl KernelPatch {
    pub fn metadata(&self) -> (metadata: &KernelPatchMetadata)
        ensures
            *metadata == self.metadata,
    {
        &self.metadata
    }

    pub fn root(&self) -> (root: &GraphDefinition)
        ensures
            *root == self.root,
    {
        &self.root
    }

    pub fn registry(&self) -> (registry: &DefinitionRegistry)
        ensures
            *registry == self.registry,
    {
        &self.registry
    }
}

/// Name of the root definition when neither the caller nor the metadata
/// names it.
pub const ROOT_DEFINITION_NAME: &'static str = "root";

/// Position of the first parameter document named `name` (the length when
/// none is).
pub open spec fn doc_param_position(params: Seq<StaticParamDocument>, name: Seq<char>) -> int
    decreases params.len(),
{
    if params.len() == 0 {
        0
    } else if params[0].name@ == name {
        0
    } else {
        1 + doc_param_position(params.drop_first(), name)
    }
}

/// The type the first parameter document named `name` declares.
pub open spec fn doc_param_type(params: Seq<StaticParamDocument>, name: Seq<char>) -> Option<StaticType> {
    let i = doc_param_position(params, name);
    if 0 <= i < params.len() {
        Some(declared_static_type(params[i].static_type))
    } else {
        None
    }
}

/// `params` are the parameters `documents` declare, in order.
pub open spec fn params_converted(params: Seq<StaticParam>, documents: Seq<StaticParamDocument>) -> bool {
    &&& params.len() == documents.len()
    &&& forall|i: int| 0 <= i < params.len() ==> param_converted(#[trigger] params[i], documents[i])
}

proof fn lemma_param_types(params: Seq<StaticParam>, documents: Seq<StaticParamDocument>, name: Seq<char>)
    requires
        params_converted(params, documents),
    ensures
        param_position(params, name) == doc_param_position(documents, name),
        0 <= doc_param_position(documents, name) <= documents.len(),
        match param_named(params, name) {
            Some(p) => doc_param_type(documents, name) == Some(p.static_type),
            None => doc_param_type(documents, name) is None,
        },
    decreases params.len(),
{
    if params.len() > 0 {
        assert(param_converted(params[0], documents[0]));
        if params[0].name@ != name {
            let rest = params.drop_first();
            let docs = documents.drop_first();
            assert forall|i: int| 0 <= i < rest.len() implies param_converted(#[trigger] rest[i], docs[i]) by {
                assert(param_converted(params[i + 1], documents[i + 1]));
            }
            lemma_param_types(rest, docs, name);
            let k = param_position(params, name);
            if k < params.len() {
                assert(params[k] == rest[k - 1]);
                assert(documents[k] == docs[k - 1]);
                assert(param_converted(params[k], documents[k]));
            }
        }
    }
}

/// Index of the last of the first `n` composites of type `t` (-1 when none
/// is).
pub open spec fn last_of_type(composites: Seq<CompositeDocument>, t: Seq<char>, n: int) -> int
    decreases n,
{
    if n <= 0 || n > composites.len() {
        -1
    } else if composites[n - 1].definition_type@ == t {
        n - 1
    } else {
        last_of_type(composites, t, n - 1)
    }
}

proof fn lemma_last_of_type_bounds(composites: Seq<CompositeDocument>, t: Seq<char>, n: int)
    requires
        0 <= n <= composites.len(),
    ensures
        -1 <= last_of_type(composites, t, n) < n,
        last_of_type(composites, t, n) >= 0 ==> composites[last_of_type(composites, t, n)].definition_type@ == t,
    decreases n,
{
    if n > 0 && composites[n - 1].definition_type@ != t {
        lemma_last_of_type_bounds(composites, t, n - 1);
    }
}

/// The composite whose parameters the registry holds for type `t` while the
/// `k`-th composite graph is converted: the last of the graphs already
/// converted, else the last declaration (-1 for a built-in or unknown type).
pub open spec fn registered_source(composites: Seq<CompositeDocument>, t: Seq<char>, k: int) -> int {
    let j = last_of_type(composites, t, k);
    if j >= 0 {
        j
    } else {
        last_of_type(composites, t, composites.len() as int)
    }
}

/// The declared parameter types while the `k`-th composite graph (or, at the
/// end, the root) is converted.
pub open spec fn patch_types(
    builtins: DefinitionRegistry,
    composites: Seq<CompositeDocument>,
    k: int,
) -> DeclaredTypes {
    |t: Seq<char>, name: Seq<char>|
        {
            let source = registered_source(composites, t, k);
            if source >= 0 {
                doc_param_type(composites[source].static_params@, name)
            } else {
                declared_param_type(builtins, t, name)
            }
        }
}

/// Why the declaration of a composite fails to convert, as a function.
pub open spec fn composite_declaration_failures() -> spec_fn(CompositeDocument) -> Option<Finding> {
    |c: CompositeDocument|
        declaration_failure(
            c.definition_type@,
            text_of_option(c.implementation),
            c.static_params@,
            c.ports@,
        )
}

/// Why the graph of the composite `c`, converted as the `k`-th, fails.
pub open spec fn composite_graph_failure(
    builtins: DefinitionRegistry,
    composites: Seq<CompositeDocument>,
    k: int,
) -> Option<Finding> {
    let c = composites[k];
    graph_failure(
        c.definition_type@,
        text_of_option(c.implementation),
        c.static_params@,
        c.ports@,
        c.modules@,
        c.connections@,
        patch_types(builtins, composites, k),
    )
}

/// The failure of the first of the first `n` composite graphs that fails.
pub open spec fn composite_graphs_failure(
    builtins: DefinitionRegistry,
    composites: Seq<CompositeDocument>,
    n: int,
) -> Option<Finding>
    decreases n,
{
    if n <= 0 || n > composites.len() {
        None
    } else {
        match composite_graphs_failure(builtins, composites, n - 1) {
            Some(f) => Some(f),
            None => composite_graph_failure(builtins, composites, n - 1),
        }
    }
}

proof fn lemma_composite_graphs_failure_settles(
    builtins: DefinitionRegistry,
    composites: Seq<CompositeDocument>,
    k: int,
    n: int,
)
    requires
        0 <= k <= n <= composites.len(),
        composite_graphs_failure(builtins, composites, k) is Some,
    ensures
        composite_graphs_failure(builtins, composites, n) == composite_graphs_failure(builtins, composites, k),
    decreases n - k,
{
    if k < n {
        lemma_composite_graphs_failure_settles(builtins, composites, k, n - 1);
    }
}

/// The root definition's name: the one asked for, else the metadata name,
/// else `root`.
pub open spec fn root_name(definition_name: Option<Seq<char>>, metadata_name: Option<Seq<char>>) -> Seq<char> {
    match definition_name {
        Some(n) => n,
        None => match metadata_name {
            Some(n) => n,
            None => ROOT_DEFINITION_NAME@,
        },
    }
}

/// The finding a patch without a root output port is reported by.
pub open spec fn no_output_finding() -> Finding {
    (
        ErrorCode::KernelDocumentNoOutput,
        None,
        None,
        None,
        None,
        Some("declare at least one output in ports"@),
    )
}

/// Some port document declares an output.
pub open spec fn declares_output(ports: Seq<PortDocument>) -> bool {
    exists|i: int| 0 <= i < ports.len() && #[trigger] ports[i].direction == PortDirection::Output
}

/// Why a patch document fails to convert: the composite declarations, then
/// the composite graphs, then the root graph, each in order, and last a
/// missing root output when one is required.
pub open spec fn patch_failure(
    document: PatchDocument,
    definition_name: Option<Seq<char>>,
    require_output: bool,
    builtins: DefinitionRegistry,
) -> Option<Finding> {
    let composites = document.module_definitions@;
    match first_failure(composites, composite_declaration_failures()) {
        Some(f) => Some(f),
        None => match composite_graphs_failure(builtins, composites, composites.len() as int) {
            Some(f) => Some(f),
            None => match graph_failure(
                root_name(definition_name, text_of_option(document.metadata.name)),
                None,
                document.static_params@,
                document.ports@,
                document.modules@,
                document.connections@,
                patch_types(builtins, composites, composites.len() as int),
            ) {
                Some(f) => Some(f),
                None => if require_output && !declares_output(document.ports@) {
                    Some(no_output_finding())
                } else {
                    None
                },
            },
        },
    }
}

/// The findings a patch document is refused with.
pub open spec fn document_findings(
    document: PatchDocument,
    definition_name: Option<Seq<char>>,
    require_output: bool,
    builtins: DefinitionRegistry,
) -> Seq<Finding> {
    match patch_failure(document, definition_name, require_output, builtins) {
        Some(f) => seq![f],
        None => Seq::empty(),
    }
}

/// The registry entry for type `t` once every composite graph has been
/// converted: the last composite of that type, converted with the types
/// known at its turn, else the built-in entry.
pub open spec fn registry_converted(
    registry: DefinitionRegistry,
    builtins: DefinitionRegistry,
    composites: Seq<CompositeDocument>,
) -> bool {
    forall|t: Seq<char>|
        {
            let j = #[trigger] last_of_type(composites, t, composites.len() as int);
            if j >= 0 {
                registry.lookup(t) matches Some(d) && graph_converted(
                    d,
                    t,
                    composites[j].static_params@,
                    composites[j].ports@,
                    composites[j].modules@,
                    composites[j].connections@,
                    patch_types(builtins, composites, j),
                )
            } else {
                registry.lookup(t) == builtins.lookup(t)
            }
        }
}

/// `patch` is what `document` converts to.
pub open spec fn patch_converted(
    patch: KernelPatch,
    document: PatchDocument,
    definition_name: Option<Seq<char>>,
    builtins: DefinitionRegistry,
) -> bool {
    let composites = document.module_definitions@;
    &&& patch.metadata.name_text() == text_of_option(document.metadata.name)
    &&& patch.metadata.version_text() == text_of_option(document.metadata.version)
    &&& patch.metadata.author_text() == text_of_option(document.metadata.author)
    &&& graph_converted(
        patch.root,
        root_name(definition_name, text_of_option(document.metadata.name)),
        document.static_params@,
        document.ports@,
        document.modules@,
        document.connections@,
        patch_types(builtins, composites, composites.len() as int),
    )
    &&& registry_converted(patch.registry, builtins, composites)
}

/// The registry while the `k`-th composite graph is converted: each type
/// converted already holds its last converted graph, each other composite
/// type its last declaration, every other type its built-in entry.
pub open spec fn registry_at(
    registry: DefinitionRegistry,
    builtins: DefinitionRegistry,
    composites: Seq<CompositeDocument>,
    k: int,
) -> bool {
    forall|t: Seq<char>|
        {
            let j = #[trigger] last_of_type(composites, t, k);
            let last = last_of_type(composites, t, composites.len() as int);
            if j >= 0 {
                registry.lookup(t) matches Some(d) && graph_converted(
                    d,
                    t,
                    composites[j].static_params@,
                    composites[j].ports@,
                    composites[j].modules@,
                    composites[j].connections@,
                    patch_types(builtins, composites, j),
                )
            } else if last >= 0 {
                registry.lookup(t) matches Some(d) && params_converted(
                    d.static_params@,
                    composites[last].static_params@,
                )
            } else {
                registry.lookup(t) == builtins.lookup(t)
            }
        }
}

proof fn lemma_registry_types(
    registry: DefinitionRegistry,
    builtins: DefinitionRegistry,
    composites: Seq<CompositeDocument>,
    k: int,
)
    requires
        0 <= k <= composites.len(),
        registry_at(registry, builtins, composites, k),
    ensures
        registry_types(registry) == patch_types(builtins, composites, k),
{
    assert forall|t: Seq<char>, name: Seq<char>|
        #[trigger] registry_types(registry)(t, name) == patch_types(builtins, composites, k)(t, name) by {
        let j = last_of_type(composites, t, k);
        let last = last_of_type(composites, t, composites.len() as int);
        lemma_last_of_type_bounds(composites, t, k);
        lemma_last_of_type_bounds(composites, t, composites.len() as int);
        if j >= 0 {
            let d = registry.lookup(t)->0;
            assert(params_converted(d.static_params@, composites[j].static_params@));
            lemma_param_types(d.static_params@, composites[j].static_params@, name);
        } else if last >= 0 {
            let d = registry.lookup(t)->0;
            lemma_param_types(d.static_params@, composites[last].static_params@, name);
        }
    }
    assert(registry_types(registry) =~= patch_types(builtins, composites, k));
}

fn copy_text(text: &Option<String>) -> (copy: Option<String>)
    ensures
        text_of_option(copy) == text_of_option(*text),
{
    match text {
        Some(t) => Some(t.clone()),
        None => None,
    }
}

/// Converts a patch document into the kernel graph model: each inline
/// composite's declaration is registered over `builtins` first, so that
/// composites may refer to each other, then each composite's full graph
/// replaces its declaration, and last the root graph is converted, named
/// `definition_name`, else by the metadata, else `root`. When
/// `require_output` holds the root must declare an output port.
pub fn convert_patch_document(
    document: &PatchDocument,
    definition_name: Option<&str>,
    require_output: bool,
    builtins: DefinitionRegistry,
) -> (patch: Result<KernelPatch, Diagnostics>)
    ensures
        match patch {
            Ok(p) => patch_failure(*document, text_of_str(definition_name), require_output, builtins) is None
                && patch_converted(p, *document, text_of_str(definition_name), builtins),
            Err(d) => patch_failure(*document, text_of_str(definition_name), require_output, builtins) is Some
                && findings_of(d@) == document_findings(*document, text_of_str(definition_name), require_output, builtins),
        },
        require_output && patch is Ok ==> exists|i: int|
            0 <= i < patch->Ok_0.root.ports@.len() && #[trigger] patch->Ok_0.root.ports@[i].direction
                == PortDirection::Output,
{
    let ghost composites = document.module_definitions@;
    let ghost original = builtins;
    let metadata = KernelPatchMetadata::new(
        copy_text(&document.metadata.name),
        copy_text(&document.metadata.version),
        copy_text(&document.metadata.author),
    );
    let name: &str = match definition_name {
        Some(n) => n,
        None => match &document.metadata.name {
            Some(n) => n.as_str(),
            None => ROOT_DEFINITION_NAME,
        },
    };
    let count = document.module_definitions.len();
    let mut registry = builtins;
    let mut i: usize = 0;
    while i < count
        invariant
            count == composites.len(),
            composites == document.module_definitions@,
            original == builtins,
            i <= count,
            first_failure(composites.take(i as int), composite_declaration_failures()) is None,
            forall|t: Seq<char>|
                {
                    let j = #[trigger] last_of_type(composites, t, i as int);
                    if j >= 0 {
                        registry.lookup(t) matches Some(d) && params_converted(
                            d.static_params@,
                            composites[j].static_params@,
                        )
                    } else {
                        registry.lookup(t) == original.lookup(t)
                    }
                },
        decreases count - i,
    {
        proof {
            lemma_first_failure_step(composites, composite_declaration_failures(), i as int);
        }
        let composite = &document.module_definitions[i];
        match convert_declaration(
            composite.definition_type.as_str(),
            borrow_text(&composite.implementation),
            &composite.static_params,
            &composite.ports,
        ) {
            Ok(declaration) => {
                registry = registry.with_definition(declaration);
                proof {
                    assert forall|t: Seq<char>| #[trigger] last_of_type(composites, t, i + 1) == if composites[i as int].definition_type@ == t {
                        i as int
                    } else {
                        last_of_type(composites, t, i as int)
                    } by {}
                    assert forall|t: Seq<char>| #[trigger] last_of_type(composites, t, i + 1) >= 0 ==> 
                        last_of_type(composites, t, i + 1) < composites.len() by {
                        lemma_last_of_type_bounds(composites, t, i + 1);
                    }
                }
            },
            Err(d) => {
                proof {
                    lemma_first_failure_settles(composites, composite_declaration_failures(), i + 1);
                }
                return Err(d);
            },
        }
        i = i + 1;
    }
    proof {
        lemma_first_failure_whole(composites, composite_declaration_failures());
        assert forall|t: Seq<char>| #[trigger] last_of_type(composites, t, 0) == -1 by {}
    }
    let mut k: usize = 0;
    while k < count
        invariant
            count == composites.len(),
            composites == document.module_definitions@,
            original == builtins,
            k <= count,
            first_failure(composites, composite_declaration_failures()) is None,
            composite_graphs_failure(original, composites, k as int) is None,
            registry_at(registry, original, composites, k as int),
        decreases count - k,
    {
        proof {
            lemma_registry_types(registry, original, composites, k as int);
        }
        let composite = &document.module_definitions[k];
        match convert_graph(
            composite.definition_type.as_str(),
            borrow_text(&composite.implementation),
            &composite.static_params,
            &composite.ports,
            &composite.modules,
            &composite.connections,
            &registry,
        ) {
            Ok(graph) => {
                let ghost before = registry;
                registry = registry.with_definition(graph);
                proof {
                    assert forall|t: Seq<char>| #[trigger] last_of_type(composites, t, k + 1) == if composites[k as int].definition_type@ == t {
                        k as int
                    } else {
                        last_of_type(composites, t, k as int)
                    } by {}
                    assert(registry_at(registry, original, composites, k + 1));
                }
            },
            Err(d) => {
                proof {
                    assert(composite_graphs_failure(original, composites, k + 1) is Some);
                    lemma_composite_graphs_failure_settles(original, composites, k + 1, count as int);
                    assert(findings_of(d@) == seq![composite_graph_failure(original, composites, k as int)->0]);
                    assert(composite_graphs_failure(original, composites, composites.len() as int)
                        == composite_graph_failure(original, composites, k as int));
                    assert(patch_failure(*document, text_of_str(definition_name), require_output, original)
                        == composite_graph_failure(original, composites, k as int));
                }
                return Err(d);
            },
        }
        k = k + 1;
    }
    proof {
        lemma_registry_types(registry, original, composites, count as int);
    }
    let root = match convert_graph(
        name,
        None,
        &document.static_params,
        &document.ports,
        &document.modules,
        &document.connections,
        &registry,
    ) {
        Ok(root) => root,
        Err(d) => {
            return Err(d);
        },
    };
    if require_output {
        let mut found = false;
        let mut p: usize = 0;
        while p < document.ports.len()
            invariant
                p <= document.ports@.len(),
                found == exists|q: int| 0 <= q < p && #[trigger] document.ports@[q].direction == PortDirection::Output,
            decreases document.ports@.len() - p,
        {
            if document.ports[p].direction == PortDirection::Output {
                found = true;
            }
            p = p + 1;
        }
        if !found {
            let diagnostic = Diagnostic::new(
                ErrorCode::KernelDocumentNoOutput,
                Severity::Error,
                owned("kernel patch declares no root output port, so the instrument has no observable output"),
            ).with_suggested_fix(owned("declare at least one output in ports"));
            let d = Diagnostics::single(diagnostic);
            proof {
                assert(findings_of(d@) =~= seq![no_output_finding()]);
            }
            return Err(d);
        }
    }
    proof {
        assert forall|t: Seq<char>|
            #[trigger] last_of_type(composites, t, composites.len() as int) == last_of_type(composites, t, count as int) by {}
        if require_output {
            let q = choose|q: int| 0 <= q < document.ports@.len() && #[trigger] document.ports@[q].direction
                == PortDirection::Output;
            assert(port_converted(root.ports@[q], document.ports@[q]));
        }
    }
    Ok(KernelPatch { metadata, root, registry })
}

/// Extension of a kernel patch file.
pub const YAML_EXTENSION: &'static str = "yaml";

/// The other accepted extension of a kernel patch file.
pub const YML_EXTENSION: &'static str = "yml";

/// What `std::path::Path::extension` returns for the path `path`, as text.
pub uninterp spec fn path_extension(path: Seq<char>) -> Option<Seq<char>>;

/// The extension of the path `path` (`std::path::Path::extension`). The
/// contract claims only that the result is a function of the path text.
#[verifier::external_body]
fn extension_of(path: &str) -> (extension: Option<String>)
    ensures
        match extension {
            Some(e) => path_extension(path@) == Some(e@),
            None => path_extension(path@) is None,
        },
{
    std::path::Path::new(path).extension().map(|e| e.to_string_lossy().into_owned())
}

/// A patch file with extension `extension` is one the front end reads.
pub open spec fn supported_extension(extension: Option<Seq<char>>) -> bool {
    extension == Some(YAML_EXTENSION@) || extension == Some(YML_EXTENSION@)
}

/// Accepts a patch file at `path` whose extension is `extension` when that is
/// `yaml` or `yml`, and otherwise refuses it as an unsupported format.
pub fn patch_format(path: &str, extension: Option<String>) -> (checked: Result<(), Diagnostics>)
    ensures
        checked is Ok <==> supported_extension(text_of_option(extension)),
        checked matches Err(d) ==> d@.len() == 1 && d@[0].code == ErrorCode::KernelDocumentUnsupportedFormat
            && d@[0].severity == Severity::Error && d@[0].message@ == "unsupported kernel patch format: "@ + path@
            && text_of(d@[0].expected) == Some(".yaml or .yml"@) && d@[0].module_id is None && d@[0].port_name is None
            && d@[0].actual is None && d@[0].suggested_fix is None,
{
    let supported = match &extension {
        Some(e) => str_eq(e.as_str(), YAML_EXTENSION) || str_eq(e.as_str(), YML_EXTENSION),
        None => false,
    };
    if supported {
        return Ok(());
    }
    let message = concat2("unsupported kernel patch format: ", path);
    let diagnostic = Diagnostic::new(ErrorCode::KernelDocumentUnsupportedFormat, Severity::Error, message)
        .with_expected(owned(".yaml or .yml"));
    Err(Diagnostics::single(diagnostic))
}

/// Accepts a patch file at `path` when its extension is `yaml` or `yml`.
pub fn check_patch_format(path: &str) -> (checked: Result<(), Diagnostics>)
    ensures
        checked is Ok <==> supported_extension(path_extension(path@)),
        checked matches Err(d) ==> d@.len() == 1 && d@[0].code == ErrorCode::KernelDocumentUnsupportedFormat
            && d@[0].severity == Severity::Error && d@[0].message@ == "unsupported kernel patch format: "@ + path@
            && text_of(d@[0].expected) == Some(".yaml or .yml"@) && d@[0].module_id is None && d@[0].port_name is None
            && d@[0].actual is None && d@[0].suggested_fix is None,
{
    let extension = extension_of(path);
    patch_format(path, extension)
}

/// `value` is the string `text`.
pub open spec fn is_string(value: YamlValue, text: Seq<char>) -> bool {
    value matches YamlValue::Str(s) && s@ == text
}

/// A resource reference written as a mapping of exactly the fields `kind`
/// (`sample` or `impulse_response`) and `path`, in either order, converts at
/// the resource type to the resource at that path, and is read as a
/// resource where no type is declared.
pub proof fn law_resource_reference_converts(value: YamlValue, kind: Seq<char>, path: Seq<char>)
    requires
        kind == "sample"@ || kind == "impulse_response"@,
        value matches YamlValue::Mapping(entries) && entries@.len() == 2 && ((is_string(entries@[0].key, "kind"@)
            && is_string(entries@[0].value, kind) && is_string(entries@[1].key, "path"@) && is_string(
            entries@[1].value,
            path,
        )) || (is_string(entries@[0].key, "path"@) && is_string(entries@[0].value, path) && is_string(
            entries@[1].key,
            "kind"@,
        ) && is_string(entries@[1].value, kind))),
    ensures
        converted_value(value, StaticType::Resource) == Some((StaticType::Resource, 0int, path)),
        inferred_type(value) == StaticType::Resource,
{
    reveal_strlit("kind");
    reveal_strlit("path");
    reveal_strlit("sample");
    reveal_strlit("impulse_response");
    let entries = value->Mapping_0@;
    assert("kind"@ != "path"@) by {
        assert("kind"@[0] != "path"@[0]);
    }
    let front = entries.drop_last();
    assert(front.drop_last() =~= Seq::<YamlEntry>::empty());
    assert(front[0] == entries[0]);
    if is_string(entries[0].key, "kind"@) {
        assert(key_is(entries[0], "kind"@));
        assert(!key_is(entries[0], "path"@));
        assert(key_is(entries[1], "path"@));
        assert(!key_is(entries[1], "kind"@));
    } else {
        assert(key_is(entries[0], "path"@));
        assert(!key_is(entries[0], "kind"@));
        assert(key_is(entries[1], "kind"@));
        assert(!key_is(entries[1], "path"@));
    }
    assert(crate::kernel::yaml::field_position(front.drop_last(), "kind"@) == 0);
    assert(crate::kernel::yaml::field_position(front.drop_last(), "path"@) == 0);
    assert(front.last() == entries[0]);
    assert(crate::kernel::yaml::field_position(front, "kind"@) == if key_is(entries[0], "kind"@) { 0int } else { 1int });
    assert(crate::kernel::yaml::field_position(front, "path"@) == if key_is(entries[0], "path"@) { 0int } else { 1int });
}

/// `value` is the string `sample` or `impulse_response`.
pub open spec fn names_resource_kind(value: YamlValue) -> bool {
    is_string(value, "sample"@) || is_string(value, "impulse_response"@)
}

/// Only such a reference converts at the resource type: whatever converts
/// is a mapping of exactly the fields `kind` and `path`, in either order,
/// whose kind is `sample` or `impulse_response` and whose path is the
/// resource it converts to.
pub proof fn law_only_resource_references_convert(value: YamlValue, path: Seq<char>)
    requires
        converted_value(value, StaticType::Resource) == Some((StaticType::Resource, 0int, path)),
    ensures
        value matches YamlValue::Mapping(entries) && entries@.len() == 2 && ((is_string(entries@[0].key, "kind"@)
            && names_resource_kind(entries@[0].value) && is_string(entries@[1].key, "path"@) && is_string(
            entries@[1].value,
            path,
        )) || (is_string(entries@[0].key, "path"@) && is_string(entries@[0].value, path) && is_string(
            entries@[1].key,
            "kind"@,
        ) && names_resource_kind(entries@[1].value))),
{
    reveal_strlit("kind");
    reveal_strlit("path");
    let entries = value->Mapping_0@;
    assert("kind"@ != "path"@) by {
        assert("kind"@[0] != "path"@[0]);
    }
    let front = entries.drop_last();
    assert(front.drop_last() =~= Seq::<YamlEntry>::empty());
    assert(front[0] == entries[0]);
    assert(crate::kernel::yaml::field_position(front.drop_last(), "kind"@) == 0);
    assert(crate::kernel::yaml::field_position(front.drop_last(), "path"@) == 0);
    assert(front.last() == entries[0]);
    let kind = string_field(entries, "kind"@)->0;
    if key_is(entries[0], "kind"@) {
        assert(!key_is(entries[0], "path"@));
        assert(crate::kernel::yaml::field_position(front, "kind"@) == 0);
        assert(crate::kernel::yaml::field_position(front, "path"@) == 1);
        assert(is_string(entries[0].value, kind));
        assert(is_string(entries[1].value, path));
    } else {
        assert(!key_is(entries[0], "kind"@));
        assert(crate::kernel::yaml::field_position(front, "path"@) == 0);
        assert(crate::kernel::yaml::field_position(front, "kind"@) == 1);
        assert(is_string(entries[1].value, kind));
        assert(is_string(entries[0].value, path));
    }
}

} // verus!
