//! Validation of a graph definition against the registry of the definitions
//! its nodes instantiate: static arguments, channel counts, port references,
//! signal-type compatibility and feedback cycles.
use vstd::prelude::*;
use vstd::string::*;

use crate::diagnostics::{Diagnostic, Diagnostics, ErrorCode, Severity};
use crate::kernel::{
    Multiplicity,
    node_named, param_named, ChannelCount, Connection, DefinitionRegistry, GraphDefinition,
    KernelValidation, LatencySpec, Node, NodeId, Port, EffectiveInput, PortDirection, PortRef, PromotionStep, ResolvedPort, SignalType,
    StaticArg, StaticParam, StaticType, StaticValue, MIN_CHANNELS, FEEDBACK_DELAY_DEFINITION, type_of_value,
};
use crate::latency::{count_true, distinct_texts, intern, join_texts, joined, lemma_count_true_bound, lemma_count_true_grows, marks, texts_of};
use crate::name_map::NameMap;
use crate::text::{concat2, concat3, decimal_string, decimal_text, signed_decimal, signed_text, str_eq};

verus! {

// ---------------------------------------------------------------------------
// Findings: what a diagnostic says, apart from its wording
// ---------------------------------------------------------------------------

/// A diagnostic's code, module id, port name, the expected and actual values
/// it reports, and its suggested fix.
pub type Finding = (
    ErrorCode,
    Option<Seq<char>>,
    Option<Seq<char>>,
    Option<Seq<char>>,
    Option<Seq<char>>,
    Option<Seq<char>>,
);

pub open spec fn text_of(text: Option<String>) -> Option<Seq<char>> {
    match text {
        Some(t) => Some(t@),
        None => None,
    }
}

pub open spec fn finding_of(d: Diagnostic) -> Finding {
    (
        d.code,
        text_of(d.module_id),
        text_of(d.port_name),
        text_of(d.expected),
        text_of(d.actual),
        text_of(d.suggested_fix),
    )
}

pub open spec fn findings_of(ds: Seq<Diagnostic>) -> Seq<Finding> {
    ds.map_values(|d: Diagnostic| finding_of(d))
}

/// Every diagnostic of `ds` is an error.
pub open spec fn all_errors(ds: Seq<Diagnostic>) -> bool {
    forall|i: int| 0 <= i < ds.len() ==> (#[trigger] ds[i]).severity == Severity::Error
}

/// A finding about module `module` with no port.
pub open spec fn about(code: ErrorCode, module: Seq<char>) -> Finding {
    (code, Some(module), None, None, None, None)
}

/// A finding about port `port` of module `module`.
pub open spec fn about_port(code: ErrorCode, module: Seq<char>, port: Seq<char>) -> Finding {
    (code, Some(module), Some(port), None, None, None)
}

/// `finding`, reporting the value `expected` and, when there is one, the
/// value `actual`.
pub open spec fn expecting(finding: Finding, expected: Seq<char>, actual: Option<Seq<char>>) -> Finding {
    (finding.0, finding.1, finding.2, Some(expected), actual, finding.5)
}

/// The name a static type is reported by.
pub open spec fn static_type_text(static_type: StaticType) -> Seq<char> {
    match static_type {
        StaticType::Int => "Int"@,
        StaticType::Enum => "Enum"@,
        StaticType::Resource => "Resource"@,
    }
}

/// The name a signal type is reported by.
pub open spec fn signal_type_text(signal_type: SignalType) -> Seq<char> {
    match signal_type {
        SignalType::Audio => "Audio"@,
        SignalType::Control => "Control"@,
        SignalType::Event => "Event"@,
    }
}

/// A finding that a static reference of `def` does not name an integer
/// static parameter.
pub open spec fn unresolved_reference(def: GraphDefinition) -> Finding {
    expecting(about(ErrorCode::KernelUnresolvedStaticReference, def.name@), "integer static parameter"@, None)
}

/// The value stored under `key`, if any.
pub open spec fn map_get(m: Map<Seq<char>, StaticValue>, key: Seq<char>) -> Option<StaticValue> {
    if m.dom().contains(key) {
        Some(m[key])
    } else {
        None
    }
}

// ---------------------------------------------------------------------------
// Static references of a definition
// ---------------------------------------------------------------------------

/// `name` is a declared integer static parameter of `def`.
pub open spec fn integer_param(def: GraphDefinition, name: Seq<char>) -> bool {
    param_named(def.static_params@, name) matches Some(p) && p.static_type == StaticType::Int
}

/// Findings for the first `m` ports of `def` whose channel count names a
/// static parameter that is not a declared integer.
pub open spec fn channel_reference_findings(def: GraphDefinition, m: nat) -> Seq<Finding>
    decreases m,
{
    if m == 0 || m > def.ports@.len() {
        Seq::empty()
    } else {
        let rest = channel_reference_findings(def, (m - 1) as nat);
        match def.ports@[m - 1].channels {
            ChannelCount::Param(name) => if integer_param(def, name@) {
                rest
            } else {
                rest.push(unresolved_reference(def))
            },
            ChannelCount::Literal(_) => rest,
        }
    }
}

/// Findings for channel counts and a latency of `def` that name a static
/// parameter which is not a declared integer.
pub open spec fn reference_findings(def: GraphDefinition) -> Seq<Finding> {
    let ports = channel_reference_findings(def, def.ports@.len() as nat);
    match def.latency {
        LatencySpec::StaticParam { name, .. } => if integer_param(def, name@) {
            ports
        } else {
            ports.push(unresolved_reference(def))
        },
        _ => ports,
    }
}

// ---------------------------------------------------------------------------
// Static arguments of a node
// ---------------------------------------------------------------------------

/// The declared defaults of the first `m` static parameters of `def`, a later
/// parameter of a name replacing an earlier one.
pub open spec fn enclosing_context(def: GraphDefinition, m: nat) -> Map<Seq<char>, StaticValue>
    decreases m,
{
    if m == 0 || m > def.static_params@.len() {
        Map::empty()
    } else {
        let rest = enclosing_context(def, (m - 1) as nat);
        let param = def.static_params@[m - 1];
        match param.default {
            Some(value) => rest.insert(param.name@, value),
            None => rest,
        }
    }
}

/// The context a definition's nodes resolve `$name` arguments against.
pub open spec fn context_of(def: GraphDefinition) -> Map<Seq<char>, StaticValue> {
    enclosing_context(def, def.static_params@.len() as nat)
}

/// Findings for the first `m` static arguments of `node` that name no static
/// parameter of `referenced`.
pub open spec fn unknown_argument_findings(node: Node, referenced: GraphDefinition, m: nat) -> Seq<Finding>
    decreases m,
{
    if m == 0 || m > node.static_args.pairs().len() {
        Seq::empty()
    } else {
        let rest = unknown_argument_findings(node, referenced, (m - 1) as nat);
        if param_named(referenced.static_params@, node.static_args.pairs()[m - 1].0) is None {
            rest.push(about(ErrorCode::KernelUnknownStaticArgument, node.id.0@))
        } else {
            rest
        }
    }
}

/// The value `node` supplies for `param`, or the code of the finding that
/// rejects it: a literal, a `$name` from `context`, or the declared default.
pub open spec fn supplied_value(node: Node, param: StaticParam, context: Map<Seq<char>, StaticValue>) -> Result<
    StaticValue,
    ErrorCode,
> {
    match node.static_args.lookup(param.name@) {
        Some(StaticArg::Literal(value)) => Ok(value),
        Some(StaticArg::ParamRef(name)) => match map_get(context, name@) {
            Some(value) => Ok(value),
            None => Err(ErrorCode::KernelUnknownStaticParamReference),
        },
        Some(StaticArg::Expression(_)) => Err(ErrorCode::KernelStaticArgumentExpression),
        None => match param.default {
            Some(value) => Ok(value),
            None => Err(ErrorCode::KernelMissingStaticArgument),
        },
    }
}

/// Findings for the first `m` static parameters of `referenced` as `node`
/// supplies them: rejected arguments and values of the wrong type.
pub open spec fn argument_findings(
    node: Node,
    referenced: GraphDefinition,
    context: Map<Seq<char>, StaticValue>,
    m: nat,
) -> Seq<Finding>
    decreases m,
{
    if m == 0 || m > referenced.static_params@.len() {
        Seq::empty()
    } else {
        let rest = argument_findings(node, referenced, context, (m - 1) as nat);
        let param = referenced.static_params@[m - 1];
        match supplied_value(node, param, context) {
            Err(code) => rest.push(about(code, node.id.0@)),
            Ok(value) => if type_of_value(value) == param.static_type {
                rest
            } else {
                rest.push(
                    expecting(
                        about(ErrorCode::KernelStaticArgumentTypeMismatch, node.id.0@),
                        static_type_text(param.static_type),
                        Some(static_type_text(type_of_value(value))),
                    ),
                )
            },
        }
    }
}

/// The well-typed values `node` supplies for the first `m` static parameters
/// of `referenced`.
pub open spec fn resolved_arguments(
    node: Node,
    referenced: GraphDefinition,
    context: Map<Seq<char>, StaticValue>,
    m: nat,
) -> Map<Seq<char>, StaticValue>
    decreases m,
{
    if m == 0 || m > referenced.static_params@.len() {
        Map::empty()
    } else {
        let rest = resolved_arguments(node, referenced, context, (m - 1) as nat);
        let param = referenced.static_params@[m - 1];
        match supplied_value(node, param, context) {
            Ok(value) => if type_of_value(value) == param.static_type {
                rest.insert(param.name@, value)
            } else {
                rest
            },
            Err(_) => rest,
        }
    }
}

/// Every finding resolving `node`'s static arguments for `referenced`.
pub open spec fn resolution_findings(node: Node, referenced: GraphDefinition, context: Map<Seq<char>, StaticValue>) -> Seq<
    Finding,
> {
    unknown_argument_findings(node, referenced, node.static_args.pairs().len() as nat) + argument_findings(
        node,
        referenced,
        context,
        referenced.static_params@.len() as nat,
    )
}

/// The static arguments `node` resolves to for `referenced`.
pub open spec fn arguments_of(node: Node, referenced: GraphDefinition, context: Map<Seq<char>, StaticValue>) -> Map<
    Seq<char>,
    StaticValue,
> {
    resolved_arguments(node, referenced, context, referenced.static_params@.len() as nat)
}

// ---------------------------------------------------------------------------
// Resolved values and ports
// ---------------------------------------------------------------------------

/// Findings for the first `m` ports of `def` whose channel count resolves
/// below the minimum.
pub open spec fn channel_value_findings(def: GraphDefinition, args: Map<Seq<char>, StaticValue>, m: nat) -> Seq<Finding>
    decreases m,
{
    if m == 0 || m > def.ports@.len() {
        Seq::empty()
    } else {
        let rest = channel_value_findings(def, args, (m - 1) as nat);
        let port = def.ports@[m - 1];
        match port.channels {
            ChannelCount::Param(name) => match map_get(args, name@) {
                Some(StaticValue::Int(value)) => if value < MIN_CHANNELS {
                    rest.push(
                        expecting(
                            about_port(ErrorCode::KernelInvalidStaticReferenceValue, def.name@, port.name@),
                            "channel count >= 1"@,
                            Some(signed_text(value as int)),
                        ),
                    )
                } else {
                    rest
                },
                _ => rest,
            },
            ChannelCount::Literal(_) => rest,
        }
    }
}

/// Findings for resolved channel counts below the minimum and resolved
/// latencies that are negative or below the subtracted constant.
pub open spec fn value_findings(def: GraphDefinition, args: Map<Seq<char>, StaticValue>) -> Seq<Finding> {
    let ports = channel_value_findings(def, args, def.ports@.len() as nat);
    match def.latency {
        LatencySpec::StaticParam { name, minus } => match map_get(args, name@) {
            Some(StaticValue::Int(value)) => if value < 0 {
                ports.push(
                    expecting(
                        about(ErrorCode::KernelInvalidStaticReferenceValue, def.name@),
                        "latency >= 0"@,
                        Some(signed_text(value as int)),
                    ),
                )
            } else if (value as u32) < minus {
                ports.push(
                    expecting(
                        about(ErrorCode::KernelInvalidStaticReferenceValue, def.name@),
                        "latency static value >= "@ + decimal_text(minus as nat),
                        Some(signed_text(value as int)),
                    ),
                )
            } else {
                ports
            },
            _ => ports,
        },
        _ => ports,
    }
}

/// The channel count `count` resolves to; one when a named count does not
/// resolve to an integer of at least one.
pub open spec fn resolved_channels(count: ChannelCount, args: Map<Seq<char>, StaticValue>) -> u32 {
    match count {
        ChannelCount::Literal(c) => c,
        ChannelCount::Param(name) => match map_get(args, name@) {
            Some(StaticValue::Int(value)) => if value >= MIN_CHANNELS {
                value as u32
            } else {
                1
            },
            _ => 1,
        },
    }
}

pub open spec fn resolved_port(port: Port, args: Map<Seq<char>, StaticValue>) -> ResolvedPort {
    ResolvedPort {
        name: port.name,
        direction: port.direction,
        signal_type: port.signal_type,
        channels: resolved_channels(port.channels, args),
        control_default: port.control_default,
        multiplicity: port.multiplicity,
    }
}

/// The ports of `def` with channel counts resolved against `args`.
pub open spec fn resolved_ports(def: GraphDefinition, args: Map<Seq<char>, StaticValue>) -> Seq<ResolvedPort> {
    def.ports@.map_values(|port: Port| resolved_port(port, args))
}

/// Some port of `ports` is named `name`.
pub open spec fn has_port_named(ports: Seq<ResolvedPort>, name: Seq<char>) -> bool {
    exists|i: int| 0 <= i < ports.len() && #[trigger] ports[i].name@ == name
}

/// Findings for the first `m` default overrides of `node` naming no port.
pub open spec fn override_findings(node: Node, ports: Seq<ResolvedPort>, m: nat) -> Seq<Finding>
    decreases m,
{
    if m == 0 || m > node.port_default_overrides.pairs().len() {
        Seq::empty()
    } else {
        let rest = override_findings(node, ports, (m - 1) as nat);
        let name = node.port_default_overrides.pairs()[m - 1].0;
        if has_port_named(ports, name) {
            rest
        } else {
            rest.push(about_port(ErrorCode::KernelOverrideUnknownPort, node.id.0@, name))
        }
    }
}

// ---------------------------------------------------------------------------
// Nodes
// ---------------------------------------------------------------------------

/// The findings for `node` of `def`, where `checked` holds the names of the
/// definitions whose static references were already checked.
pub open spec fn node_findings(
    def: GraphDefinition,
    registry: DefinitionRegistry,
    node: Node,
    checked: Set<Seq<char>>,
) -> Seq<Finding> {
    match registry.lookup(node.definition_ref@) {
        None => seq![about(ErrorCode::KernelUnknownDefinition, node.id.0@)],
        Some(referenced) => {
            let references = if checked.contains(referenced.name@) {
                Seq::empty()
            } else {
                reference_findings(referenced)
            };
            let resolution = resolution_findings(node, referenced, context_of(def));
            if resolution.len() > 0 {
                references + resolution
            } else {
                let args = arguments_of(node, referenced, context_of(def));
                let values = value_findings(referenced, args);
                if values.len() > 0 {
                    references + values
                } else {
                    references + override_findings(
                        node,
                        resolved_ports(referenced, args),
                        node.port_default_overrides.pairs().len() as nat,
                    )
                }
            }
        },
    }
}

/// The resolved ports of `node`, when its definition, static arguments and
/// resolved values all hold.
pub open spec fn node_ports(def: GraphDefinition, registry: DefinitionRegistry, node: Node) -> Option<Seq<ResolvedPort>> {
    match registry.lookup(node.definition_ref@) {
        None => None,
        Some(referenced) => {
            let context = context_of(def);
            if resolution_findings(node, referenced, context).len() > 0 {
                None
            } else {
                let args = arguments_of(node, referenced, context);
                if value_findings(referenced, args).len() > 0 {
                    None
                } else {
                    Some(resolved_ports(referenced, args))
                }
            }
        },
    }
}

/// The names whose static references are checked before node `i`: `def`'s
/// own and those of the definitions of the nodes before it.
pub open spec fn checked_before(def: GraphDefinition, registry: DefinitionRegistry, i: nat) -> Set<Seq<char>>
    decreases i,
{
    if i == 0 || i > def.nodes@.len() {
        set![def.name@]
    } else {
        let rest = checked_before(def, registry, (i - 1) as nat);
        match registry.lookup(def.nodes@[i - 1].definition_ref@) {
            Some(referenced) => rest.insert(referenced.name@),
            None => rest,
        }
    }
}

/// The findings for the first `i` nodes.
pub open spec fn nodes_findings(def: GraphDefinition, registry: DefinitionRegistry, i: nat) -> Seq<Finding>
    decreases i,
{
    if i == 0 || i > def.nodes@.len() {
        Seq::empty()
    } else {
        nodes_findings(def, registry, (i - 1) as nat) + node_findings(
            def,
            registry,
            def.nodes@[i - 1],
            checked_before(def, registry, (i - 1) as nat),
        )
    }
}

/// The resolved ports of the first `i` nodes by node id, a later node of an
/// id replacing an earlier one.
pub open spec fn port_table(def: GraphDefinition, registry: DefinitionRegistry, i: nat) -> Map<
    Seq<char>,
    Seq<ResolvedPort>,
>
    decreases i,
{
    if i == 0 || i > def.nodes@.len() {
        Map::empty()
    } else {
        let rest = port_table(def, registry, (i - 1) as nat);
        let node = def.nodes@[i - 1];
        match node_ports(def, registry, node) {
            Some(ports) => rest.insert(node.id.0@, ports),
            None => rest,
        }
    }
}

// ---------------------------------------------------------------------------
// Connections
// ---------------------------------------------------------------------------

/// The first port of `ports` named `name` with direction `direction`.
pub open spec fn port_matching(ports: Seq<ResolvedPort>, name: Seq<char>, direction: PortDirection) -> Option<
    ResolvedPort,
>
    decreases ports.len(),
{
    if ports.len() == 0 {
        None
    } else if ports[0].name@ == name && ports[0].direction == direction {
        Some(ports[0])
    } else {
        port_matching(ports.drop_first(), name, direction)
    }
}

/// The findings resolving a connection endpoint, and the port it resolves to.
pub open spec fn endpoint(
    def: GraphDefinition,
    registry: DefinitionRegistry,
    table: Map<Seq<char>, Seq<ResolvedPort>>,
    reference: PortRef,
    expected: PortDirection,
) -> (Seq<Finding>, Option<ResolvedPort>) {
    let id = reference.node.0@;
    let port = reference.port@;
    match node_named(def.nodes@, id) {
        None => (seq![about(ErrorCode::KernelMissingNode, id)], None),
        Some(node) => if !table.dom().contains(id) {
            (Seq::empty(), None)
        } else {
            match port_matching(table[id], port, expected) {
                Some(found) => (Seq::empty(), Some(found)),
                None => if has_port_named(table[id], port) {
                    (seq![about_port(ErrorCode::KernelIncorrectPortDirection, id, port)], None)
                } else if registry.lookup(node.definition_ref@) matches Some(referenced) && param_named(
                    referenced.static_params@,
                    port,
                ) is Some {
                    (seq![about_port(ErrorCode::KernelStaticParamNotAPort, id, port)], None)
                } else {
                    (seq![about_port(ErrorCode::KernelMissingPort, id, port)], None)
                },
            }
        },
    }
}

/// How a source signal type meets a destination's.
pub enum Compatibility {
    Same,
    PromoteControlToAudio,
    Incompatible,
}

pub open spec fn compatibility(source: SignalType, destination: SignalType) -> Compatibility {
    if source == destination {
        Compatibility::Same
    } else if source == SignalType::Control && destination == SignalType::Audio {
        Compatibility::PromoteControlToAudio
    } else {
        Compatibility::Incompatible
    }
}

/// The findings for connection `c`.
pub open spec fn connection_findings(
    def: GraphDefinition,
    registry: DefinitionRegistry,
    table: Map<Seq<char>, Seq<ResolvedPort>>,
    c: Connection,
) -> Seq<Finding> {
    let (source_findings, source) = endpoint(def, registry, table, c.source, PortDirection::Output);
    let (destination_findings, destination) = endpoint(def, registry, table, c.destination, PortDirection::Input);
    source_findings + destination_findings + match (source, destination) {
        (Some(s), Some(d)) => match compatibility(s.signal_type, d.signal_type) {
            Compatibility::Incompatible => seq![
                expecting(
                    about_port(ErrorCode::KernelIncompatibleSignalTypes, c.destination.node.0@, c.destination.port@),
                    signal_type_text(s.signal_type),
                    Some(signal_type_text(d.signal_type)),
                ),
            ],
            _ => if s.channels == d.channels {
                Seq::empty()
            } else {
                seq![
                    expecting(
                        about_port(ErrorCode::KernelChannelCountMismatch, c.destination.node.0@, c.destination.port@),
                        decimal_text(s.channels as nat),
                        Some(decimal_text(d.channels as nat)),
                    ),
                ]
            },
        },
        _ => Seq::empty(),
    }
}

/// The promotion connection `c` records: a control output feeding an audio
/// input of the same channel count.
pub open spec fn connection_promotion(
    def: GraphDefinition,
    registry: DefinitionRegistry,
    table: Map<Seq<char>, Seq<ResolvedPort>>,
    c: Connection,
) -> Option<PromotionStep> {
    let (_, source) = endpoint(def, registry, table, c.source, PortDirection::Output);
    let (_, destination) = endpoint(def, registry, table, c.destination, PortDirection::Input);
    match (source, destination) {
        (Some(s), Some(d)) => if compatibility(s.signal_type, d.signal_type) == Compatibility::PromoteControlToAudio
            && s.channels == d.channels {
            Some(PromotionStep { source: c.source, destination: c.destination, channels: d.channels })
        } else {
            None
        },
        _ => None,
    }
}

/// The findings for the first `m` connections.
pub open spec fn connections_findings(def: GraphDefinition, registry: DefinitionRegistry, m: nat) -> Seq<Finding>
    decreases m,
{
    if m == 0 || m > def.connections@.len() {
        Seq::empty()
    } else {
        connections_findings(def, registry, (m - 1) as nat) + connection_findings(
            def,
            registry,
            port_table(def, registry, def.nodes@.len() as nat),
            def.connections@[m - 1],
        )
    }
}

/// The promotions of the first `m` connections.
pub open spec fn promotions_through(def: GraphDefinition, registry: DefinitionRegistry, m: nat) -> Seq<PromotionStep>
    decreases m,
{
    if m == 0 || m > def.connections@.len() {
        Seq::empty()
    } else {
        let rest = promotions_through(def, registry, (m - 1) as nat);
        match connection_promotion(
            def,
            registry,
            port_table(def, registry, def.nodes@.len() as nat),
            def.connections@[m - 1],
        ) {
            Some(step) => rest.push(step),
            None => rest,
        }
    }
}

/// Every finding of validation short of the cycle search, in order: the
/// definition's own static references, then the nodes, then the connections.
/// The number of the first `m` connections that enter the port
/// `destination` names.
pub open spec fn incoming_before(connections: Seq<Connection>, m: nat, destination: PortRef) -> nat
    decreases m,
{
    if m == 0 || m > connections.len() {
        0
    } else {
        incoming_before(connections, (m - 1) as nat, destination) + if connections[m - 1].destination.node.0@
            == destination.node.0@ && connections[m - 1].destination.port@ == destination.port@ {
            1nat
        } else {
            0nat
        }
    }
}

/// Findings for the first `m` connections of `def` that are the second to
/// enter a single-source input: one finding per such input.
pub open spec fn multiplicity_findings(def: GraphDefinition, registry: DefinitionRegistry, m: nat) -> Seq<Finding>
    decreases m,
{
    if m == 0 || m > def.connections@.len() {
        Seq::empty()
    } else {
        let rest = multiplicity_findings(def, registry, (m - 1) as nat);
        let c = def.connections@[m - 1];
        match endpoint(
            def,
            registry,
            port_table(def, registry, def.nodes@.len() as nat),
            c.destination,
            PortDirection::Input,
        ).1 {
            Some(port) => if port.multiplicity == Multiplicity::SingleSource && incoming_before(
                def.connections@,
                (m - 1) as nat,
                c.destination,
            ) == 1 {
                rest.push(about_port(ErrorCode::KernelMultipleSources, c.destination.node.0@, c.destination.port@))
            } else {
                rest
            },
            None => rest,
        }
    }
}

pub open spec fn local_findings(def: GraphDefinition, registry: DefinitionRegistry) -> Seq<Finding> {
    reference_findings(def) + nodes_findings(def, registry, def.nodes@.len() as nat) + connections_findings(
        def,
        registry,
        def.connections@.len() as nat,
    ) + multiplicity_findings(def, registry, def.connections@.len() as nat)
}

// ---------------------------------------------------------------------------
// Cycles
// ---------------------------------------------------------------------------

/// `id` names a node that is a `feedback_delay` node, by its reference or by
/// the name of the definition it resolves to.
pub open spec fn feedback_node(def: GraphDefinition, registry: DefinitionRegistry, id: Seq<char>) -> bool {
    match node_named(def.nodes@, id) {
        Some(node) => node.definition_ref@ == FEEDBACK_DELAY_DEFINITION@ || match registry.lookup(
            node.definition_ref@,
        ) {
            Some(d) => d.name@ == FEEDBACK_DELAY_DEFINITION@,
            None => false,
        },
        None => false,
    }
}

/// Some connection runs from node `a` to node `b`.
pub open spec fn connects(connections: Seq<Connection>, a: Seq<char>, b: Seq<char>) -> bool {
    exists|c: int|
        0 <= c < connections.len() && #[trigger] connections[c].source.node.0@ == a
            && connections[c].destination.node.0@ == b
}

/// `walk` visits node ids along connections and returns to its start.
pub open spec fn closed_walk_in(connections: Seq<Connection>, walk: Seq<Seq<char>>) -> bool {
    &&& walk.len() >= 1
    &&& forall|i: int| 0 <= i < walk.len() - 1 ==> connects(connections, #[trigger] walk[i], walk[i + 1])
    &&& connects(connections, walk[walk.len() - 1], walk[0])
}

/// A routing cycle passing through no `feedback_delay` node.
pub open spec fn illegal_cycle(def: GraphDefinition, registry: DefinitionRegistry, walk: Seq<Seq<char>>) -> bool {
    closed_walk_in(def.connections@, walk) && forall|i: int|
        0 <= i < walk.len() ==> !feedback_node(def, registry, #[trigger] walk[i])
}

/// `conns` are connections of `def` that neither leave nor enter a
/// `feedback_delay` node.
pub open spec fn restricted_to_legal(def: GraphDefinition, registry: DefinitionRegistry, conns: Seq<Connection>) -> bool {
    &&& forall|e: int|
        0 <= e < conns.len() ==> exists|k: int|
            0 <= k < def.connections@.len() && def.connections@[k] == #[trigger] conns[e]
    &&& forall|e: int|
        0 <= e < conns.len() ==> !feedback_node(def, registry, #[trigger] conns[e].source.node.0@) && !feedback_node(
            def,
            registry,
            conns[e].destination.node.0@,
        )
}

/// A closed walk over such connections is an illegal cycle.
proof fn lemma_restricted_walk_illegal(
    def: GraphDefinition,
    registry: DefinitionRegistry,
    conns: Seq<Connection>,
    walk: Seq<Seq<char>>,
)
    requires
        restricted_to_legal(def, registry, conns),
        closed_walk_in(conns, walk),
    ensures
        illegal_cycle(def, registry, walk),
{
    assert forall|a: Seq<char>, b: Seq<char>| #[trigger] connects(conns, a, b) implies connects(def.connections@, a, b)
        && !feedback_node(def, registry, a) by {
        let e = choose|e: int|
            0 <= e < conns.len() && #[trigger] conns[e].source.node.0@ == a && conns[e].destination.node.0@ == b;
        let k = choose|k: int| 0 <= k < def.connections@.len() && def.connections@[k] == #[trigger] conns[e];
        assert(def.connections@[k].source.node.0@ == a);
    }
    assert forall|i: int| 0 <= i < walk.len() implies !feedback_node(def, registry, #[trigger] walk[i]) by {
        if i < walk.len() - 1 {
            assert(connects(conns, walk[i], walk[i + 1]));
        } else {
            assert(connects(conns, walk[walk.len() - 1], walk[0]));
        }
    }
    assert forall|i: int| 0 <= i < walk.len() - 1 implies connects(def.connections@, #[trigger] walk[i], walk[i + 1]) by {
        assert(connects(conns, walk[i], walk[i + 1]));
    }
    assert(connects(conns, walk[walk.len() - 1], walk[0]));
}

/// An illegal cycle runs over connections that neither leave nor enter a
/// `feedback_delay` node.
proof fn lemma_illegal_walk_restricted(
    def: GraphDefinition,
    registry: DefinitionRegistry,
    conns: Seq<Connection>,
    walk: Seq<Seq<char>>,
)
    requires
        forall|k: int|
            0 <= k < def.connections@.len() && !feedback_node(def, registry, #[trigger] def.connections@[k].source.node.0@)
                && !feedback_node(def, registry, def.connections@[k].destination.node.0@) ==> exists|e: int|
                0 <= e < conns.len() && conns[e] == def.connections@[k],
        illegal_cycle(def, registry, walk),
    ensures
        closed_walk_in(conns, walk),
{
    assert forall|a: Seq<char>, b: Seq<char>|
        #[trigger] connects(def.connections@, a, b) && !feedback_node(def, registry, a) && !feedback_node(def, registry, b)
        implies connects(conns, a, b) by {
        let k = choose|k: int|
            0 <= k < def.connections@.len() && #[trigger] def.connections@[k].source.node.0@ == a
                && def.connections@[k].destination.node.0@ == b;
        let e = choose|e: int| 0 <= e < conns.len() && conns[e] == def.connections@[k];
        assert(conns[e].source.node.0@ == a);
    }
    assert forall|i: int| 0 <= i < walk.len() - 1 implies connects(conns, #[trigger] walk[i], walk[i + 1]) by {
        assert(connects(def.connections@, walk[i], walk[i + 1]));
        assert(!feedback_node(def, registry, walk[i]));
        assert(!feedback_node(def, registry, walk[i + 1]));
    }
    assert(connects(def.connections@, walk[walk.len() - 1], walk[0]));
    assert(!feedback_node(def, registry, walk[walk.len() - 1]));
    assert(!feedback_node(def, registry, walk[0]));
}

// ---------------------------------------------------------------------------
// Executable validation
// ---------------------------------------------------------------------------

/// `new` extends `old` with diagnostics, all errors, saying `added`.
pub open spec fn extends_with(old: Seq<Diagnostic>, new: Seq<Diagnostic>, added: Seq<Finding>) -> bool {
    &&& findings_of(new) == findings_of(old) + added
    &&& (all_errors(old) ==> all_errors(new))
}

proof fn lemma_extends_push(older: Seq<Diagnostic>, old: Seq<Diagnostic>, d: Diagnostic, added: Seq<Finding>)
    requires
        extends_with(older, old, added),
        d.severity == Severity::Error,
    ensures
        extends_with(older, old.push(d), added.push(finding_of(d))),
{
    assert(findings_of(old.push(d)) =~= findings_of(old).push(finding_of(d)));
    assert(findings_of(older) + added.push(finding_of(d)) =~= (findings_of(older) + added).push(finding_of(d)));
    if all_errors(older) {
        assert forall|i: int| 0 <= i < old.push(d).len() implies (#[trigger] old.push(d)[i]).severity
            == Severity::Error by {
            if i < old.len() {
                assert(old.push(d)[i] == old[i]);
            }
        }
    }
}

proof fn lemma_extends_same(old: Seq<Diagnostic>)
    ensures
        extends_with(old, old, Seq::empty()),
{
    assert(findings_of(old) + Seq::<Finding>::empty() =~= findings_of(old));
}

proof fn lemma_extends_chain(a: Seq<Diagnostic>, b: Seq<Diagnostic>, c: Seq<Diagnostic>, x: Seq<Finding>, y: Seq<Finding>)
    requires
        extends_with(a, b, x),
        extends_with(b, c, y),
    ensures
        extends_with(a, c, x + y),
{
    assert(findings_of(a) + x + y =~= findings_of(a) + (x + y));
}

/// The name `{:?}` gives a static type.
pub(crate) fn static_type_name(static_type: StaticType) -> (name: &'static str)
    ensures
        name@ == static_type_text(static_type),
{
    match static_type {
        StaticType::Int => "Int",
        StaticType::Enum => "Enum",
        StaticType::Resource => "Resource",
    }
}

/// The name `{:?}` gives a signal type.
fn signal_type_name(signal_type: SignalType) -> (name: &'static str)
    ensures
        name@ == signal_type_text(signal_type),
{
    match signal_type {
        SignalType::Audio => "Audio",
        SignalType::Control => "Control",
        SignalType::Event => "Event",
    }
}

/// The name a port direction is reported by.
pub open spec fn direction_text(direction: PortDirection) -> Seq<char> {
    match direction {
        PortDirection::Input => "Input"@,
        PortDirection::Output => "Output"@,
    }
}

/// The name `{:?}` gives a port direction.
fn direction_name(direction: PortDirection) -> (name: &'static str)
    ensures
        name@ == direction_text(direction),
{
    match direction {
        PortDirection::Input => "Input",
        PortDirection::Output => "Output",
    }
}

impl GraphDefinition {
    /// Rejects a channel count or latency naming `name` unless it is a
    /// declared integer static parameter.
    fn require_integer_static_param(&self, name: &str, context: &str, diagnostics: &mut Diagnostics)
        ensures
            extends_with(
                old(diagnostics)@,
                final(diagnostics)@,
                if integer_param(*self, name@) {
                    Seq::empty()
                } else {
                    seq![unresolved_reference(*self)]
                },
            ),
    {
        proof {
            lemma_extends_same(diagnostics@);
        }
        let message = match self.static_param(name) {
            Some(param) => {
                if param.static_type == StaticType::Int {
                    return;
                }
                let mut text = concat3("definition '", self.name.as_str(), "' resolves its ");
                text.append(context);
                text.append(" from static parameter '");
                text.append(name);
                text.append("', which is declared ");
                text.append(static_type_name(param.static_type));
                text.append(", not an integer");
                text
            },
            None => {
                let mut text = concat3("definition '", self.name.as_str(), "' resolves its ");
                text.append(context);
                text.append(" from undeclared static parameter '");
                text.append(name);
                text.append("'");
                text
            },
        };
        let diagnostic = Diagnostic::new(ErrorCode::KernelUnresolvedStaticReference, Severity::Error, message)
            .with_module_id(self.name.clone())
            .with_expected(String::from_str("integer static parameter"));
        let ghost before = diagnostics@;
        diagnostics.push(diagnostic);
        proof {
            lemma_extends_push(before, before, diagnostic, Seq::empty());
            assert(Seq::<Finding>::empty().push(finding_of(diagnostic)) =~= seq![
                unresolved_reference(*self),
            ]);
        }
    }

    /// Rejects any port channel count or latency of this definition naming a
    /// static parameter that is not a declared integer.
    pub fn validate_static_references(&self, diagnostics: &mut Diagnostics)
        ensures
            extends_with(old(diagnostics)@, final(diagnostics)@, reference_findings(*self)),
    {
        let ghost start = diagnostics@;
        proof {
            lemma_extends_same(start);
        }
        let mut i: usize = 0;
        while i < self.ports.len()
            invariant
                i <= self.ports@.len(),
                extends_with(start, diagnostics@, channel_reference_findings(*self, i as nat)),
            decreases self.ports@.len() - i,
        {
            let port = &self.ports[i];
            let ghost before = diagnostics@;
            match &port.channels {
                ChannelCount::Param(name) => {
                    let context = concat3("channel count of port '", port.name.as_str(), "'");
                    self.require_integer_static_param(name.as_str(), context.as_str(), diagnostics);
                    proof {
                        lemma_extends_chain(
                            start,
                            before,
                            diagnostics@,
                            channel_reference_findings(*self, i as nat),
                            if integer_param(*self, name@) {
                                Seq::empty()
                            } else {
                                seq![unresolved_reference(*self)]
                            },
                        );
                        if integer_param(*self, name@) {
                            assert(channel_reference_findings(*self, i as nat) + Seq::empty()
                                =~= channel_reference_findings(*self, (i + 1) as nat));
                        } else {
                            assert(channel_reference_findings(*self, i as nat) + seq![
                                unresolved_reference(*self),
                            ] =~= channel_reference_findings(*self, (i + 1) as nat));
                        }
                    }
                },
                ChannelCount::Literal(_) => {},
            }
            i = i + 1;
        }
        let ghost before = diagnostics@;
        match &self.latency {
            LatencySpec::StaticParam { name, .. } => {
                self.require_integer_static_param(name.as_str(), "processing latency", diagnostics);
                proof {
                    let ports = channel_reference_findings(*self, self.ports@.len() as nat);
                    lemma_extends_chain(
                        start,
                        before,
                        diagnostics@,
                        ports,
                        if integer_param(*self, name@) {
                            Seq::empty()
                        } else {
                            seq![unresolved_reference(*self)]
                        },
                    );
                    if integer_param(*self, name@) {
                        assert(ports + Seq::empty() =~= ports);
                    } else {
                        assert(ports + seq![unresolved_reference(*self)]
                            =~= ports.push(unresolved_reference(*self)));
                    }
                }
            },
            _ => {},
        }
    }

    /// The declared defaults of this definition's static parameters: the
    /// context its nodes resolve `$name` arguments against.
    pub fn enclosing_context(&self) -> (context: NameMap<StaticValue>)
        ensures
            forall|k: Seq<char>| #[trigger] context.lookup(k) == map_get(context_of(*self), k),
    {
        let mut context: NameMap<StaticValue> = NameMap::new();
        let mut i: usize = 0;
        while i < self.static_params.len()
            invariant
                i <= self.static_params@.len(),
                forall|k: Seq<char>| #[trigger] context.lookup(k) == map_get(enclosing_context(*self, i as nat), k),
            decreases self.static_params@.len() - i,
        {
            let param = &self.static_params[i];
            match &param.default {
                Some(value) => {
                    context.insert(param.name.as_str(), value.clone());
                },
                None => {},
            }
            i = i + 1;
        }
        context
    }

    /// Resolves the static arguments `node` supplies for `referenced`,
    /// checking names, presence, forms and types; `None` (with the findings
    /// pushed) when any check fails.
    pub(crate) fn resolve_static_args(
        &self,
        node: &Node,
        referenced: &GraphDefinition,
        enclosing: &NameMap<StaticValue>,
        Ghost(context): Ghost<Map<Seq<char>, StaticValue>>,
        diagnostics: &mut Diagnostics,
    ) -> (resolved: Option<NameMap<StaticValue>>)
        requires
            forall|k: Seq<char>| #[trigger] enclosing.lookup(k) == map_get(context, k),
        ensures
            extends_with(old(diagnostics)@, final(diagnostics)@, resolution_findings(*node, *referenced, context)),
            resolved is Some <==> resolution_findings(*node, *referenced, context).len() == 0,
            resolved matches Some(m) ==> forall|k: Seq<char>| #[trigger] m.lookup(k) == map_get(
                arguments_of(*node, *referenced, context),
                k,
            ),
    {
        let ghost start = diagnostics@;
        proof {
            lemma_extends_same(start);
        }
        let mut ok = true;
        let mut i: usize = 0;
        let count = node.static_args.len();
        while i < count
            invariant
                count == node.static_args.pairs().len(),
                i <= count,
                extends_with(start, diagnostics@, unknown_argument_findings(*node, *referenced, i as nat)),
                ok == (unknown_argument_findings(*node, *referenced, i as nat).len() == 0),
            decreases count - i,
        {
            let name = node.static_args.name_at(i);
            if referenced.static_param(name).is_none() {
                let mut message = concat3("node '", node.id.as_str(), "' supplies unknown static argument '");
                message.append(name);
                message.append("' for definition '");
                message.append(referenced.name.as_str());
                message.append("'");
                let diagnostic = Diagnostic::new(ErrorCode::KernelUnknownStaticArgument, Severity::Error, message)
                    .with_module_id(node.id.0.clone());
                let ghost before = diagnostics@;
                diagnostics.push(diagnostic);
                proof {
                    lemma_extends_push(start, before, diagnostic, unknown_argument_findings(*node, *referenced, i as nat));
                }
                ok = false;
            }
            i = i + 1;
        }
        let ghost unknown = unknown_argument_findings(*node, *referenced, count as nat);
        let mut resolved: NameMap<StaticValue> = NameMap::new();
        let mut j: usize = 0;
        proof {
            assert(unknown + argument_findings(*node, *referenced, context, 0) =~= unknown);
        }
        while j < referenced.static_params.len()
            invariant
                j <= referenced.static_params@.len(),
                forall|k: Seq<char>| #[trigger] enclosing.lookup(k) == map_get(context, k),
                unknown == unknown_argument_findings(*node, *referenced, node.static_args.pairs().len() as nat),
                extends_with(start, diagnostics@, unknown + argument_findings(*node, *referenced, context, j as nat)),
                ok == ((unknown + argument_findings(*node, *referenced, context, j as nat)).len() == 0),
                forall|k: Seq<char>| #[trigger] resolved.lookup(k) == map_get(
                    resolved_arguments(*node, *referenced, context, j as nat),
                    k,
                ),
            decreases referenced.static_params@.len() - j,
        {
            let param = &referenced.static_params[j];
            let ghost supplied = supplied_value(*node, *param, context);
            let ghost before = diagnostics@;
            let ghost so_far = unknown + argument_findings(*node, *referenced, context, j as nat);
            let value: Option<StaticValue> = match node.static_args.get(param.name.as_str()) {
                Some(StaticArg::Literal(value)) => Some(value.clone()),
                Some(StaticArg::ParamRef(name)) => match enclosing.get(name.as_str()) {
                    Some(value) => Some(value.clone()),
                    None => {
                        let mut message = concat3("node '", node.id.as_str(), "' references unknown static parameter '$");
                        message.append(name.as_str());
                        message.append("' for argument '");
                        message.append(param.name.as_str());
                        message.append("'");
                        let diagnostic = Diagnostic::new(
                            ErrorCode::KernelUnknownStaticParamReference,
                            Severity::Error,
                            message,
                        ).with_module_id(node.id.0.clone());
                        diagnostics.push(diagnostic);
                        proof {
                            lemma_extends_push(start, before, diagnostic, so_far);
                        }
                        ok = false;
                        None
                    },
                },
                Some(StaticArg::Expression(expression)) => {
                    let mut message = concat3("node '", node.id.as_str(), "' uses unsupported static expression '");
                    message.append(expression.as_str());
                    message.append("' for argument '");
                    message.append(param.name.as_str());
                    message.append("'; only literals and name pass-through are allowed");
                    let diagnostic = Diagnostic::new(ErrorCode::KernelStaticArgumentExpression, Severity::Error, message)
                        .with_module_id(node.id.0.clone());
                    diagnostics.push(diagnostic);
                    proof {
                        lemma_extends_push(start, before, diagnostic, so_far);
                    }
                    ok = false;
                    None
                },
                None => match &param.default {
                    Some(value) => Some(value.clone()),
                    None => {
                        let mut message = concat3("node '", node.id.as_str(), "' omits required static argument '");
                        message.append(param.name.as_str());
                        message.append("' for definition '");
                        message.append(referenced.name.as_str());
                        message.append("'");
                        let diagnostic = Diagnostic::new(ErrorCode::KernelMissingStaticArgument, Severity::Error, message)
                            .with_module_id(node.id.0.clone());
                        diagnostics.push(diagnostic);
                        proof {
                            lemma_extends_push(start, before, diagnostic, so_far);
                        }
                        ok = false;
                        None
                    },
                },
            };
            proof {
                assert(param == referenced.static_params@[j as int]);
                match supplied {
                    Ok(v) => {
                        assert(value == Some(v));
                        assert(diagnostics@ == before);
                    },
                    Err(code) => {
                        assert(value is None);
                        assert(so_far.push(about(code, node.id.0@))
                            =~= unknown + argument_findings(*node, *referenced, context, (j + 1) as nat));
                    },
                }
            }
            match value {
                Some(value) => {
                    let actual = value.static_type();
                    if actual != param.static_type {
                        let mut message = concat3("node '", node.id.as_str(), "' supplies a ");
                        message.append(static_type_name(actual));
                        message.append(" value for static parameter '");
                        message.append(param.name.as_str());
                        message.append("' of type ");
                        message.append(static_type_name(param.static_type));
                        let diagnostic = Diagnostic::new(
                            ErrorCode::KernelStaticArgumentTypeMismatch,
                            Severity::Error,
                            message,
                        ).with_module_id(node.id.0.clone()).with_expected(
                            String::from_str(static_type_name(param.static_type)),
                        ).with_actual(String::from_str(static_type_name(actual)));
                        diagnostics.push(diagnostic);
                        proof {
                            lemma_extends_push(start, before, diagnostic, so_far);
                            assert(so_far.push(finding_of(diagnostic))
                                =~= unknown + argument_findings(*node, *referenced, context, (j + 1) as nat));
                        }
                        ok = false;
                    } else {
                        resolved.insert(param.name.as_str(), value);
                        proof {
                            assert(so_far =~= unknown + argument_findings(*node, *referenced, context, (j + 1) as nat));
                        }
                    }
                },
                None => {},
            }
            j = j + 1;
        }
        proof {
            assert(unknown + argument_findings(*node, *referenced, context, referenced.static_params@.len() as nat)
                == resolution_findings(*node, *referenced, context));
        }
        if ok {
            Some(resolved)
        } else {
            None
        }
    }

    /// Rejects resolved channel counts below the minimum and resolved
    /// latencies that are negative or below the subtracted constant; `true`
    /// when every resolved reference is in range.
    pub(crate) fn validate_resolved_static_references(
        &self,
        args: &NameMap<StaticValue>,
        Ghost(values): Ghost<Map<Seq<char>, StaticValue>>,
        diagnostics: &mut Diagnostics,
    ) -> (ok: bool)
        requires
            forall|k: Seq<char>| #[trigger] args.lookup(k) == map_get(values, k),
        ensures
            extends_with(old(diagnostics)@, final(diagnostics)@, value_findings(*self, values)),
            ok == (value_findings(*self, values).len() == 0),
    {
        let ghost start = diagnostics@;
        proof {
            lemma_extends_same(start);
        }
        let mut ok = true;
        let mut i: usize = 0;
        while i < self.ports.len()
            invariant
                i <= self.ports@.len(),
                forall|k: Seq<char>| #[trigger] args.lookup(k) == map_get(values, k),
                extends_with(start, diagnostics@, channel_value_findings(*self, values, i as nat)),
                ok == (channel_value_findings(*self, values, i as nat).len() == 0),
            decreases self.ports@.len() - i,
        {
            let port = &self.ports[i];
            let ghost before = diagnostics@;
            let ghost so_far = channel_value_findings(*self, values, i as nat);
            match &port.channels {
                ChannelCount::Param(name) => match args.get(name.as_str()) {
                    Some(StaticValue::Int(value)) => {
                        if *value < MIN_CHANNELS {
                            let mut message = concat3(
                                "definition '",
                                self.name.as_str(),
                                "' resolves the channel count of port '",
                            );
                            message.append(port.name.as_str());
                            message.append("' from static parameter '");
                            message.append(name.as_str());
                            message.append("' to ");
                            message.append(signed_decimal(*value).as_str());
                            message.append(", but a channel count must be at least 1");
                            let diagnostic = Diagnostic::new(
                                ErrorCode::KernelInvalidStaticReferenceValue,
                                Severity::Error,
                                message,
                            ).with_module_id(self.name.clone()).with_port_name(port.name.clone()).with_expected(
                                String::from_str("channel count >= 1"),
                            ).with_actual(signed_decimal(*value));
                            diagnostics.push(diagnostic);
                            proof {
                                lemma_extends_push(start, before, diagnostic, so_far);
                            }
                            ok = false;
                        }
                    },
                    _ => {},
                },
                ChannelCount::Literal(_) => {},
            }
            i = i + 1;
        }
        let ghost before = diagnostics@;
        let ghost so_far = channel_value_findings(*self, values, self.ports@.len() as nat);
        match &self.latency {
            LatencySpec::StaticParam { name, minus } => match args.get(name.as_str()) {
                Some(StaticValue::Int(value)) => {
                    if *value < 0 {
                        let mut message = concat3(
                            "definition '",
                            self.name.as_str(),
                            "' resolves its processing latency from static parameter '",
                        );
                        message.append(name.as_str());
                        message.append("' to ");
                        message.append(signed_decimal(*value).as_str());
                        message.append(", but latency cannot be negative");
                        let diagnostic = Diagnostic::new(
                            ErrorCode::KernelInvalidStaticReferenceValue,
                            Severity::Error,
                            message,
                        ).with_module_id(self.name.clone()).with_expected(String::from_str("latency >= 0")).with_actual(
                            signed_decimal(*value),
                        );
                        diagnostics.push(diagnostic);
                        proof {
                            lemma_extends_push(start, before, diagnostic, so_far);
                        }
                        ok = false;
                    } else if (*value as u32) < *minus {
                        let mut message = concat3(
                            "definition '",
                            self.name.as_str(),
                            "' resolves its processing latency from static parameter '",
                        );
                        message.append(name.as_str());
                        message.append("' to ");
                        message.append(signed_decimal(*value).as_str());
                        message.append(", which is smaller than the subtracted constant ");
                        message.append(decimal_string(*minus as u64).as_str());
                        message.append("; latency would silently saturate to zero");
                        let expected = concat2("latency static value >= ", decimal_string(*minus as u64).as_str());
                        let diagnostic = Diagnostic::new(
                            ErrorCode::KernelInvalidStaticReferenceValue,
                            Severity::Error,
                            message,
                        ).with_module_id(self.name.clone()).with_expected(expected).with_actual(signed_decimal(*value));
                        diagnostics.push(diagnostic);
                        proof {
                            lemma_extends_push(start, before, diagnostic, so_far);
                        }
                        ok = false;
                    }
                },
                _ => {},
            },
            _ => {},
        }
        ok
    }

    /// The ports of this definition with channel counts resolved against the
    /// static arguments `args`.
    pub(crate) fn resolve_ports(&self, args: &NameMap<StaticValue>, Ghost(values): Ghost<Map<Seq<char>, StaticValue>>) -> (ports: Vec<
        ResolvedPort,
    >)
        requires
            forall|k: Seq<char>| #[trigger] args.lookup(k) == map_get(values, k),
        ensures
            ports@ == resolved_ports(*self, values),
    {
        let mut ports: Vec<ResolvedPort> = Vec::new();
        let mut i: usize = 0;
        while i < self.ports.len()
            invariant
                i <= self.ports@.len(),
                forall|k: Seq<char>| #[trigger] args.lookup(k) == map_get(values, k),
                ports@ == resolved_ports(*self, values).take(i as int),
            decreases self.ports@.len() - i,
        {
            let port = &self.ports[i];
            let channels: u32 = match &port.channels {
                ChannelCount::Literal(count) => *count,
                ChannelCount::Param(name) => match args.get(name.as_str()) {
                    Some(StaticValue::Int(value)) => if *value >= MIN_CHANNELS {
                        *value as u32
                    } else {
                        1
                    },
                    _ => 1,
                },
            };
            let control_default = match &port.control_default {
                Some(control) => Some(control.clone()),
                None => None,
            };
            ports.push(
                ResolvedPort {
                    name: port.name.clone(),
                    direction: port.direction,
                    signal_type: port.signal_type,
                    channels,
                    control_default,
                    multiplicity: port.multiplicity,
                },
            );
            proof {
                assert(ports@ =~= resolved_ports(*self, values).take(i + 1));
            }
            i = i + 1;
        }
        proof {
            assert(resolved_ports(*self, values).take(self.ports@.len() as int) =~= resolved_ports(*self, values));
        }
        ports
    }
}

pub(crate) proof fn lemma_port_matching(ports: Seq<ResolvedPort>, name: Seq<char>, direction: PortDirection, i: int)
    requires
        0 <= i <= ports.len(),
        forall|j: int| 0 <= j < i ==> !(ports[j].name@ == name && ports[j].direction == direction),
        i == ports.len() || (ports[i].name@ == name && ports[i].direction == direction),
    ensures
        port_matching(ports, name, direction) == if i < ports.len() {
            Some(ports[i])
        } else {
            None::<ResolvedPort>
        },
    decreases ports.len(),
{
    if ports.len() > 0 && !(ports[0].name@ == name && ports[0].direction == direction) {
        let t = ports.drop_first();
        assert forall|j: int| 0 <= j < i - 1 implies !(t[j].name@ == name && t[j].direction == direction) by {
            assert(t[j] == ports[j + 1]);
        }
        if i < ports.len() {
            assert(t[i - 1] == ports[i]);
        }
        lemma_port_matching(t, name, direction, i - 1);
    }
}

/// The executable port table holds the ports of `table` by node id.
pub open spec fn table_matches(table: NameMap<Vec<ResolvedPort>>, ports: Map<Seq<char>, Seq<ResolvedPort>>) -> bool {
    forall|k: Seq<char>|
        match #[trigger] table.lookup(k) {
            Some(v) => ports.dom().contains(k) && v@ == ports[k],
            None => !ports.dom().contains(k),
        }
}

impl GraphDefinition {
    /// Resolves a connection endpoint to its port, pushing the finding that
    /// explains why it does not resolve: a missing node, a port of the wrong
    /// direction, a static parameter named as a port, or a missing port. A
    /// node whose definition or static arguments failed resolves to nothing
    /// without a further finding.
    fn endpoint_port(
        &self,
        reference: &PortRef,
        expected: PortDirection,
        Ghost(registry): Ghost<DefinitionRegistry>,
        table: &NameMap<Vec<ResolvedPort>>,
        Ghost(ports): Ghost<Map<Seq<char>, Seq<ResolvedPort>>>,
    ) -> (resolved: Option<ResolvedPort>)
        requires
            table_matches(*table, ports),
        ensures
            resolved == endpoint(*self, registry, ports, *reference, expected).1,
    {
        let node = match self.node(&reference.node) {
            None => {
                return None;
            },
            Some(node) => node,
        };
        let found = match table.get(reference.node.as_str()) {
            None => {
                return None;
            },
            Some(found) => found,
        };
        let mut i: usize = 0;
        while i < found.len()
            invariant
                i <= found@.len(),
                table_matches(*table, ports),
                table.lookup(reference.node.0@) == Some(*found),
                node_named(self.nodes@, reference.node.0@) == Some(*node),
                forall|j: int|
                    0 <= j < i ==> !(found@[j].name@ == reference.port@ && found@[j].direction == expected),
            decreases found@.len() - i,
        {
            if str_eq(found[i].name.as_str(), reference.port.as_str()) && found[i].direction == expected {
                proof {
                    lemma_port_matching(found@, reference.port@, expected, i as int);
                }
                return Some(found[i].clone());
            }
            i = i + 1;
        }
        proof {
            lemma_port_matching(found@, reference.port@, expected, i as int);
        }
        None
    }

    /// The number of the first `m` connections entering the port
    /// `destination` names.
    fn count_incoming(&self, m: usize, destination: &PortRef) -> (count: usize)
        requires
            m <= self.connections@.len(),
        ensures
            count == incoming_before(self.connections@, m as nat, *destination),
    {
        let mut count: usize = 0;
        let mut k: usize = 0;
        while k < m
            invariant
                k <= m <= self.connections@.len(),
                count == incoming_before(self.connections@, k as nat, *destination),
                count <= k,
            decreases m - k,
        {
            let entering = &self.connections[k].destination;
            if str_eq(entering.node.as_str(), destination.node.as_str()) && str_eq(
                entering.port.as_str(),
                destination.port.as_str(),
            ) {
                count = count + 1;
            }
            k = k + 1;
        }
        count
    }

    fn resolve_endpoint(
        &self,
        reference: &PortRef,
        expected: PortDirection,
        registry: &DefinitionRegistry,
        table: &NameMap<Vec<ResolvedPort>>,
        Ghost(ports): Ghost<Map<Seq<char>, Seq<ResolvedPort>>>,
        diagnostics: &mut Diagnostics,
    ) -> (resolved: Option<ResolvedPort>)
        requires
            table_matches(*table, ports),
        ensures
            extends_with(
                old(diagnostics)@,
                final(diagnostics)@,
                endpoint(*self, *registry, ports, *reference, expected).0,
            ),
            resolved == endpoint(*self, *registry, ports, *reference, expected).1,
    {
        let ghost start = diagnostics@;
        proof {
            lemma_extends_same(start);
        }
        let node = match self.node(&reference.node) {
            None => {
                let message = concat2("missing node: ", reference.node.as_str());
                let diagnostic = Diagnostic::new(ErrorCode::KernelMissingNode, Severity::Error, message)
                    .with_module_id(reference.node.0.clone());
                diagnostics.push(diagnostic);
                proof {
                    lemma_extends_push(start, start, diagnostic, Seq::empty());
                    assert(Seq::<Finding>::empty().push(finding_of(diagnostic)) =~= seq![
                        about(ErrorCode::KernelMissingNode, reference.node.0@),
                    ]);
                }
                return None;
            },
            Some(node) => node,
        };
        let found = match table.get(reference.node.as_str()) {
            None => {
                return None;
            },
            Some(found) => found,
        };
        let mut i: usize = 0;
        while i < found.len()
            invariant
                i <= found@.len(),
                diagnostics@ == old(diagnostics)@,
                extends_with(start, diagnostics@, Seq::empty()),
                table_matches(*table, ports),
                table.lookup(reference.node.0@) == Some(*found),
                node_named(self.nodes@, reference.node.0@) == Some(*node),
                forall|j: int|
                    0 <= j < i ==> !(found@[j].name@ == reference.port@ && found@[j].direction == expected),
            decreases found@.len() - i,
        {
            if str_eq(found[i].name.as_str(), reference.port.as_str()) && found[i].direction == expected {
                proof {
                    lemma_port_matching(found@, reference.port@, expected, i as int);
                }
                return Some(found[i].clone());
            }
            i = i + 1;
        }
        proof {
            lemma_port_matching(found@, reference.port@, expected, i as int);
        }
        let mut named = false;
        let mut k: usize = 0;
        while k < found.len()
            invariant
                k <= found@.len(),
                named == has_port_named(found@.take(k as int), reference.port@),
            decreases found@.len() - k,
        {
            proof {
                assert(found@.take(k + 1).drop_last() =~= found@.take(k as int));
                if has_port_named(found@.take(k + 1), reference.port@) {
                    let j = choose|j: int| 0 <= j < k + 1 && #[trigger] found@.take(k + 1)[j].name@ == reference.port@;
                    if j < k {
                        assert(found@.take(k as int)[j] == found@.take(k + 1)[j]);
                    }
                }
                if named {
                    let j = choose|j: int| 0 <= j < k && #[trigger] found@.take(k as int)[j].name@ == reference.port@;
                    assert(found@.take(k + 1)[j] == found@.take(k as int)[j]);
                }
            }
            if str_eq(found[k].name.as_str(), reference.port.as_str()) {
                named = true;
                proof {
                    assert(found@.take(k + 1)[k as int] == found@[k as int]);
                }
            }
            k = k + 1;
        }
        proof {
            assert(found@.take(found@.len() as int) =~= found@);
        }
        let diagnostic = if named {
            let mut message = concat3("incorrect port direction: ", reference.node.as_str(), ".");
            message.append(reference.port.as_str());
            message.append(" is not a ");
            message.append(direction_name(expected));
            message.append(" port");
            Diagnostic::new(ErrorCode::KernelIncorrectPortDirection, Severity::Error, message)
        } else {
            let not_a_port = match registry.get(node.definition_ref.as_str()) {
                Some(referenced) => match referenced.static_param(reference.port.as_str()) {
                    Some(_) => {
                        let mut message = concat3("'", reference.port.as_str(), "' is a compile-time static parameter of '");
                        message.append(referenced.name.as_str());
                        message.append("', not a port; static parameters cannot be connected");
                        Some(Diagnostic::new(ErrorCode::KernelStaticParamNotAPort, Severity::Error, message))
                    },
                    None => None,
                },
                None => None,
            };
            match not_a_port {
                Some(d) => d,
                None => {
                    let mut message = concat3("missing port: ", reference.node.as_str(), ".");
                    message.append(reference.port.as_str());
                    Diagnostic::new(ErrorCode::KernelMissingPort, Severity::Error, message)
                },
            }
        };
        let diagnostic = diagnostic.with_module_id(reference.node.0.clone()).with_port_name(reference.port.clone());
        diagnostics.push(diagnostic);
        proof {
            lemma_extends_push(start, start, diagnostic, Seq::empty());
            assert(Seq::<Finding>::empty().push(finding_of(diagnostic)) =~= seq![finding_of(diagnostic)]);
        }
        None
    }
}

/// The facts about an id universe over `connections`: distinct ids, and each
/// connection's endpoints among them.
pub(crate) open spec fn universe_in(connections: Seq<Connection>, ids: Seq<String>, src_u: Seq<usize>, dst_u: Seq<usize>) -> bool {
    &&& distinct_texts(ids)
    &&& src_u.len() == connections.len()
    &&& dst_u.len() == connections.len()
    &&& forall|c: int|
        0 <= c < src_u.len() ==> #[trigger] src_u[c] < ids.len() && ids[src_u[c] as int]@
            == connections[c].source.node.0@
    &&& forall|c: int|
        0 <= c < dst_u.len() ==> #[trigger] dst_u[c] < ids.len() && ids[dst_u[c] as int]@
            == connections[c].destination.node.0@
}

/// The distinct destinations of the first `c` connections leaving universe
/// index `node`, in connection order.
pub open spec fn successors_through(src_u: Seq<usize>, dst_u: Seq<usize>, node: usize, c: nat) -> Seq<usize>
    decreases c,
{
    if c == 0 || c > src_u.len() || c > dst_u.len() {
        Seq::empty()
    } else {
        let earlier = successors_through(src_u, dst_u, node, (c - 1) as nat);
        if src_u[c - 1] == node && !earlier.contains(dst_u[c - 1]) {
            earlier.push(dst_u[c - 1])
        } else {
            earlier
        }
    }
}

/// Every connection among the first `c` that leaves `node` enters one of
/// `successors_through(.., c)`.
pub(crate) proof fn lemma_successors_complete(src_u: Seq<usize>, dst_u: Seq<usize>, node: usize, c: nat, d: int)
    requires
        c <= src_u.len(),
        c <= dst_u.len(),
        0 <= d < c,
        src_u[d] == node,
    ensures
        successors_through(src_u, dst_u, node, c).contains(dst_u[d]),
    decreases c,
{
    let earlier = successors_through(src_u, dst_u, node, (c - 1) as nat);
    if d < c - 1 {
        lemma_successors_complete(src_u, dst_u, node, (c - 1) as nat, d);
        let k = choose|k: int| 0 <= k < earlier.len() && earlier[k] == dst_u[d];
        if src_u[c - 1] == node && !earlier.contains(dst_u[c - 1]) {
            assert(earlier.push(dst_u[c - 1])[k] == dst_u[d]);
        }
    } else if earlier.contains(dst_u[d]) {
    } else {
        assert(successors_through(src_u, dst_u, node, c).last() == dst_u[d]);
    }
}

/// `id` is the id of a universe index marked in `marked`.
pub(crate) open spec fn marked_id(ids: Seq<String>, marked: Seq<bool>, id: Seq<char>) -> bool {
    exists|u: int| 0 <= u < ids.len() && u < marked.len() && marked[u] && #[trigger] ids[u]@ == id
}

/// Every connection leaving a marked node enters a marked node, and no closed
/// walk runs through marked nodes only.
pub(crate) open spec fn settled_marks(
    connections: Seq<Connection>,
    ids: Seq<String>,
    src_u: Seq<usize>,
    dst_u: Seq<usize>,
    marked: Seq<bool>,
) -> bool {
    &&& marked.len() == ids.len()
    &&& forall|c: int| 0 <= c < src_u.len() && #[trigger] marked[src_u[c] as int] ==> marked[dst_u[c] as int]
    &&& forall|walk: Seq<Seq<char>>|
        #[trigger] closed_walk_in(connections, walk) ==> exists|i: int|
            0 <= i < walk.len() && !marked_id(ids, marked, #[trigger] walk[i])
}

/// Nothing marked is settled.
pub(crate) proof fn lemma_settled_empty(
    connections: Seq<Connection>,
    ids: Seq<String>,
    src_u: Seq<usize>,
    dst_u: Seq<usize>,
    marked: Seq<bool>,
)
    requires
        universe_in(connections, ids, src_u, dst_u),
        marked.len() == ids.len(),
        forall|u: int| 0 <= u < marked.len() ==> !#[trigger] marked[u],
    ensures
        settled_marks(connections, ids, src_u, dst_u, marked),
{
    assert forall|c: int| 0 <= c < src_u.len() && #[trigger] marked[src_u[c] as int] implies marked[dst_u[c] as int] by {
        assert(src_u[c] < ids.len());
    }
    assert forall|walk: Seq<Seq<char>>| #[trigger] closed_walk_in(connections, walk) implies exists|i: int|
        0 <= i < walk.len() && !marked_id(ids, marked, #[trigger] walk[i]) by {
        assert(!marked_id(ids, marked, walk[0]));
    }
}

/// Marking `node`, all of whose successors are marked, keeps the marks
/// settled.
pub(crate) proof fn lemma_settled_extend(
    connections: Seq<Connection>,
    ids: Seq<String>,
    src_u: Seq<usize>,
    dst_u: Seq<usize>,
    marked: Seq<bool>,
    node: int,
)
    requires
        universe_in(connections, ids, src_u, dst_u),
        settled_marks(connections, ids, src_u, dst_u, marked),
        0 <= node < ids.len(),
        forall|c: int| 0 <= c < src_u.len() && src_u[c] == node ==> #[trigger] marked[dst_u[c] as int],
    ensures
        settled_marks(connections, ids, src_u, dst_u, marked.update(node, true)),
{
    let after = marked.update(node, true);
    if marked[node] {
        assert(after =~= marked);
    } else {
        assert forall|c: int| 0 <= c < src_u.len() && #[trigger] after[src_u[c] as int] implies after[dst_u[c] as int] by {
            if src_u[c] != node {
                assert(marked[src_u[c] as int]);
            }
        }
        assert forall|walk: Seq<Seq<char>>| #[trigger] closed_walk_in(connections, walk) implies exists|i: int|
            0 <= i < walk.len() && !marked_id(ids, after, #[trigger] walk[i]) by {
            let i0 = choose|i: int| 0 <= i < walk.len() && !marked_id(ids, marked, #[trigger] walk[i]);
            if marked_id(ids, after, walk[i0]) {
                // walk[i0] is the id of `node`; its predecessor on the walk
                // leads into `node`, which no marked node does.
                let u = choose|u: int| 0 <= u < ids.len() && u < after.len() && after[u] && #[trigger] ids[u]@ == walk[i0];
                assert(u == node);
                let q = if i0 == 0 { walk.len() - 1 } else { i0 - 1 };
                assert(connects(connections, walk[q], walk[i0]));
                let c = choose|c: int|
                    0 <= c < connections.len() && #[trigger] connections[c].source.node.0@ == walk[q]
                        && connections[c].destination.node.0@ == walk[i0];
                assert(ids[dst_u[c] as int]@ == ids[node]@);
                assert(dst_u[c] == node);
                if marked_id(ids, after, walk[q]) {
                    let v = choose|v: int| 0 <= v < ids.len() && v < after.len() && after[v] && #[trigger] ids[v]@ == walk[q];
                    assert(ids[src_u[c] as int]@ == ids[v]@);
                    assert(src_u[c] == v);
                    assert(marked[dst_u[c] as int]);
                    assert(false);
                }
            }
        }
    }
}

/// One connection from a marked node leads to a marked node.
proof fn lemma_marked_step(
    connections: Seq<Connection>,
    ids: Seq<String>,
    src_u: Seq<usize>,
    dst_u: Seq<usize>,
    marked: Seq<bool>,
    a: Seq<char>,
    b: Seq<char>,
)
    requires
        universe_in(connections, ids, src_u, dst_u),
        settled_marks(connections, ids, src_u, dst_u, marked),
        marked_id(ids, marked, a),
        connects(connections, a, b),
    ensures
        marked_id(ids, marked, b),
{
    let c = choose|c: int|
        0 <= c < connections.len() && #[trigger] connections[c].source.node.0@ == a
            && connections[c].destination.node.0@ == b;
    let u = choose|u: int| 0 <= u < ids.len() && u < marked.len() && marked[u] && #[trigger] ids[u]@ == a;
    assert(ids[src_u[c] as int]@ == ids[u]@);
    assert(src_u[c] == u);
    assert(marked[dst_u[c] as int]);
    assert(ids[dst_u[c] as int]@ == b);
}

proof fn lemma_marked_along(
    connections: Seq<Connection>,
    ids: Seq<String>,
    src_u: Seq<usize>,
    dst_u: Seq<usize>,
    marked: Seq<bool>,
    walk: Seq<Seq<char>>,
    a: int,
    b: int,
)
    requires
        universe_in(connections, ids, src_u, dst_u),
        settled_marks(connections, ids, src_u, dst_u, marked),
        closed_walk_in(connections, walk),
        0 <= a <= b < walk.len(),
        marked_id(ids, marked, walk[a]),
    ensures
        marked_id(ids, marked, walk[b]),
    decreases b - a,
{
    if a < b {
        lemma_marked_along(connections, ids, src_u, dst_u, marked, walk, a, b - 1);
        lemma_marked_step(connections, ids, src_u, dst_u, marked, walk[b - 1], walk[b]);
    }
}

/// A settled set of marks holds no node of a closed walk.
pub(crate) proof fn lemma_settled_avoids_cycles(
    connections: Seq<Connection>,
    ids: Seq<String>,
    src_u: Seq<usize>,
    dst_u: Seq<usize>,
    marked: Seq<bool>,
    walk: Seq<Seq<char>>,
    p: int,
)
    requires
        universe_in(connections, ids, src_u, dst_u),
        settled_marks(connections, ids, src_u, dst_u, marked),
        closed_walk_in(connections, walk),
        0 <= p < walk.len(),
    ensures
        !marked_id(ids, marked, walk[p]),
{
    let n = walk.len();
    if !marked_id(ids, marked, walk[p]) {
        return;
    }
    lemma_marked_along(connections, ids, src_u, dst_u, marked, walk, p, n - 1);
    lemma_marked_step(connections, ids, src_u, dst_u, marked, walk[n - 1], walk[0]);
    assert forall|i: int| 0 <= i < n implies marked_id(ids, marked, #[trigger] walk[i]) by {
        lemma_marked_along(connections, ids, src_u, dst_u, marked, walk, 0, i);
    }
    let i = choose|i: int| 0 <= i < walk.len() && !marked_id(ids, marked, #[trigger] walk[i]);
}

/// The search stack is a path along connections, and every position being
/// visited lies on it.
spec fn path_in(connections: Seq<Connection>, ids: Seq<String>, visiting: Seq<bool>, stack: Seq<usize>) -> bool {
    &&& forall|i: int| 0 <= i < stack.len() ==> #[trigger] stack[i] < ids.len()
    &&& forall|i: int|
        0 <= i < stack.len() - 1 ==> connects(connections, ids[#[trigger] stack[i] as int]@, ids[stack[i + 1] as int]@)
    &&& forall|w: int|
        0 <= w < visiting.len() && #[trigger] visiting[w] ==> exists|i: int|
            0 <= i < stack.len() && stack[i] == w
}

impl GraphDefinition {
    /// The distinct node ids named by the nodes and the connections, with the
    /// index of every node's id and of every connection's endpoints among them.
    fn id_universe(&self) -> (universe: (Vec<String>, Vec<usize>, Vec<usize>, Vec<usize>))
        ensures
            universe_in(self.connections@, universe.0@, universe.2@, universe.3@),
            universe.1@.len() == self.nodes@.len(),
            forall|j: int|
                0 <= j < self.nodes@.len() ==> #[trigger] universe.1@[j] < universe.0@.len()
                    && universe.0@[universe.1@[j] as int]@ == self.nodes@[j].id.0@,
    {
        let mut ids: Vec<String> = Vec::new();
        let mut node_u: Vec<usize> = Vec::new();
        let mut j: usize = 0;
        while j < self.nodes.len()
            invariant
                j <= self.nodes@.len(),
                distinct_texts(ids@),
                node_u@.len() == j,
                forall|k: int|
                    0 <= k < j ==> #[trigger] node_u@[k] < ids@.len() && ids@[node_u@[k] as int]@
                        == self.nodes@[k].id.0@,
            decreases self.nodes@.len() - j,
        {
            let ghost before = ids@;
            let index = intern(&mut ids, self.nodes[j].id.as_str());
            proof {
                assert forall|k: int| 0 <= k < j implies #[trigger] node_u@[k] < ids@.len() && ids@[node_u@[k] as int]@
                    == self.nodes@[k].id.0@ by {
                    assert(before[node_u@[k] as int] == ids@[node_u@[k] as int]);
                }
            }
            node_u.push(index);
            j = j + 1;
        }
        let mut src_u: Vec<usize> = Vec::new();
        let mut dst_u: Vec<usize> = Vec::new();
        let mut c: usize = 0;
        while c < self.connections.len()
            invariant
                c <= self.connections@.len(),
                distinct_texts(ids@),
                node_u@.len() == self.nodes@.len(),
                forall|k: int|
                    0 <= k < self.nodes@.len() ==> #[trigger] node_u@[k] < ids@.len() && ids@[node_u@[k] as int]@
                        == self.nodes@[k].id.0@,
                src_u@.len() == c,
                dst_u@.len() == c,
                forall|k: int|
                    0 <= k < c ==> #[trigger] src_u@[k] < ids@.len() && ids@[src_u@[k] as int]@
                        == self.connections@[k].source.node.0@,
                forall|k: int|
                    0 <= k < c ==> #[trigger] dst_u@[k] < ids@.len() && ids@[dst_u@[k] as int]@
                        == self.connections@[k].destination.node.0@,
            decreases self.connections@.len() - c,
        {
            let ghost first = ids@;
            let a = intern(&mut ids, self.connections[c].source.node.as_str());
            let ghost second = ids@;
            let b = intern(&mut ids, self.connections[c].destination.node.as_str());
            proof {
                assert(second[a as int] == ids@[a as int]);
                assert forall|k: int| 0 <= k < self.nodes@.len() implies #[trigger] node_u@[k] < ids@.len()
                    && ids@[node_u@[k] as int]@ == self.nodes@[k].id.0@ by {
                    assert(first[node_u@[k] as int] == ids@[node_u@[k] as int]);
                }
                assert forall|k: int| 0 <= k < c implies #[trigger] src_u@[k] < ids@.len() && ids@[src_u@[k] as int]@
                    == self.connections@[k].source.node.0@ by {
                    assert(first[src_u@[k] as int] == ids@[src_u@[k] as int]);
                }
                assert forall|k: int| 0 <= k < c implies #[trigger] dst_u@[k] < ids@.len() && ids@[dst_u@[k] as int]@
                    == self.connections@[k].destination.node.0@ by {
                    assert(first[dst_u@[k] as int] == ids@[dst_u@[k] as int]);
                }
            }
            src_u.push(a);
            dst_u.push(b);
            c = c + 1;
        }
        (ids, node_u, src_u, dst_u)
    }

    /// `true` when `id` names a `feedback_delay` node, by its reference or by
    /// the name of the definition it resolves to.
    fn is_feedback_delay(&self, id: &str, registry: &DefinitionRegistry) -> (feedback: bool)
        ensures
            feedback == feedback_node(*self, *registry, id@),
    {
        let node_id = NodeId::new(id);
        match self.node(&node_id) {
            Some(node) => {
                str_eq(node.definition_ref.as_str(), FEEDBACK_DELAY_DEFINITION) || match registry.get(
                    node.definition_ref.as_str(),
                ) {
                    Some(definition) => str_eq(definition.name.as_str(), FEEDBACK_DELAY_DEFINITION),
                    None => false,
                }
            },
            None => false,
        }
    }

    /// The distinct universe indices one connection away from `node`, in
    /// connection order.
    fn successors_of(
        &self,
        node: usize,
        ids: &Vec<String>,
        src_u: &Vec<usize>,
        dst_u: &Vec<usize>,
        Ghost(conns): Ghost<Seq<Connection>>,
    ) -> (successors: Vec<usize>)
        requires
            universe_in(conns, ids@, src_u@, dst_u@),
            node < ids@.len(),
        ensures
            successors@ == successors_through(src_u@, dst_u@, node, src_u@.len() as nat),
            forall|k: int|
                0 <= k < successors@.len() ==> #[trigger] successors@[k] < ids@.len() && connects(
                    conns,
                    ids@[node as int]@,
                    ids@[successors@[k] as int]@,
                ),
    {
        let mut successors: Vec<usize> = Vec::new();
        let mut c: usize = 0;
        while c < src_u.len()
            invariant
                universe_in(conns, ids@, src_u@, dst_u@),
                node < ids@.len(),
                c <= src_u@.len(),
                successors@ == successors_through(src_u@, dst_u@, node, c as nat),
                forall|k: int|
                    0 <= k < successors@.len() ==> #[trigger] successors@[k] < ids@.len() && connects(
                        conns,
                        ids@[node as int]@,
                        ids@[successors@[k] as int]@,
                    ),
            decreases src_u@.len() - c,
        {
            if src_u[c] == node {
                let destination = dst_u[c];
                let mut seen = false;
                let mut k: usize = 0;
                while k < successors.len()
                    invariant
                        k <= successors@.len(),
                        seen == successors@.take(k as int).contains(destination),
                    decreases successors@.len() - k,
                {
                    proof {
                        let before = successors@.take(k as int);
                        let upto = successors@.take(k + 1);
                        assert(upto =~= before.push(successors@[k as int]));
                        if before.contains(destination) {
                            let t = choose|t: int| 0 <= t < before.len() && before[t] == destination;
                            assert(upto[t] == destination);
                        }
                        if successors@[k as int] == destination {
                            assert(upto[k as int] == destination);
                        }
                        if upto.contains(destination) {
                            let t = choose|t: int| 0 <= t < upto.len() && upto[t] == destination;
                            if t < k {
                                assert(before[t] == destination);
                            }
                        }
                    }
                    if successors[k] == destination {
                        seen = true;
                    }
                    k = k + 1;
                }
                proof {
                    assert(successors@.take(successors@.len() as int) =~= successors@);
                }
                if !seen {
                    proof {
                        assert(conns[c as int].source.node.0@ == ids@[node as int]@);
                    }
                    successors.push(destination);
                }
            }
            c = c + 1;
        }
        successors
    }

    /// Depth-first search from `node` for a routing cycle through no
    /// `feedback_delay` node, returning the first one found.
    #[verifier::spinoff_prover]
    #[verifier::rlimit(40)]
    fn walk_for_cycle(
        &self,
        node: usize,
        ids: &Vec<String>,
        src_u: &Vec<usize>,
        dst_u: &Vec<usize>,
        Ghost(conns): Ghost<Seq<Connection>>,
        Ghost(registry): Ghost<DefinitionRegistry>,
        visiting: &mut Vec<bool>,
        visited: &mut Vec<bool>,
        stack: &mut Vec<usize>,
        Ghost(fuel): Ghost<nat>,
    ) -> (found: Option<Vec<usize>>)
        requires
            universe_in(conns, ids@, src_u@, dst_u@),
            restricted_to_legal(*self, registry, conns),
            node < ids@.len(),
            old(visiting)@.len() == ids@.len(),
            old(visited)@.len() == ids@.len(),
            !old(visiting)@[node as int],
            path_in(conns, ids@, old(visiting)@, old(stack)@),
            old(stack)@.len() > 0 ==> connects(conns, ids@[old(stack)@.last() as int]@, ids@[node as int]@),
            fuel + count_true(marks(old(visiting)@, old(visited)@)) >= ids@.len(),
            settled_marks(conns, ids@, src_u@, dst_u@, old(visited)@),
        ensures
            found is None ==> final(visiting)@ == old(visiting)@ && final(stack)@ == old(stack)@
                && final(visited)@.len() == ids@.len() && forall|w: int|
                0 <= w < ids@.len() && old(visited)@[w] ==> #[trigger] final(visited)@[w],
            found is None ==> final(visited)@[node as int] && settled_marks(
                conns,
                ids@,
                src_u@,
                dst_u@,
                final(visited)@,
            ),
            found matches Some(cycle) ==> (forall|i: int| 0 <= i < cycle@.len() ==> #[trigger] cycle@[i] < ids@.len())
                && illegal_cycle(*self, registry, cycle@.map_values(|u: usize| ids@[u as int]@)),
        decreases fuel,
    {
        if visited[node] {
            return None;
        }
        let ghost entry_marks = marks(visiting@, visited@);
        let ghost entry_visiting = visiting@;
        let ghost entry_visited = visited@;
        let ghost entry_stack = stack@;
        visiting.set(node, true);
        stack.push(node);
        proof {
            assert(marks(visiting@, visited@)[node as int]);
            lemma_count_true_grows(entry_marks, marks(visiting@, visited@));
            lemma_count_true_bound(marks(visiting@, visited@));
            assert forall|w: int| 0 <= w < visiting@.len() && #[trigger] visiting@[w] implies exists|i: int|
                0 <= i < stack@.len() && stack@[i] == w by {
                if w == node {
                    assert(stack@[stack@.len() - 1] == w);
                } else {
                    let i = choose|i: int| 0 <= i < entry_stack.len() && entry_stack[i] == w;
                    assert(stack@[i] == w);
                }
            }
            assert forall|i: int| 0 <= i < stack@.len() - 1 implies connects(
                conns,
                ids@[#[trigger] stack@[i] as int]@,
                ids@[stack@[i + 1] as int]@,
            ) by {
                assert(stack@[i] == entry_stack[i]);
                if i < entry_stack.len() - 1 {
                    assert(stack@[i + 1] == entry_stack[i + 1]);
                }
            }
        }
        let successors = self.successors_of(node, ids, src_u, dst_u, Ghost(conns));
        let mut i: usize = 0;
        while i < successors.len()
            invariant
                universe_in(conns, ids@, src_u@, dst_u@),
                restricted_to_legal(*self, registry, conns),
                node < ids@.len(),
                i <= successors@.len(),
                forall|k: int|
                    0 <= k < successors@.len() ==> #[trigger] successors@[k] < ids@.len() && connects(
                        conns,
                        ids@[node as int]@,
                        ids@[successors@[k] as int]@,
                    ),
                entry_visiting.len() == ids@.len(),
                visiting@ == entry_visiting.update(node as int, true),
                stack@ == entry_stack.push(node),
                visited@.len() == ids@.len(),
                forall|w: int| 0 <= w < ids@.len() && entry_visited[w] ==> #[trigger] visited@[w],
                path_in(conns, ids@, visiting@, stack@),
                fuel + count_true(entry_marks) >= ids@.len(),
                count_true(marks(visiting@, visited@)) > count_true(entry_marks),
                successors@ == successors_through(src_u@, dst_u@, node, src_u@.len() as nat),
                settled_marks(conns, ids@, src_u@, dst_u@, visited@),
                forall|k: int| 0 <= k < i ==> #[trigger] visited@[successors@[k] as int],
            decreases successors@.len() - i,
        {
            let next = successors[i];
            if visiting[next] {
                let mut j: usize = 0;
                let top = stack.len();
                while j < top && stack[j] != next
                    invariant
                        top == stack@.len(),
                        j <= stack@.len(),
                        exists|t: int| j <= t < stack@.len() && stack@[t] == next,
                    decreases stack@.len() - j,
                {
                    proof {
                        let t = choose|t: int| j <= t < stack@.len() && stack@[t] == next;
                        assert(t > j);
                    }
                    j = j + 1;
                }
                let mut cycle: Vec<usize> = Vec::new();
                let mut k: usize = j;
                while k < stack.len()
                    invariant
                        j <= k <= stack@.len(),
                        cycle@ == stack@.subrange(j as int, k as int),
                    decreases stack@.len() - k,
                {
                    cycle.push(stack[k]);
                    k = k + 1;
                }
                proof {
                    let walk = cycle@.map_values(|u: usize| ids@[u as int]@);
                    assert forall|t: int| 0 <= t < walk.len() - 1 implies connects(
                        conns,
                        #[trigger] walk[t],
                        walk[t + 1],
                    ) by {
                        assert(cycle@[t] == stack@[j + t]);
                        assert(cycle@[t + 1] == stack@[j + t + 1]);
                    }
                    assert(cycle@[cycle@.len() - 1] == node);
                    assert(cycle@[0] == next);
                    assert(closed_walk_in(conns, walk));
                    lemma_restricted_walk_illegal(*self, registry, conns, walk);
                    assert forall|t: int| 0 <= t < cycle@.len() implies #[trigger] cycle@[t] < ids@.len() by {
                        assert(cycle@[t] == stack@[j + t]);
                    }
                }
                return Some(cycle);
            } else if !visited[next] {
                let ghost before_marks = marks(visiting@, visited@);
                let ghost before_visited = visited@;
                proof {
                    lemma_count_true_bound(before_marks);
                    let later = before_marks.update(next as int, true);
                    lemma_count_true_grows(before_marks, later);
                    assert(later[next as int]);
                    lemma_count_true_bound(later);
                }
                let found = self.walk_for_cycle(
                    next,
                    ids,
                    src_u,
                    dst_u,
                    Ghost(conns),
                    Ghost(registry),
                    visiting,
                    visited,
                    stack,
                    Ghost((fuel - 1) as nat),
                );
                if found.is_some() {
                    return found;
                }
                proof {
                    lemma_count_true_grows(before_marks, marks(visiting@, visited@));
                    assert forall|w: int| 0 <= w < ids@.len() && entry_visited[w] implies #[trigger] visited@[w] by {
                        assert(before_visited[w]);
                    }
                    assert forall|k: int| 0 <= k < i + 1 implies #[trigger] visited@[successors@[k] as int] by {
                        if k < i {
                            assert(before_visited[successors@[k] as int]);
                        }
                    }
                }
            }
            i = i + 1;
        }
        let ghost before_visited = visited@;
        proof {
            assert forall|c: int| 0 <= c < src_u@.len() && src_u@[c] == node implies #[trigger] before_visited[dst_u@[c] as int] by {
                lemma_successors_complete(src_u@, dst_u@, node, src_u@.len() as nat, c);
                let k = choose|k: int| 0 <= k < successors@.len() && successors@[k] == dst_u@[c];
                assert(visited@[successors@[k] as int]);
            }
            lemma_settled_extend(conns, ids@, src_u@, dst_u@, before_visited, node as int);
        }
        stack.pop();
        visiting.set(node, false);
        visited.set(node, true);
        proof {
            assert(visiting@ =~= entry_visiting);
            assert(stack@ =~= entry_stack);
            assert forall|w: int| 0 <= w < ids@.len() && entry_visited[w] implies #[trigger] visited@[w] by {
                if w != node {
                    assert(before_visited[w]);
                }
            }
        }
        None
    }

    /// A routing cycle through no `feedback_delay` node, searched depth-first
    /// from every node (in node order, then the remaining connection ends)
    /// over the connections that neither leave nor enter a `feedback_delay`
    /// node; `None` exactly when there is no such cycle.
    fn find_illegal_cycle(&self, registry: &DefinitionRegistry) -> (found: Option<Vec<String>>)
        ensures
            found matches Some(path) ==> illegal_cycle(*self, *registry, texts_of(path@)),
            found is None ==> forall|walk: Seq<Seq<char>>| !#[trigger] illegal_cycle(*self, *registry, walk),
    {
        let (ids, node_u, src_u, dst_u) = self.id_universe();
        let mut feedback: Vec<bool> = Vec::new();
        let mut visiting: Vec<bool> = Vec::new();
        let mut visited: Vec<bool> = Vec::new();
        let mut i: usize = 0;
        while i < ids.len()
            invariant
                i <= ids@.len(),
                feedback@.len() == i,
                visiting@.len() == i,
                visited@.len() == i,
                forall|w: int| 0 <= w < i ==> #[trigger] feedback@[w] == feedback_node(*self, *registry, ids@[w]@),
                forall|w: int| 0 <= w < i ==> !#[trigger] visiting@[w],
                forall|w: int| 0 <= w < i ==> !#[trigger] visited@[w],
            decreases ids@.len() - i,
        {
            feedback.push(self.is_feedback_delay(ids[i].as_str(), registry));
            visiting.push(false);
            visited.push(false);
            i = i + 1;
        }
        let mut legal_src: Vec<usize> = Vec::new();
        let mut legal_dst: Vec<usize> = Vec::new();
        let ghost mut conns: Seq<Connection> = Seq::empty();
        let mut c: usize = 0;
        while c < src_u.len()
            invariant
                universe_in(self.connections@, ids@, src_u@, dst_u@),
                feedback@.len() == ids@.len(),
                forall|w: int| 0 <= w < ids@.len() ==> #[trigger] feedback@[w] == feedback_node(*self, *registry, ids@[w]@),
                c <= src_u@.len(),
                universe_in(conns, ids@, legal_src@, legal_dst@),
                restricted_to_legal(*self, *registry, conns),
                forall|k: int|
                    0 <= k < c && !feedback_node(*self, *registry, #[trigger] self.connections@[k].source.node.0@)
                        && !feedback_node(*self, *registry, self.connections@[k].destination.node.0@) ==> exists|e: int|
                        0 <= e < conns.len() && conns[e] == self.connections@[k],
            decreases src_u@.len() - c,
        {
            if !feedback[src_u[c]] && !feedback[dst_u[c]] {
                legal_src.push(src_u[c]);
                legal_dst.push(dst_u[c]);
                proof {
                    let before = conns;
                    conns = conns.push(self.connections@[c as int]);
                    assert(conns[before.len() as int] == self.connections@[c as int]);
                    assert forall|e: int| 0 <= e < conns.len() implies exists|k: int|
                        0 <= k < self.connections@.len() && self.connections@[k] == #[trigger] conns[e] by {
                        if e < before.len() {
                            assert(conns[e] == before[e]);
                        } else {
                            assert(self.connections@[c as int] == conns[e]);
                        }
                    }
                    assert forall|k: int|
                        0 <= k < c + 1 && !feedback_node(*self, *registry, #[trigger] self.connections@[k].source.node.0@)
                            && !feedback_node(*self, *registry, self.connections@[k].destination.node.0@) implies exists|e: int|
                            0 <= e < conns.len() && conns[e] == self.connections@[k] by {
                        if k < c {
                            let e = choose|e: int| 0 <= e < before.len() && before[e] == self.connections@[k];
                            assert(conns[e] == before[e]);
                        } else {
                            assert(conns[before.len() as int] == self.connections@[k]);
                        }
                    }
                }
            } else {
                proof {
                    assert(feedback@[src_u@[c as int] as int] || feedback@[dst_u@[c as int] as int]);
                }
            }
            c = c + 1;
        }
        let mut stack: Vec<usize> = Vec::new();
        proof {
            lemma_settled_empty(conns, ids@, legal_src@, legal_dst@, visited@);
        }
        let mut j: usize = 0;
        while j < ids.len()
            invariant
                universe_in(conns, ids@, legal_src@, legal_dst@),
                restricted_to_legal(*self, *registry, conns),
                settled_marks(conns, ids@, legal_src@, legal_dst@, visited@),
                forall|k: int| 0 <= k < j ==> #[trigger] visited@[k],
                j <= ids@.len(),
                visiting@.len() == ids@.len(),
                visited@.len() == ids@.len(),
                forall|w: int| 0 <= w < ids@.len() ==> !#[trigger] visiting@[w],
                stack@.len() == 0,
            decreases ids@.len() - j,
        {
            proof {
                lemma_count_true_bound(marks(visiting@, visited@));
            }
            let ghost before_visited = visited@;
            let found = self.walk_for_cycle(
                j,
                &ids,
                &legal_src,
                &legal_dst,
                Ghost(conns),
                Ghost(*registry),
                &mut visiting,
                &mut visited,
                &mut stack,
                Ghost(ids@.len() as nat),
            );
            match found {
                Some(cycle) => {
                    let mut path: Vec<String> = Vec::new();
                    let mut k: usize = 0;
                    while k < cycle.len()
                        invariant
                            k <= cycle@.len(),
                            forall|t: int| 0 <= t < cycle@.len() ==> #[trigger] cycle@[t] < ids@.len(),
                            texts_of(path@) == cycle@.map_values(|u: usize| ids@[u as int]@).take(k as int),
                        decreases cycle@.len() - k,
                    {
                        let ghost before = path@;
                        path.push(ids[cycle[k]].clone());
                        proof {
                            assert(texts_of(path@) =~= texts_of(before).push(ids@[cycle@[k as int] as int]@));
                            assert(texts_of(path@) =~= cycle@.map_values(|u: usize| ids@[u as int]@).take(k + 1));
                        }
                        k = k + 1;
                    }
                    proof {
                        assert(cycle@.map_values(|u: usize| ids@[u as int]@).take(cycle@.len() as int)
                            =~= cycle@.map_values(|u: usize| ids@[u as int]@));
                    }
                    return Some(path);
                },
                None => {},
            }
            proof {
                assert forall|k: int| 0 <= k < j + 1 implies #[trigger] visited@[k] by {
                    if k < j {
                        assert(before_visited[k]);
                    }
                }
            }
            j = j + 1;
        }
        proof {
            assert forall|walk: Seq<Seq<char>>| !#[trigger] illegal_cycle(*self, *registry, walk) by {
                if illegal_cycle(*self, *registry, walk) {
                    lemma_illegal_walk_restricted(*self, *registry, conns, walk);
                    lemma_settled_avoids_cycles(conns, ids@, legal_src@, legal_dst@, visited@, walk, 0);
                    let e = choose|e: int|
                        0 <= e < conns.len() && #[trigger] conns[e].source.node.0@ == walk[walk.len() - 1]
                            && conns[e].destination.node.0@ == walk[0];
                    let u = legal_dst@[e];
                    assert(visited@[u as int]);
                    assert(marked_id(ids@, visited@, walk[0]));
                }
            }
        }
        None
    }
}

/// The finding reporting a routing cycle through no `feedback_delay` node.
/// The message an illegal cycle through the nodes of `walk` is reported
/// with.
pub open spec fn cycle_message(walk: Seq<Seq<char>>) -> Seq<char> {
    "routing cycle "@ + joined(walk, " -> "@)
        + " has no 'feedback_delay' node; every feedback cycle must pass through a 'feedback_delay' primitive"@
}

pub open spec fn cycle_finding() -> Finding {
    (
        ErrorCode::KernelCycleWithoutFeedbackDelay,
        None,
        None,
        None,
        None,
        Some("insert a 'feedback_delay' node into the cycle"@),
    )
}

/// `true` when some entry of `texts` equals `text`.
fn contains_text(texts: &Vec<String>, text: &str) -> (found: bool)
    ensures
        found == texts_of(texts@).contains(text@),
{
    let mut i: usize = 0;
    while i < texts.len()
        invariant
            i <= texts@.len(),
            forall|j: int| 0 <= j < i ==> texts@[j]@ != text@,
        decreases texts@.len() - i,
    {
        if str_eq(texts[i].as_str(), text) {
            proof {
                assert(texts_of(texts@)[i as int] == text@);
            }
            return true;
        }
        i = i + 1;
    }
    proof {
        if texts_of(texts@).contains(text@) {
            let j = choose|j: int| 0 <= j < texts_of(texts@).len() && texts_of(texts@)[j] == text@;
            assert(texts@[j]@ == text@);
        }
    }
    false
}

/// `true` when some port of `ports` is named `name`.
fn has_port(ports: &Vec<ResolvedPort>, name: &str) -> (found: bool)
    ensures
        found == has_port_named(ports@, name@),
{
    let mut i: usize = 0;
    while i < ports.len()
        invariant
            i <= ports@.len(),
            forall|j: int| 0 <= j < i ==> ports@[j].name@ != name@,
        decreases ports@.len() - i,
    {
        if str_eq(ports[i].name.as_str(), name) {
            return true;
        }
        i = i + 1;
    }
    false
}

proof fn lemma_append_assoc(a: Seq<Finding>, b: Seq<Finding>, c: Seq<Finding>)
    ensures
        a + b + c == a + (b + c),
{
    assert(a + b + c =~= a + (b + c));
}

impl GraphDefinition {
    /// Checks the default overrides of `node` against its resolved `ports`.
    fn check_overrides(&self, node: &Node, referenced: &GraphDefinition, ports: &Vec<ResolvedPort>, diagnostics: &mut Diagnostics)
        ensures
            extends_with(
                old(diagnostics)@,
                final(diagnostics)@,
                override_findings(*node, ports@, node.port_default_overrides.pairs().len() as nat),
            ),
    {
        let ghost start = diagnostics@;
        proof {
            lemma_extends_same(start);
        }
        let count = node.port_default_overrides.len();
        let mut k: usize = 0;
        while k < count
            invariant
                count == node.port_default_overrides.pairs().len(),
                k <= count,
                extends_with(start, diagnostics@, override_findings(*node, ports@, k as nat)),
            decreases count - k,
        {
            let name = node.port_default_overrides.name_at(k);
            if !has_port(ports, name) {
                let mut message = concat3("node '", node.id.as_str(), "' overrides default of unknown port '");
                message.append(name);
                message.append("' on definition '");
                message.append(referenced.name.as_str());
                message.append("'");
                let diagnostic = Diagnostic::new(ErrorCode::KernelOverrideUnknownPort, Severity::Error, message)
                    .with_module_id(node.id.0.clone()).with_port_name(String::from_str(name));
                let ghost before = diagnostics@;
                diagnostics.push(diagnostic);
                proof {
                    lemma_extends_push(start, before, diagnostic, override_findings(*node, ports@, k as nat));
                }
            }
            k = k + 1;
        }
    }

    /// Validates this definition against the definitions of `registry`:
    /// resolves every node's static arguments and ports, checks each
    /// connection's endpoints, signal types and channel counts, records the
    /// control-to-audio promotions, and searches for a routing cycle through
    /// no `feedback_delay` node.
    pub fn validate(&self, registry: &DefinitionRegistry) -> (validation: KernelValidation)
        ensures
            all_errors(validation.diagnostics@),
            validation.promotions@ == promotions_through(*self, *registry, self.connections@.len() as nat),
            findings_of(validation.diagnostics@) == local_findings(*self, *registry) || (findings_of(
                validation.diagnostics@,
            ) == local_findings(*self, *registry).push(cycle_finding()) && exists|walk: Seq<Seq<char>>|
                illegal_cycle(*self, *registry, walk)),
            (forall|walk: Seq<Seq<char>>| !illegal_cycle(*self, *registry, walk)) ==> findings_of(validation.diagnostics@)
                == local_findings(*self, *registry),
            (exists|walk: Seq<Seq<char>>| illegal_cycle(*self, *registry, walk)) ==> findings_of(
                validation.diagnostics@,
            ) == local_findings(*self, *registry).push(cycle_finding()) && exists|walk: Seq<Seq<char>>|
                illegal_cycle(*self, *registry, walk) && validation.diagnostics@.last().message@ == cycle_message(walk),
    {
        let mut diagnostics = Diagnostics::new();
        let ghost start = diagnostics@;
        proof {
            assert(all_errors(start));
        }
        let enclosing = self.enclosing_context();
        self.validate_static_references(&mut diagnostics);
        proof {
            assert(nodes_findings(*self, *registry, 0) =~= Seq::<Finding>::empty());
            assert(reference_findings(*self) + Seq::<Finding>::empty() =~= reference_findings(*self));
        }
        let mut checked: Vec<String> = Vec::new();
        checked.push(self.name.clone());
        proof {
            assert forall|k: Seq<char>| texts_of(checked@).contains(k) <==> checked_before(*self, *registry, 0).contains(k) by {
                if texts_of(checked@).contains(k) {
                    let j = choose|j: int| 0 <= j < texts_of(checked@).len() && texts_of(checked@)[j] == k;
                }
                if k == self.name@ {
                    assert(texts_of(checked@)[0] == k);
                }
            }
        }
        let mut table: NameMap<Vec<ResolvedPort>> = NameMap::new();
        let mut i: usize = 0;
        while i < self.nodes.len()
            invariant
                i <= self.nodes@.len(),
                all_errors(start),
                forall|k: Seq<char>| #[trigger] enclosing.lookup(k) == map_get(context_of(*self), k),
                extends_with(start, diagnostics@, reference_findings(*self) + nodes_findings(*self, *registry, i as nat)),
                table_matches(table, port_table(*self, *registry, i as nat)),
                forall|k: Seq<char>| texts_of(checked@).contains(k) <==> checked_before(*self, *registry, i as nat).contains(k),
            decreases self.nodes@.len() - i,
        {
            let node = &self.nodes[i];
            let ghost before = diagnostics@;
            let ghost so_far = reference_findings(*self) + nodes_findings(*self, *registry, i as nat);
            let ghost checked_set = checked_before(*self, *registry, i as nat);
            let ghost old_checked = checked@;
            proof {
                assert(node == self.nodes@[i as int]);
            }
            match registry.get(node.definition_ref.as_str()) {
                None => {
                    let mut message = concat3("node '", node.id.as_str(), "' references unknown definition '");
                    message.append(node.definition_ref.as_str());
                    message.append("'");
                    let diagnostic = Diagnostic::new(ErrorCode::KernelUnknownDefinition, Severity::Error, message)
                        .with_module_id(node.id.0.clone());
                    diagnostics.push(diagnostic);
                    proof {
                        lemma_extends_push(start, before, diagnostic, so_far);
                        assert(so_far.push(finding_of(diagnostic)) =~= reference_findings(*self) + nodes_findings(
                            *self,
                            *registry,
                            (i + 1) as nat,
                        ));
                    }
                },
                Some(referenced) => {
                    let seen = contains_text(&checked, referenced.name.as_str());
                    let ghost references = if checked_set.contains(referenced.name@) {
                        Seq::<Finding>::empty()
                    } else {
                        reference_findings(*referenced)
                    };
                    if !seen {
                        checked.push(referenced.name.clone());
                        referenced.validate_static_references(&mut diagnostics);
                        proof {
                            assert forall|k: Seq<char>| texts_of(checked@).contains(k) <==> checked_set.insert(
                                referenced.name@,
                            ).contains(k) by {
                                assert(texts_of(checked@) =~= texts_of(old_checked).push(referenced.name@));
                                if texts_of(checked@).contains(k) && k != referenced.name@ {
                                    let j = choose|j: int| 0 <= j < texts_of(checked@).len() && texts_of(checked@)[j] == k;
                                    assert(texts_of(old_checked)[j] == k);
                                }
                                if texts_of(old_checked).contains(k) {
                                    let j = choose|j: int| 0 <= j < texts_of(old_checked).len() && texts_of(old_checked)[j] == k;
                                    assert(texts_of(checked@)[j] == k);
                                }
                                if k == referenced.name@ {
                                    assert(texts_of(checked@)[texts_of(checked@).len() - 1] == k);
                                }
                            }
                        }
                    } else {
                        proof {
                            lemma_extends_same(before);
                            assert(checked_set.insert(referenced.name@) =~= checked_set);
                        }
                    }
                    let ghost after_references = diagnostics@;
                    let ghost context = context_of(*self);
                    let ghost resolution = resolution_findings(*node, *referenced, context);
                    let ghost args_map = arguments_of(*node, *referenced, context);
                    proof {
                        lemma_extends_chain(start, before, after_references, so_far, references);
                    }
                    match self.resolve_static_args(node, referenced, &enclosing, Ghost(context_of(*self)), &mut diagnostics) {
                        None => {
                            proof {
                                lemma_extends_chain(start, after_references, diagnostics@, so_far + references, resolution);
                                lemma_append_assoc(so_far, references, resolution);
                                assert(so_far + (references + resolution) =~= reference_findings(*self) + nodes_findings(
                                    *self,
                                    *registry,
                                    (i + 1) as nat,
                                ));
                            }
                        },
                        Some(args) => {
                            let ghost after_resolution = diagnostics@;
                            proof {
                                assert(resolution.len() == 0);
                                assert(resolution =~= Seq::<Finding>::empty());
                                assert(findings_of(after_resolution) =~= findings_of(after_references));
                            }
                            let ok = referenced.validate_resolved_static_references(
                                &args,
                                Ghost(args_map),
                                &mut diagnostics,
                            );
                            let ghost values = value_findings(*referenced, args_map);
                            if ok {
                                let ports = referenced.resolve_ports(&args, Ghost(args_map));
                                let ghost after_values = diagnostics@;
                                self.check_overrides(node, referenced, &ports, &mut diagnostics);
                                proof {
                                    assert(values =~= Seq::<Finding>::empty());
                                    assert(findings_of(after_values) =~= findings_of(after_references));
                                    lemma_extends_chain(
                                        start,
                                        after_references,
                                        diagnostics@,
                                        so_far + references,
                                        override_findings(*node, ports@, node.port_default_overrides.pairs().len() as nat),
                                    );
                                    lemma_append_assoc(
                                        so_far,
                                        references,
                                        override_findings(*node, ports@, node.port_default_overrides.pairs().len() as nat),
                                    );
                                    assert(so_far + (references + override_findings(
                                        *node,
                                        ports@,
                                        node.port_default_overrides.pairs().len() as nat,
                                    )) =~= reference_findings(*self) + nodes_findings(*self, *registry, (i + 1) as nat));
                                }
                                let ghost old_table = table;
                                table.insert(node.id.as_str(), ports);
                                proof {
                                    assert forall|k: Seq<char>| match #[trigger] table.lookup(k) {
                                        Some(v) => port_table(*self, *registry, (i + 1) as nat).dom().contains(k) && v@
                                            == port_table(*self, *registry, (i + 1) as nat)[k],
                                        None => !port_table(*self, *registry, (i + 1) as nat).dom().contains(k),
                                    } by {
                                        if k != node.id.0@ {
                                            assert(table.lookup(k) == old_table.lookup(k));
                                        }
                                    }
                                }
                            } else {
                                proof {
                                    lemma_extends_chain(start, after_references, diagnostics@, so_far + references, values);
                                    lemma_append_assoc(so_far, references, values);
                                    assert(so_far + (references + values) =~= reference_findings(*self) + nodes_findings(
                                        *self,
                                        *registry,
                                        (i + 1) as nat,
                                    ));
                                }
                            }
                        },
                    }
                },
            }
            i = i + 1;
        }
        let ghost table_spec = port_table(*self, *registry, self.nodes@.len() as nat);
        let ghost nodes_done = reference_findings(*self) + nodes_findings(*self, *registry, self.nodes@.len() as nat);
        let mut promotions: Vec<PromotionStep> = Vec::new();
        proof {
            assert(nodes_done + connections_findings(*self, *registry, 0) =~= nodes_done);
        }
        let mut c: usize = 0;
        while c < self.connections.len()
            invariant
                c <= self.connections@.len(),
                all_errors(start),
                table_matches(table, table_spec),
                table_spec == port_table(*self, *registry, self.nodes@.len() as nat),
                nodes_done == reference_findings(*self) + nodes_findings(*self, *registry, self.nodes@.len() as nat),
                extends_with(start, diagnostics@, nodes_done + connections_findings(*self, *registry, c as nat)),
                promotions@ == promotions_through(*self, *registry, c as nat),
            decreases self.connections@.len() - c,
        {
            let connection = &self.connections[c];
            let ghost before = diagnostics@;
            let ghost so_far = nodes_done + connections_findings(*self, *registry, c as nat);
            let source = self.resolve_endpoint(
                &connection.source,
                PortDirection::Output,
                registry,
                &table,
                Ghost(table_spec),
                &mut diagnostics,
            );
            let ghost middle = diagnostics@;
            let destination = self.resolve_endpoint(
                &connection.destination,
                PortDirection::Input,
                registry,
                &table,
                Ghost(table_spec),
                &mut diagnostics,
            );
            let ghost after = diagnostics@;
            let ghost found = endpoint(*self, *registry, table_spec, connection.source, PortDirection::Output).0
                + endpoint(*self, *registry, table_spec, connection.destination, PortDirection::Input).0;
            proof {
                lemma_extends_chain(
                    before,
                    middle,
                    after,
                    endpoint(*self, *registry, table_spec, connection.source, PortDirection::Output).0,
                    endpoint(*self, *registry, table_spec, connection.destination, PortDirection::Input).0,
                );
                lemma_extends_chain(start, before, after, so_far, found);
                assert(connection == self.connections@[c as int]);
            }
            match (source, destination) {
                (Some(source), Some(destination)) => {
                    let same = source.signal_type == destination.signal_type;
                    let promote = !same && source.signal_type == SignalType::Control && destination.signal_type
                        == SignalType::Audio;
                    if same || promote {
                        if source.channels == destination.channels {
                            if promote {
                                promotions.push(
                                    PromotionStep {
                                        source: connection.source.clone(),
                                        destination: connection.destination.clone(),
                                        channels: destination.channels,
                                    },
                                );
                            }
                            proof {
                                assert(so_far + found =~= nodes_done + connections_findings(
                                    *self,
                                    *registry,
                                    (c + 1) as nat,
                                ));
                            }
                        } else {
                            let mut message = concat3("channel count mismatch: ", connection.source.port.as_str(), " has ");
                            message.append(decimal_string(source.channels as u64).as_str());
                            message.append(" channel(s), but ");
                            message.append(connection.destination.port.as_str());
                            message.append(" has ");
                            message.append(decimal_string(destination.channels as u64).as_str());
                            message.append(" channel(s)");
                            let diagnostic = Diagnostic::new(
                                ErrorCode::KernelChannelCountMismatch,
                                Severity::Error,
                                message,
                            ).with_module_id(connection.destination.node.0.clone()).with_port_name(
                                connection.destination.port.clone(),
                            ).with_expected(decimal_string(source.channels as u64)).with_actual(
                                decimal_string(destination.channels as u64),
                            );
                            diagnostics.push(diagnostic);
                            proof {
                                lemma_extends_push(start, after, diagnostic, so_far + found);
                                assert((so_far + found).push(finding_of(diagnostic)) =~= nodes_done
                                    + connections_findings(*self, *registry, (c + 1) as nat));
                            }
                        }
                    } else {
                        let mut message = concat3("incompatible signal types: ", connection.source.port.as_str(), " is ");
                        message.append(signal_type_name(source.signal_type));
                        message.append(", but ");
                        message.append(connection.destination.port.as_str());
                        message.append(" is ");
                        message.append(signal_type_name(destination.signal_type));
                        let diagnostic = Diagnostic::new(
                            ErrorCode::KernelIncompatibleSignalTypes,
                            Severity::Error,
                            message,
                        ).with_module_id(connection.destination.node.0.clone()).with_port_name(
                            connection.destination.port.clone(),
                        ).with_expected(String::from_str(signal_type_name(source.signal_type))).with_actual(
                            String::from_str(signal_type_name(destination.signal_type)),
                        );
                        diagnostics.push(diagnostic);
                        proof {
                            lemma_extends_push(start, after, diagnostic, so_far + found);
                            assert((so_far + found).push(finding_of(diagnostic)) =~= nodes_done + connections_findings(
                                *self,
                                *registry,
                                (c + 1) as nat,
                            ));
                        }
                    }
                },
                _ => {
                    proof {
                        assert(so_far + found =~= nodes_done + connections_findings(*self, *registry, (c + 1) as nat));
                    }
                },
            }
            c = c + 1;
        }
        let ghost connections_done = nodes_done + connections_findings(
            *self,
            *registry,
            self.connections@.len() as nat,
        );
        let ghost after_connections = diagnostics@;
        proof {
            lemma_extends_same(after_connections);
            assert(Seq::<Finding>::empty() =~= multiplicity_findings(*self, *registry, 0));
        }
        let mut m: usize = 0;
        while m < self.connections.len()
            invariant
                m <= self.connections@.len(),
                all_errors(start),
                table_matches(table, table_spec),
                table_spec == port_table(*self, *registry, self.nodes@.len() as nat),
                extends_with(start, after_connections, connections_done),
                extends_with(after_connections, diagnostics@, multiplicity_findings(*self, *registry, m as nat)),
            decreases self.connections@.len() - m,
        {
            let connection = &self.connections[m];
            let ghost before = diagnostics@;
            proof {
                assert(connection == self.connections@[m as int]);
            }
            match self.endpoint_port(&connection.destination, PortDirection::Input, Ghost(*registry), &table, Ghost(table_spec)) {
                Some(port) => {
                    if port.multiplicity == Multiplicity::SingleSource && self.count_incoming(m, &connection.destination)
                        == 1 {
                        let mut message = concat3(
                            "single-source input '",
                            connection.destination.port.as_str(),
                            "' of node '",
                        );
                        message.append(connection.destination.node.as_str());
                        message.append("' has more than one incoming connection");
                        let diagnostic = Diagnostic::new(ErrorCode::KernelMultipleSources, Severity::Error, message)
                            .with_module_id(connection.destination.node.0.clone())
                            .with_port_name(connection.destination.port.clone());
                        diagnostics.push(diagnostic);
                        proof {
                            lemma_extends_push(
                                after_connections,
                                before,
                                diagnostic,
                                multiplicity_findings(*self, *registry, m as nat),
                            );
                        }
                    }
                },
                None => {},
            }
            m = m + 1;
        }
        proof {
            lemma_extends_chain(
                start,
                after_connections,
                diagnostics@,
                connections_done,
                multiplicity_findings(*self, *registry, self.connections@.len() as nat),
            );
            assert(connections_done + multiplicity_findings(*self, *registry, self.connections@.len() as nat)
                == local_findings(*self, *registry));
        }
        let ghost before = diagnostics@;
        match self.find_illegal_cycle(registry) {
            Some(path) => {
                let listing = join_texts(&path, " -> ");
                let message = concat3(
                    "routing cycle ",
                    listing.as_str(),
                    " has no 'feedback_delay' node; every feedback cycle must pass through a 'feedback_delay' primitive",
                );
                let diagnostic = Diagnostic::new(ErrorCode::KernelCycleWithoutFeedbackDelay, Severity::Error, message)
                    .with_suggested_fix(String::from_str("insert a 'feedback_delay' node into the cycle"));
                diagnostics.push(diagnostic);
                proof {
                    lemma_extends_push(start, before, diagnostic, local_findings(*self, *registry));
                    assert(diagnostics@.last() == diagnostic);
                    assert(illegal_cycle(*self, *registry, texts_of(path@)));
                    assert(diagnostic.message@ == cycle_message(texts_of(path@)));
                }
            },
            None => {},
        }
        KernelValidation { diagnostics, promotions }
    }
}

/// The resolved ports of the node named `id`, when it exists, its definition
/// is registered with sound static references, and its static arguments and
/// their values resolve.
pub open spec fn node_resolution(def: GraphDefinition, registry: DefinitionRegistry, id: Seq<char>) -> Option<
    Seq<ResolvedPort>,
> {
    match node_named(def.nodes@, id) {
        None => None,
        Some(node) => match registry.lookup(node.definition_ref@) {
            None => None,
            Some(referenced) => if reference_findings(referenced).len() > 0 {
                None
            } else {
                node_ports(def, registry, node)
            },
        },
    }
}

/// The first control input port of `ports` named `name`.
pub open spec fn control_input(ports: Seq<Port>, name: Seq<char>) -> Option<Port>
    decreases ports.len(),
{
    if ports.len() == 0 {
        None
    } else if ports[0].name@ == name && ports[0].direction == PortDirection::Input && ports[0].signal_type
        == SignalType::Control {
        Some(ports[0])
    } else {
        control_input(ports.drop_first(), name)
    }
}

/// Some connection ends at port `port` of node `id`.
pub open spec fn cabled(connections: Seq<Connection>, id: Seq<char>, port: Seq<char>) -> bool {
    exists|c: int|
        0 <= c < connections.len() && #[trigger] connections[c].destination.node.0@ == id
            && connections[c].destination.port@ == port
}

/// The effective source of control input `port` of node `id`: an incoming
/// cable, else the node's override, else the port's declared default.
pub open spec fn effective_input(def: GraphDefinition, registry: DefinitionRegistry, id: Seq<char>, port: Seq<char>) -> Option<
    EffectiveInput,
> {
    match node_named(def.nodes@, id) {
        None => None,
        Some(node) => match registry.lookup(node.definition_ref@) {
            None => None,
            Some(referenced) => match control_input(referenced.ports@, port) {
                None => None,
                Some(declared) => if cabled(def.connections@, id, port) {
                    Some(EffectiveInput::Connected)
                } else {
                    match node.port_default_overrides.lookup(port) {
                        Some(bits) => Some(EffectiveInput::Value(bits)),
                        None => match declared.control_default {
                            Some(control) => Some(EffectiveInput::Value(control.default_bits)),
                            None => None,
                        },
                    }
                },
            },
        },
    }
}

proof fn lemma_control_input(ports: Seq<Port>, name: Seq<char>, i: int)
    requires
        0 <= i <= ports.len(),
        forall|j: int|
            0 <= j < i ==> !(ports[j].name@ == name && ports[j].direction == PortDirection::Input
                && ports[j].signal_type == SignalType::Control),
        i == ports.len() || (ports[i].name@ == name && ports[i].direction == PortDirection::Input
            && ports[i].signal_type == SignalType::Control),
    ensures
        control_input(ports, name) == if i < ports.len() {
            Some(ports[i])
        } else {
            None::<Port>
        },
    decreases ports.len(),
{
    if ports.len() > 0 && !(ports[0].name@ == name && ports[0].direction == PortDirection::Input
        && ports[0].signal_type == SignalType::Control) {
        let t = ports.drop_first();
        assert forall|j: int| 0 <= j < i - 1 implies !(t[j].name@ == name && t[j].direction == PortDirection::Input
            && t[j].signal_type == SignalType::Control) by {
            assert(t[j] == ports[j + 1]);
        }
        if i < ports.len() {
            assert(t[i - 1] == ports[i]);
        }
        lemma_control_input(t, name, i - 1);
    }
}

/// The first control input port of `ports` named `name`.
fn control_input_port<'a>(ports: &'a Vec<Port>, name: &str) -> (port: Option<&'a Port>)
    ensures
        match port {
            Some(p) => control_input(ports@, name@) == Some(*p),
            None => control_input(ports@, name@) is None,
        },
{
    let mut i: usize = 0;
    while i < ports.len()
        invariant
            i <= ports@.len(),
            forall|j: int|
                0 <= j < i ==> !(ports@[j].name@ == name@ && ports@[j].direction == PortDirection::Input
                    && ports@[j].signal_type == SignalType::Control),
        decreases ports@.len() - i,
    {
        let port = &ports[i];
        if str_eq(port.name.as_str(), name) && port.direction == PortDirection::Input && port.signal_type
            == SignalType::Control {
            proof {
                lemma_control_input(ports@, name@, i as int);
            }
            return Some(port);
        }
        i = i + 1;
    }
    proof {
        lemma_control_input(ports@, name@, i as int);
    }
    None
}

impl GraphDefinition {
    /// `true` when some connection ends at port `port_name` of node `node_id`.
    fn is_cabled(&self, node_id: &NodeId, port_name: &str) -> (driven: bool)
        ensures
            driven == cabled(self.connections@, node_id.0@, port_name@),
    {
        let mut c: usize = 0;
        while c < self.connections.len()
            invariant
                c <= self.connections@.len(),
                forall|k: int|
                    0 <= k < c ==> !(self.connections@[k].destination.node.0@ == node_id.0@
                        && self.connections@[k].destination.port@ == port_name@),
            decreases self.connections@.len() - c,
        {
            let destination = &self.connections[c].destination;
            if destination.node.same(node_id) && str_eq(destination.port.as_str(), port_name) {
                return true;
            }
            c = c + 1;
        }
        false
    }

    /// The ports node `node_id` exposes after substituting its static
    /// arguments, or `None` when the node, its definition, the definition's
    /// static references, or the node's static arguments do not resolve.
    pub fn resolved_node_ports(&self, registry: &DefinitionRegistry, node_id: &NodeId) -> (ports: Option<Vec<ResolvedPort>>)
        ensures
            match ports {
                Some(p) => node_resolution(*self, *registry, node_id.0@) == Some(p@),
                None => node_resolution(*self, *registry, node_id.0@) is None,
            },
    {
        let node = match self.node(node_id) {
            Some(node) => node,
            None => {
                return None;
            },
        };
        let referenced = match registry.get(node.definition_ref.as_str()) {
            Some(referenced) => referenced,
            None => {
                return None;
            },
        };
        let mut sink = Diagnostics::new();
        proof {
            assert(all_errors(sink@));
        }
        referenced.validate_static_references(&mut sink);
        if sink.len() > 0 {
            return None;
        }
        proof {
            assert(findings_of(sink@).len() == sink@.len());
            assert(reference_findings(*referenced).len() == 0);
        }
        let enclosing = self.enclosing_context();
        let args = match self.resolve_static_args(node, referenced, &enclosing, Ghost(context_of(*self)), &mut sink) {
            Some(args) => args,
            None => {
                return None;
            },
        };
        let ghost args_map = arguments_of(*node, *referenced, context_of(*self));
        if !referenced.validate_resolved_static_references(&args, Ghost(args_map), &mut sink) {
            return None;
        }
        Some(referenced.resolve_ports(&args, Ghost(args_map)))
    }

    /// The effective source of control input `port_name` of node `node_id`,
    /// by precedence: an incoming cable, then the node's override, then the
    /// port's declared default. `None` when the node or a control input port
    /// of that name does not resolve, or nothing supplies a value.
    pub fn effective_control_input(&self, registry: &DefinitionRegistry, node_id: &NodeId, port_name: &str) -> (input:
        Option<EffectiveInput>)
        ensures
            input == effective_input(*self, *registry, node_id.0@, port_name@),
    {
        let node = match self.node(node_id) {
            Some(node) => node,
            None => {
                return None;
            },
        };
        let referenced = match registry.get(node.definition_ref.as_str()) {
            Some(referenced) => referenced,
            None => {
                return None;
            },
        };
        let port = match control_input_port(&referenced.ports, port_name) {
            Some(port) => port,
            None => {
                return None;
            },
        };
        if self.is_cabled(node_id, port_name) {
            return Some(EffectiveInput::Connected);
        }
        match node.port_default_overrides.get(port_name) {
            Some(bits) => Some(EffectiveInput::Value(*bits)),
            None => match &port.control_default {
                Some(control) => Some(EffectiveInput::Value(control.default_bits)),
                None => None,
            },
        }
    }
}

/// An incoming cable takes precedence over any override or declared default:
/// a control input that a connection drives resolves to a connected input.
pub proof fn law_cable_takes_precedence(def: GraphDefinition, registry: DefinitionRegistry, id: Seq<char>, port: Seq<char>)
    requires
        effective_input(def, registry, id, port) is Some,
        cabled(def.connections@, id, port),
    ensures
        effective_input(def, registry, id, port) == Some(EffectiveInput::Connected),
{
}

/// Without a cable, a node's override takes precedence over the port's
/// declared default.
pub proof fn law_override_takes_precedence(
    def: GraphDefinition,
    registry: DefinitionRegistry,
    id: Seq<char>,
    port: Seq<char>,
    bits: u64,
)
    requires
        effective_input(def, registry, id, port) is Some,
        !cabled(def.connections@, id, port),
        node_named(def.nodes@, id) matches Some(node) && node.port_default_overrides.lookup(port) == Some(bits),
    ensures
        effective_input(def, registry, id, port) == Some(EffectiveInput::Value(bits)),
{
}

} // verus!
