//! The flat graph of atomic (primitive) nodes a kernel graph definition
//! expands to.
use vstd::prelude::*;
use vstd::string::*;

use crate::diagnostics::{Diagnostic, Diagnostics, ErrorCode, Severity};
use crate::kernel::{
    param_named, ChannelCount, Connection, ControlDefault, DefinitionRegistry, GraphDefinition, LatencySpec, Multiplicity, Node,
    NodeId, Port, PortDirection, PortRef, PromotionStep, ResolvedPort, SignalType, StaticValue,
    CONTROL_TO_AUDIO_DEFINITION, NAMESPACE_SEPARATOR, PROMOTION_INPUT_PORT, PROMOTION_NODE_PREFIX,
    PROMOTION_OUTPUT_PORT,
};
use crate::latency::texts_of;
use crate::name_map::{ascending, lemma_sorted_pairs_unique, lookup_pairs, pair_names, NameMap};
use crate::text::{concat2, concat3, decimal_string, decimal_text, owned, signed_decimal, signed_text, str_eq};
use crate::validation::{
    about, all_errors, arguments_of, context_of, extends_with, findings_of, lemma_port_matching, map_get,
    port_matching, reference_findings, resolution_findings, resolved_ports, value_findings, Finding,
};

verus! {

/// An atomic node in the flattened graph: a resolved instance of a native
/// primitive with a namespaced identity, resolved ports, effective control
/// defaults (as `f64` bits), and processing latency.
#[derive(Debug, PartialEq, Eq)]
pub struct AtomicNode {
    pub id: NodeId,
    pub definition: String,
    pub static_args: NameMap<StaticValue>,
    pub port_defaults: NameMap<u64>,
    pub ports: Vec<ResolvedPort>,
    pub latency: u32,
}

impl AtomicNode {
    pub fn id(&self) -> (id: &NodeId)
        ensures
            *id == self.id,
    {
        &self.id
    }

    pub fn definition(&self) -> (definition: &str)
        ensures
            definition@ == self.definition@,
    {
        self.definition.as_str()
    }

    pub fn static_args(&self) -> (args: &NameMap<StaticValue>)
        ensures
            *args == self.static_args,
    {
        &self.static_args
    }

    pub fn port_defaults(&self) -> (defaults: &NameMap<u64>)
        ensures
            *defaults == self.port_defaults,
    {
        &self.port_defaults
    }

    pub fn ports(&self) -> (ports: &Vec<ResolvedPort>)
        ensures
            ports@ == self.ports@,
    {
        &self.ports
    }

    pub fn latency(&self) -> (latency: u32)
        ensures
            latency == self.latency,
    {
        self.latency
    }
}

/// Position of the first atomic node with id `id` (the length when none has it).
pub open spec fn atomic_position(nodes: Seq<AtomicNode>, id: Seq<char>) -> int
    decreases nodes.len(),
{
    if nodes.len() == 0 {
        0
    } else if nodes[0].id.0@ == id {
        0
    } else {
        1 + atomic_position(nodes.drop_first(), id)
    }
}

pub proof fn lemma_atomic_position(nodes: Seq<AtomicNode>, id: Seq<char>)
    ensures
        0 <= atomic_position(nodes, id) <= nodes.len(),
        atomic_position(nodes, id) < nodes.len() ==> nodes[atomic_position(nodes, id)].id.0@ == id,
        forall|j: int| 0 <= j < atomic_position(nodes, id) ==> nodes[j].id.0@ != id,
    decreases nodes.len(),
{
    if nodes.len() > 0 && nodes[0].id.0@ != id {
        lemma_atomic_position(nodes.drop_first(), id);
        assert forall|j: int| 0 <= j < atomic_position(nodes, id) implies nodes[j].id.0@ != id by {
            if j > 0 {
                assert(nodes[j] == nodes.drop_first()[j - 1]);
            }
        }
    }
}

pub proof fn lemma_atomic_position_unique(nodes: Seq<AtomicNode>, id: Seq<char>, i: int)
    requires
        0 <= i <= nodes.len(),
        forall|j: int| 0 <= j < i ==> nodes[j].id.0@ != id,
        i == nodes.len() || nodes[i].id.0@ == id,
    ensures
        atomic_position(nodes, id) == i,
    decreases nodes.len(),
{
    if nodes.len() > 0 && nodes[0].id.0@ != id {
        let t = nodes.drop_first();
        assert forall|j: int| 0 <= j < i - 1 implies t[j].id.0@ != id by {
            assert(t[j] == nodes[j + 1]);
        }
        if i < nodes.len() {
            assert(t[i - 1] == nodes[i]);
        }
        lemma_atomic_position_unique(t, id, i - 1);
    }
}

/// The first atomic node with id `id`.
pub open spec fn atomic_named(nodes: Seq<AtomicNode>, id: Seq<char>) -> Option<AtomicNode> {
    if atomic_position(nodes, id) < nodes.len() {
        Some(nodes[atomic_position(nodes, id)])
    } else {
        None
    }
}

/// The result of flattening: a flat list of atomic nodes, the connections
/// between their ports, the resolved public ports of the root definition and
/// the atomic output ports those root outputs gather from.
#[derive(Debug, PartialEq, Eq)]
pub struct FlattenedGraph {
    pub nodes: Vec<AtomicNode>,
    pub connections: Vec<Connection>,
    pub root_ports: Vec<ResolvedPort>,
    pub root_output_sources: Vec<PortRef>,
    pub promotions: Vec<PromotionStep>,
    pub expansion_count: usize,
}

impl FlattenedGraph {
    pub fn nodes(&self) -> (nodes: &Vec<AtomicNode>)
        ensures
            nodes@ == self.nodes@,
    {
        &self.nodes
    }

    pub fn connections(&self) -> (connections: &Vec<Connection>)
        ensures
            connections@ == self.connections@,
    {
        &self.connections
    }

    pub fn root_ports(&self) -> (ports: &Vec<ResolvedPort>)
        ensures
            ports@ == self.root_ports@,
    {
        &self.root_ports
    }

    /// The atomic output ports feeding the root definition's output ports.
    pub fn root_output_sources(&self) -> (sources: &Vec<PortRef>)
        ensures
            sources@ == self.root_output_sources@,
    {
        &self.root_output_sources
    }

    /// The control→audio promotions flattening inserted, one per promoted
    /// connection, in connection order.
    pub fn promotions(&self) -> (promotions: &Vec<PromotionStep>)
        ensures
            promotions@ == self.promotions@,
    {
        &self.promotions
    }

    /// The number of distinct `(definition, static arguments)` keys
    /// structurally expanded.
    pub fn expansion_count(&self) -> (count: usize)
        ensures
            count == self.expansion_count,
    {
        self.expansion_count
    }

    /// Position of the first atomic node with id `id` (the node count when
    /// none has it).
    pub fn position(&self, id: &str) -> (position: usize)
        ensures
            position == atomic_position(self.nodes@, id@),
    {
        let mut i: usize = 0;
        while i < self.nodes.len()
            invariant
                i <= self.nodes@.len(),
                forall|j: int| 0 <= j < i ==> self.nodes@[j].id.0@ != id@,
            decreases self.nodes@.len() - i,
        {
            if str_eq(self.nodes[i].id.as_str(), id) {
                proof {
                    lemma_atomic_position_unique(self.nodes@, id@, i as int);
                }
                return i;
            }
            i = i + 1;
        }
        proof {
            lemma_atomic_position_unique(self.nodes@, id@, i as int);
        }
        i
    }

    /// The first atomic node with id `id`.
    pub fn node(&self, id: &NodeId) -> (node: Option<&AtomicNode>)
        ensures
            match node {
                Some(n) => atomic_named(self.nodes@, id.0@) == Some(*n),
                None => atomic_named(self.nodes@, id.0@) is None,
            },
    {
        let mut i: usize = 0;
        while i < self.nodes.len()
            invariant
                i <= self.nodes@.len(),
                forall|j: int| 0 <= j < i ==> self.nodes@[j].id.0@ != id.0@,
            decreases self.nodes@.len() - i,
        {
            if self.nodes[i].id.same(id) {
                proof {
                    lemma_atomic_position_unique(self.nodes@, id.0@, i as int);
                }
                return Some(&self.nodes[i]);
            }
            i = i + 1;
        }
        proof {
            lemma_atomic_position_unique(self.nodes@, id.0@, i as int);
        }
        None
    }
}

// ---------------------------------------------------------------------------
// The model of flattening
// ---------------------------------------------------------------------------

/// Maximum composite nesting depth before flattening gives up.
pub const MAX_FLATTEN_DEPTH: usize = 64;

/// A port of a node, by node id and port name.
#[verifier::ext_equal]
pub struct PortPlace {
    pub node: Seq<char>,
    pub port: Seq<char>,
}

/// A connection between two ports.
#[verifier::ext_equal]
pub struct Wire {
    pub source: PortPlace,
    pub destination: PortPlace,
}

/// An atomic node: id, definition name, static arguments, effective control
/// defaults (as `f64` bits), resolved ports and latency.
#[verifier::ext_equal]
pub struct AtomPlan {
    pub id: Seq<char>,
    pub definition: Seq<char>,
    pub static_args: Map<Seq<char>, StaticValue>,
    pub port_defaults: Map<Seq<char>, u64>,
    pub ports: Seq<ResolvedPort>,
    pub latency: u32,
}

/// The atomic ports each public input forwards to and each public output
/// gathers from, by public port name.
#[verifier::ext_equal]
pub struct Boundary {
    pub inputs: Map<Seq<char>, Seq<PortPlace>>,
    pub outputs: Map<Seq<char>, Seq<PortPlace>>,
}

/// The expansion of one definition, with ids relative to its own frame.
#[verifier::ext_equal]
pub struct Blueprint {
    pub nodes: Seq<AtomPlan>,
    pub wires: Seq<Wire>,
    pub boundary: Boundary,
}

/// The state flattening threads through the expansion: the expansions by
/// cache key, the definitions whose static references were checked, the
/// number of expansions made, the definitions being expanded, and the
/// findings so far.
#[verifier::ext_equal]
pub struct Expansion {
    pub cache: Map<Seq<char>, Blueprint>,
    pub checked: Seq<Seq<char>>,
    pub count: nat,
    pub path: Seq<Seq<char>>,
    pub findings: Seq<Finding>,
}

/// The parts of a composite's expansion gathered from its nodes so far.
#[verifier::ext_equal]
pub struct Assembly {
    pub nodes: Seq<AtomPlan>,
    pub wires: Seq<Wire>,
    pub children: Map<Seq<char>, Boundary>,
}

pub open spec fn place_of(reference: PortRef) -> PortPlace {
    PortPlace { node: reference.node.0@, port: reference.port@ }
}

pub open spec fn places_of(references: Seq<PortRef>) -> Seq<PortPlace> {
    references.map_values(|r: PortRef| place_of(r))
}

pub open spec fn wire_of(connection: Connection) -> Wire {
    Wire { source: place_of(connection.source), destination: place_of(connection.destination) }
}

pub open spec fn wires_of(connections: Seq<Connection>) -> Seq<Wire> {
    connections.map_values(|c: Connection| wire_of(c))
}

/// The entries of a name map, as a map.
pub open spec fn map_of<V>(m: NameMap<V>) -> Map<Seq<char>, V> {
    Map::new(|k: Seq<char>| m.lookup(k) is Some, |k: Seq<char>| m.lookup(k)->0)
}

pub open spec fn plan_of(node: AtomicNode) -> AtomPlan {
    AtomPlan {
        id: node.id.0@,
        definition: node.definition@,
        static_args: map_of(node.static_args),
        port_defaults: map_of(node.port_defaults),
        ports: node.ports@,
        latency: node.latency,
    }
}

pub open spec fn plans_of(nodes: Seq<AtomicNode>) -> Seq<AtomPlan> {
    nodes.map_values(|n: AtomicNode| plan_of(n))
}

/// A map from names to port lists, as places.
pub open spec fn wiring_of(m: NameMap<Vec<PortRef>>) -> Map<Seq<char>, Seq<PortPlace>> {
    Map::new(|k: Seq<char>| m.lookup(k) is Some, |k: Seq<char>| places_of(m.lookup(k)->0@))
}

/// `id` beneath the instance path `prefix`.
pub open spec fn namespaced(prefix: Seq<char>, relative: Seq<char>) -> Seq<char> {
    if relative.len() == 0 {
        prefix
    } else if prefix.len() == 0 {
        relative
    } else {
        prefix + NAMESPACE_SEPARATOR@ + relative
    }
}

pub open spec fn moved(place: PortPlace, prefix: Seq<char>) -> PortPlace {
    PortPlace { node: namespaced(prefix, place.node), port: place.port }
}

pub open spec fn moved_all(places: Seq<PortPlace>, prefix: Seq<char>) -> Seq<PortPlace> {
    places.map_values(|p: PortPlace| moved(p, prefix))
}

/// `blueprint` re-namespaced beneath the instance path `prefix`.
pub open spec fn instantiated(blueprint: Blueprint, prefix: Seq<char>) -> Blueprint {
    Blueprint {
        nodes: blueprint.nodes.map_values(|a: AtomPlan| AtomPlan { id: namespaced(prefix, a.id), ..a }),
        wires: blueprint.wires.map_values(
            |w: Wire| Wire { source: moved(w.source, prefix), destination: moved(w.destination, prefix) },
        ),
        boundary: Boundary {
            inputs: blueprint.boundary.inputs.map_values(|ps: Seq<PortPlace>| moved_all(ps, prefix)),
            outputs: blueprint.boundary.outputs.map_values(|ps: Seq<PortPlace>| moved_all(ps, prefix)),
        },
    }
}

/// The position of the first atomic node with id `id`.
pub open spec fn plan_position(nodes: Seq<AtomPlan>, id: Seq<char>) -> int
    decreases nodes.len(),
{
    if nodes.len() == 0 {
        0
    } else if nodes[0].id == id {
        0
    } else {
        1 + plan_position(nodes.drop_first(), id)
    }
}

/// `nodes` with the default of `target` set to `value` on the first node
/// that `target` names.
pub open spec fn override_target(nodes: Seq<AtomPlan>, target: PortPlace, value: u64) -> Seq<AtomPlan> {
    let p = plan_position(nodes, target.node);
    if p < nodes.len() {
        nodes.update(p, AtomPlan { port_defaults: nodes[p].port_defaults.insert(target.port, value), ..nodes[p] })
    } else {
        nodes
    }
}

/// `nodes` with the first `m` of `targets` set to `value`.
pub open spec fn override_targets(nodes: Seq<AtomPlan>, targets: Seq<PortPlace>, value: u64, m: nat) -> Seq<AtomPlan>
    decreases m,
{
    if m == 0 || m > targets.len() {
        nodes
    } else {
        override_target(override_targets(nodes, targets, value, (m - 1) as nat), targets[m - 1], value)
    }
}

/// `nodes` with the first `m` default overrides of `node` applied through
/// the public inputs of `boundary`.
pub open spec fn overridden(node: Node, boundary: Boundary, nodes: Seq<AtomPlan>, m: nat) -> Seq<AtomPlan>
    decreases m,
{
    if m == 0 || m > node.port_default_overrides.pairs().len() {
        nodes
    } else {
        let rest = overridden(node, boundary, nodes, (m - 1) as nat);
        let (name, value) = node.port_default_overrides.pairs()[m - 1];
        if boundary.inputs.contains_key(name) {
            override_targets(rest, boundary.inputs[name], value, boundary.inputs[name].len())
        } else {
            rest
        }
    }
}

/// The atomic ports behind the first `m` internal references of a public
/// port: inputs when `inputs`, outputs otherwise.
pub open spec fn gathered(references: Seq<PortRef>, children: Map<Seq<char>, Boundary>, inputs: bool, m: nat) -> Seq<
    PortPlace,
>
    decreases m,
{
    if m == 0 || m > references.len() {
        Seq::empty()
    } else {
        let rest = gathered(references, children, inputs, (m - 1) as nat);
        let r = references[m - 1];
        if children.contains_key(r.node.0@) {
            let side = if inputs {
                children[r.node.0@].inputs
            } else {
                children[r.node.0@].outputs
            };
            if side.contains_key(r.port@) {
                rest + side[r.port@]
            } else {
                rest
            }
        } else {
            rest
        }
    }
}

/// The boundary of a composite from its first `m` public ports.
pub open spec fn composed(def: GraphDefinition, children: Map<Seq<char>, Boundary>, m: nat) -> Boundary
    decreases m,
{
    if m == 0 || m > def.ports@.len() {
        Boundary { inputs: Map::empty(), outputs: Map::empty() }
    } else {
        let rest = composed(def, children, (m - 1) as nat);
        let port = def.ports@[m - 1];
        match port.direction {
            PortDirection::Input => Boundary {
                inputs: rest.inputs.insert(port.name@, gathered(port.maps_to@, children, true, port.maps_to@.len())),
                ..rest
            },
            PortDirection::Output => Boundary {
                outputs: rest.outputs.insert(
                    port.name@,
                    gathered(port.maps_from@, children, false, port.maps_from@.len()),
                ),
                ..rest
            },
        }
    }
}

/// Wires from `source` to each of `destinations`.
pub open spec fn fan(source: PortPlace, destinations: Seq<PortPlace>) -> Seq<Wire> {
    destinations.map_values(|d: PortPlace| Wire { source, destination: d })
}

/// Wires from each of the first `m` of `sources` to each of `destinations`.
pub open spec fn cross(sources: Seq<PortPlace>, destinations: Seq<PortPlace>, m: nat) -> Seq<Wire>
    decreases m,
{
    if m == 0 || m > sources.len() {
        Seq::empty()
    } else {
        cross(sources, destinations, (m - 1) as nat) + fan(sources[m - 1], destinations)
    }
}

/// The atomic wires the first `m` connections of `def` stand for.
pub open spec fn cross_wires(def: GraphDefinition, children: Map<Seq<char>, Boundary>, m: nat) -> Seq<Wire>
    decreases m,
{
    if m == 0 || m > def.connections@.len() {
        Seq::empty()
    } else {
        let rest = cross_wires(def, children, (m - 1) as nat);
        let c = def.connections@[m - 1];
        let s = c.source;
        let d = c.destination;
        if children.contains_key(s.node.0@) && children[s.node.0@].outputs.contains_key(s.port@)
            && children.contains_key(d.node.0@) && children[d.node.0@].inputs.contains_key(d.port@) {
            let sources = children[s.node.0@].outputs[s.port@];
            rest + cross(sources, children[d.node.0@].inputs[d.port@], sources.len())
        } else {
            rest
        }
    }
}

/// The boundary of a primitive from its first `m` resolved ports, each
/// public port naming itself on the primitive's own (empty-id) node.
pub open spec fn atomic_boundary(ports: Seq<ResolvedPort>, m: nat) -> Boundary
    decreases m,
{
    if m == 0 || m > ports.len() {
        Boundary { inputs: Map::empty(), outputs: Map::empty() }
    } else {
        let rest = atomic_boundary(ports, (m - 1) as nat);
        let port = ports[m - 1];
        let own = seq![PortPlace { node: Seq::empty(), port: port.name@ }];
        match port.direction {
            PortDirection::Input => Boundary { inputs: rest.inputs.insert(port.name@, own), ..rest },
            PortDirection::Output => Boundary { outputs: rest.outputs.insert(port.name@, own), ..rest },
        }
    }
}

/// The declared defaults of the first `m` control inputs among `ports`.
pub open spec fn declared_defaults(ports: Seq<ResolvedPort>, m: nat) -> Map<Seq<char>, u64>
    decreases m,
{
    if m == 0 || m > ports.len() {
        Map::empty()
    } else {
        let rest = declared_defaults(ports, (m - 1) as nat);
        let port = ports[m - 1];
        if port.direction == PortDirection::Input && port.signal_type == SignalType::Control {
            match port.control_default {
                Some(control) => rest.insert(port.name@, control.default_bits),
                None => rest,
            }
        } else {
            rest
        }
    }
}

/// The latency `latency` resolves to against static arguments `args`.
pub open spec fn latency_for(latency: LatencySpec, args: Map<Seq<char>, StaticValue>) -> u32 {
    match latency {
        LatencySpec::Zero => 0,
        LatencySpec::Samples(samples) => samples,
        LatencySpec::StaticParam { name, minus } => match map_get(args, name@) {
            Some(StaticValue::Int(value)) => if value >= 0 && (value as u32) >= minus {
                ((value as u32) - minus) as u32
            } else {
                0
            },
            _ => 0,
        },
    }
}

/// The expansion of a primitive: one node with an empty relative id.
pub open spec fn atomic_blueprint(def: GraphDefinition, args: Map<Seq<char>, StaticValue>) -> Blueprint {
    let ports = resolved_ports(def, args);
    Blueprint {
        nodes: seq![
            AtomPlan {
                id: Seq::empty(),
                definition: def.name@,
                static_args: args,
                port_defaults: declared_defaults(ports, ports.len()),
                ports,
                latency: latency_for(def.latency, args),
            },
        ],
        wires: Seq::empty(),
        boundary: atomic_boundary(ports, ports.len()),
    }
}

/// The cache-key text of a static value.
pub open spec fn value_text(value: StaticValue) -> Seq<char> {
    match value {
        StaticValue::Int(n) => signed_text(n as int),
        StaticValue::Enum(text) => "enum:"@ + text@,
        StaticValue::Resource(text) => "res:"@ + text@,
    }
}

/// A definition name followed by `|name=value` for each of `args`.
pub open spec fn key_text(name: Seq<char>, args: Seq<(Seq<char>, StaticValue)>) -> Seq<char>
    decreases args.len(),
{
    if args.len() == 0 {
        name
    } else {
        key_text(name, args.drop_last()) + "|"@ + args.last().0 + "="@ + value_text(args.last().1)
    }
}

/// The entries of `args` in ascending name order.
pub open spec fn in_name_order(args: Map<Seq<char>, StaticValue>) -> Seq<(Seq<char>, StaticValue)> {
    choose|p: Seq<(Seq<char>, StaticValue)>|
        ascending(pair_names(p)) && forall|k: Seq<char>| #[trigger] lookup_pairs(p, k) == map_get(args, k)
}

/// The key an expansion of `name` with `args` is cached under.
pub open spec fn cache_key(name: Seq<char>, args: Map<Seq<char>, StaticValue>) -> Seq<char> {
    key_text(name, in_name_order(args))
}

/// The nesting budget left at `depth`.
pub open spec fn budget(depth: nat) -> nat {
    if depth <= MAX_FLATTEN_DEPTH + 1 {
        (MAX_FLATTEN_DEPTH + 2 - depth) as nat
    } else {
        0
    }
}

/// Expanding `def` with static arguments `args` at nesting `depth`: the state
/// after it, and the cache key of the expansion when it succeeds.
pub open spec fn expand(
    registry: DefinitionRegistry,
    x: Expansion,
    def: GraphDefinition,
    args: Map<Seq<char>, StaticValue>,
    depth: nat,
) -> (Expansion, Option<Seq<char>>)
    decreases budget(depth), 1nat, 0nat,
{
    let key = cache_key(def.name@, args);
    if x.cache.contains_key(key) {
        (x, Some(key))
    } else {
        let x1 = if x.checked.contains(def.name@) {
            x
        } else {
            Expansion { checked: x.checked.push(def.name@), findings: x.findings + reference_findings(def), ..x }
        };
        if def.nodes@.len() == 0 {
            (Expansion { count: x1.count + 1, cache: x1.cache.insert(key, atomic_blueprint(def, args)), ..x1 }, Some(key))
        } else if depth > MAX_FLATTEN_DEPTH {
            (Expansion { findings: x1.findings.push((ErrorCode::KernelMaxDepthExceeded, None, None, None, None, None)), ..x1 }, None)
        } else if x1.path.contains(def.name@) {
            (Expansion { findings: x1.findings.push((ErrorCode::KernelRecursiveDefinition, None, None, None, None, None)), ..x1 }, None)
        } else {
            let x2 = Expansion { count: x1.count + 1, path: x1.path.push(def.name@), ..x1 };
            let (x3, assembly) = assemble(registry, x2, def, args, depth, def.nodes@.len());
            let blueprint = Blueprint {
                nodes: assembly.nodes,
                wires: assembly.wires + cross_wires(def, assembly.children, def.connections@.len() as nat),
                boundary: composed(def, assembly.children, def.ports@.len() as nat),
            };
            (Expansion { path: x3.path.drop_last(), cache: x3.cache.insert(key, blueprint), ..x3 }, Some(key))
        }
    }
}

/// Expanding the first `i` nodes of composite `def` (with static arguments
/// `args`, at nesting `depth`): the state after it and what they contribute.
pub open spec fn assemble(
    registry: DefinitionRegistry,
    x: Expansion,
    def: GraphDefinition,
    args: Map<Seq<char>, StaticValue>,
    depth: nat,
    i: nat,
) -> (Expansion, Assembly)
    decreases budget(depth), 0nat, i,
{
    if i == 0 || i > def.nodes@.len() || depth > MAX_FLATTEN_DEPTH {
        (x, Assembly { nodes: Seq::empty(), wires: Seq::empty(), children: Map::empty() })
    } else {
        let (x0, acc) = assemble(registry, x, def, args, depth, (i - 1) as nat);
        let node = def.nodes@[i - 1];
        match registry.lookup(node.definition_ref@) {
            None => (Expansion { findings: x0.findings.push(about(ErrorCode::KernelUnknownDefinition, node.id.0@)), ..x0 }, acc),
            Some(referenced) => {
                let resolution = resolution_findings(node, referenced, args);
                if resolution.len() > 0 {
                    (Expansion { findings: x0.findings + resolution, ..x0 }, acc)
                } else {
                    let child_args = arguments_of(node, referenced, args);
                    let values = value_findings(referenced, child_args);
                    if values.len() > 0 {
                        (Expansion { findings: x0.findings + values, ..x0 }, acc)
                    } else {
                        let (x1, found) = expand(registry, x0, referenced, child_args, depth + 1);
                        match found {
                            None => (x1, acc),
                            Some(key) => {
                                let child = instantiated(x1.cache[key], node.id.0@);
                                let nodes = overridden(
                                    node,
                                    child.boundary,
                                    child.nodes,
                                    node.port_default_overrides.pairs().len() as nat,
                                );
                                (
                                    x1,
                                    Assembly {
                                        nodes: acc.nodes + nodes,
                                        wires: acc.wires + child.wires,
                                        children: acc.children.insert(node.id.0@, child.boundary),
                                    },
                                )
                            },
                        }
                    }
                }
            },
        }
    }
}

/// The atomic output ports the first `m` output ports of the root gather
/// from, in port order.
pub open spec fn root_sources(def: GraphDefinition, boundary: Boundary, m: nat) -> Seq<PortPlace>
    decreases m,
{
    if m == 0 || m > def.ports@.len() {
        Seq::empty()
    } else {
        let rest = root_sources(def, boundary, (m - 1) as nat);
        let port = def.ports@[m - 1];
        if port.direction == PortDirection::Output && boundary.outputs.contains_key(port.name@) {
            rest + boundary.outputs[port.name@]
        } else {
            rest
        }
    }
}

/// The port named `place.port` with direction `direction` on the first
/// atomic node of `nodes` whose id is `place.node`.
pub open spec fn atomic_port(nodes: Seq<AtomPlan>, place: PortPlace, direction: PortDirection) -> Option<ResolvedPort> {
    let i = plan_position(nodes, place.node);
    if i < nodes.len() {
        port_matching(nodes[i].ports, place.port, direction)
    } else {
        None
    }
}

/// The width of the promotion `wire` needs among `nodes`: the destination's
/// channel count when the wire runs from a control output to an audio input.
pub open spec fn promotion_width(nodes: Seq<AtomPlan>, wire: Wire) -> Option<u32> {
    match atomic_port(nodes, wire.source, PortDirection::Output) {
        Some(source) => match atomic_port(nodes, wire.destination, PortDirection::Input) {
            Some(destination) => if source.signal_type == SignalType::Control && destination.signal_type
                == SignalType::Audio {
                Some(destination.channels)
            } else {
                None
            },
            None => None,
        },
        None => None,
    }
}

/// The wires among the first `m` of `wires` that need a promotion, each with
/// its width, in order.
pub open spec fn promotions_among(nodes: Seq<AtomPlan>, wires: Seq<Wire>, m: nat) -> Seq<(Wire, u32)>
    decreases m,
{
    if m == 0 || m > wires.len() {
        Seq::empty()
    } else {
        let rest = promotions_among(nodes, wires, (m - 1) as nat);
        match promotion_width(nodes, wires[m - 1]) {
            Some(channels) => rest.push((wires[m - 1], channels)),
            None => rest,
        }
    }
}

/// The id of the `k`-th promotion node.
pub open spec fn promotion_id(k: nat) -> Seq<char> {
    PROMOTION_NODE_PREFIX@ + NAMESPACE_SEPARATOR@ + decimal_text(k)
}

/// The first `m` of `wires`, each one that needs a promotion routed through
/// its promotion node instead.
pub open spec fn promoted_wires(nodes: Seq<AtomPlan>, wires: Seq<Wire>, m: nat) -> Seq<Wire>
    decreases m,
{
    if m == 0 || m > wires.len() {
        Seq::empty()
    } else {
        let rest = promoted_wires(nodes, wires, (m - 1) as nat);
        let wire = wires[m - 1];
        match promotion_width(nodes, wire) {
            Some(_) => {
                let id = promotion_id(promotions_among(nodes, wires, (m - 1) as nat).len());
                rest.push(Wire { source: wire.source, destination: PortPlace { node: id, port: PROMOTION_INPUT_PORT@ } }).push(
                    Wire { source: PortPlace { node: id, port: PROMOTION_OUTPUT_PORT@ }, destination: wire.destination },
                )
            },
            None => rest.push(wire),
        }
    }
}

/// A promotion step as the promoted wire and its width.
pub open spec fn step_of(step: PromotionStep) -> (Wire, u32) {
    (Wire { source: place_of(step.source), destination: place_of(step.destination) }, step.channels)
}

pub open spec fn steps_of(steps: Seq<PromotionStep>) -> Seq<(Wire, u32)> {
    steps.map_values(|step: PromotionStep| step_of(step))
}

/// A resolved port with its name as text.
#[verifier::ext_equal]
pub struct PortView {
    pub name: Seq<char>,
    pub direction: PortDirection,
    pub signal_type: SignalType,
    pub channels: u32,
    pub control_default: Option<ControlDefault>,
    pub multiplicity: Multiplicity,
}

/// An atomic node with its ports' names as text.
#[verifier::ext_equal]
pub struct AtomView {
    pub id: Seq<char>,
    pub definition: Seq<char>,
    pub static_args: Map<Seq<char>, StaticValue>,
    pub port_defaults: Map<Seq<char>, u64>,
    pub ports: Seq<PortView>,
    pub latency: u32,
}

pub open spec fn port_view(port: ResolvedPort) -> PortView {
    PortView {
        name: port.name@,
        direction: port.direction,
        signal_type: port.signal_type,
        channels: port.channels,
        control_default: port.control_default,
        multiplicity: port.multiplicity,
    }
}

pub open spec fn atom_view(plan: AtomPlan) -> AtomView {
    AtomView {
        id: plan.id,
        definition: plan.definition,
        static_args: plan.static_args,
        port_defaults: plan.port_defaults,
        ports: plan.ports.map_values(|port: ResolvedPort| port_view(port)),
        latency: plan.latency,
    }
}

/// The `k`-th promotion node, of width `channels`: a `control_to_audio`
/// primitive with a control input and an audio output of that width, no
/// control defaults and no latency.
pub open spec fn promotion_view(k: nat, channels: u32) -> AtomView {
    AtomView {
        id: promotion_id(k),
        definition: CONTROL_TO_AUDIO_DEFINITION@,
        static_args: Map::empty().insert("channels"@, StaticValue::Int(channels as i64)),
        port_defaults: Map::empty(),
        ports: seq![
            PortView {
                name: PROMOTION_INPUT_PORT@,
                direction: PortDirection::Input,
                signal_type: SignalType::Control,
                channels,
                control_default: None,
                multiplicity: Multiplicity::SingleSource,
            },
            PortView {
                name: PROMOTION_OUTPUT_PORT@,
                direction: PortDirection::Output,
                signal_type: SignalType::Audio,
                channels,
                control_default: None,
                multiplicity: Multiplicity::SingleSource,
            },
        ],
        latency: 0,
    }
}

/// The state before flattening starts.
pub open spec fn fresh() -> Expansion {
    Expansion { cache: Map::empty(), checked: Seq::empty(), count: 0, path: Seq::empty(), findings: Seq::empty() }
}

/// Flattening `def` as the root, with its declared defaults as its static
/// arguments.
pub open spec fn flattening(def: GraphDefinition, registry: DefinitionRegistry) -> (Expansion, Option<Seq<char>>) {
    expand(registry, fresh(), def, context_of(def), 0)
}

/// `g` is the flattening of `def`: the root expansion instantiated at the
/// root, with a promotion node inserted on each connection from a control
/// output to an audio input; the root's resolved public ports; the atomic
/// ports its outputs gather from; and the number of expansions made.
pub open spec fn flattened_from(g: FlattenedGraph, def: GraphDefinition, registry: DefinitionRegistry) -> bool {
    let (x, key) = flattening(def, registry);
    let base = instantiated(x.cache[key->0], Seq::empty());
    let promotions = promotions_among(base.nodes, base.wires, base.wires.len() as nat);
    &&& key is Some
    &&& x.cache.contains_key(key->0)
    &&& g.nodes@.len() == base.nodes.len() + promotions.len()
    &&& plans_of(g.nodes@.take(base.nodes.len() as int)) == base.nodes
    &&& forall|i: int|
        base.nodes.len() <= i < g.nodes@.len() ==> atom_view(plan_of(#[trigger] g.nodes@[i])) == promotion_view(
            (i - base.nodes.len()) as nat,
            promotions[i - base.nodes.len()].1,
        )
    &&& wires_of(g.connections@) == promoted_wires(base.nodes, base.wires, base.wires.len() as nat)
    &&& steps_of(g.promotions@) == promotions
    &&& g.root_ports@ == resolved_ports(def, context_of(def))
    &&& places_of(g.root_output_sources@) == root_sources(def, base.boundary, def.ports@.len() as nat)
    &&& g.expansion_count == x.count
}

// ---------------------------------------------------------------------------
// Executable pieces of flattening
// ---------------------------------------------------------------------------

/// The ports of an expanded subtree by public port name: the atomic ports
/// each public input forwards to and each public output gathers from.
#[derive(Debug)]
pub struct Interface {
    pub inputs: NameMap<Vec<PortRef>>,
    pub outputs: NameMap<Vec<PortRef>>,
}

/// A cached expansion of one definition, with node ids and port references
/// relative to the definition's own frame.
#[derive(Debug)]
pub struct Template {
    pub nodes: Vec<AtomicNode>,
    pub connections: Vec<Connection>,
    pub interface: Interface,
}

pub open spec fn boundary_of(interface: Interface) -> Boundary {
    Boundary { inputs: wiring_of(interface.inputs), outputs: wiring_of(interface.outputs) }
}

pub open spec fn blueprint_of(template: Template) -> Blueprint {
    Blueprint {
        nodes: plans_of(template.nodes@),
        wires: wires_of(template.connections@),
        boundary: boundary_of(template.interface),
    }
}

/// `true` when some of the first `i` entries of `m` is named `k`.
pub open spec fn among_first<V>(m: NameMap<V>, k: Seq<char>, i: int) -> bool {
    exists|j: int| 0 <= j < i && #[trigger] m.pairs()[j].0 == k
}

/// The lookups of a copy built from the first `i` entries of `m`.
proof fn lemma_entry_lookup<V>(m: NameMap<V>, i: int)
    requires
        m.wf(),
        0 <= i < m.pairs().len(),
    ensures
        m.lookup(m.pairs()[i].0) == Some(m.pairs()[i].1),
{
    m.lemma_distinct();
    crate::name_map::lemma_lookup_at(m.pairs(), i);
}

/// A copy of static arguments.
fn copy_args(m: &NameMap<StaticValue>) -> (copy: NameMap<StaticValue>)
    ensures
        map_of(copy) == map_of(*m),
{
    m.assert_wf();
    let mut copy: NameMap<StaticValue> = NameMap::new();
    let mut i: usize = 0;
    while i < m.len()
        invariant
            m.wf(),
            i <= m.pairs().len(),
            forall|k: Seq<char>|
                #[trigger] copy.lookup(k) == if among_first(*m, k, i as int) {
                    m.lookup(k)
                } else {
                    None
                },
        decreases m.pairs().len() - i,
    {
        let ghost before = copy;
        proof {
            lemma_entry_lookup(*m, i as int);
        }
        copy.insert(m.name_at(i), m.value_at(i).clone());
        proof {
            assert forall|k: Seq<char>|
                #[trigger] copy.lookup(k) == if among_first(*m, k, i + 1) {
                    m.lookup(k)
                } else {
                    None
                } by {
                if k != m.pairs()[i as int].0 {
                    assert(copy.lookup(k) == before.lookup(k));
                    if among_first(*m, k, i + 1) {
                        let j = choose|j: int| 0 <= j < i + 1 && #[trigger] m.pairs()[j].0 == k;
                        assert(among_first(*m, k, i as int));
                    }
                } else {
                    assert(m.pairs()[i as int].0 == k);
                }
            }
        }
        i = i + 1;
    }
    proof {
        assert(map_of(copy) =~= map_of(*m)) by {
            assert forall|k: Seq<char>| copy.lookup(k) == m.lookup(k) by {
                if !among_first(*m, k, m.pairs().len() as int) {
                    assert(forall|j: int| 0 <= j < m.pairs().len() ==> m.pairs()[j].0 != k);
                }
            }
        }
    }
    copy
}

/// A copy of control defaults.
fn copy_defaults(m: &NameMap<u64>) -> (copy: NameMap<u64>)
    ensures
        map_of(copy) == map_of(*m),
{
    m.assert_wf();
    let mut copy: NameMap<u64> = NameMap::new();
    let mut i: usize = 0;
    while i < m.len()
        invariant
            m.wf(),
            i <= m.pairs().len(),
            forall|k: Seq<char>|
                #[trigger] copy.lookup(k) == if among_first(*m, k, i as int) {
                    m.lookup(k)
                } else {
                    None
                },
        decreases m.pairs().len() - i,
    {
        let ghost before = copy;
        proof {
            lemma_entry_lookup(*m, i as int);
        }
        copy.insert(m.name_at(i), *m.value_at(i));
        proof {
            assert forall|k: Seq<char>|
                #[trigger] copy.lookup(k) == if among_first(*m, k, i + 1) {
                    m.lookup(k)
                } else {
                    None
                } by {
                if k != m.pairs()[i as int].0 {
                    assert(copy.lookup(k) == before.lookup(k));
                    if among_first(*m, k, i + 1) {
                        let j = choose|j: int| 0 <= j < i + 1 && #[trigger] m.pairs()[j].0 == k;
                        assert(among_first(*m, k, i as int));
                    }
                } else {
                    assert(m.pairs()[i as int].0 == k);
                }
            }
        }
        i = i + 1;
    }
    proof {
        assert(map_of(copy) =~= map_of(*m)) by {
            assert forall|k: Seq<char>| copy.lookup(k) == m.lookup(k) by {
                if !among_first(*m, k, m.pairs().len() as int) {
                    assert(forall|j: int| 0 <= j < m.pairs().len() ==> m.pairs()[j].0 != k);
                }
            }
        }
    }
    copy
}

/// `relative` beneath the instance path `prefix`.
fn namespaced_id(prefix: &str, relative: &str) -> (id: String)
    ensures
        id@ == namespaced(prefix@, relative@),
{
    if relative.unicode_len() == 0 {
        String::from_str(prefix)
    } else if prefix.unicode_len() == 0 {
        String::from_str(relative)
    } else {
        concat3(prefix, NAMESPACE_SEPARATOR, relative)
    }
}

/// `reference` beneath the instance path `prefix`.
fn renamespace(reference: &PortRef, prefix: &str) -> (moved_ref: PortRef)
    ensures
        place_of(moved_ref) == moved(place_of(*reference), prefix@),
{
    PortRef { node: NodeId(namespaced_id(prefix, reference.node.as_str())), port: reference.port.clone() }
}

/// Every reference of `references` beneath the instance path `prefix`.
fn renamespace_all(references: &Vec<PortRef>, prefix: &str) -> (moved_refs: Vec<PortRef>)
    ensures
        places_of(moved_refs@) == moved_all(places_of(references@), prefix@),
{
    let mut out: Vec<PortRef> = Vec::new();
    let mut i: usize = 0;
    while i < references.len()
        invariant
            i <= references@.len(),
            places_of(out@) == moved_all(places_of(references@), prefix@).take(i as int),
        decreases references@.len() - i,
    {
        let ghost before = out@;
        let moved_ref = renamespace(&references[i], prefix);
        out.push(moved_ref);
        proof {
            assert(places_of(out@) =~= places_of(before).push(place_of(moved_ref)));
            assert(places_of(out@) =~= moved_all(places_of(references@), prefix@).take(i + 1));
        }
        i = i + 1;
    }
    proof {
        assert(moved_all(places_of(references@), prefix@).take(references@.len() as int) =~= moved_all(
            places_of(references@),
            prefix@,
        ));
    }
    out
}

/// Every port list of `m` beneath the instance path `prefix`.
fn renamespace_map(m: &NameMap<Vec<PortRef>>, prefix: &str) -> (moved_map: NameMap<Vec<PortRef>>)
    ensures
        wiring_of(moved_map) == wiring_of(*m).map_values(|ps: Seq<PortPlace>| moved_all(ps, prefix@)),
{
    m.assert_wf();
    let mut out: NameMap<Vec<PortRef>> = NameMap::new();
    let mut i: usize = 0;
    while i < m.len()
        invariant
            m.wf(),
            i <= m.pairs().len(),
            forall|k: Seq<char>|
                (#[trigger] out.lookup(k) is Some <==> among_first(*m, k, i as int)) && (out.lookup(k) is Some
                    ==> places_of(out.lookup(k)->0@) == moved_all(places_of(m.lookup(k)->0@), prefix@)),
        decreases m.pairs().len() - i,
    {
        let ghost before = out;
        proof {
            lemma_entry_lookup(*m, i as int);
        }
        out.insert(m.name_at(i), renamespace_all(m.value_at(i), prefix));
        proof {
            assert forall|k: Seq<char>|
                (#[trigger] out.lookup(k) is Some <==> among_first(*m, k, i + 1)) && (out.lookup(k) is Some
                    ==> places_of(out.lookup(k)->0@) == moved_all(places_of(m.lookup(k)->0@), prefix@)) by {
                if k != m.pairs()[i as int].0 {
                    assert(out.lookup(k) == before.lookup(k));
                    if among_first(*m, k, i + 1) {
                        let j = choose|j: int| 0 <= j < i + 1 && #[trigger] m.pairs()[j].0 == k;
                        assert(among_first(*m, k, i as int));
                    }
                } else {
                    assert(m.pairs()[i as int].0 == k);
                }
            }
        }
        i = i + 1;
    }
    proof {
        assert forall|k: Seq<char>| #[trigger] m.lookup(k) is Some <==> among_first(*m, k, m.pairs().len() as int) by {
            if among_first(*m, k, m.pairs().len() as int) {
                let j = choose|j: int| 0 <= j < m.pairs().len() && #[trigger] m.pairs()[j].0 == k;
                lemma_entry_lookup(*m, j);
            }
        }
        assert(wiring_of(out) =~= wiring_of(*m).map_values(|ps: Seq<PortPlace>| moved_all(ps, prefix@)));
    }
    out
}

/// A copy of `ports`.
fn copy_ports(ports: &Vec<ResolvedPort>) -> (copy: Vec<ResolvedPort>)
    ensures
        copy@ == ports@,
{
    let mut copy: Vec<ResolvedPort> = Vec::new();
    let mut i: usize = 0;
    while i < ports.len()
        invariant
            i <= ports@.len(),
            copy@ == ports@.take(i as int),
        decreases ports@.len() - i,
    {
        copy.push(ports[i].clone());
        proof {
            assert(copy@ =~= ports@.take(i + 1));
        }
        i = i + 1;
    }
    proof {
        assert(ports@.take(ports@.len() as int) =~= ports@);
    }
    copy
}

/// The nodes, connections and interface of `template` re-namespaced beneath
/// the instance path `prefix`.
fn instantiate(template: &Template, prefix: &str) -> (instance: (Vec<AtomicNode>, Vec<Connection>, Interface))
    ensures
        plans_of(instance.0@) == instantiated(blueprint_of(*template), prefix@).nodes,
        wires_of(instance.1@) == instantiated(blueprint_of(*template), prefix@).wires,
        boundary_of(instance.2) == instantiated(blueprint_of(*template), prefix@).boundary,
{
    let ghost target = instantiated(blueprint_of(*template), prefix@);
    let mut nodes: Vec<AtomicNode> = Vec::new();
    let mut i: usize = 0;
    while i < template.nodes.len()
        invariant
            i <= template.nodes@.len(),
            target == instantiated(blueprint_of(*template), prefix@),
            plans_of(nodes@) == target.nodes.take(i as int),
        decreases template.nodes@.len() - i,
    {
        let node = &template.nodes[i];
        let copy = AtomicNode {
            id: NodeId(namespaced_id(prefix, node.id.as_str())),
            definition: node.definition.clone(),
            static_args: copy_args(&node.static_args),
            port_defaults: copy_defaults(&node.port_defaults),
            ports: copy_ports(&node.ports),
            latency: node.latency,
        };
        let ghost before = nodes@;
        nodes.push(copy);
        proof {
            assert(plans_of(nodes@) =~= plans_of(before).push(plan_of(copy)));
            assert(plan_of(copy) =~= target.nodes[i as int]);
            assert(plans_of(nodes@) =~= target.nodes.take(i + 1));
        }
        i = i + 1;
    }
    let mut connections: Vec<Connection> = Vec::new();
    let mut c: usize = 0;
    while c < template.connections.len()
        invariant
            c <= template.connections@.len(),
            target == instantiated(blueprint_of(*template), prefix@),
            wires_of(connections@) == target.wires.take(c as int),
        decreases template.connections@.len() - c,
    {
        let connection = &template.connections[c];
        let copy = Connection {
            source: renamespace(&connection.source, prefix),
            destination: renamespace(&connection.destination, prefix),
        };
        let ghost before = connections@;
        connections.push(copy);
        proof {
            assert(wires_of(connections@) =~= wires_of(before).push(wire_of(copy)));
            assert(wires_of(connections@) =~= target.wires.take(c + 1));
        }
        c = c + 1;
    }
    let interface = Interface {
        inputs: renamespace_map(&template.interface.inputs, prefix),
        outputs: renamespace_map(&template.interface.outputs, prefix),
    };
    proof {
        assert(target.nodes.take(template.nodes@.len() as int) =~= target.nodes);
        assert(target.wires.take(template.connections@.len() as int) =~= target.wires);
        assert(boundary_of(interface) =~= target.boundary);
    }
    (nodes, connections, interface)
}

proof fn lemma_plan_position(nodes: Seq<AtomicNode>, id: Seq<char>, i: int)
    requires
        0 <= i <= nodes.len(),
        forall|j: int| 0 <= j < i ==> nodes[j].id.0@ != id,
        i == nodes.len() || nodes[i].id.0@ == id,
    ensures
        plan_position(plans_of(nodes), id) == i,
    decreases nodes.len(),
{
    if nodes.len() > 0 && nodes[0].id.0@ != id {
        let t = nodes.drop_first();
        assert(plans_of(nodes).drop_first() =~= plans_of(t));
        assert forall|j: int| 0 <= j < i - 1 implies t[j].id.0@ != id by {
            assert(t[j] == nodes[j + 1]);
        }
        if i < nodes.len() {
            assert(t[i - 1] == nodes[i]);
        }
        lemma_plan_position(t, id, i - 1);
    }
}

/// The position of the first node of `nodes` with id `id`.
fn node_index(nodes: &Vec<AtomicNode>, id: &str) -> (index: usize)
    ensures
        index == plan_position(plans_of(nodes@), id@),
        index <= nodes@.len(),
{
    let mut i: usize = 0;
    while i < nodes.len()
        invariant
            i <= nodes@.len(),
            forall|j: int| 0 <= j < i ==> nodes@[j].id.0@ != id@,
        decreases nodes@.len() - i,
    {
        if str_eq(nodes[i].id.as_str(), id) {
            proof {
                lemma_plan_position(nodes@, id@, i as int);
            }
            return i;
        }
        i = i + 1;
    }
    proof {
        lemma_plan_position(nodes@, id@, i as int);
    }
    i
}

/// Applies the control-default overrides of `node` to the atomic nodes its
/// public inputs forward to; overrides of ports the interface lacks are
/// ignored here.
fn apply_overrides(node: &Node, interface: &Interface, nodes: &mut Vec<AtomicNode>)
    ensures
        plans_of(final(nodes)@) == overridden(
            *node,
            boundary_of(*interface),
            plans_of(old(nodes)@),
            node.port_default_overrides.pairs().len() as nat,
        ),
{
    let ghost start = plans_of(nodes@);
    let ghost boundary = boundary_of(*interface);
    let count = node.port_default_overrides.len();
    let mut k: usize = 0;
    while k < count
        invariant
            count == node.port_default_overrides.pairs().len(),
            k <= count,
            boundary == boundary_of(*interface),
            plans_of(nodes@) == overridden(*node, boundary, start, k as nat),
        decreases count - k,
    {
        let name = node.port_default_overrides.name_at(k);
        let value = *node.port_default_overrides.value_at(k);
        match interface.inputs.get(name) {
            None => {},
            Some(targets) => {
                let ghost base = plans_of(nodes@);
                let ghost places = places_of(targets@);
                let mut t: usize = 0;
                while t < targets.len()
                    invariant
                        t <= targets@.len(),
                        places == places_of(targets@),
                        plans_of(nodes@) == override_targets(base, places, value, t as nat),
                    decreases targets@.len() - t,
                {
                    let target = &targets[t];
                    let ghost before = plans_of(nodes@);
                    let p = node_index(nodes, target.node.as_str());
                    if p < nodes.len() {
                        let ghost old_node = nodes@[p as int];
                        nodes[p].port_defaults.insert(target.port.as_str(), value);
                        proof {
                            assert(map_of(nodes@[p as int].port_defaults) =~= map_of(old_node.port_defaults).insert(
                                target.port@,
                                value,
                            ));
                            assert(plans_of(nodes@) =~= before.update(
                                p as int,
                                AtomPlan {
                                    port_defaults: before[p as int].port_defaults.insert(target.port@, value),
                                    ..before[p as int]
                                },
                            ));
                        }
                    }
                    t = t + 1;
                }
            },
        }
        k = k + 1;
    }
}

/// The boundaries of the expanded children, by node id.
pub open spec fn children_of(children: NameMap<Interface>) -> Map<Seq<char>, Boundary> {
    Map::new(|k: Seq<char>| children.lookup(k) is Some, |k: Seq<char>| boundary_of(children.lookup(k)->0))
}

/// Appends copies of `references` to `out`.
fn append_refs(out: &mut Vec<PortRef>, references: &Vec<PortRef>)
    ensures
        places_of(final(out)@) == places_of(old(out)@) + places_of(references@),
{
    let ghost start = places_of(out@);
    let mut i: usize = 0;
    while i < references.len()
        invariant
            i <= references@.len(),
            places_of(out@) == start + places_of(references@).take(i as int),
        decreases references@.len() - i,
    {
        let ghost before = out@;
        let copy = references[i].clone();
        out.push(copy);
        proof {
            assert(places_of(out@) =~= places_of(before).push(place_of(copy)));
            assert(places_of(out@) =~= start + places_of(references@).take(i + 1));
        }
        i = i + 1;
    }
    proof {
        assert(places_of(references@).take(references@.len() as int) =~= places_of(references@));
    }
}

/// The atomic ports behind the internal references of a public port: the
/// children's inputs when `inputs`, their outputs otherwise.
fn gather(references: &Vec<PortRef>, children: &NameMap<Interface>, inputs: bool) -> (found: Vec<PortRef>)
    ensures
        places_of(found@) == gathered(references@, children_of(*children), inputs, references@.len() as nat),
{
    let mut out: Vec<PortRef> = Vec::new();
    let mut i: usize = 0;
    while i < references.len()
        invariant
            i <= references@.len(),
            places_of(out@) == gathered(references@, children_of(*children), inputs, i as nat),
        decreases references@.len() - i,
    {
        let reference = &references[i];
        match children.get(reference.node.as_str()) {
            Some(child) => {
                let side = if inputs {
                    &child.inputs
                } else {
                    &child.outputs
                };
                match side.get(reference.port.as_str()) {
                    Some(list) => {
                        append_refs(&mut out, list);
                    },
                    None => {},
                }
            },
            None => {},
        }
        i = i + 1;
    }
    out
}

/// The interface of a composite: each public input forwards to, and each
/// public output gathers from, the atomic ports behind its internal
/// references.
fn compose_interface(def: &GraphDefinition, children: &NameMap<Interface>) -> (interface: Interface)
    ensures
        boundary_of(interface) == composed(*def, children_of(*children), def.ports@.len() as nat),
{
    let mut inputs: NameMap<Vec<PortRef>> = NameMap::new();
    let mut outputs: NameMap<Vec<PortRef>> = NameMap::new();
    let mut i: usize = 0;
    while i < def.ports.len()
        invariant
            i <= def.ports@.len(),
            wiring_of(inputs) == composed(*def, children_of(*children), i as nat).inputs,
            wiring_of(outputs) == composed(*def, children_of(*children), i as nat).outputs,
        decreases def.ports@.len() - i,
    {
        let port = &def.ports[i];
        let ghost before_inputs = inputs;
        let ghost before_outputs = outputs;
        match port.direction {
            PortDirection::Input => {
                let targets = gather(&port.maps_to, children, true);
                inputs.insert(port.name.as_str(), targets);
                proof {
                    assert(wiring_of(inputs) =~= composed(*def, children_of(*children), (i + 1) as nat).inputs) by {
                        assert forall|k: Seq<char>| k != port.name@ implies inputs.lookup(k) == before_inputs.lookup(k) by {}
                    }
                }
            },
            PortDirection::Output => {
                let sources = gather(&port.maps_from, children, false);
                outputs.insert(port.name.as_str(), sources);
                proof {
                    assert(wiring_of(outputs) =~= composed(*def, children_of(*children), (i + 1) as nat).outputs) by {
                        assert forall|k: Seq<char>| k != port.name@ implies outputs.lookup(k) == before_outputs.lookup(k) by {}
                    }
                }
            },
        }
        i = i + 1;
    }
    Interface { inputs, outputs }
}

/// Appends a connection from each of `sources` to each of `destinations`.
fn wire_across(sources: &Vec<PortRef>, destinations: &Vec<PortRef>, out: &mut Vec<Connection>)
    ensures
        wires_of(final(out)@) == wires_of(old(out)@) + cross(
            places_of(sources@),
            places_of(destinations@),
            sources@.len() as nat,
        ),
{
    let ghost start = wires_of(out@);
    let ghost ss = places_of(sources@);
    let ghost ds = places_of(destinations@);
    let mut i: usize = 0;
    while i < sources.len()
        invariant
            i <= sources@.len(),
            ss == places_of(sources@),
            ds == places_of(destinations@),
            wires_of(out@) == start + cross(ss, ds, i as nat),
        decreases sources@.len() - i,
    {
        let ghost middle = wires_of(out@);
        let mut j: usize = 0;
        while j < destinations.len()
            invariant
                i < sources@.len(),
                j <= destinations@.len(),
                ss == places_of(sources@),
                ds == places_of(destinations@),
                wires_of(out@) == middle + fan(ss[i as int], ds).take(j as int),
            decreases destinations@.len() - j,
        {
            let ghost before = out@;
            let connection = Connection { source: sources[i].clone(), destination: destinations[j].clone() };
            out.push(connection);
            proof {
                assert(wires_of(out@) =~= wires_of(before).push(wire_of(connection)));
                assert(wires_of(out@) =~= middle + fan(ss[i as int], ds).take(j + 1));
            }
            j = j + 1;
        }
        proof {
            assert(fan(ss[i as int], ds).take(destinations@.len() as int) =~= fan(ss[i as int], ds));
            assert(start + cross(ss, ds, i as nat) + fan(ss[i as int], ds) =~= start + cross(ss, ds, (i + 1) as nat));
        }
        i = i + 1;
    }
}

/// The interface of a primitive: each public port names itself on the
/// primitive's own (empty-id) node.
fn atomic_interface(ports: &Vec<ResolvedPort>) -> (interface: Interface)
    ensures
        boundary_of(interface) == atomic_boundary(ports@, ports@.len() as nat),
{
    let mut inputs: NameMap<Vec<PortRef>> = NameMap::new();
    let mut outputs: NameMap<Vec<PortRef>> = NameMap::new();
    let mut i: usize = 0;
    while i < ports.len()
        invariant
            i <= ports@.len(),
            wiring_of(inputs) == atomic_boundary(ports@, i as nat).inputs,
            wiring_of(outputs) == atomic_boundary(ports@, i as nat).outputs,
        decreases ports@.len() - i,
    {
        let port = &ports[i];
        let mut reference: Vec<PortRef> = Vec::new();
        reference.push(PortRef { node: NodeId(String::new()), port: port.name.clone() });
        let ghost own = places_of(reference@);
        proof {
            assert(own =~= seq![PortPlace { node: Seq::empty(), port: port.name@ }]);
        }
        let ghost before_inputs = inputs;
        let ghost before_outputs = outputs;
        match port.direction {
            PortDirection::Input => {
                inputs.insert(port.name.as_str(), reference);
                proof {
                    assert(wiring_of(inputs) =~= atomic_boundary(ports@, (i + 1) as nat).inputs) by {
                        assert forall|k: Seq<char>| k != port.name@ implies inputs.lookup(k) == before_inputs.lookup(k) by {}
                    }
                }
            },
            PortDirection::Output => {
                outputs.insert(port.name.as_str(), reference);
                proof {
                    assert(wiring_of(outputs) =~= atomic_boundary(ports@, (i + 1) as nat).outputs) by {
                        assert forall|k: Seq<char>| k != port.name@ implies outputs.lookup(k) == before_outputs.lookup(k) by {}
                    }
                }
            },
        }
        i = i + 1;
    }
    Interface { inputs, outputs }
}

/// The declared defaults of the control inputs among `ports`.
fn declared_control_defaults(ports: &Vec<ResolvedPort>) -> (defaults: NameMap<u64>)
    ensures
        map_of(defaults) == declared_defaults(ports@, ports@.len() as nat),
{
    let mut defaults: NameMap<u64> = NameMap::new();
    proof {
        assert(map_of(defaults) =~= declared_defaults(ports@, 0));
    }
    let mut i: usize = 0;
    while i < ports.len()
        invariant
            i <= ports@.len(),
            map_of(defaults) == declared_defaults(ports@, i as nat),
        decreases ports@.len() - i,
    {
        let port = &ports[i];
        if port.direction == PortDirection::Input && port.signal_type == SignalType::Control {
            match &port.control_default {
                Some(control) => {
                    let ghost before = defaults;
                    defaults.insert(port.name.as_str(), control.default_bits);
                    proof {
                        assert(map_of(defaults) =~= map_of(before).insert(port.name@, control.default_bits));
                    }
                },
                None => {},
            }
        }
        i = i + 1;
    }
    defaults
}

/// The expansion of a primitive with static arguments `args`.
fn atomic_template(def: &GraphDefinition, args: &NameMap<StaticValue>, Ghost(values): Ghost<Map<Seq<char>, StaticValue>>) -> (template: Template)
    requires
        forall|k: Seq<char>| #[trigger] args.lookup(k) == map_get(values, k),
    ensures
        blueprint_of(template) == atomic_blueprint(*def, values),
{
    let ports = def.resolve_ports(args, Ghost(values));
    let interface = atomic_interface(&ports);
    let port_defaults = declared_control_defaults(&ports);
    let static_args = copy_args(args);
    let latency = def.latency.resolve(args);
    let node = AtomicNode {
        id: NodeId(String::new()),
        definition: def.name.clone(),
        static_args,
        port_defaults,
        ports,
        latency,
    };
    let mut nodes: Vec<AtomicNode> = Vec::new();
    nodes.push(node);
    let template = Template { nodes, connections: Vec::new(), interface };
    proof {
        assert(map_of(*args) =~= values) by {
            assert forall|k: Seq<char>| #[trigger] map_of(*args).dom().contains(k) <==> values.dom().contains(k) by {
                assert(args.lookup(k) == map_get(values, k));
            }
            assert forall|k: Seq<char>| map_of(*args).dom().contains(k) implies #[trigger] map_of(*args)[k] == values[k] by {
                assert(args.lookup(k) == map_get(values, k));
            }
        }
        assert(match def.latency {
            LatencySpec::StaticParam { name, .. } => args.lookup(name@) == map_get(values, name@),
            _ => true,
        });
        assert(plan_of(node) =~= atomic_blueprint(*def, values).nodes[0]);
        assert(blueprint_of(template) =~= atomic_blueprint(*def, values));
    }
    template
}

/// The entries of a name map are its arguments in ascending name order.
proof fn lemma_in_name_order(m: NameMap<StaticValue>, values: Map<Seq<char>, StaticValue>)
    requires
        m.wf(),
        forall|k: Seq<char>| #[trigger] m.lookup(k) == map_get(values, k),
    ensures
        m.pairs() == in_name_order(values),
{
    m.lemma_ascending();
    assert forall|k: Seq<char>| #[trigger] lookup_pairs(m.pairs(), k) == map_get(values, k) by {
        assert(m.lookup(k) == map_get(values, k));
    }
    let p = in_name_order(values);
    lemma_sorted_pairs_unique(p, m.pairs());
}

/// The cache key of an expansion of `name` with static arguments `args`.
fn cache_key_text(name: &str, args: &NameMap<StaticValue>) -> (key: String)
    ensures
        key@ == key_text(name@, args.pairs()),
{
    let mut key = String::from_str(name);
    let mut i: usize = 0;
    proof {
        assert(args.pairs().take(0) =~= Seq::<(Seq<char>, StaticValue)>::empty());
    }
    while i < args.len()
        invariant
            i <= args.pairs().len(),
            key@ == key_text(name@, args.pairs().take(i as int)),
        decreases args.pairs().len() - i,
    {
        key.append("|");
        key.append(args.name_at(i));
        key.append("=");
        match args.value_at(i) {
            StaticValue::Int(number) => {
                key.append(signed_decimal(*number).as_str());
            },
            StaticValue::Enum(text) => {
                key.append("enum:");
                key.append(text.as_str());
            },
            StaticValue::Resource(text) => {
                key.append("res:");
                key.append(text.as_str());
            },
        }
        proof {
            let taken = args.pairs().take(i + 1);
            assert(taken.drop_last() =~= args.pairs().take(i as int));
            assert(taken.last() == args.pairs()[i as int]);
        }
        i = i + 1;
    }
    proof {
        assert(args.pairs().take(args.pairs().len() as int) =~= args.pairs());
    }
    key
}

proof fn lemma_expand_shape(
    registry: DefinitionRegistry,
    x: Expansion,
    def: GraphDefinition,
    args: Map<Seq<char>, StaticValue>,
    depth: nat,
)
    ensures
        expand(registry, x, def, args, depth).0.count >= x.count,
        expand(registry, x, def, args, depth).0.path == x.path,
        expand(registry, x, def, args, depth).0.findings.len() >= x.findings.len(),
        expand(registry, x, def, args, depth).1 is None ==> expand(registry, x, def, args, depth).0.findings.len()
            > x.findings.len(),
        expand(registry, x, def, args, depth).1 matches Some(k) ==> expand(
            registry,
            x,
            def,
            args,
            depth,
        ).0.cache.contains_key(k),
    decreases budget(depth), 1nat, 0nat,
{
    let key = cache_key(def.name@, args);
    if !x.cache.contains_key(key) {
        let x1 = if x.checked.contains(def.name@) {
            x
        } else {
            Expansion { checked: x.checked.push(def.name@), findings: x.findings + reference_findings(def), ..x }
        };
        if def.nodes@.len() != 0 && depth <= MAX_FLATTEN_DEPTH && !x1.path.contains(def.name@) {
            let x2 = Expansion { count: x1.count + 1, path: x1.path.push(def.name@), ..x1 };
            lemma_assemble_shape(registry, x2, def, args, depth, def.nodes@.len());
            let x3 = assemble(registry, x2, def, args, depth, def.nodes@.len()).0;
            assert(x3.path.drop_last() =~= x.path);
        }
    }
}

proof fn lemma_assemble_shape(
    registry: DefinitionRegistry,
    x: Expansion,
    def: GraphDefinition,
    args: Map<Seq<char>, StaticValue>,
    depth: nat,
    i: nat,
)
    ensures
        assemble(registry, x, def, args, depth, i).0.count >= x.count,
        assemble(registry, x, def, args, depth, i).0.path == x.path,
        assemble(registry, x, def, args, depth, i).0.findings.len() >= x.findings.len(),
    decreases budget(depth), 0nat, i,
{
    if !(i == 0 || i > def.nodes@.len() || depth > MAX_FLATTEN_DEPTH) {
        lemma_assemble_shape(registry, x, def, args, depth, (i - 1) as nat);
        let x0 = assemble(registry, x, def, args, depth, (i - 1) as nat).0;
        let node = def.nodes@[i - 1];
        match registry.lookup(node.definition_ref@) {
            None => {},
            Some(referenced) => {
                let resolution = resolution_findings(node, referenced, args);
                if resolution.len() == 0 {
                    let child_args = arguments_of(node, referenced, args);
                    if value_findings(referenced, child_args).len() == 0 {
                        lemma_expand_shape(registry, x0, referenced, child_args, depth + 1);
                    }
                }
            },
        }
    }
}

proof fn lemma_assemble_grows(
    registry: DefinitionRegistry,
    x: Expansion,
    def: GraphDefinition,
    args: Map<Seq<char>, StaticValue>,
    depth: nat,
    i: nat,
    j: nat,
)
    requires
        i <= j <= def.nodes@.len(),
    ensures
        assemble(registry, x, def, args, depth, i).0.count <= assemble(registry, x, def, args, depth, j).0.count,
    decreases j - i,
{
    if i < j && depth <= MAX_FLATTEN_DEPTH {
        lemma_assemble_grows(registry, x, def, args, depth, i, (j - 1) as nat);
        let x0 = assemble(registry, x, def, args, depth, (j - 1) as nat).0;
        let node = def.nodes@[j - 1];
        match registry.lookup(node.definition_ref@) {
            None => {},
            Some(referenced) => {
                let resolution = resolution_findings(node, referenced, args);
                if resolution.len() == 0 {
                    let child_args = arguments_of(node, referenced, args);
                    if value_findings(referenced, child_args).len() == 0 {
                        lemma_expand_shape(registry, x0, referenced, child_args, depth + 1);
                    }
                }
            },
        }
    }
}

/// The cached expansions by key.
pub open spec fn cache_view(cache: NameMap<Template>) -> Map<Seq<char>, Blueprint> {
    Map::new(|k: Seq<char>| cache.lookup(k) is Some, |k: Seq<char>| blueprint_of(cache.lookup(k)->0))
}

/// The expansion state the executable state stands for.
pub open spec fn state_of(
    cache: NameMap<Template>,
    checked: Seq<String>,
    count: usize,
    path: Seq<String>,
    diagnostics: Seq<Diagnostic>,
) -> Expansion {
    Expansion {
        cache: cache_view(cache),
        checked: texts_of(checked),
        count: count as nat,
        path: texts_of(path),
        findings: findings_of(diagnostics),
    }
}

proof fn lemma_cache_insert(before: NameMap<Template>, after: NameMap<Template>, key: Seq<char>, template: Template)
    requires
        after.lookup(key) == Some(template),
        forall|other: Seq<char>| other != key ==> after.lookup(other) == before.lookup(other),
    ensures
        cache_view(after) == cache_view(before).insert(key, blueprint_of(template)),
{
    assert(cache_view(after) =~= cache_view(before).insert(key, blueprint_of(template))) by {
        assert forall|k: Seq<char>| k != key implies after.lookup(k) == before.lookup(k) by {}
    }
}

/// The diagnostic for a definition nested too deeply.
fn depth_exceeded(name: &str) -> (diagnostic: Diagnostic)
    ensures
        finding_of_is(diagnostic, (ErrorCode::KernelMaxDepthExceeded, None, None, None, None, None)),
{
    let message = concat3(
        "definition '",
        name,
        "' exceeds the maximum composite nesting depth of 64",
    );
    Diagnostic::new(ErrorCode::KernelMaxDepthExceeded, Severity::Error, message)
}

/// The diagnostic for a definition that instantiates itself.
fn recursive_definition(name: &str) -> (diagnostic: Diagnostic)
    ensures
        finding_of_is(diagnostic, (ErrorCode::KernelRecursiveDefinition, None, None, None, None, None)),
{
    let message = concat3("definition '", name, "' is recursive: it instantiates itself directly or transitively");
    Diagnostic::new(ErrorCode::KernelRecursiveDefinition, Severity::Error, message)
}

/// `d` is an error saying `finding`.
pub open spec fn finding_of_is(d: Diagnostic, finding: Finding) -> bool {
    d.severity == Severity::Error && crate::validation::finding_of(d) == finding
}

proof fn lemma_push_error(before: Seq<Diagnostic>, d: Diagnostic, finding: Finding)
    requires
        all_errors(before),
        finding_of_is(d, finding),
    ensures
        all_errors(before.push(d)),
        findings_of(before.push(d)) == findings_of(before).push(finding),
{
    assert(findings_of(before.push(d)) =~= findings_of(before).push(finding));
    assert forall|i: int| 0 <= i < before.push(d).len() implies (#[trigger] before.push(d)[i]).severity == Severity::Error by {
        if i < before.len() {
            assert(before.push(d)[i] == before[i]);
        }
    }
}

/// Expands `def` with static arguments `args` at nesting `depth`, caching the
/// expansion under its key, and returns the key; `None` when a guard
/// (nesting depth, recursion) fires.
fn resolve_expansion(
    registry: &DefinitionRegistry,
    def: &GraphDefinition,
    args: &NameMap<StaticValue>,
    Ghost(values): Ghost<Map<Seq<char>, StaticValue>>,
    depth: usize,
    cache: &mut NameMap<Template>,
    checked: &mut Vec<String>,
    count: &mut usize,
    path: &mut Vec<String>,
    diagnostics: &mut Diagnostics,
) -> (key: Option<String>)
    requires
        forall|k: Seq<char>| #[trigger] args.lookup(k) == map_get(values, k),
        depth <= MAX_FLATTEN_DEPTH + 1,
        all_errors(old(diagnostics)@),
        expand(
            *registry,
            state_of(*old(cache), old(checked)@, *old(count), old(path)@, old(diagnostics)@),
            *def,
            values,
            depth as nat,
        ).0.count <= usize::MAX,
    ensures
        all_errors(final(diagnostics)@),
        state_of(*final(cache), final(checked)@, *final(count), final(path)@, final(diagnostics)@) == expand(
            *registry,
            state_of(*old(cache), old(checked)@, *old(count), old(path)@, old(diagnostics)@),
            *def,
            values,
            depth as nat,
        ).0,
        match key {
            Some(k) => expand(
                *registry,
                state_of(*old(cache), old(checked)@, *old(count), old(path)@, old(diagnostics)@),
                *def,
                values,
                depth as nat,
            ).1 == Some(k@) && final(cache).lookup(k@) is Some,
            None => expand(
                *registry,
                state_of(*old(cache), old(checked)@, *old(count), old(path)@, old(diagnostics)@),
                *def,
                values,
                depth as nat,
            ).1 is None,
        },
    decreases budget(depth as nat), 1nat, 0nat,
{
    let ghost x = state_of(*cache, checked@, *count, path@, diagnostics@);
    let ghost outcome = expand(*registry, x, *def, values, depth as nat);
    proof {
        lemma_expand_shape(*registry, x, *def, values, depth as nat);
    }
    let key = cache_key_text(def.name.as_str(), args);
    args.assert_wf();
    proof {
        lemma_in_name_order(*args, values);
        assert(key@ == cache_key(def.name@, values));
    }
    if cache.get(key.as_str()).is_some() {
        return Some(key);
    }
    let ghost x1 = if x.checked.contains(def.name@) {
        x
    } else {
        Expansion { checked: x.checked.push(def.name@), findings: x.findings + reference_findings(*def), ..x }
    };
    if !contains_name(checked, def.name.as_str()) {
        checked.push(def.name.clone());
        def.validate_static_references(diagnostics);
    }
    proof {
        assert(state_of(*cache, checked@, *count, path@, diagnostics@) =~= x1);
    }
    if def.nodes.len() == 0 {
        let template = atomic_template(def, args, Ghost(values));
        *count = *count + 1;
        let ghost before = *cache;
        cache.insert(key.as_str(), template);
        proof {
            lemma_cache_insert(before, *cache, key@, template);
            assert(state_of(*cache, checked@, *count, path@, diagnostics@) =~= outcome.0);
        }
        return Some(key);
    }
    if depth > MAX_FLATTEN_DEPTH {
        let diagnostic = depth_exceeded(def.name.as_str());
        let ghost before = diagnostics@;
        diagnostics.push(diagnostic);
        proof {
            lemma_push_error(before, diagnostic, (ErrorCode::KernelMaxDepthExceeded, None, None, None, None, None));
            assert(state_of(*cache, checked@, *count, path@, diagnostics@) =~= outcome.0);
        }
        return None;
    }
    if contains_name(path, def.name.as_str()) {
        let diagnostic = recursive_definition(def.name.as_str());
        let ghost before = diagnostics@;
        diagnostics.push(diagnostic);
        proof {
            lemma_push_error(before, diagnostic, (ErrorCode::KernelRecursiveDefinition, None, None, None, None, None));
            assert(state_of(*cache, checked@, *count, path@, diagnostics@) =~= outcome.0);
        }
        return None;
    }
    let ghost x2 = Expansion { count: x1.count + 1, path: x1.path.push(def.name@), ..x1 };
    proof {
        lemma_assemble_shape(*registry, x2, *def, values, depth as nat, def.nodes@.len());
    }
    *count = *count + 1;
    path.push(def.name.clone());
    proof {
        assert(state_of(*cache, checked@, *count, path@, diagnostics@) =~= x2);
    }
    let template = expand_body(registry, def, args, Ghost(values), depth, cache, checked, count, path, diagnostics);
    let ghost before_pop = path@;
    path.pop();
    let ghost before = *cache;
    cache.insert(key.as_str(), template);
    proof {
        assert(texts_of(path@) =~= texts_of(before_pop).drop_last());
        lemma_cache_insert(before, *cache, key@, template);
        assert(state_of(*cache, checked@, *count, path@, diagnostics@) =~= outcome.0);
    }
    Some(key)
}

/// `true` when some entry of `names` equals `name`.
fn contains_name(names: &Vec<String>, name: &str) -> (found: bool)
    ensures
        found == texts_of(names@).contains(name@),
{
    let mut i: usize = 0;
    while i < names.len()
        invariant
            i <= names@.len(),
            forall|j: int| 0 <= j < i ==> names@[j]@ != name@,
        decreases names@.len() - i,
    {
        if str_eq(names[i].as_str(), name) {
            proof {
                assert(texts_of(names@)[i as int] == name@);
            }
            return true;
        }
        i = i + 1;
    }
    proof {
        if texts_of(names@).contains(name@) {
            let j = choose|j: int| 0 <= j < texts_of(names@).len() && texts_of(names@)[j] == name@;
            assert(names@[j]@ == name@);
        }
    }
    false
}

/// Expands the nodes of composite `def` and wires them: each node's child
/// expansion instantiated beneath the node's id with its overrides applied,
/// the definition's connections between the children's public ports, and the
/// composite's own interface.
fn expand_body(
    registry: &DefinitionRegistry,
    def: &GraphDefinition,
    args: &NameMap<StaticValue>,
    Ghost(values): Ghost<Map<Seq<char>, StaticValue>>,
    depth: usize,
    cache: &mut NameMap<Template>,
    checked: &mut Vec<String>,
    count: &mut usize,
    path: &mut Vec<String>,
    diagnostics: &mut Diagnostics,
) -> (template: Template)
    requires
        forall|k: Seq<char>| #[trigger] args.lookup(k) == map_get(values, k),
        depth <= MAX_FLATTEN_DEPTH,
        all_errors(old(diagnostics)@),
        assemble(
            *registry,
            state_of(*old(cache), old(checked)@, *old(count), old(path)@, old(diagnostics)@),
            *def,
            values,
            depth as nat,
            def.nodes@.len() as nat,
        ).0.count <= usize::MAX,
    ensures
        all_errors(final(diagnostics)@),
        state_of(*final(cache), final(checked)@, *final(count), final(path)@, final(diagnostics)@) == assemble(
            *registry,
            state_of(*old(cache), old(checked)@, *old(count), old(path)@, old(diagnostics)@),
            *def,
            values,
            depth as nat,
            def.nodes@.len() as nat,
        ).0,
        ({
            let assembly = assemble(
                *registry,
                state_of(*old(cache), old(checked)@, *old(count), old(path)@, old(diagnostics)@),
                *def,
                values,
                depth as nat,
                def.nodes@.len() as nat,
            ).1;
            blueprint_of(template) == Blueprint {
                nodes: assembly.nodes,
                wires: assembly.wires + cross_wires(*def, assembly.children, def.connections@.len() as nat),
                boundary: composed(*def, assembly.children, def.ports@.len() as nat),
            }
        }),
    decreases budget(depth as nat), 0nat, 0nat,
{
    let ghost x = state_of(*cache, checked@, *count, path@, diagnostics@);
    let ghost n = def.nodes@.len() as nat;
    let mut nodes: Vec<AtomicNode> = Vec::new();
    let mut connections: Vec<Connection> = Vec::new();
    let mut children: NameMap<Interface> = NameMap::new();
    proof {
        assert(children_of(children) =~= Map::<Seq<char>, Boundary>::empty());
    }
    let mut i: usize = 0;
    while i < def.nodes.len()
        invariant
            forall|k: Seq<char>| #[trigger] args.lookup(k) == map_get(values, k),
            depth <= MAX_FLATTEN_DEPTH,
            n == def.nodes@.len(),
            i <= n,
            all_errors(diagnostics@),
            assemble(*registry, x, *def, values, depth as nat, n).0.count <= usize::MAX,
            state_of(*cache, checked@, *count, path@, diagnostics@) == assemble(
                *registry,
                x,
                *def,
                values,
                depth as nat,
                i as nat,
            ).0,
            plans_of(nodes@) == assemble(*registry, x, *def, values, depth as nat, i as nat).1.nodes,
            wires_of(connections@) == assemble(*registry, x, *def, values, depth as nat, i as nat).1.wires,
            children_of(children) == assemble(*registry, x, *def, values, depth as nat, i as nat).1.children,
        decreases n - i,
    {
        let node = &def.nodes[i];
        let ghost step = assemble(*registry, x, *def, values, depth as nat, (i + 1) as nat);
        let ghost x0 = state_of(*cache, checked@, *count, path@, diagnostics@);
        proof {
            assert(node == def.nodes@[i as int]);
            lemma_assemble_grows(*registry, x, *def, values, depth as nat, (i + 1) as nat, n);
        }
        match registry.get(node.definition_ref.as_str()) {
            None => {
                let mut message = concat3("node '", node.id.as_str(), "' references unknown definition '");
                message.append(node.definition_ref.as_str());
                message.append("'");
                let diagnostic = Diagnostic::new(ErrorCode::KernelUnknownDefinition, Severity::Error, message)
                    .with_module_id(node.id.0.clone());
                let ghost before = diagnostics@;
                diagnostics.push(diagnostic);
                proof {
                    lemma_push_error(before, diagnostic, about(ErrorCode::KernelUnknownDefinition, node.id.0@));
                    assert(state_of(*cache, checked@, *count, path@, diagnostics@) =~= step.0);
                }
            },
            Some(referenced) => {
                let ghost before = diagnostics@;
                match def.resolve_static_args(node, referenced, args, Ghost(values), diagnostics) {
                    None => {
                        proof {
                            assert(state_of(*cache, checked@, *count, path@, diagnostics@) =~= step.0);
                        }
                    },
                    Some(child_args) => {
                        let ghost child_values = arguments_of(*node, *referenced, values);
                        proof {
                            assert(findings_of(diagnostics@) =~= findings_of(before));
                        }
                        let ghost middle = diagnostics@;
                        if referenced.validate_resolved_static_references(&child_args, Ghost(child_values), diagnostics) {
                            proof {
                                assert(findings_of(diagnostics@) =~= findings_of(middle));
                                assert(state_of(*cache, checked@, *count, path@, diagnostics@) =~= x0);
                            }
                            let found = resolve_expansion(
                                registry,
                                referenced,
                                &child_args,
                                Ghost(child_values),
                                depth + 1,
                                cache,
                                checked,
                                count,
                                path,
                                diagnostics,
                            );
                            match found {
                                None => {},
                                Some(key) => {
                                    match cache.get(key.as_str()) {
                                        Some(template) => {
                                            let (mut child_nodes, mut child_connections, child_interface) = instantiate(
                                                template,
                                                node.id.as_str(),
                                            );
                                            apply_overrides(node, &child_interface, &mut child_nodes);
                                            let ghost nodes_before = nodes@;
                                            let ghost connections_before = connections@;
                                            let ghost children_before = children;
                                            nodes.append(&mut child_nodes);
                                            connections.append(&mut child_connections);
                                            children.insert(node.id.as_str(), child_interface);
                                            proof {
                                                assert(plans_of(nodes@) =~= plans_of(nodes_before) + plans_of(
                                                    nodes@.subrange(nodes_before.len() as int, nodes@.len() as int),
                                                ));
                                                assert(wires_of(connections@) =~= wires_of(connections_before) + wires_of(
                                                    connections@.subrange(
                                                        connections_before.len() as int,
                                                        connections@.len() as int,
                                                    ),
                                                ));
                                                assert(children_of(children) =~= children_of(children_before).insert(
                                                    node.id.0@,
                                                    boundary_of(child_interface),
                                                )) by {
                                                    assert forall|k: Seq<char>| k != node.id.0@ implies children.lookup(k)
                                                        == children_before.lookup(k) by {}
                                                }
                                            }
                                        },
                                        None => {
                                            proof {
                                                assert(false);
                                            }
                                        },
                                    }
                                },
                            }
                        } else {
                            proof {
                                assert(state_of(*cache, checked@, *count, path@, diagnostics@) =~= step.0);
                            }
                        }
                    },
                }
            },
        }
        i = i + 1;
    }
    let ghost assembly = assemble(*registry, x, *def, values, depth as nat, n).1;
    let ghost base = wires_of(connections@);
    let mut c: usize = 0;
    while c < def.connections.len()
        invariant
            c <= def.connections@.len(),
            children_of(children) == assembly.children,
            wires_of(connections@) == base + cross_wires(*def, assembly.children, c as nat),
        decreases def.connections@.len() - c,
    {
        let connection = &def.connections[c];
        let ghost before = wires_of(connections@);
        let mut wired = false;
        match children.get(connection.source.node.as_str()) {
            Some(source_child) => match source_child.outputs.get(connection.source.port.as_str()) {
                Some(sources) => match children.get(connection.destination.node.as_str()) {
                    Some(destination_child) => match destination_child.inputs.get(connection.destination.port.as_str()) {
                        Some(destinations) => {
                            wire_across(sources, destinations, &mut connections);
                            wired = true;
                        },
                        None => {},
                    },
                    None => {},
                },
                None => {},
            },
            None => {},
        }
        proof {
            assert(connection == def.connections@[c as int]);
            if !wired {
                assert(base + cross_wires(*def, assembly.children, (c + 1) as nat) =~= before);
            } else {
                assert(base + cross_wires(*def, assembly.children, (c + 1) as nat) =~= wires_of(connections@));
            }
        }
        c = c + 1;
    }
    let interface = compose_interface(def, &children);
    let template = Template { nodes, connections, interface };
    proof {
        assert(blueprint_of(template) =~= Blueprint {
            nodes: assembly.nodes,
            wires: assembly.wires + cross_wires(*def, assembly.children, def.connections@.len() as nat),
            boundary: composed(*def, assembly.children, def.ports@.len() as nat),
        });
    }
    template
}


/// The atomic ports the root's output ports gather from, in port order.
fn root_output_refs(def: &GraphDefinition, interface: &Interface) -> (sources: Vec<PortRef>)
    ensures
        places_of(sources@) == root_sources(*def, boundary_of(*interface), def.ports@.len() as nat),
{
    let mut out: Vec<PortRef> = Vec::new();
    let mut i: usize = 0;
    while i < def.ports.len()
        invariant
            i <= def.ports@.len(),
            places_of(out@) == root_sources(*def, boundary_of(*interface), i as nat),
        decreases def.ports@.len() - i,
    {
        let port = &def.ports[i];
        match port.direction {
            PortDirection::Output => match interface.outputs.get(port.name.as_str()) {
                Some(refs) => {
                    append_refs(&mut out, refs);
                },
                None => {},
            },
            PortDirection::Input => {},
        }
        i = i + 1;
    }
    out
}

impl GraphDefinition {
    /// Flattens this definition, as the root, into a graph of atomic nodes,
    /// or returns the diagnostics gathered on the way.
    ///
    /// Each distinct (definition, static arguments) pair is expanded once and
    /// instantiated beneath the id of every node that uses it; the root takes
    /// its declared static defaults as its arguments.
    pub fn flatten(&self, registry: &DefinitionRegistry) -> (result: Result<FlattenedGraph, Diagnostics>)
        requires
            flattening(*self, *registry).0.count <= usize::MAX,
        ensures
            match result {
                Ok(g) => flattening(*self, *registry).0.findings.len() == 0 && flattened_from(g, *self, *registry),
                Err(d) => {
                    &&& flattening(*self, *registry).0.findings.len() > 0
                    &&& findings_of(d@) == flattening(*self, *registry).0.findings
                    &&& all_errors(d@)
                },
            },
    {
        let context = self.enclosing_context();
        let mut cache: NameMap<Template> = NameMap::new();
        let mut checked: Vec<String> = Vec::new();
        let mut count: usize = 0;
        let mut path: Vec<String> = Vec::new();
        let mut diagnostics = Diagnostics::new();
        proof {
            assert(cache_view(cache) =~= Map::<Seq<char>, Blueprint>::empty());
            assert(texts_of(checked@) =~= Seq::<Seq<char>>::empty());
            assert(texts_of(path@) =~= Seq::<Seq<char>>::empty());
            assert(findings_of(diagnostics@) =~= Seq::<Finding>::empty());
            assert(state_of(cache, checked@, count, path@, diagnostics@) =~= fresh());
            lemma_expand_shape(*registry, fresh(), *self, context_of(*self), 0);
        }
        let found = resolve_expansion(
            registry,
            self,
            &context,
            Ghost(context_of(*self)),
            0,
            &mut cache,
            &mut checked,
            &mut count,
            &mut path,
            &mut diagnostics,
        );
        if diagnostics.len() > 0 {
            return Err(diagnostics);
        }
        match found {
            Some(key) => match cache.get(key.as_str()) {
                Some(template) => {
                    let (mut nodes, instance_connections, interface) = instantiate(template, "");
                    let (connections, promotions) = insert_promotions(&mut nodes, &instance_connections);
                    let root_ports = self.resolve_ports(&context, Ghost(context_of(*self)));
                    let root_output_sources = root_output_refs(self, &interface);
                    proof {
                        reveal_strlit("");
                        assert(""@ =~= Seq::<char>::empty());
                        assert(findings_of(diagnostics@).len() == 0);
                        assert(cache_view(cache).contains_key(key@));
                        assert(cache_view(cache)[key@] == blueprint_of(*template));
                    }
                    Ok(
                        FlattenedGraph {
                            nodes,
                            connections,
                            root_ports,
                            root_output_sources,
                            promotions,
                            expansion_count: count,
                        },
                    )
                },
                None => {
                    proof {
                        assert(false);
                    }
                    Err(diagnostics)
                },
            },
            None => {
                proof {
                    assert(false);
                }
                Err(diagnostics)
            },
        }
    }
}


/// Every expansion cached in `before` is still cached, unchanged, in `after`.
pub open spec fn keeps_cache(before: Expansion, after: Expansion) -> bool {
    forall|k: Seq<char>| #[trigger]
        before.cache.contains_key(k) ==> after.cache.contains_key(k) && after.cache[k] == before.cache[k]
}

/// A (definition, static arguments) pair whose expansion is already cached is
/// not expanded again: the state, expansion count included, is left as it was
/// and the cached expansion is reused.
pub proof fn law_cached_expansion_is_reused(
    registry: DefinitionRegistry,
    x: Expansion,
    def: GraphDefinition,
    args: Map<Seq<char>, StaticValue>,
    depth: nat,
)
    requires
        x.cache.contains_key(cache_key(def.name@, args)),
    ensures
        expand(registry, x, def, args, depth) == (x, Some(cache_key(def.name@, args))),
{
}

/// Expanding never alters an expansion cached before: later instances, and
/// the control-default overrides applied to them, leave the cached structure
/// as it was.
pub proof fn law_cached_expansions_are_stable(
    registry: DefinitionRegistry,
    x: Expansion,
    def: GraphDefinition,
    args: Map<Seq<char>, StaticValue>,
    depth: nat,
)
    ensures
        keeps_cache(x, expand(registry, x, def, args, depth).0),
    decreases budget(depth), 1nat, 0nat,
{
    let key = cache_key(def.name@, args);
    if !x.cache.contains_key(key) {
        let x1 = if x.checked.contains(def.name@) {
            x
        } else {
            Expansion { checked: x.checked.push(def.name@), findings: x.findings + reference_findings(def), ..x }
        };
        let after = expand(registry, x, def, args, depth).0;
        if def.nodes@.len() != 0 && depth <= MAX_FLATTEN_DEPTH && !x1.path.contains(def.name@) {
            let x2 = Expansion { count: x1.count + 1, path: x1.path.push(def.name@), ..x1 };
            lemma_assemble_keeps_cache(registry, x2, def, args, depth, def.nodes@.len());
            let x3 = assemble(registry, x2, def, args, depth, def.nodes@.len()).0;
            assert forall|k: Seq<char>| #[trigger] x.cache.contains_key(k) implies after.cache.contains_key(k)
                && after.cache[k] == x.cache[k] by {
                assert(x2.cache.contains_key(k));
                assert(k != key);
            }
        } else {
            assert forall|k: Seq<char>| #[trigger] x.cache.contains_key(k) implies after.cache.contains_key(k)
                && after.cache[k] == x.cache[k] by {
                assert(k != key);
            }
        }
    }
}

proof fn lemma_assemble_keeps_cache(
    registry: DefinitionRegistry,
    x: Expansion,
    def: GraphDefinition,
    args: Map<Seq<char>, StaticValue>,
    depth: nat,
    i: nat,
)
    ensures
        keeps_cache(x, assemble(registry, x, def, args, depth, i).0),
    decreases budget(depth), 0nat, i,
{
    if !(i == 0 || i > def.nodes@.len() || depth > MAX_FLATTEN_DEPTH) {
        lemma_assemble_keeps_cache(registry, x, def, args, depth, (i - 1) as nat);
        let x0 = assemble(registry, x, def, args, depth, (i - 1) as nat).0;
        let node = def.nodes@[i - 1];
        match registry.lookup(node.definition_ref@) {
            None => {},
            Some(referenced) => {
                let resolution = resolution_findings(node, referenced, args);
                if resolution.len() == 0 {
                    let child_args = arguments_of(node, referenced, args);
                    if value_findings(referenced, child_args).len() == 0 {
                        law_cached_expansions_are_stable(registry, x0, referenced, child_args, depth + 1);
                    }
                }
            },
        }
    }
}

/// Flattening is deterministic: two flattenings of one definition against one
/// registry have the same atomic nodes, connections, promotions, root ports,
/// root output sources and expansion count.
pub proof fn law_flattening_is_deterministic(
    g1: FlattenedGraph,
    g2: FlattenedGraph,
    def: GraphDefinition,
    registry: DefinitionRegistry,
)
    requires
        flattened_from(g1, def, registry),
        flattened_from(g2, def, registry),
    ensures
        g1.nodes@.len() == g2.nodes@.len(),
        forall|i: int|
            0 <= i < g1.nodes@.len() ==> atom_view(plan_of(#[trigger] g1.nodes@[i])) == atom_view(plan_of(g2.nodes@[i])),
        wires_of(g1.connections@) == wires_of(g2.connections@),
        steps_of(g1.promotions@) == steps_of(g2.promotions@),
        g1.root_ports@ == g2.root_ports@,
        places_of(g1.root_output_sources@) == places_of(g2.root_output_sources@),
        g1.expansion_count == g2.expansion_count,
{
    let (x, key) = flattening(def, registry);
    let base = instantiated(x.cache[key->0], Seq::empty());
    let b = base.nodes.len() as int;
    assert forall|i: int| 0 <= i < g1.nodes@.len() implies atom_view(plan_of(#[trigger] g1.nodes@[i])) == atom_view(
        plan_of(g2.nodes@[i]),
    ) by {
        if i < b {
            assert(plans_of(g1.nodes@.take(b))[i] == plan_of(g1.nodes@[i]));
            assert(plans_of(g2.nodes@.take(b))[i] == plan_of(g2.nodes@[i]));
        } else {
            assert(atom_view(plan_of(g2.nodes@[i])) == promotion_view(
                (i - b) as nat,
                promotions_among(base.nodes, base.wires, base.wires.len() as nat)[i - b].1,
            ));
        }
    }
}


/// The port `reference` names, with direction `direction`, on the first
/// atomic node of `nodes` with its node id.
fn atomic_port_of<'a>(nodes: &'a Vec<AtomicNode>, reference: &PortRef, direction: PortDirection) -> (port: Option<
    &'a ResolvedPort,
>)
    ensures
        match port {
            Some(p) => atomic_port(plans_of(nodes@), place_of(*reference), direction) == Some(*p),
            None => atomic_port(plans_of(nodes@), place_of(*reference), direction) is None,
        },
{
    let index = node_index(nodes, reference.node.as_str());
    if index == nodes.len() {
        return None;
    }
    let ports = &nodes[index].ports;
    let ghost place = place_of(*reference);
    proof {
        assert(plans_of(nodes@)[index as int].ports == ports@);
        assert(plan_position(plans_of(nodes@), place.node) == index as int);
    }
    let mut i: usize = 0;
    while i < ports.len()
        invariant
            i <= ports@.len(),
            index < nodes@.len(),
            place == place_of(*reference),
            plans_of(nodes@)[index as int].ports == ports@,
            plan_position(plans_of(nodes@), place.node) == index as int,
            forall|j: int| 0 <= j < i ==> !(ports@[j].name@ == reference.port@ && ports@[j].direction == direction),
        decreases ports@.len() - i,
    {
        if str_eq(ports[i].name.as_str(), reference.port.as_str()) && ports[i].direction == direction {
            proof {
                lemma_port_matching(ports@, reference.port@, direction, i as int);
                assert(atomic_port(plans_of(nodes@), place, direction) == port_matching(ports@, place.port, direction));
            }
            return Some(&ports[i]);
        }
        i = i + 1;
    }
    proof {
        lemma_port_matching(ports@, reference.port@, direction, i as int);
    }
    None
}

/// The width of the promotion `connection` needs among `nodes`, if any.
fn promotion_width_of(nodes: &Vec<AtomicNode>, connection: &Connection) -> (width: Option<u32>)
    ensures
        width == promotion_width(plans_of(nodes@), wire_of(*connection)),
{
    match atomic_port_of(nodes, &connection.source, PortDirection::Output) {
        Some(source) => match atomic_port_of(nodes, &connection.destination, PortDirection::Input) {
            Some(destination) => {
                if source.signal_type == SignalType::Control && destination.signal_type == SignalType::Audio {
                    Some(destination.channels)
                } else {
                    None
                }
            },
            None => None,
        },
        None => None,
    }
}

/// The `k`-th promotion node, of width `channels`.
fn promotion_node(k: usize, channels: u32) -> (node: AtomicNode)
    ensures
        atom_view(plan_of(node)) == promotion_view(k as nat, channels),
{
    let number = decimal_string(k as u64);
    let id = concat3(PROMOTION_NODE_PREFIX, NAMESPACE_SEPARATOR, number.as_str());
    let mut static_args: NameMap<StaticValue> = NameMap::new();
    static_args.insert("channels", StaticValue::Int(channels as i64));
    let port_defaults: NameMap<u64> = NameMap::new();
    let mut ports: Vec<ResolvedPort> = Vec::new();
    ports.push(
        ResolvedPort {
            name: owned(PROMOTION_INPUT_PORT),
            direction: PortDirection::Input,
            signal_type: SignalType::Control,
            channels,
            control_default: None,
            multiplicity: Multiplicity::SingleSource,
        },
    );
    ports.push(
        ResolvedPort {
            name: owned(PROMOTION_OUTPUT_PORT),
            direction: PortDirection::Output,
            signal_type: SignalType::Audio,
            channels,
            control_default: None,
            multiplicity: Multiplicity::SingleSource,
        },
    );
    let node = AtomicNode {
        id: NodeId(id),
        definition: owned(CONTROL_TO_AUDIO_DEFINITION),
        static_args,
        port_defaults,
        ports,
        latency: 0,
    };
    proof {
        assert(map_of(node.static_args) =~= Map::empty().insert("channels"@, StaticValue::Int(channels as i64)));
        assert(map_of(node.port_defaults) =~= Map::<Seq<char>, u64>::empty());
        assert(atom_view(plan_of(node)) =~= promotion_view(k as nat, channels));
    }
    node
}

/// Routes each of `connections` that runs from a control output to an audio
/// input through a promotion node of the destination's width: returns the
/// routed connections and the promotions, and appends the promotion nodes to
/// `nodes` in promotion order.
fn insert_promotions(nodes: &mut Vec<AtomicNode>, connections: &Vec<Connection>) -> (routed: (
    Vec<Connection>,
    Vec<PromotionStep>,
))
    ensures
        ({
            let base = plans_of(old(nodes)@);
            let wires = wires_of(connections@);
            let promotions = promotions_among(base, wires, wires.len() as nat);
            let n = old(nodes)@.len() as int;
            &&& final(nodes)@.len() == n + promotions.len()
            &&& final(nodes)@.take(n) == old(nodes)@
            &&& forall|i: int|
                n <= i < final(nodes)@.len() ==> atom_view(plan_of(#[trigger] final(nodes)@[i])) == promotion_view(
                    (i - n) as nat,
                    promotions[i - n].1,
                )
            &&& wires_of(routed.0@) == promoted_wires(base, wires, wires.len() as nat)
            &&& steps_of(routed.1@) == promotions
        }),
{
    let ghost base = plans_of(nodes@);
    let ghost wires = wires_of(connections@);
    let mut added: Vec<AtomicNode> = Vec::new();
    let mut routed: Vec<Connection> = Vec::new();
    let mut steps: Vec<PromotionStep> = Vec::new();
    let mut i: usize = 0;
    while i < connections.len()
        invariant
            i <= connections@.len(),
            base == plans_of(nodes@),
            wires == wires_of(connections@),
            steps@.len() <= i,
            steps_of(steps@) == promotions_among(base, wires, i as nat),
            added@.len() == steps@.len(),
            forall|j: int|
                0 <= j < added@.len() ==> atom_view(plan_of(#[trigger] added@[j])) == promotion_view(
                    j as nat,
                    steps@[j].channels,
                ),
            wires_of(routed@) == promoted_wires(base, wires, i as nat),
        decreases connections@.len() - i,
    {
        let connection = &connections[i];
        let ghost steps_before = steps@;
        let ghost added_before = added@;
        let ghost routed_before = routed@;
        proof {
            assert(wires[i as int] == wire_of(*connection));
        }
        match promotion_width_of(nodes, connection) {
            Some(channels) => {
                let k = steps.len();
                let node = promotion_node(k, channels);
                let id = node.id.clone();
                let into = Connection::new(connection.source.clone(), PortRef::new(id.clone(), PROMOTION_INPUT_PORT));
                let out_of = Connection::new(PortRef::new(id, PROMOTION_OUTPUT_PORT), connection.destination.clone());
                routed.push(into);
                routed.push(out_of);
                steps.push(
                    PromotionStep {
                        source: connection.source.clone(),
                        destination: connection.destination.clone(),
                        channels,
                    },
                );
                added.push(node);
                proof {
                    assert(steps_of(steps@) =~= steps_of(steps_before).push((wires[i as int], channels)));
                    assert(wires_of(routed@) =~= wires_of(routed_before).push(wire_of(into)).push(wire_of(out_of)));
                    assert forall|j: int| 0 <= j < added@.len() implies atom_view(plan_of(#[trigger] added@[j]))
                        == promotion_view(j as nat, steps@[j].channels) by {
                        if j < added_before.len() {
                            assert(added@[j] == added_before[j]);
                            assert(steps@[j] == steps_before[j]);
                        }
                    }
                }
            },
            None => {
                let copy = connection.clone();
                routed.push(copy);
                proof {
                    assert(wires_of(routed@) =~= wires_of(routed_before).push(wire_of(copy)));
                }
            },
        }
        i = i + 1;
    }
    let ghost n = nodes@.len() as int;
    let ghost old_nodes = nodes@;
    let ghost added_nodes = added@;
    nodes.append(&mut added);
    proof {
        assert(nodes@.take(n) =~= old_nodes);
        assert forall|i: int| n <= i < nodes@.len() implies atom_view(plan_of(#[trigger] nodes@[i])) == promotion_view(
            (i - n) as nat,
            promotions_among(base, wires, wires.len() as nat)[i - n].1,
        ) by {
            assert(nodes@[i] == added_nodes[i - n]);
            assert(steps_of(steps@)[i - n].1 == steps@[i - n].channels);
        }
    }
    (routed, steps)
}

} // verus!
