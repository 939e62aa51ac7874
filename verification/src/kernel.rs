//! Unified recursive graph kernel.
//!
//! A [`GraphDefinition`] declares static parameters, public ports, internal
//! nodes, and connections; a [`Node`] is an instance of another graph
//! definition. Primitives are graph definitions implemented natively;
//! composites are graph definitions authored in documents. Both expose the
//! same public interface (ports and static parameters) and are validated
//! through one path.
//!
//! Control values (port defaults and per-instance overrides) are carried as
//! the IEEE-754 bit patterns of their `f64` values: the kernel stores and
//! forwards them but never computes with them.
use vstd::prelude::*;
use vstd::string::*;

use crate::diagnostics::{clone_text, Diagnostics};
use crate::name_map::{lookup_pairs, NameMap};
use crate::text::{owned, str_eq};

pub mod document;
pub mod yaml;

verus! {

/// Definition name of the feedback-delay primitive: the only node through which
/// a routing cycle (audio or control) is legal.
pub const FEEDBACK_DELAY_DEFINITION: &'static str = "feedback_delay";

/// Separator between a composite instance identity and an internal node
/// identity when flattening produces namespaced atomic node ids.
pub const NAMESPACE_SEPARATOR: &'static str = "::";

/// Definition name of the compiler-generated node that promotes a `control`
/// signal to `audio` where a control output feeds an audio input.
pub const CONTROL_TO_AUDIO_DEFINITION: &'static str = "control_to_audio";

/// Identity prefix for compiler-generated control→audio promotion nodes.
pub const PROMOTION_NODE_PREFIX: &'static str = "promote";

/// Input (control) port name on a control→audio promotion node.
pub const PROMOTION_INPUT_PORT: &'static str = "in";

/// Output (audio) port name on a control→audio promotion node.
pub const PROMOTION_OUTPUT_PORT: &'static str = "out";

/// The kind of signal a port carries.
#[derive(Clone, Copy, Debug, PartialEq, Eq, Structural)]
pub enum SignalType {
    Audio,
    Control,
    Event,
}

/// Whether a port receives or produces its signal.
#[derive(Clone, Copy, Debug, PartialEq, Eq, Structural)]
pub enum PortDirection {
    Input,
    Output,
}

/// The static (compile-time) type of a graph-definition static parameter.
#[derive(Clone, Copy, Debug, PartialEq, Eq, Structural)]
pub enum StaticType {
    /// Integer value (e.g. a channel count or voice count).
    Int,
    /// Named enumeration value.
    Enum,
    /// Reference to an external resource (e.g. a sample or impulse response).
    Resource,
}

/// A resolved value supplied for a static parameter.
#[derive(Debug, PartialEq, Eq)]
pub enum StaticValue {
    Int(i64),
    Enum(String),
    Resource(String),
}

impl Clone for StaticValue {
    fn clone(&self) -> (copy: Self)
        ensures
            copy == *self,
    {
        match self {
            StaticValue::Int(value) => StaticValue::Int(*value),
            StaticValue::Enum(text) => StaticValue::Enum(text.clone()),
            StaticValue::Resource(text) => StaticValue::Resource(text.clone()),
        }
    }
}

/// The static type a value satisfies.
pub open spec fn type_of_value(value: StaticValue) -> StaticType {
    match value {
        StaticValue::Int(_) => StaticType::Int,
        StaticValue::Enum(_) => StaticType::Enum,
        StaticValue::Resource(_) => StaticType::Resource,
    }
}

impl StaticValue {
    /// The [`StaticType`] this value satisfies.
    pub fn static_type(&self) -> (static_type: StaticType)
        ensures
            static_type == type_of_value(*self),
    {
        match self {
            StaticValue::Int(_) => StaticType::Int,
            StaticValue::Enum(_) => StaticType::Enum,
            StaticValue::Resource(_) => StaticType::Resource,
        }
    }
}

/// How an atomic node's processing latency (in samples) is determined after
/// static-argument resolution.
#[derive(Debug, PartialEq, Eq)]
pub enum LatencySpec {
    Zero,
    /// A fixed number of samples independent of static arguments.
    Samples(u32),
    /// Latency derived from an integer static parameter minus a constant,
    /// e.g. a spectral processor's `fft_size - 1`.
    StaticParam { name: String, minus: u32 },
}

impl Clone for LatencySpec {
    fn clone(&self) -> (copy: Self)
        ensures
            copy == *self,
    {
        match self {
            LatencySpec::Zero => LatencySpec::Zero,
            LatencySpec::Samples(samples) => LatencySpec::Samples(*samples),
            LatencySpec::StaticParam { name, minus } => LatencySpec::StaticParam { name: name.clone(), minus: *minus },
        }
    }
}

impl Default for LatencySpec {
    fn default() -> (latency: Self)
        ensures
            latency == LatencySpec::Zero,
    {
        LatencySpec::Zero
    }
}

/// `value - minus`, or zero when `minus` exceeds it.
pub open spec fn saturating_difference(value: int, minus: int) -> int {
    if value >= minus {
        value - minus
    } else {
        0
    }
}

/// The latency a spec resolves to against resolved static arguments.
pub open spec fn resolved_latency(latency: LatencySpec, args: Seq<(Seq<char>, StaticValue)>) -> int {
    match latency {
        LatencySpec::Zero => 0,
        LatencySpec::Samples(samples) => samples as int,
        LatencySpec::StaticParam { name, minus } => match lookup_pairs(args, name@) {
            Some(StaticValue::Int(value)) => if value >= 0 {
                saturating_difference((value as u32) as int, minus as int)
            } else {
                0
            },
            _ => 0,
        },
    }
}

impl LatencySpec {
    /// Resolve the latency in samples against a node's resolved static
    /// arguments. A parameter that is absent, not an integer, or negative
    /// resolves to zero (validation rejects those before this is used).
    pub fn resolve(&self, static_args: &NameMap<StaticValue>) -> (samples: u32)
        ensures
            samples == resolved_latency(*self, static_args.pairs()),
    {
        match self {
            LatencySpec::Zero => 0,
            LatencySpec::Samples(samples) => *samples,
            LatencySpec::StaticParam { name, minus } => match static_args.get(name.as_str()) {
                Some(StaticValue::Int(value)) => {
                    if *value >= 0 {
                        let truncated = *value as u32;
                        if truncated >= *minus {
                            truncated - *minus
                        } else {
                            0
                        }
                    } else {
                        0
                    }
                },
                Some(_) => 0,
                None => 0,
            },
        }
    }
}

/// A static parameter declared on a graph definition.
#[derive(Debug, PartialEq, Eq)]
pub struct StaticParam {
    pub name: String,
    pub static_type: StaticType,
    pub default: Option<StaticValue>,
}

impl Clone for StaticParam {
    fn clone(&self) -> (copy: Self)
        ensures
            copy == *self,
    {
        StaticParam {
            name: self.name.clone(),
            static_type: self.static_type,
            default: match &self.default {
                Some(value) => Some(value.clone()),
                None => None,
            },
        }
    }
}

impl StaticParam {
    pub fn new(name: &str, static_type: StaticType) -> (param: Self)
        ensures
            param.name@ == name@,
            param.static_type == static_type,
            param.default is None,
    {
        StaticParam { name: owned(name), static_type, default: None }
    }

    pub fn with_default(self, default: StaticValue) -> (param: Self)
        ensures
            param == (StaticParam { default: Some(default), ..self }),
    {
        StaticParam { default: Some(default), ..self }
    }

    pub fn name(&self) -> (name: &str)
        ensures
            name@ == self.name@,
    {
        self.name.as_str()
    }

    pub fn static_type(&self) -> (static_type: StaticType)
        ensures
            static_type == self.static_type,
    {
        self.static_type
    }

    pub fn default(&self) -> (default: Option<&StaticValue>)
        ensures
            match default {
                Some(value) => self.default == Some(*value),
                None => self.default is None,
            },
    {
        match &self.default {
            Some(value) => Some(value),
            None => None,
        }
    }
}

/// A static argument supplied by a node for a referenced definition's static
/// parameter. Arguments flow by literal value or by name from an enclosing
/// definition's static parameters; there is no expression language.
#[derive(Debug, PartialEq, Eq)]
pub enum StaticArg {
    /// A concrete literal value.
    Literal(StaticValue),
    /// A pass-through reference (`$name`) to an enclosing static parameter.
    ParamRef(String),
    /// Any other form (arithmetic, conditionals, functions); always rejected.
    Expression(String),
}

impl Clone for StaticArg {
    fn clone(&self) -> (copy: Self)
        ensures
            copy == *self,
    {
        match self {
            StaticArg::Literal(value) => StaticArg::Literal(value.clone()),
            StaticArg::ParamRef(name) => StaticArg::ParamRef(name.clone()),
            StaticArg::Expression(text) => StaticArg::Expression(text.clone()),
        }
    }
}

/// The channel count of a port: a literal, or a reference to one of the
/// definition's static parameters resolved before connection validation.
#[derive(Debug, PartialEq, Eq)]
pub enum ChannelCount {
    Literal(u32),
    Param(String),
}

impl Clone for ChannelCount {
    fn clone(&self) -> (copy: Self)
        ensures
            copy == *self,
    {
        match self {
            ChannelCount::Literal(count) => ChannelCount::Literal(*count),
            ChannelCount::Param(name) => ChannelCount::Param(name.clone()),
        }
    }
}

/// The minimum legal resolved channel count.
pub const MIN_CHANNELS: i64 = 1;

impl ChannelCount {
    /// A channel count taken from the static parameter `name`.
    pub fn param(name: &str) -> (count: Self)
        ensures
            count matches ChannelCount::Param(n) && n@ == name@,
    {
        ChannelCount::Param(owned(name))
    }
}

/// Default value and optional range metadata for a `control` input port, as
/// `f64` bit patterns.
#[derive(Debug, PartialEq, Eq)]
pub struct ControlDefault {
    pub default_bits: u64,
    pub min_bits: Option<u64>,
    pub max_bits: Option<u64>,
    pub unit: Option<String>,
}

impl Clone for ControlDefault {
    fn clone(&self) -> (copy: Self)
        ensures
            copy == *self,
    {
        ControlDefault {
            default_bits: self.default_bits,
            min_bits: self.min_bits,
            max_bits: self.max_bits,
            unit: clone_text(&self.unit),
        }
    }
}

impl ControlDefault {
    pub fn new(default_bits: u64) -> (control: Self)
        ensures
            control == (ControlDefault { default_bits, min_bits: None, max_bits: None, unit: None }),
    {
        ControlDefault { default_bits, min_bits: None, max_bits: None, unit: None }
    }

    pub fn with_min(self, min_bits: u64) -> (control: Self)
        ensures
            control == (ControlDefault { min_bits: Some(min_bits), ..self }),
    {
        ControlDefault { min_bits: Some(min_bits), ..self }
    }

    pub fn with_max(self, max_bits: u64) -> (control: Self)
        ensures
            control == (ControlDefault { max_bits: Some(max_bits), ..self }),
    {
        ControlDefault { max_bits: Some(max_bits), ..self }
    }

    pub fn with_unit(self, unit: &str) -> (control: Self)
        ensures
            control.default_bits == self.default_bits,
            control.min_bits == self.min_bits,
            control.max_bits == self.max_bits,
            control.unit matches Some(u) && u@ == unit@,
    {
        ControlDefault { unit: Some(owned(unit)), ..self }
    }

    pub fn default(&self) -> (bits: u64)
        ensures
            bits == self.default_bits,
    {
        self.default_bits
    }

    pub fn min(&self) -> (bits: Option<u64>)
        ensures
            bits == self.min_bits,
    {
        self.min_bits
    }

    pub fn max(&self) -> (bits: Option<u64>)
        ensures
            bits == self.max_bits,
    {
        self.max_bits
    }

    pub fn unit(&self) -> (unit: Option<&str>)
        ensures
            match unit {
                Some(u) => self.unit matches Some(v) && u@ == v@,
                None => self.unit is None,
            },
    {
        match &self.unit {
            Some(u) => Some(u.as_str()),
            None => None,
        }
    }
}

/// Identity of a node instance within a graph definition.
#[derive(Debug, PartialEq, Eq)]
pub struct NodeId(pub String);

impl Clone for NodeId {
    fn clone(&self) -> (copy: Self)
        ensures
            copy == *self,
    {
        NodeId(self.0.clone())
    }
}

impl NodeId {
    pub fn new(value: &str) -> (id: Self)
        ensures
            id.0@ == value@,
    {
        NodeId(owned(value))
    }

    pub fn as_str(&self) -> (text: &str)
        ensures
            text@ == self.0@,
    {
        self.0.as_str()
    }

    /// `true` when both ids name the same node.
    pub fn same(&self, other: &NodeId) -> (same: bool)
        ensures
            same == (self.0@ == other.0@),
    {
        str_eq(self.0.as_str(), other.0.as_str())
    }
}

/// A reference to a named port on a node instance.
#[derive(Debug, PartialEq, Eq)]
pub struct PortRef {
    pub node: NodeId,
    pub port: String,
}

impl Clone for PortRef {
    fn clone(&self) -> (copy: Self)
        ensures
            copy == *self,
    {
        PortRef { node: self.node.clone(), port: self.port.clone() }
    }
}

impl PortRef {
    pub fn new(node: NodeId, port: &str) -> (reference: Self)
        ensures
            reference.node == node,
            reference.port@ == port@,
    {
        PortRef { node, port: owned(port) }
    }

    pub fn node(&self) -> (node: &NodeId)
        ensures
            *node == self.node,
    {
        &self.node
    }

    pub fn port(&self) -> (port: &str)
        ensures
            port@ == self.port@,
    {
        self.port.as_str()
    }
}

/// A directed connection between an output port and an input port.
#[derive(Debug, PartialEq, Eq)]
pub struct Connection {
    pub source: PortRef,
    pub destination: PortRef,
}

impl Clone for Connection {
    fn clone(&self) -> (copy: Self)
        ensures
            copy == *self,
    {
        Connection { source: self.source.clone(), destination: self.destination.clone() }
    }
}

impl Connection {
    pub fn new(source: PortRef, destination: PortRef) -> (connection: Self)
        ensures
            connection == (Connection { source, destination }),
    {
        Connection { source, destination }
    }

    pub fn source(&self) -> (source: &PortRef)
        ensures
            *source == self.source,
    {
        &self.source
    }

    pub fn destination(&self) -> (destination: &PortRef)
        ensures
            *destination == self.destination,
    {
        &self.destination
    }
}

/// How many incoming connections an input port accepts.
#[derive(Clone, Copy, Debug, PartialEq, Eq, Structural)]
pub enum Multiplicity {
    /// At most one incoming connection.
    SingleSource,
    /// Any number of incoming connections, summed.
    Summing,
}

/// A port whose channel count has been resolved against a node's static
/// arguments.
#[derive(Debug, PartialEq, Eq)]
pub struct ResolvedPort {
    pub name: String,
    pub direction: PortDirection,
    pub signal_type: SignalType,
    pub channels: u32,
    pub control_default: Option<ControlDefault>,
    pub multiplicity: Multiplicity,
}

impl Clone for ResolvedPort {
    fn clone(&self) -> (copy: Self)
        ensures
            copy == *self,
    {
        ResolvedPort {
            name: self.name.clone(),
            direction: self.direction,
            signal_type: self.signal_type,
            channels: self.channels,
            control_default: match &self.control_default {
                Some(control) => Some(control.clone()),
                None => None,
            },
            multiplicity: self.multiplicity,
        }
    }
}

impl ResolvedPort {
    pub fn multiplicity(&self) -> (multiplicity: Multiplicity)
        ensures
            multiplicity == self.multiplicity,
    {
        self.multiplicity
    }

    pub fn name(&self) -> (name: &str)
        ensures
            name@ == self.name@,
    {
        self.name.as_str()
    }

    pub fn direction(&self) -> (direction: PortDirection)
        ensures
            direction == self.direction,
    {
        self.direction
    }

    pub fn signal_type(&self) -> (signal_type: SignalType)
        ensures
            signal_type == self.signal_type,
    {
        self.signal_type
    }

    pub fn channels(&self) -> (channels: u32)
        ensures
            channels == self.channels,
    {
        self.channels
    }

    pub fn control_default(&self) -> (control: Option<&ControlDefault>)
        ensures
            match control {
                Some(c) => self.control_default == Some(*c),
                None => self.control_default is None,
            },
    {
        match &self.control_default {
            Some(c) => Some(c),
            None => None,
        }
    }
}

/// A compiler-recorded step promoting a `control` output to an `audio` input.
#[derive(Debug, PartialEq, Eq)]
pub struct PromotionStep {
    pub source: PortRef,
    pub destination: PortRef,
    pub channels: u32,
}

impl PromotionStep {
    pub fn source(&self) -> (source: &PortRef)
        ensures
            *source == self.source,
    {
        &self.source
    }

    pub fn destination(&self) -> (destination: &PortRef)
        ensures
            *destination == self.destination,
    {
        &self.destination
    }

    pub fn channels(&self) -> (channels: u32)
        ensures
            channels == self.channels,
    {
        self.channels
    }
}

/// The effective source of a control input port after default/override/cable
/// resolution.
#[derive(Clone, Copy, Debug, PartialEq, Eq, Structural)]
pub enum EffectiveInput {
    /// An incoming cable drives the port; it takes precedence over any default.
    Connected,
    /// No cable; the port reads the value with these `f64` bits.
    Value(u64),
}

/// The outcome of validating a graph definition: accumulated diagnostics plus
/// the control→audio promotion steps the compiler must insert.
#[derive(Debug, PartialEq, Eq)]
pub struct KernelValidation {
    pub diagnostics: Diagnostics,
    pub promotions: Vec<PromotionStep>,
}

impl KernelValidation {
    pub fn diagnostics(&self) -> (diagnostics: &Diagnostics)
        ensures
            *diagnostics == self.diagnostics,
    {
        &self.diagnostics
    }

    pub fn promotions(&self) -> (promotions: &Vec<PromotionStep>)
        ensures
            *promotions == self.promotions,
    {
        &self.promotions
    }

    /// True when no error-severity diagnostics were produced.
    pub fn is_ok(&self) -> (ok: bool)
        ensures
            ok == !crate::diagnostics::any_error(self.diagnostics@),
    {
        !self.diagnostics.has_errors()
    }
}

/// A named, typed, channel-counted port on a graph definition.
///
/// On a composite definition, a public input port forwards inbound signal to
/// the internal ports named in `maps_to`, and a public output port gathers from
/// the internal ports named in `maps_from`. Primitive (atomic) ports leave both
/// empty.
#[derive(Clone, Debug, PartialEq, Eq)]
pub struct Port {
    pub name: String,
    pub direction: PortDirection,
    pub signal_type: SignalType,
    pub channels: ChannelCount,
    pub control_default: Option<ControlDefault>,
    pub maps_to: Vec<PortRef>,
    pub maps_from: Vec<PortRef>,
    pub multiplicity: Multiplicity,
}

impl Port {
    pub fn input(name: &str, signal_type: SignalType, channels: ChannelCount) -> (port: Self)
        ensures
            port.name@ == name@,
            port.direction == PortDirection::Input,
            port.signal_type == signal_type,
            port.channels == channels,
            port.control_default is None,
            port.maps_to@.len() == 0,
            port.maps_from@.len() == 0,
            port.multiplicity == Multiplicity::SingleSource,
    {
        Port {
            name: owned(name),
            direction: PortDirection::Input,
            signal_type,
            channels,
            control_default: None,
            maps_to: Vec::new(),
            maps_from: Vec::new(),
            multiplicity: Multiplicity::SingleSource,
        }
    }

    pub fn output(name: &str, signal_type: SignalType, channels: ChannelCount) -> (port: Self)
        ensures
            port.name@ == name@,
            port.direction == PortDirection::Output,
            port.signal_type == signal_type,
            port.channels == channels,
            port.control_default is None,
            port.maps_to@.len() == 0,
            port.maps_from@.len() == 0,
            port.multiplicity == Multiplicity::SingleSource,
    {
        Port {
            name: owned(name),
            direction: PortDirection::Output,
            signal_type,
            channels,
            control_default: None,
            maps_to: Vec::new(),
            maps_from: Vec::new(),
            multiplicity: Multiplicity::SingleSource,
        }
    }

    /// Sets how many incoming connections this port accepts.
    pub fn with_multiplicity(self, multiplicity: Multiplicity) -> (port: Self)
        ensures
            port == (Port { multiplicity, ..self }),
    {
        Port { multiplicity, ..self }
    }

    pub fn multiplicity(&self) -> (multiplicity: Multiplicity)
        ensures
            multiplicity == self.multiplicity,
    {
        self.multiplicity
    }

    pub fn with_control_default(self, control_default: ControlDefault) -> (port: Self)
        ensures
            port == (Port { control_default: Some(control_default), ..self }),
    {
        Port { control_default: Some(control_default), ..self }
    }

    /// Forward this public input port to an internal node's input port.
    pub fn maps_to(self, internal: PortRef) -> (port: Self)
        ensures
            port.name == self.name,
            port.direction == self.direction,
            port.signal_type == self.signal_type,
            port.channels == self.channels,
            port.control_default == self.control_default,
            port.multiplicity == self.multiplicity,
            port.maps_to@ == self.maps_to@.push(internal),
            port.maps_from@ == self.maps_from@,
    {
        let mut port = self;
        port.maps_to.push(internal);
        port
    }

    /// Gather this public output port from an internal node's output port.
    pub fn maps_from(self, internal: PortRef) -> (port: Self)
        ensures
            port.name == self.name,
            port.direction == self.direction,
            port.signal_type == self.signal_type,
            port.channels == self.channels,
            port.control_default == self.control_default,
            port.multiplicity == self.multiplicity,
            port.maps_to@ == self.maps_to@,
            port.maps_from@ == self.maps_from@.push(internal),
    {
        let mut port = self;
        port.maps_from.push(internal);
        port
    }

    pub fn internal_targets(&self) -> (targets: &Vec<PortRef>)
        ensures
            targets@ == self.maps_to@,
    {
        &self.maps_to
    }

    pub fn internal_sources(&self) -> (sources: &Vec<PortRef>)
        ensures
            sources@ == self.maps_from@,
    {
        &self.maps_from
    }

    pub fn name(&self) -> (name: &str)
        ensures
            name@ == self.name@,
    {
        self.name.as_str()
    }

    pub fn direction(&self) -> (direction: PortDirection)
        ensures
            direction == self.direction,
    {
        self.direction
    }

    pub fn signal_type(&self) -> (signal_type: SignalType)
        ensures
            signal_type == self.signal_type,
    {
        self.signal_type
    }

    pub fn channels(&self) -> (channels: &ChannelCount)
        ensures
            *channels == self.channels,
    {
        &self.channels
    }

    pub fn control_default(&self) -> (control: Option<&ControlDefault>)
        ensures
            match control {
                Some(c) => self.control_default == Some(*c),
                None => self.control_default is None,
            },
    {
        match &self.control_default {
            Some(c) => Some(c),
            None => None,
        }
    }
}

/// A node instance: a reference to a graph definition, its static arguments,
/// and any per-instance overrides of port default values (as `f64` bits).
#[derive(Clone, Debug, PartialEq, Eq)]
pub struct Node {
    pub id: NodeId,
    pub definition_ref: String,
    pub static_args: NameMap<StaticArg>,
    pub port_default_overrides: NameMap<u64>,
}

impl Node {
    pub fn new(id: NodeId, definition_ref: &str) -> (node: Self)
        ensures
            node.id == id,
            node.definition_ref@ == definition_ref@,
            node.static_args.pairs().len() == 0,
            node.port_default_overrides.pairs().len() == 0,
    {
        Node {
            id,
            definition_ref: owned(definition_ref),
            static_args: NameMap::new(),
            port_default_overrides: NameMap::new(),
        }
    }

    pub fn with_static_arg(self, name: &str, arg: StaticArg) -> (node: Self)
        ensures
            node.id == self.id,
            node.definition_ref == self.definition_ref,
            node.static_args.lookup(name@) == Some(arg),
            forall|other: Seq<char>| other != name@ ==> node.static_args.lookup(other) == self.static_args.lookup(other),
            node.port_default_overrides == self.port_default_overrides,
    {
        let mut node = self;
        node.static_args.insert(name, arg);
        node
    }

    pub fn with_default_override(self, port_name: &str, value_bits: u64) -> (node: Self)
        ensures
            node.id == self.id,
            node.definition_ref == self.definition_ref,
            node.static_args == self.static_args,
            node.port_default_overrides.lookup(port_name@) == Some(value_bits),
            forall|other: Seq<char>| other != port_name@ ==> node.port_default_overrides.lookup(other)
                == self.port_default_overrides.lookup(other),
    {
        let mut node = self;
        node.port_default_overrides.insert(port_name, value_bits);
        node
    }

    pub fn id(&self) -> (id: &NodeId)
        ensures
            *id == self.id,
    {
        &self.id
    }

    pub fn definition_ref(&self) -> (definition_ref: &str)
        ensures
            definition_ref@ == self.definition_ref@,
    {
        self.definition_ref.as_str()
    }

    pub fn static_args(&self) -> (args: &NameMap<StaticArg>)
        ensures
            *args == self.static_args,
    {
        &self.static_args
    }

    pub fn port_default_overrides(&self) -> (overrides: &NameMap<u64>)
        ensures
            *overrides == self.port_default_overrides,
    {
        &self.port_default_overrides
    }
}

/// A graph definition: the single recursive unit that describes primitives,
/// composites, and complete patches alike.
#[derive(Clone, Debug, PartialEq, Eq)]
pub struct GraphDefinition {
    pub name: String,
    pub static_params: Vec<StaticParam>,
    pub ports: Vec<Port>,
    pub nodes: Vec<Node>,
    pub connections: Vec<Connection>,
    pub latency: LatencySpec,
}

/// Position of the first parameter named `name` (the length when none is).
pub open spec fn param_position(params: Seq<StaticParam>, name: Seq<char>) -> int
    decreases params.len(),
{
    if params.len() == 0 {
        0
    } else if params[0].name@ == name {
        0
    } else {
        1 + param_position(params.drop_first(), name)
    }
}

pub proof fn lemma_param_position(params: Seq<StaticParam>, name: Seq<char>)
    ensures
        0 <= param_position(params, name) <= params.len(),
        param_position(params, name) < params.len() ==> params[param_position(params, name)].name@ == name,
        forall|j: int| 0 <= j < param_position(params, name) ==> params[j].name@ != name,
    decreases params.len(),
{
    if params.len() > 0 && params[0].name@ != name {
        lemma_param_position(params.drop_first(), name);
        assert forall|j: int| 0 <= j < param_position(params, name) implies params[j].name@ != name by {
            if j > 0 {
                assert(params[j] == params.drop_first()[j - 1]);
            }
        }
    }
}

proof fn lemma_param_position_unique(params: Seq<StaticParam>, name: Seq<char>, i: int)
    requires
        0 <= i <= params.len(),
        forall|j: int| 0 <= j < i ==> params[j].name@ != name,
        i == params.len() || params[i].name@ == name,
    ensures
        param_position(params, name) == i,
    decreases params.len(),
{
    if params.len() > 0 && params[0].name@ != name {
        let t = params.drop_first();
        assert forall|j: int| 0 <= j < i - 1 implies t[j].name@ != name by {
            assert(t[j] == params[j + 1]);
        }
        if i < params.len() {
            assert(t[i - 1] == params[i]);
        }
        lemma_param_position_unique(t, name, i - 1);
    }
}

/// The first parameter named `name`.
pub open spec fn param_named(params: Seq<StaticParam>, name: Seq<char>) -> Option<StaticParam> {
    if param_position(params, name) < params.len() {
        Some(params[param_position(params, name)])
    } else {
        None
    }
}

/// Position of the first node with id `id` (the length when none has it).
pub open spec fn node_position(nodes: Seq<Node>, id: Seq<char>) -> int
    decreases nodes.len(),
{
    if nodes.len() == 0 {
        0
    } else if nodes[0].id.0@ == id {
        0
    } else {
        1 + node_position(nodes.drop_first(), id)
    }
}

pub proof fn lemma_node_position(nodes: Seq<Node>, id: Seq<char>)
    ensures
        0 <= node_position(nodes, id) <= nodes.len(),
        node_position(nodes, id) < nodes.len() ==> nodes[node_position(nodes, id)].id.0@ == id,
        forall|j: int| 0 <= j < node_position(nodes, id) ==> nodes[j].id.0@ != id,
    decreases nodes.len(),
{
    if nodes.len() > 0 && nodes[0].id.0@ != id {
        lemma_node_position(nodes.drop_first(), id);
        assert forall|j: int| 0 <= j < node_position(nodes, id) implies nodes[j].id.0@ != id by {
            if j > 0 {
                assert(nodes[j] == nodes.drop_first()[j - 1]);
            }
        }
    }
}

proof fn lemma_node_position_unique(nodes: Seq<Node>, id: Seq<char>, i: int)
    requires
        0 <= i <= nodes.len(),
        forall|j: int| 0 <= j < i ==> nodes[j].id.0@ != id,
        i == nodes.len() || nodes[i].id.0@ == id,
    ensures
        node_position(nodes, id) == i,
    decreases nodes.len(),
{
    if nodes.len() > 0 && nodes[0].id.0@ != id {
        let t = nodes.drop_first();
        assert forall|j: int| 0 <= j < i - 1 implies t[j].id.0@ != id by {
            assert(t[j] == nodes[j + 1]);
        }
        if i < nodes.len() {
            assert(t[i - 1] == nodes[i]);
        }
        lemma_node_position_unique(t, id, i - 1);
    }
}

/// The first node with id `id`.
pub open spec fn node_named(nodes: Seq<Node>, id: Seq<char>) -> Option<Node> {
    if node_position(nodes, id) < nodes.len() {
        Some(nodes[node_position(nodes, id)])
    } else {
        None
    }
}

impl GraphDefinition {
    pub fn new(name: &str) -> (definition: Self)
        ensures
            definition.name@ == name@,
            definition.static_params@.len() == 0,
            definition.ports@.len() == 0,
            definition.nodes@.len() == 0,
            definition.connections@.len() == 0,
            definition.latency == LatencySpec::Zero,
    {
        GraphDefinition {
            name: owned(name),
            static_params: Vec::new(),
            ports: Vec::new(),
            nodes: Vec::new(),
            connections: Vec::new(),
            latency: LatencySpec::Zero,
        }
    }

    pub fn with_static_param(self, param: StaticParam) -> (definition: Self)
        ensures
            definition.static_params@ == self.static_params@.push(param),
            definition.name == self.name,
            definition.ports == self.ports,
            definition.nodes == self.nodes,
            definition.connections == self.connections,
            definition.latency == self.latency,
    {
        let mut definition = self;
        definition.static_params.push(param);
        definition
    }

    pub fn with_port(self, port: Port) -> (definition: Self)
        ensures
            definition.ports@ == self.ports@.push(port),
            definition.name == self.name,
            definition.static_params == self.static_params,
            definition.nodes == self.nodes,
            definition.connections == self.connections,
            definition.latency == self.latency,
    {
        let mut definition = self;
        definition.ports.push(port);
        definition
    }

    pub fn with_node(self, node: Node) -> (definition: Self)
        ensures
            definition.nodes@ == self.nodes@.push(node),
            definition.name == self.name,
            definition.static_params == self.static_params,
            definition.ports == self.ports,
            definition.connections == self.connections,
            definition.latency == self.latency,
    {
        let mut definition = self;
        definition.nodes.push(node);
        definition
    }

    pub fn with_connection(self, connection: Connection) -> (definition: Self)
        ensures
            definition.connections@ == self.connections@.push(connection),
            definition.name == self.name,
            definition.static_params == self.static_params,
            definition.ports == self.ports,
            definition.nodes == self.nodes,
            definition.latency == self.latency,
    {
        let mut definition = self;
        definition.connections.push(connection);
        definition
    }

    /// Declare this (atomic) definition's processing latency.
    pub fn with_latency(self, latency: LatencySpec) -> (definition: Self)
        ensures
            definition == (GraphDefinition { latency, ..self }),
    {
        GraphDefinition { latency, ..self }
    }

    pub fn name(&self) -> (name: &str)
        ensures
            name@ == self.name@,
    {
        self.name.as_str()
    }

    pub fn latency(&self) -> (latency: &LatencySpec)
        ensures
            *latency == self.latency,
    {
        &self.latency
    }

    pub fn static_params(&self) -> (params: &Vec<StaticParam>)
        ensures
            params@ == self.static_params@,
    {
        &self.static_params
    }

    pub fn ports(&self) -> (ports: &Vec<Port>)
        ensures
            ports@ == self.ports@,
    {
        &self.ports
    }

    pub fn nodes(&self) -> (nodes: &Vec<Node>)
        ensures
            nodes@ == self.nodes@,
    {
        &self.nodes
    }

    pub fn connections(&self) -> (connections: &Vec<Connection>)
        ensures
            connections@ == self.connections@,
    {
        &self.connections
    }

    /// The first static parameter named `name`.
    pub fn static_param(&self, name: &str) -> (param: Option<&StaticParam>)
        ensures
            match param {
                Some(p) => param_named(self.static_params@, name@) == Some(*p),
                None => param_named(self.static_params@, name@) is None,
            },
    {
        let mut i: usize = 0;
        while i < self.static_params.len()
            invariant
                i <= self.static_params@.len(),
                forall|j: int| 0 <= j < i ==> self.static_params@[j].name@ != name@,
            decreases self.static_params@.len() - i,
        {
            if str_eq(self.static_params[i].name.as_str(), name) {
                proof {
                    lemma_param_position_unique(self.static_params@, name@, i as int);
                }
                return Some(&self.static_params[i]);
            }
            i = i + 1;
        }
        proof {
            lemma_param_position_unique(self.static_params@, name@, i as int);
        }
        None
    }

    /// The first node with id `id`.
    pub fn node(&self, id: &NodeId) -> (node: Option<&Node>)
        ensures
            match node {
                Some(n) => node_named(self.nodes@, id.0@) == Some(*n),
                None => node_named(self.nodes@, id.0@) is None,
            },
    {
        let mut i: usize = 0;
        while i < self.nodes.len()
            invariant
                i <= self.nodes@.len(),
                forall|j: int| 0 <= j < i ==> self.nodes@[j].id.0@ != id.0@,
            decreases self.nodes@.len() - i,
        {
            if self.nodes[i].id.same(id) {
                proof {
                    lemma_node_position_unique(self.nodes@, id.0@, i as int);
                }
                return Some(&self.nodes[i]);
            }
            i = i + 1;
        }
        proof {
            lemma_node_position_unique(self.nodes@, id.0@, i as int);
        }
        None
    }
}

/// A registry of graph definitions (primitives and composites) available for
/// instantiation, keyed by definition name.
#[derive(Clone, Debug, PartialEq, Eq)]
pub struct DefinitionRegistry {
    pub definitions: NameMap<GraphDefinition>,
}

impl DefinitionRegistry {
    /// The definition registered under `name`.
    pub open spec fn lookup(&self, name: Seq<char>) -> Option<GraphDefinition> {
        self.definitions.lookup(name)
    }

    pub fn new() -> (registry: Self)
        ensures
            forall|name: Seq<char>| registry.lookup(name) is None,
    {
        let registry = DefinitionRegistry { definitions: NameMap::new() };
        assert forall|name: Seq<char>| registry.lookup(name) is None by {}
        registry
    }

    /// Registers `definition` under its name, replacing any definition of the
    /// same name.
    pub fn with_definition(self, definition: GraphDefinition) -> (registry: Self)
        ensures
            registry.lookup(definition.name@) == Some(definition),
            forall|other: Seq<char>| other != definition.name@ ==> registry.lookup(other) == self.lookup(other),
    {
        let mut registry = self;
        let ghost key = definition.name@;
        let name = owned(definition.name.as_str());
        registry.definitions.insert(name.as_str(), definition);
        registry
    }

    /// The definition registered under `name`, if any.
    pub fn get(&self, name: &str) -> (definition: Option<&GraphDefinition>)
        ensures
            match definition {
                Some(d) => self.lookup(name@) == Some(*d),
                None => self.lookup(name@) is None,
            },
    {
        self.definitions.get(name)
    }

    /// Every registered definition, in name order.
    pub fn definitions(&self) -> (definitions: &NameMap<GraphDefinition>)
        ensures
            *definitions == self.definitions,
    {
        &self.definitions
    }
}

} // verus!
