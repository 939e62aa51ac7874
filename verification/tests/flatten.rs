use dandrum_engine::diagnostics::{Diagnostics, ErrorCode};
use dandrum_engine::flatten::MAX_FLATTEN_DEPTH;
use dandrum_engine::kernel::{
    ChannelCount, Connection, ControlDefault, DefinitionRegistry, GraphDefinition, LatencySpec, Node, NodeId, Port,
    PortDirection, PortRef, SignalType, StaticArg, StaticParam, StaticType, StaticValue, CONTROL_TO_AUDIO_DEFINITION,
};

fn mono() -> ChannelCount {
    ChannelCount::Literal(1)
}

fn oscillator() -> GraphDefinition {
    GraphDefinition::new("oscillator").with_port(Port::output("audio", SignalType::Audio, mono()))
}

fn gain() -> GraphDefinition {
    GraphDefinition::new("gain")
        .with_port(Port::input("audio_in", SignalType::Audio, mono()))
        .with_port(
            Port::input("level", SignalType::Control, mono()).with_control_default(ControlDefault::new(1.0f64.to_bits())),
        )
        .with_port(Port::output("audio_out", SignalType::Audio, mono()))
}

fn echo() -> GraphDefinition {
    GraphDefinition::new("echo")
        .with_static_param(StaticParam::new("channels", StaticType::Int).with_default(StaticValue::Int(2)))
        .with_port(Port::input("audio_in", SignalType::Audio, ChannelCount::param("channels")))
        .with_port(Port::output("audio_out", SignalType::Audio, ChannelCount::param("channels")))
}

/// A composite exposing an `audio` output gathered from an internal node's
/// output port.
fn wrapping_composite(name: &str, child_type: &str, child_id: &str) -> GraphDefinition {
    GraphDefinition::new(name)
        .with_port(
            Port::output("audio", SignalType::Audio, mono()).maps_from(PortRef::new(NodeId::new(child_id), "audio")),
        )
        .with_node(Node::new(NodeId::new(child_id), child_type))
}

fn cable(from: &str, from_port: &str, to: &str, to_port: &str) -> Connection {
    Connection::new(PortRef::new(NodeId::new(from), from_port), PortRef::new(NodeId::new(to), to_port))
}

fn has_error(diagnostics: &Diagnostics, code: ErrorCode) -> bool {
    diagnostics.all().iter().any(|d| d.is_error() && d.error_code() == code)
}

fn int_arg(value: i64) -> StaticArg {
    StaticArg::Literal(StaticValue::Int(value))
}

#[test]
fn nested_composites_flatten_to_atomic_nodes_with_namespaced_ids() {
    let registry = DefinitionRegistry::new()
        .with_definition(oscillator())
        .with_definition(wrapping_composite("inner", "oscillator", "osc"))
        .with_definition(wrapping_composite("outer", "inner", "in"));
    let root = GraphDefinition::new("root").with_node(Node::new(NodeId::new("o"), "outer"));

    let flat = root.flatten(&registry).expect("flattens");

    assert_eq!(flat.nodes().len(), 1);
    assert_eq!(flat.nodes()[0].id().as_str(), "o::in::osc");
    assert_eq!(flat.nodes()[0].definition(), "oscillator");
}

#[test]
fn boundary_ports_forward_connections_to_atomic_ports() {
    let registry = DefinitionRegistry::new()
        .with_definition(oscillator())
        .with_definition(gain())
        .with_definition(wrapping_composite("inner", "oscillator", "osc"))
        .with_definition(wrapping_composite("outer", "inner", "in"));
    let root = GraphDefinition::new("root")
        .with_node(Node::new(NodeId::new("o"), "outer"))
        .with_node(Node::new(NodeId::new("amp"), "gain"))
        .with_connection(cable("o", "audio", "amp", "audio_in"));

    let flat = root.flatten(&registry).expect("flattens");

    assert_eq!(flat.connections().len(), 1);
    let connection = &flat.connections()[0];
    assert_eq!(connection.source().node().as_str(), "o::in::osc");
    assert_eq!(connection.source().port(), "audio");
    assert_eq!(connection.destination().node().as_str(), "amp");
    assert_eq!(connection.destination().port(), "audio_in");
}

#[test]
fn flattening_is_deterministic_and_repeatable() {
    let registry = DefinitionRegistry::new()
        .with_definition(oscillator())
        .with_definition(gain())
        .with_definition(wrapping_composite("inner", "oscillator", "osc"))
        .with_definition(wrapping_composite("outer", "inner", "in"));
    let root = GraphDefinition::new("root")
        .with_node(Node::new(NodeId::new("o"), "outer"))
        .with_node(Node::new(NodeId::new("amp"), "gain"))
        .with_connection(cable("o", "audio", "amp", "audio_in"));

    assert_eq!(root.flatten(&registry).expect("first"), root.flatten(&registry).expect("second"));
}

#[test]
fn resolved_channel_count_flows_into_atomic_ports() {
    let registry = DefinitionRegistry::new().with_definition(echo());
    let root = GraphDefinition::new("root")
        .with_node(Node::new(NodeId::new("e"), "echo").with_static_arg("channels", int_arg(2)));

    let flat = root.flatten(&registry).expect("flattens");

    assert_eq!(flat.nodes()[0].ports()[0].channels(), 2);
}

#[test]
fn instance_override_becomes_effective_atomic_default() {
    let registry = DefinitionRegistry::new().with_definition(gain());
    let root = GraphDefinition::new("root")
        .with_node(Node::new(NodeId::new("amp"), "gain").with_default_override("level", 0.3f64.to_bits()));

    let flat = root.flatten(&registry).expect("flattens");

    assert_eq!(flat.nodes()[0].port_defaults().get("level"), Some(&0.3f64.to_bits()));
}

#[test]
fn declared_default_becomes_effective_atomic_default_without_override() {
    let registry = DefinitionRegistry::new().with_definition(gain());
    let root = GraphDefinition::new("root").with_node(Node::new(NodeId::new("amp"), "gain"));

    let flat = root.flatten(&registry).expect("flattens");

    assert_eq!(flat.nodes()[0].port_defaults().get("level"), Some(&1.0f64.to_bits()));
}

#[test]
fn repeated_identical_instances_reuse_one_expansion() {
    let registry = DefinitionRegistry::new().with_definition(echo());
    let mut root = GraphDefinition::new("root");
    for index in 0..5 {
        root = root.with_node(
            Node::new(NodeId::new(&format!("e{index}")), "echo").with_static_arg("channels", int_arg(2)),
        );
    }

    let flat = root.flatten(&registry).expect("flattens");

    assert_eq!(flat.nodes().len(), 5, "each instance is a distinct node");
    assert_eq!(flat.expansion_count(), 2, "root plus one shared echo expansion");
}

#[test]
fn distinct_static_arguments_expand_separately() {
    let registry = DefinitionRegistry::new().with_definition(echo());
    let root = GraphDefinition::new("root")
        .with_node(Node::new(NodeId::new("mono"), "echo").with_static_arg("channels", int_arg(1)))
        .with_node(Node::new(NodeId::new("stereo"), "echo").with_static_arg("channels", int_arg(2)));

    let flat = root.flatten(&registry).expect("flattens");

    assert_eq!(flat.expansion_count(), 3, "root plus one echo expansion per distinct channel count");
    assert_eq!(flat.node(&NodeId::new("mono")).unwrap().ports()[0].channels(), 1);
    assert_eq!(flat.node(&NodeId::new("stereo")).unwrap().ports()[0].channels(), 2);
}

/// A spectral processor whose latency is `fft_size - 1`, driven by a static
/// parameter.
fn spectral() -> GraphDefinition {
    GraphDefinition::new("spectral")
        .with_static_param(StaticParam::new("fft_size", StaticType::Int).with_default(StaticValue::Int(1024)))
        .with_latency(LatencySpec::StaticParam { name: "fft_size".to_string(), minus: 1 })
        .with_port(Port::input("audio_in", SignalType::Audio, mono()))
        .with_port(Port::output("audio_out", SignalType::Audio, mono()))
}

#[test]
fn primitive_reports_zero_latency() {
    let registry = DefinitionRegistry::new().with_definition(gain());
    let root = GraphDefinition::new("root").with_node(Node::new(NodeId::new("amp"), "gain"));

    let flat = root.flatten(&registry).expect("flattens");

    assert_eq!(flat.nodes()[0].latency(), 0);
}

#[test]
fn latency_reflects_resolved_static_argument() {
    let registry = DefinitionRegistry::new().with_definition(spectral());
    let root = GraphDefinition::new("root")
        .with_node(Node::new(NodeId::new("fft"), "spectral").with_static_arg("fft_size", int_arg(512)));

    let flat = root.flatten(&registry).expect("flattens");

    assert_eq!(flat.nodes()[0].latency(), 511, "spectral latency is fft_size - 1");
}

#[test]
fn dangling_latency_reference_fails_compilation_instead_of_reporting_zero() {
    let broken = GraphDefinition::new("spectral")
        .with_latency(LatencySpec::StaticParam { name: "fft_size".to_string(), minus: 1 })
        .with_port(Port::input("audio_in", SignalType::Audio, mono()))
        .with_port(Port::output("audio_out", SignalType::Audio, mono()));
    let registry = DefinitionRegistry::new().with_definition(broken);
    let root = GraphDefinition::new("root").with_node(Node::new(NodeId::new("fft"), "spectral"));

    let diagnostics = root.flatten(&registry).expect_err("dangling latency reference must fail compilation");

    assert!(has_error(&diagnostics, ErrorCode::KernelUnresolvedStaticReference), "got: {diagnostics:?}");
}

#[test]
fn negative_channel_count_static_argument_fails_compilation_instead_of_reporting_one() {
    let registry = DefinitionRegistry::new().with_definition(echo());
    let root = GraphDefinition::new("root")
        .with_node(Node::new(NodeId::new("e"), "echo").with_static_arg("channels", int_arg(-1)));

    let diagnostics = root.flatten(&registry).expect_err("negative channel count must fail compilation");

    assert!(has_error(&diagnostics, ErrorCode::KernelInvalidStaticReferenceValue), "got: {diagnostics:?}");
}

#[test]
fn zero_channel_count_static_argument_fails_compilation() {
    let registry = DefinitionRegistry::new().with_definition(echo());
    let root = GraphDefinition::new("root")
        .with_node(Node::new(NodeId::new("e"), "echo").with_static_arg("channels", int_arg(0)));

    let diagnostics = root.flatten(&registry).expect_err("zero channel count must fail compilation");

    assert!(has_error(&diagnostics, ErrorCode::KernelInvalidStaticReferenceValue), "got: {diagnostics:?}");
}

#[test]
fn negative_latency_static_argument_fails_compilation_instead_of_reporting_zero() {
    let registry = DefinitionRegistry::new().with_definition(spectral());
    let root = GraphDefinition::new("root")
        .with_node(Node::new(NodeId::new("fft"), "spectral").with_static_arg("fft_size", int_arg(-1)));

    let diagnostics = root.flatten(&registry).expect_err("negative latency must fail compilation");

    assert!(has_error(&diagnostics, ErrorCode::KernelInvalidStaticReferenceValue), "got: {diagnostics:?}");
}

#[test]
fn latency_static_argument_smaller_than_minus_fails_compilation() {
    let registry = DefinitionRegistry::new().with_definition(spectral());
    let root = GraphDefinition::new("root")
        .with_node(Node::new(NodeId::new("fft"), "spectral").with_static_arg("fft_size", int_arg(0)));

    let diagnostics =
        root.flatten(&registry).expect_err("latency smaller than the subtracted constant must fail compilation");

    assert!(has_error(&diagnostics, ErrorCode::KernelInvalidStaticReferenceValue), "got: {diagnostics:?}");
}

#[test]
fn valid_resolved_channel_count_and_latency_still_flatten() {
    let registry = DefinitionRegistry::new().with_definition(echo()).with_definition(spectral());
    let root = GraphDefinition::new("root")
        .with_node(Node::new(NodeId::new("e"), "echo").with_static_arg("channels", int_arg(2)))
        .with_node(Node::new(NodeId::new("fft"), "spectral").with_static_arg("fft_size", int_arg(512)));

    let flat = root.flatten(&registry).expect("valid resolved static values flatten successfully");

    assert_eq!(flat.node(&NodeId::new("e")).unwrap().ports()[0].channels(), 2);
    assert_eq!(flat.node(&NodeId::new("fft")).unwrap().latency(), 511);
}

#[test]
fn resolved_node_ports_returns_none_for_invalid_resolved_channel_count() {
    let registry = DefinitionRegistry::new().with_definition(echo());
    let root = GraphDefinition::new("root")
        .with_node(Node::new(NodeId::new("e"), "echo").with_static_arg("channels", int_arg(0)));

    assert_eq!(root.resolved_node_ports(&registry, &NodeId::new("e")), None);
}

/// A composite that forwards a public audio input to an internal gain and
/// gathers its output back out.
fn amplifier() -> GraphDefinition {
    GraphDefinition::new("amplifier")
        .with_port(
            Port::input("audio_in", SignalType::Audio, mono()).maps_to(PortRef::new(NodeId::new("g"), "audio_in")),
        )
        .with_port(
            Port::output("audio_out", SignalType::Audio, mono())
                .maps_from(PortRef::new(NodeId::new("g"), "audio_out")),
        )
        .with_node(Node::new(NodeId::new("g"), "gain"))
}

#[test]
fn composite_input_port_forwards_incoming_connections_to_internal_ports() {
    let registry = DefinitionRegistry::new()
        .with_definition(oscillator())
        .with_definition(gain())
        .with_definition(amplifier());
    let root = GraphDefinition::new("root")
        .with_node(Node::new(NodeId::new("osc"), "oscillator"))
        .with_node(Node::new(NodeId::new("amp"), "amplifier"))
        .with_connection(cable("osc", "audio", "amp", "audio_in"));

    let flat = root.flatten(&registry).expect("flattens");

    assert_eq!(flat.connections().len(), 1);
    let connection = &flat.connections()[0];
    assert_eq!(connection.source().node().as_str(), "osc");
    assert_eq!(connection.destination().node().as_str(), "amp::g");
    assert_eq!(connection.destination().port(), "audio_in");
}

#[test]
fn composite_input_mapped_to_an_unknown_internal_node_forwards_nothing() {
    let dangling = GraphDefinition::new("dangling").with_port(
        Port::input("audio_in", SignalType::Audio, mono()).maps_to(PortRef::new(NodeId::new("ghost"), "audio_in")),
    );
    let registry = DefinitionRegistry::new()
        .with_definition(oscillator())
        .with_definition(gain())
        .with_definition(dangling.with_node(Node::new(NodeId::new("g"), "gain")));
    let root = GraphDefinition::new("root")
        .with_node(Node::new(NodeId::new("osc"), "oscillator"))
        .with_node(Node::new(NodeId::new("d"), "dangling"))
        .with_connection(cable("osc", "audio", "d", "audio_in"));

    let flat = root.flatten(&registry).expect("flattens");

    assert!(flat.connections().is_empty());
}

#[test]
fn root_ports_expose_the_resolved_public_interface() {
    let registry = DefinitionRegistry::new().with_definition(gain());
    let root = GraphDefinition::new("root")
        .with_port(Port::input("in", SignalType::Audio, mono()).maps_to(PortRef::new(NodeId::new("g"), "audio_in")))
        .with_port(
            Port::output("out", SignalType::Audio, ChannelCount::Literal(2))
                .maps_from(PortRef::new(NodeId::new("g"), "audio_out")),
        )
        .with_node(Node::new(NodeId::new("g"), "gain"));

    let flat = root.flatten(&registry).expect("flattens");

    let names: Vec<&str> = flat.root_ports().iter().map(|port| port.name()).collect();
    assert_eq!(names, ["in", "out"], "both root ports are resolved");
    let output = flat
        .root_ports()
        .iter()
        .find(|port| port.direction() == PortDirection::Output)
        .expect("root declares an output port");
    assert_eq!(output.channels(), 2);
}

#[test]
fn atomic_nodes_record_their_resolved_static_arguments() {
    let registry = DefinitionRegistry::new().with_definition(echo());
    let root = GraphDefinition::new("root")
        .with_node(Node::new(NodeId::new("e"), "echo").with_static_arg("channels", int_arg(2)));

    let flat = root.flatten(&registry).expect("flattens");

    assert_eq!(flat.nodes()[0].static_args().get("channels"), Some(&StaticValue::Int(2)));
}

/// A primitive keyed by a non-integer static parameter of each remaining type.
fn sampler() -> GraphDefinition {
    GraphDefinition::new("sampler")
        .with_static_param(StaticParam::new("mode", StaticType::Enum))
        .with_static_param(StaticParam::new("sample", StaticType::Resource))
        .with_port(Port::output("audio", SignalType::Audio, mono()))
}

fn sampler_node(id: &str, mode: &str, sample: &str) -> Node {
    Node::new(NodeId::new(id), "sampler")
        .with_static_arg("mode", StaticArg::Literal(StaticValue::Enum(mode.into())))
        .with_static_arg("sample", StaticArg::Literal(StaticValue::Resource(sample.into())))
}

#[test]
fn enum_and_resource_static_arguments_key_the_expansion_cache() {
    let registry = DefinitionRegistry::new().with_definition(sampler());
    let root = GraphDefinition::new("root")
        .with_node(sampler_node("a", "loop", "kick"))
        .with_node(sampler_node("b", "loop", "kick"))
        .with_node(sampler_node("c", "loop", "snare"))
        .with_node(sampler_node("d", "one_shot", "kick"));

    let flat = root.flatten(&registry).expect("flattens");

    assert_eq!(flat.expansion_count(), 4);
}

#[test]
fn unknown_definition_reference_inside_a_composite_is_rejected() {
    let broken = GraphDefinition::new("broken").with_node(Node::new(NodeId::new("x"), "ghost"));
    let registry = DefinitionRegistry::new().with_definition(broken);
    let root = GraphDefinition::new("root").with_node(Node::new(NodeId::new("b"), "broken"));

    let diagnostics = root.flatten(&registry).expect_err("an undeclared definition must fail compilation");

    assert!(has_error(&diagnostics, ErrorCode::KernelUnknownDefinition), "got: {diagnostics:?}");
}

#[test]
fn unresolvable_static_arguments_fail_compilation_without_expanding_the_node() {
    let registry = DefinitionRegistry::new().with_definition(gain());
    let root = GraphDefinition::new("root")
        .with_node(Node::new(NodeId::new("amp"), "gain").with_static_arg("channels", int_arg(2)));

    let diagnostics = root.flatten(&registry).expect_err("an unknown static argument must fail compilation");

    assert!(has_error(&diagnostics, ErrorCode::KernelUnknownStaticArgument), "got: {diagnostics:?}");
}

#[test]
fn connection_referencing_an_unknown_node_is_dropped_rather_than_wired() {
    let registry = DefinitionRegistry::new().with_definition(gain());
    let root = GraphDefinition::new("root")
        .with_node(Node::new(NodeId::new("amp"), "gain"))
        .with_connection(cable("ghost", "audio_out", "amp", "audio_in"));

    let flat = root.flatten(&registry).expect("flattens");

    assert!(flat.connections().is_empty());
}

#[test]
fn override_of_an_unknown_port_leaves_declared_defaults_intact() {
    let registry = DefinitionRegistry::new().with_definition(gain());
    let root = GraphDefinition::new("root")
        .with_node(Node::new(NodeId::new("amp"), "gain").with_default_override("bogus", 0.3f64.to_bits()));

    let flat = root.flatten(&registry).expect("flattens");

    let defaults = flat.nodes()[0].port_defaults();
    assert_eq!(defaults.get("bogus"), None, "the unknown port gains no default");
    assert_eq!(defaults.get("level"), Some(&1.0f64.to_bits()));
}

#[test]
fn recursive_definition_is_rejected() {
    let recursive = GraphDefinition::new("loop").with_node(Node::new(NodeId::new("inner"), "loop"));
    let registry = DefinitionRegistry::new().with_definition(recursive);
    let root = GraphDefinition::new("root").with_node(Node::new(NodeId::new("l"), "loop"));

    let diagnostics = root.flatten(&registry).expect_err("recursion rejected");

    assert!(has_error(&diagnostics, ErrorCode::KernelRecursiveDefinition), "got: {diagnostics:?}");
}

#[test]
fn excessive_nesting_depth_is_rejected() {
    let mut registry = DefinitionRegistry::new().with_definition(oscillator());
    let chain_length = MAX_FLATTEN_DEPTH + 3;
    for index in 0..chain_length {
        let child = if index + 1 == chain_length { "oscillator".to_string() } else { format!("c{}", index + 1) };
        registry = registry.with_definition(wrapping_composite(&format!("c{index}"), &child, "next"));
    }
    let root = GraphDefinition::new("root").with_node(Node::new(NodeId::new("c"), "c0"));

    let diagnostics = root.flatten(&registry).expect_err("depth rejected");

    assert!(has_error(&diagnostics, ErrorCode::KernelMaxDepthExceeded), "got: {diagnostics:?}");
}

#[test]
fn a_cached_expansion_keeps_its_own_defaults_when_instances_override_them() {
    let registry = DefinitionRegistry::new().with_definition(gain());
    let root = GraphDefinition::new("root")
        .with_node(Node::new(NodeId::new("a"), "gain").with_default_override("level", 0.5f64.to_bits()))
        .with_node(Node::new(NodeId::new("b"), "gain"));

    let flat = root.flatten(&registry).expect("flattens");

    assert_eq!(flat.expansion_count(), 2);
    assert_eq!(flat.node(&NodeId::new("a")).unwrap().port_defaults().get("level"), Some(&0.5f64.to_bits()));
    assert_eq!(flat.node(&NodeId::new("b")).unwrap().port_defaults().get("level"), Some(&1.0f64.to_bits()));
}

#[test]
fn root_output_sources_follow_the_root_output_ports() {
    let registry = DefinitionRegistry::new().with_definition(gain()).with_definition(oscillator());
    let root = GraphDefinition::new("root")
        .with_port(
            Port::output("out", SignalType::Audio, mono()).maps_from(PortRef::new(NodeId::new("g"), "audio_out")),
        )
        .with_node(Node::new(NodeId::new("osc"), "oscillator"))
        .with_node(Node::new(NodeId::new("g"), "gain"))
        .with_connection(cable("osc", "audio", "g", "audio_in"));

    let flat = root.flatten(&registry).expect("flattens");

    assert_eq!(flat.root_output_sources().len(), 1);
    assert_eq!(flat.root_output_sources()[0].node().as_str(), "g");
    assert_eq!(flat.root_output_sources()[0].port(), "audio_out");
}

fn control_source() -> GraphDefinition {
    GraphDefinition::new("control_source").with_port(Port::output("cv", SignalType::Control, mono()))
}

/// A sink with a two-channel audio input, so a promotion adopts its width.
fn audio_sink() -> GraphDefinition {
    GraphDefinition::new("audio_sink").with_port(Port::input("audio_in", SignalType::Audio, ChannelCount::Literal(2)))
}

#[test]
fn control_to_audio_connection_inserts_a_visible_promotion_node() {
    let registry = DefinitionRegistry::new().with_definition(control_source()).with_definition(audio_sink());
    let root = GraphDefinition::new("root")
        .with_node(Node::new(NodeId::new("lfo"), "control_source"))
        .with_node(Node::new(NodeId::new("amp"), "audio_sink"))
        .with_connection(cable("lfo", "cv", "amp", "audio_in"));

    let flat = root.flatten(&registry).expect("flattens");

    assert_eq!(flat.promotions().len(), 1, "one control→audio edge is promoted");
    assert_eq!(flat.promotions()[0].channels(), 2, "promotion adopts the audio destination's channel count");

    let promotion = flat
        .nodes()
        .iter()
        .find(|node| node.definition() == CONTROL_TO_AUDIO_DEFINITION)
        .expect("a visible promotion node is inserted");
    assert_eq!(promotion.latency(), 0);

    assert!(
        flat.connections().iter().any(|c| c.source().port() == "cv" && c.destination().node() == promotion.id()),
        "control source now feeds the promotion node"
    );
    assert!(
        flat.connections()
            .iter()
            .any(|c| c.source().node() == promotion.id() && c.destination().port() == "audio_in"),
        "promotion node now feeds the audio destination"
    );
    assert!(
        !flat.connections().iter().any(|c| c.source().port() == "cv" && c.destination().port() == "audio_in"),
        "the direct control→audio edge is replaced, not left alongside"
    );
}

#[test]
fn matching_signal_connection_inserts_no_promotion() {
    let registry = DefinitionRegistry::new().with_definition(oscillator()).with_definition(gain());
    let root = GraphDefinition::new("root")
        .with_node(Node::new(NodeId::new("osc"), "oscillator"))
        .with_node(Node::new(NodeId::new("amp"), "gain"))
        .with_connection(cable("osc", "audio", "amp", "audio_in"));

    let flat = root.flatten(&registry).expect("flattens");

    assert!(flat.promotions().is_empty(), "an audio→audio connection needs no promotion");
    assert!(flat.nodes().iter().all(|node| node.definition() != CONTROL_TO_AUDIO_DEFINITION));
}

#[test]
fn promotion_nodes_are_numbered_in_connection_order() {
    let registry = DefinitionRegistry::new().with_definition(control_source()).with_definition(audio_sink());
    let root = GraphDefinition::new("root")
        .with_node(Node::new(NodeId::new("lfo"), "control_source"))
        .with_node(Node::new(NodeId::new("a"), "audio_sink"))
        .with_node(Node::new(NodeId::new("b"), "audio_sink"))
        .with_connection(cable("lfo", "cv", "a", "audio_in"))
        .with_connection(cable("lfo", "cv", "b", "audio_in"));

    let flat = root.flatten(&registry).expect("flattens");

    assert_eq!(flat.nodes().len(), 5);
    assert_eq!(flat.nodes()[3].id().as_str(), "promote::0");
    assert_eq!(flat.nodes()[4].id().as_str(), "promote::1");
    assert_eq!(flat.nodes()[4].ports()[0].name(), "in");
    assert_eq!(flat.nodes()[4].ports()[1].name(), "out");
    assert_eq!(flat.nodes()[4].static_args().get("channels"), Some(&StaticValue::Int(2)));
    assert_eq!(flat.connections().len(), 4);
    assert_eq!(flat.connections()[2].destination().node().as_str(), "promote::1");
    assert_eq!(flat.connections()[3].source().node().as_str(), "promote::1");
    assert_eq!(flat.connections()[3].destination().node().as_str(), "b");
    assert_eq!(flat.promotions()[1].destination().node().as_str(), "b");
}
