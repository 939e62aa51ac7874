use dandrum_engine::diagnostics::{Diagnostic, ErrorCode};
use dandrum_engine::kernel::{
    ChannelCount, Connection, ControlDefault, DefinitionRegistry, EffectiveInput, GraphDefinition, KernelValidation,
    LatencySpec, Multiplicity, Node, NodeId, Port, PortRef, SignalType, StaticArg, StaticParam, StaticType, StaticValue,
    FEEDBACK_DELAY_DEFINITION,
};
use dandrum_engine::name_map::NameMap;

fn mono() -> ChannelCount {
    ChannelCount::Literal(1)
}

fn stereo() -> ChannelCount {
    ChannelCount::Literal(2)
}

/// A `gain` primitive: one audio input, one control `level` input with a
/// default, one audio output.
fn gain_primitive() -> GraphDefinition {
    GraphDefinition::new("gain")
        .with_port(Port::input("audio_in", SignalType::Audio, mono()))
        .with_port(
            Port::input("level", SignalType::Control, mono()).with_control_default(
                ControlDefault::new(1.0f64.to_bits())
                    .with_min(0.0f64.to_bits())
                    .with_max(2.0f64.to_bits()),
            ),
        )
        .with_port(Port::output("audio_out", SignalType::Audio, mono()))
}

/// An `echo` primitive, channel-polymorphic through a `channels` integer
/// static parameter defaulting to `2`.
fn echo_primitive() -> GraphDefinition {
    GraphDefinition::new("echo")
        .with_static_param(StaticParam::new("channels", StaticType::Int).with_default(StaticValue::Int(2)))
        .with_port(Port::input("audio_in", SignalType::Audio, ChannelCount::param("channels")))
        .with_port(Port::output("audio_out", SignalType::Audio, ChannelCount::param("channels")))
}

fn errors(validation: &KernelValidation) -> Vec<&Diagnostic> {
    validation.diagnostics().all().iter().filter(|d| d.is_error()).collect()
}

fn only_error_code(validation: &KernelValidation) -> ErrorCode {
    let errors = errors(validation);
    assert_eq!(errors.len(), 1, "expected exactly one error, got: {:?}", validation.diagnostics());
    errors[0].error_code()
}

fn cable(from: &str, from_port: &str, to: &str, to_port: &str) -> Connection {
    Connection::new(PortRef::new(NodeId::new(from), from_port), PortRef::new(NodeId::new(to), to_port))
}

#[test]
fn graph_definition_preserves_declared_structure() {
    let definition = GraphDefinition::new("voice")
        .with_static_param(StaticParam::new("channels", StaticType::Int))
        .with_port(Port::output("audio_out", SignalType::Audio, stereo()))
        .with_node(Node::new(NodeId::new("osc"), "oscillator"))
        .with_connection(cable("osc", "audio", "amp", "audio_in"));

    assert_eq!(definition.name(), "voice");
    assert_eq!(definition.static_params().len(), 1);
    assert_eq!(definition.ports()[0].name(), "audio_out");
    assert_eq!(definition.nodes()[0].id().as_str(), "osc");
    assert_eq!(definition.connections()[0].source().port(), "audio");
}

#[test]
fn node_records_definition_reference_static_args_and_overrides() {
    let node = Node::new(NodeId::new("delay"), "echo")
        .with_static_arg("channels", StaticArg::Literal(StaticValue::Int(2)))
        .with_default_override("feedback", 0.5f64.to_bits());

    assert_eq!(node.definition_ref(), "echo");
    assert_eq!(node.static_args().get("channels"), Some(&StaticArg::Literal(StaticValue::Int(2))));
    assert_eq!(node.port_default_overrides().get("feedback"), Some(&0.5f64.to_bits()));
}

#[test]
fn port_carries_channel_count_and_control_default_metadata() {
    let port = Port::input("cutoff", SignalType::Control, mono()).with_control_default(
        ControlDefault::new(440.0f64.to_bits())
            .with_min(20.0f64.to_bits())
            .with_max(20_000.0f64.to_bits())
            .with_unit("hz"),
    );

    assert_eq!(port.channels(), &ChannelCount::Literal(1));
    let control = port.control_default().expect("control port has default");
    assert_eq!(f64::from_bits(control.default()), 440.0);
    assert_eq!(control.min().map(f64::from_bits), Some(20.0));
    assert_eq!(control.unit(), Some("hz"));
}

#[test]
fn identical_definitions_are_equal_and_differing_ones_are_not() {
    let build = || {
        GraphDefinition::new("voice")
            .with_port(Port::output("audio_out", SignalType::Audio, stereo()))
            .with_node(Node::new(NodeId::new("osc"), "oscillator"))
    };

    assert_eq!(build(), build());
    assert_ne!(build(), build().with_node(Node::new(NodeId::new("extra"), "gain")));
}

#[test]
fn static_parameter_declaration_is_preserved_for_resolution_and_discovery() {
    let param = StaticParam::new("channels", StaticType::Int).with_default(StaticValue::Int(2));

    assert_eq!(param.name(), "channels");
    assert_eq!(param.static_type(), StaticType::Int);
    assert_eq!(param.default(), Some(&StaticValue::Int(2)));
}

#[test]
fn connection_targeting_a_static_parameter_is_rejected_as_not_a_port() {
    let registry = DefinitionRegistry::new().with_definition(echo_primitive()).with_definition(gain_primitive());
    let definition = GraphDefinition::new("root")
        .with_node(Node::new(NodeId::new("g"), "gain"))
        .with_node(Node::new(NodeId::new("e"), "echo"))
        .with_connection(cable("g", "audio_out", "e", "channels"));

    let validation = definition.validate(&registry);

    assert_eq!(only_error_code(&validation), ErrorCode::KernelStaticParamNotAPort);
}

#[test]
fn missing_required_static_argument_is_rejected() {
    let synth = GraphDefinition::new("synth").with_static_param(StaticParam::new("voices", StaticType::Int));
    let registry = DefinitionRegistry::new().with_definition(synth);
    let definition = GraphDefinition::new("root").with_node(Node::new(NodeId::new("s"), "synth"));

    let validation = definition.validate(&registry);

    assert_eq!(only_error_code(&validation), ErrorCode::KernelMissingStaticArgument);
}

#[test]
fn static_argument_type_mismatch_is_rejected() {
    let registry = DefinitionRegistry::new().with_definition(echo_primitive());
    let definition = GraphDefinition::new("root").with_node(
        Node::new(NodeId::new("e"), "echo")
            .with_static_arg("channels", StaticArg::Literal(StaticValue::Enum("stereo".to_string()))),
    );

    let validation = definition.validate(&registry);

    assert_eq!(only_error_code(&validation), ErrorCode::KernelStaticArgumentTypeMismatch);
}

#[test]
fn unknown_static_argument_name_is_rejected() {
    let registry = DefinitionRegistry::new().with_definition(echo_primitive());
    let definition = GraphDefinition::new("root").with_node(
        Node::new(NodeId::new("e"), "echo").with_static_arg("voices", StaticArg::Literal(StaticValue::Int(4))),
    );

    let validation = definition.validate(&registry);

    assert_eq!(only_error_code(&validation), ErrorCode::KernelUnknownStaticArgument);
}

#[test]
fn static_argument_expression_is_rejected() {
    let registry = DefinitionRegistry::new().with_definition(echo_primitive());
    let definition = GraphDefinition::new("root").with_node(
        Node::new(NodeId::new("e"), "echo")
            .with_static_arg("channels", StaticArg::Expression("$channels + 1".to_string())),
    );

    let validation = definition.validate(&registry);

    assert_eq!(only_error_code(&validation), ErrorCode::KernelStaticArgumentExpression);
}

#[test]
fn static_argument_name_pass_through_resolves_from_enclosing_definition() {
    let registry = DefinitionRegistry::new().with_definition(echo_primitive());
    let composite = GraphDefinition::new("stereo_bank")
        .with_static_param(StaticParam::new("channels", StaticType::Int).with_default(StaticValue::Int(4)))
        .with_node(
            Node::new(NodeId::new("e"), "echo").with_static_arg("channels", StaticArg::ParamRef("channels".to_string())),
        );

    let validation = composite.validate(&registry);
    assert!(validation.is_ok(), "name pass-through should resolve: {:?}", validation.diagnostics());

    let ports = composite.resolved_node_ports(&registry, &NodeId::new("e")).expect("node ports resolve");
    assert_eq!(ports[0].channels(), 4);
}

#[test]
fn unknown_static_parameter_reference_is_rejected() {
    let registry = DefinitionRegistry::new().with_definition(echo_primitive());
    let composite = GraphDefinition::new("bank").with_node(
        Node::new(NodeId::new("e"), "echo").with_static_arg("channels", StaticArg::ParamRef("missing".to_string())),
    );

    let validation = composite.validate(&registry);

    assert_eq!(only_error_code(&validation), ErrorCode::KernelUnknownStaticParamReference);
}

#[test]
fn one_definition_serves_mono_and_stereo_via_static_channel_count() {
    let registry = DefinitionRegistry::new().with_definition(echo_primitive());
    let definition = GraphDefinition::new("root")
        .with_node(Node::new(NodeId::new("mono"), "echo").with_static_arg("channels", StaticArg::Literal(StaticValue::Int(1))))
        .with_node(
            Node::new(NodeId::new("stereo"), "echo").with_static_arg("channels", StaticArg::Literal(StaticValue::Int(2))),
        );

    let validation = definition.validate(&registry);
    assert!(validation.is_ok(), "both instances validate");

    let mono = definition.resolved_node_ports(&registry, &NodeId::new("mono")).expect("mono resolves");
    let stereo = definition.resolved_node_ports(&registry, &NodeId::new("stereo")).expect("stereo resolves");
    assert_eq!(mono[0].channels(), 1);
    assert_eq!(stereo[0].channels(), 2);
}

#[test]
fn matching_channel_counts_connect() {
    let registry = DefinitionRegistry::new().with_definition(echo_primitive());
    let definition = GraphDefinition::new("root")
        .with_node(Node::new(NodeId::new("a"), "echo").with_static_arg("channels", StaticArg::Literal(StaticValue::Int(2))))
        .with_node(Node::new(NodeId::new("b"), "echo").with_static_arg("channels", StaticArg::Literal(StaticValue::Int(2))))
        .with_connection(cable("a", "audio_out", "b", "audio_in"));

    assert!(definition.validate(&registry).is_ok());
}

#[test]
fn mismatched_channel_counts_are_rejected_reporting_both_counts() {
    let registry = DefinitionRegistry::new().with_definition(echo_primitive());
    let definition = GraphDefinition::new("root")
        .with_node(Node::new(NodeId::new("a"), "echo").with_static_arg("channels", StaticArg::Literal(StaticValue::Int(2))))
        .with_node(Node::new(NodeId::new("b"), "echo").with_static_arg("channels", StaticArg::Literal(StaticValue::Int(1))))
        .with_connection(cable("a", "audio_out", "b", "audio_in"));

    let validation = definition.validate(&registry);
    let errors = errors(&validation);
    assert_eq!(errors.len(), 1);
    assert_eq!(errors[0].error_code(), ErrorCode::KernelChannelCountMismatch);
    assert_eq!(errors[0].expected.as_deref(), Some("2"));
    assert_eq!(errors[0].actual.as_deref(), Some("1"));
}

#[test]
fn control_output_promotes_to_audio_input_and_records_a_promotion_step() {
    let control_source = GraphDefinition::new("lfo").with_port(Port::output("out", SignalType::Control, mono()));
    let registry = DefinitionRegistry::new().with_definition(control_source).with_definition(gain_primitive());
    let definition = GraphDefinition::new("root")
        .with_node(Node::new(NodeId::new("lfo"), "lfo"))
        .with_node(Node::new(NodeId::new("amp"), "gain"))
        .with_connection(cable("lfo", "out", "amp", "audio_in"));

    let validation = definition.validate(&registry);

    assert!(validation.is_ok(), "control→audio is legal");
    assert_eq!(validation.promotions().len(), 1);
    let promotion = &validation.promotions()[0];
    assert_eq!(
        promotion.source(),
        &PortRef::new(NodeId::new("lfo"), "out"),
        "the promotion records the control port it converts from"
    );
    assert_eq!(promotion.destination().port(), "audio_in");
    assert_eq!(promotion.channels(), 1, "the promotion adopts the audio destination's width");
}

#[test]
fn audio_output_cannot_feed_control_input() {
    let registry = DefinitionRegistry::new().with_definition(gain_primitive());
    let definition = GraphDefinition::new("root")
        .with_node(Node::new(NodeId::new("a"), "gain"))
        .with_node(Node::new(NodeId::new("b"), "gain"))
        .with_connection(cable("a", "audio_out", "b", "level"));

    let validation = definition.validate(&registry);

    assert_eq!(only_error_code(&validation), ErrorCode::KernelIncompatibleSignalTypes);
}

#[test]
fn event_ports_never_convert_to_audio() {
    let gate = GraphDefinition::new("gate").with_port(Port::output("trigger", SignalType::Event, mono()));
    let registry = DefinitionRegistry::new().with_definition(gate).with_definition(gain_primitive());
    let definition = GraphDefinition::new("root")
        .with_node(Node::new(NodeId::new("g"), "gate"))
        .with_node(Node::new(NodeId::new("amp"), "gain"))
        .with_connection(cable("g", "trigger", "amp", "audio_in"));

    let validation = definition.validate(&registry);

    assert_eq!(only_error_code(&validation), ErrorCode::KernelIncompatibleSignalTypes);
}

#[test]
fn unconnected_control_input_uses_declared_default() {
    let registry = DefinitionRegistry::new().with_definition(gain_primitive());
    let definition = GraphDefinition::new("root").with_node(Node::new(NodeId::new("amp"), "gain"));

    let effective = definition.effective_control_input(&registry, &NodeId::new("amp"), "level");

    assert_eq!(effective, Some(EffectiveInput::Value(1.0f64.to_bits())));
}

#[test]
fn instance_override_replaces_declared_default() {
    let registry = DefinitionRegistry::new().with_definition(gain_primitive());
    let definition = GraphDefinition::new("root")
        .with_node(Node::new(NodeId::new("amp"), "gain").with_default_override("level", 0.25f64.to_bits()));

    let effective = definition.effective_control_input(&registry, &NodeId::new("amp"), "level");

    assert_eq!(effective, Some(EffectiveInput::Value(0.25f64.to_bits())));
}

#[test]
fn incoming_connection_takes_precedence_over_default_and_override() {
    let control_source = GraphDefinition::new("lfo").with_port(Port::output("out", SignalType::Control, mono()));
    let registry = DefinitionRegistry::new().with_definition(gain_primitive()).with_definition(control_source);
    let definition = GraphDefinition::new("root")
        .with_node(Node::new(NodeId::new("lfo"), "lfo"))
        .with_node(Node::new(NodeId::new("amp"), "gain").with_default_override("level", 0.25f64.to_bits()))
        .with_connection(cable("lfo", "out", "amp", "level"));

    let effective = definition.effective_control_input(&registry, &NodeId::new("amp"), "level");

    assert_eq!(effective, Some(EffectiveInput::Connected));
}

#[test]
fn override_of_unknown_port_is_rejected() {
    let registry = DefinitionRegistry::new().with_definition(gain_primitive());
    let definition = GraphDefinition::new("root")
        .with_node(Node::new(NodeId::new("amp"), "gain").with_default_override("resonance", 0.5f64.to_bits()));

    let validation = definition.validate(&registry);

    assert_eq!(only_error_code(&validation), ErrorCode::KernelOverrideUnknownPort);
}

#[test]
fn connection_to_missing_node_is_rejected() {
    let registry = DefinitionRegistry::new().with_definition(gain_primitive());
    let definition = GraphDefinition::new("root")
        .with_node(Node::new(NodeId::new("amp"), "gain"))
        .with_connection(cable("amp", "audio_out", "ghost", "audio_in"));

    let validation = definition.validate(&registry);

    assert_eq!(only_error_code(&validation), ErrorCode::KernelMissingNode);
}

#[test]
fn connection_to_a_port_the_definition_does_not_declare_reports_a_missing_port() {
    let registry = DefinitionRegistry::new().with_definition(gain_primitive());
    let definition = GraphDefinition::new("root")
        .with_node(Node::new(NodeId::new("a"), "gain"))
        .with_node(Node::new(NodeId::new("b"), "gain"))
        .with_connection(cable("a", "audio_out", "b", "sidechain_in"));

    let validation = definition.validate(&registry);

    assert_eq!(only_error_code(&validation), ErrorCode::KernelMissingPort);
}

#[test]
fn validation_rejects_an_out_of_range_resolved_channel_count_without_resolving_ports() {
    let registry = DefinitionRegistry::new().with_definition(echo_primitive());
    let definition = GraphDefinition::new("root")
        .with_node(Node::new(NodeId::new("e"), "echo").with_static_arg("channels", StaticArg::Literal(StaticValue::Int(0))));

    let validation = definition.validate(&registry);

    let errors = errors(&validation);
    assert!(
        errors.iter().all(|d| d.error_code() == ErrorCode::KernelInvalidStaticReferenceValue),
        "expected only invalid-static-reference-value errors, got: {errors:?}"
    );
    let ports: Vec<_> = errors.iter().filter_map(|d| d.port_name.as_deref()).collect();
    assert_eq!(ports, ["audio_in", "audio_out"], "every port whose width resolves from the bad parameter is named");
}

#[test]
fn connection_from_a_node_whose_ports_failed_to_resolve_adds_no_second_diagnostic() {
    let registry = DefinitionRegistry::new().with_definition(echo_primitive()).with_definition(gain_primitive());
    let definition = GraphDefinition::new("root")
        .with_node(Node::new(NodeId::new("e"), "echo").with_static_arg("channels", StaticArg::Literal(StaticValue::Int(0))))
        .with_node(Node::new(NodeId::new("amp"), "gain"))
        .with_connection(cable("e", "audio_out", "amp", "audio_in"));

    let validation = definition.validate(&registry);

    assert!(
        errors(&validation).iter().all(|d| d.error_code() == ErrorCode::KernelInvalidStaticReferenceValue),
        "only the unresolved channel count is reported, got: {:?}",
        validation.diagnostics()
    );
}

#[test]
fn validation_accepts_an_override_of_a_port_the_definition_declares() {
    let registry = DefinitionRegistry::new().with_definition(gain_primitive());
    let definition = GraphDefinition::new("root")
        .with_node(Node::new(NodeId::new("amp"), "gain").with_default_override("level", 0.5f64.to_bits()));

    let validation = definition.validate(&registry);

    assert!(validation.is_ok(), "overriding a declared control port is legal, got: {:?}", validation.diagnostics());
}

#[test]
fn control_to_audio_promotion_with_mismatched_channel_counts_records_no_promotion() {
    let control_source = GraphDefinition::new("lfo").with_port(Port::output("out", SignalType::Control, mono()));
    let registry = DefinitionRegistry::new().with_definition(control_source).with_definition(echo_primitive());
    let definition = GraphDefinition::new("root")
        .with_node(Node::new(NodeId::new("lfo"), "lfo"))
        .with_node(Node::new(NodeId::new("e"), "echo"))
        .with_connection(cable("lfo", "out", "e", "audio_in"));

    let validation = definition.validate(&registry);

    assert_eq!(only_error_code(&validation), ErrorCode::KernelChannelCountMismatch);
    assert!(validation.promotions().is_empty(), "a rejected connection records no promotion step");
}

#[test]
fn resolved_node_ports_returns_none_for_an_unknown_node() {
    let registry = DefinitionRegistry::new().with_definition(gain_primitive());
    let definition = GraphDefinition::new("root").with_node(Node::new(NodeId::new("amp"), "gain"));

    assert_eq!(
        definition.resolved_node_ports(&registry, &NodeId::new("ghost")),
        None,
        "a node the definition does not declare has no resolved ports"
    );
}

#[test]
fn resolved_node_ports_returns_none_when_the_definition_is_unknown() {
    let registry = DefinitionRegistry::new();
    let definition = GraphDefinition::new("root").with_node(Node::new(NodeId::new("amp"), "gain"));

    assert_eq!(
        definition.resolved_node_ports(&registry, &NodeId::new("amp")),
        None,
        "an unregistered definition yields no invented ports"
    );
}

#[test]
fn resolved_node_ports_returns_none_when_a_required_static_argument_is_missing() {
    let echo = GraphDefinition::new("echo")
        .with_static_param(StaticParam::new("channels", StaticType::Int))
        .with_port(Port::input("audio_in", SignalType::Audio, ChannelCount::param("channels")));
    let registry = DefinitionRegistry::new().with_definition(echo);
    let definition = GraphDefinition::new("root").with_node(Node::new(NodeId::new("e"), "echo"));

    assert_eq!(
        definition.resolved_node_ports(&registry, &NodeId::new("e")),
        None,
        "an unsupplied static argument leaves the port widths unresolved"
    );
}

#[test]
fn effective_control_input_returns_none_for_an_unknown_node() {
    let registry = DefinitionRegistry::new().with_definition(gain_primitive());
    let definition = GraphDefinition::new("root").with_node(Node::new(NodeId::new("amp"), "gain"));

    assert_eq!(definition.effective_control_input(&registry, &NodeId::new("ghost"), "level"), None);
}

#[test]
fn effective_control_input_returns_none_when_the_definition_is_unknown() {
    let registry = DefinitionRegistry::new();
    let definition = GraphDefinition::new("root").with_node(Node::new(NodeId::new("amp"), "gain"));

    assert_eq!(definition.effective_control_input(&registry, &NodeId::new("amp"), "level"), None);
}

#[test]
fn effective_control_input_returns_none_for_a_port_that_is_not_a_control_input() {
    let registry = DefinitionRegistry::new().with_definition(gain_primitive());
    let definition = GraphDefinition::new("root").with_node(Node::new(NodeId::new("amp"), "gain"));

    assert_eq!(
        definition.effective_control_input(&registry, &NodeId::new("amp"), "audio_in"),
        None,
        "an audio input is not a control input"
    );
    assert_eq!(
        definition.effective_control_input(&registry, &NodeId::new("amp"), "missing"),
        None,
        "a port the definition does not declare has no effective input"
    );
}

#[test]
fn connection_from_input_port_reports_incorrect_direction() {
    let registry = DefinitionRegistry::new().with_definition(gain_primitive());
    let definition = GraphDefinition::new("root")
        .with_node(Node::new(NodeId::new("a"), "gain"))
        .with_node(Node::new(NodeId::new("b"), "gain"))
        .with_connection(cable("a", "audio_in", "b", "audio_in"));

    let validation = definition.validate(&registry);

    assert_eq!(only_error_code(&validation), ErrorCode::KernelIncorrectPortDirection);
}

#[test]
fn dangling_channel_reference_fails_compilation_loudly() {
    let broken = GraphDefinition::new("echo").with_port(Port::input(
        "audio_in",
        SignalType::Audio,
        ChannelCount::param("channels"),
    ));
    let registry = DefinitionRegistry::new().with_definition(broken);
    let definition = GraphDefinition::new("root").with_node(Node::new(NodeId::new("e"), "echo"));

    let validation = definition.validate(&registry);

    assert_eq!(only_error_code(&validation), ErrorCode::KernelUnresolvedStaticReference);
}

#[test]
fn channel_reference_to_non_integer_static_param_fails_compilation() {
    let broken = GraphDefinition::new("echo")
        .with_static_param(StaticParam::new("channels", StaticType::Enum))
        .with_port(Port::input("audio_in", SignalType::Audio, ChannelCount::param("channels")));
    let registry = DefinitionRegistry::new().with_definition(broken);
    let definition = GraphDefinition::new("root").with_node(
        Node::new(NodeId::new("e"), "echo").with_static_arg("channels", StaticArg::Literal(StaticValue::Enum("wide".into()))),
    );

    let validation = definition.validate(&registry);

    assert!(
        errors(&validation).iter().any(|d| d.error_code() == ErrorCode::KernelUnresolvedStaticReference),
        "non-integer channel reference must fail loudly: {:?}",
        validation.diagnostics()
    );
}

#[test]
fn dangling_channel_reference_makes_resolved_ports_unavailable() {
    let broken = GraphDefinition::new("echo").with_port(Port::input(
        "audio_in",
        SignalType::Audio,
        ChannelCount::param("channels"),
    ));
    let registry = DefinitionRegistry::new().with_definition(broken);
    let definition = GraphDefinition::new("root").with_node(Node::new(NodeId::new("e"), "echo"));

    assert_eq!(
        definition.resolved_node_ports(&registry, &NodeId::new("e")),
        None,
        "query must refuse to invent a channel count for a dangling reference"
    );
}

/// A `feedback_delay` primitive carrying ports of the given signal type.
fn feedback_delay(signal_type: SignalType) -> GraphDefinition {
    GraphDefinition::new(FEEDBACK_DELAY_DEFINITION)
        .with_port(Port::input("in", signal_type, mono()))
        .with_port(Port::output("out", signal_type, mono()))
}

/// An ordinary in/out primitive that does not legalize a cycle.
fn passthrough(name: &str, signal_type: SignalType) -> GraphDefinition {
    GraphDefinition::new(name)
        .with_port(Port::input("in", signal_type, mono()))
        .with_port(Port::output("out", signal_type, mono()))
}

fn two_node_cycle(root: &str, first: &str, second: &str) -> GraphDefinition {
    GraphDefinition::new(root)
        .with_node(Node::new(NodeId::new("a"), first))
        .with_node(Node::new(NodeId::new("b"), second))
        .with_connection(cable("a", "out", "b", "in"))
        .with_connection(cable("b", "out", "a", "in"))
}

#[test]
fn audio_feedback_through_feedback_delay_is_valid() {
    let registry = DefinitionRegistry::new()
        .with_definition(passthrough("gain", SignalType::Audio))
        .with_definition(feedback_delay(SignalType::Audio));
    let definition = two_node_cycle("root", "gain", FEEDBACK_DELAY_DEFINITION);

    let validation = definition.validate(&registry);

    assert!(validation.is_ok(), "cycle through feedback_delay is legal: {:?}", validation.diagnostics());
}

#[test]
fn instantaneous_audio_feedback_is_rejected_naming_the_required_primitive() {
    let registry = DefinitionRegistry::new().with_definition(passthrough("gain", SignalType::Audio));
    let definition = two_node_cycle("root", "gain", "gain");

    let validation = definition.validate(&registry);

    let errors = errors(&validation);
    assert_eq!(errors.len(), 1);
    assert_eq!(errors[0].error_code(), ErrorCode::KernelCycleWithoutFeedbackDelay);
    assert!(errors[0].message.contains(FEEDBACK_DELAY_DEFINITION), "diagnostic names the required primitive");
}

#[test]
fn ordinary_delay_module_does_not_legalize_a_cycle() {
    let registry = DefinitionRegistry::new()
        .with_definition(passthrough("gain", SignalType::Audio))
        .with_definition(passthrough("delay", SignalType::Audio));
    let definition = two_node_cycle("root", "gain", "delay");

    let validation = definition.validate(&registry);

    assert_eq!(only_error_code(&validation), ErrorCode::KernelCycleWithoutFeedbackDelay);
}

#[test]
fn control_feedback_through_feedback_delay_is_valid() {
    let registry = DefinitionRegistry::new()
        .with_definition(passthrough("mod", SignalType::Control))
        .with_definition(feedback_delay(SignalType::Control));
    let definition = two_node_cycle("root", "mod", FEEDBACK_DELAY_DEFINITION);

    assert!(definition.validate(&registry).is_ok());
}

#[test]
fn instantaneous_control_feedback_is_rejected() {
    let registry = DefinitionRegistry::new().with_definition(passthrough("mod", SignalType::Control));
    let definition = two_node_cycle("root", "mod", "mod");

    let validation = definition.validate(&registry);

    assert_eq!(only_error_code(&validation), ErrorCode::KernelCycleWithoutFeedbackDelay);
}

#[test]
fn node_referencing_unknown_definition_is_rejected() {
    let registry = DefinitionRegistry::new();
    let definition = GraphDefinition::new("root").with_node(Node::new(NodeId::new("x"), "nonexistent"));

    let validation = definition.validate(&registry);

    assert_eq!(only_error_code(&validation), ErrorCode::KernelUnknownDefinition);
}

// --- further cases -------------------------------------------------------

#[test]
fn cycle_message_lists_the_cycle_path() {
    let registry = DefinitionRegistry::new().with_definition(passthrough("gain", SignalType::Audio));
    let definition = two_node_cycle("root", "gain", "gain");

    let validation = definition.validate(&registry);
    let errors = errors(&validation);
    assert_eq!(
        errors[0].message,
        "routing cycle a -> b has no 'feedback_delay' node; every feedback cycle must pass through a 'feedback_delay' primitive"
    );
    assert_eq!(errors[0].suggested_fix.as_deref(), Some("insert a 'feedback_delay' node into the cycle"));
}

#[test]
fn negative_latency_argument_is_rejected() {
    let spectral = GraphDefinition::new("spectral")
        .with_static_param(StaticParam::new("fft_size", StaticType::Int).with_default(StaticValue::Int(512)))
        .with_latency(LatencySpec::StaticParam {
            name: "fft_size".to_string(),
            minus: 1,
        });
    let registry = DefinitionRegistry::new().with_definition(spectral);
    let negative = GraphDefinition::new("root").with_node(
        Node::new(NodeId::new("s"), "spectral").with_static_arg("fft_size", StaticArg::Literal(StaticValue::Int(-4))),
    );
    let validation = negative.validate(&registry);
    assert_eq!(only_error_code(&validation), ErrorCode::KernelInvalidStaticReferenceValue);
    assert_eq!(errors(&validation)[0].actual.as_deref(), Some("-4"));

    let too_small = GraphDefinition::new("root").with_node(
        Node::new(NodeId::new("s"), "spectral").with_static_arg("fft_size", StaticArg::Literal(StaticValue::Int(0))),
    );
    let validation = too_small.validate(&registry);
    assert_eq!(only_error_code(&validation), ErrorCode::KernelInvalidStaticReferenceValue);
    assert_eq!(errors(&validation)[0].expected.as_deref(), Some("latency static value >= 1"));

    let fine = GraphDefinition::new("root").with_node(Node::new(NodeId::new("s"), "spectral"));
    assert!(fine.validate(&registry).is_ok());
}

#[test]
fn latency_spec_resolves_against_static_arguments() {
    let mut args = NameMap::new();
    args.insert("fft_size", StaticValue::Int(512));
    let spec = LatencySpec::StaticParam {
        name: "fft_size".to_string(),
        minus: 1,
    };
    assert_eq!(spec.resolve(&args), 511);
    assert_eq!(LatencySpec::Samples(64).resolve(&args), 64);
    assert_eq!(LatencySpec::Zero.resolve(&args), 0);
    let missing = LatencySpec::StaticParam {
        name: "window".to_string(),
        minus: 1,
    };
    assert_eq!(missing.resolve(&args), 0);
}

#[test]
fn definition_static_references_are_checked_once() {
    let broken = GraphDefinition::new("echo").with_port(Port::input(
        "audio_in",
        SignalType::Audio,
        ChannelCount::param("channels"),
    ));
    let registry = DefinitionRegistry::new().with_definition(broken);
    let definition = GraphDefinition::new("root")
        .with_node(Node::new(NodeId::new("e1"), "echo"))
        .with_node(Node::new(NodeId::new("e2"), "echo"));

    let validation = definition.validate(&registry);
    assert_eq!(errors(&validation).len(), 1, "the same definition is reported once: {:?}", validation.diagnostics());
}

#[test]
fn registry_replaces_a_definition_of_the_same_name() {
    let registry = DefinitionRegistry::new()
        .with_definition(gain_primitive())
        .with_definition(GraphDefinition::new("gain"));
    assert_eq!(registry.get("gain").unwrap().ports().len(), 0);
    assert!(registry.get("echo").is_none());
}

#[test]
fn static_value_types_are_reported() {
    assert_eq!(StaticValue::Int(3).static_type(), StaticType::Int);
    assert_eq!(StaticValue::Enum("x".to_string()).static_type(), StaticType::Enum);
    assert_eq!(StaticValue::Resource("x".to_string()).static_type(), StaticType::Resource);
}

fn summing_mixer_primitive() -> GraphDefinition {
    GraphDefinition::new("mixer")
        .with_port(Port::input("inputs", SignalType::Audio, mono()).with_multiplicity(Multiplicity::Summing))
        .with_port(Port::output("mix", SignalType::Audio, mono()))
}

fn three_gains_into_one() -> GraphDefinition {
    GraphDefinition::new("root")
        .with_node(Node::new(NodeId::new("a"), "gain"))
        .with_node(Node::new(NodeId::new("b"), "gain"))
        .with_node(Node::new(NodeId::new("c"), "gain"))
        .with_connection(cable("a", "audio_out", "c", "audio_in"))
        .with_connection(cable("b", "audio_out", "c", "audio_in"))
}

#[test]
fn single_source_input_rejects_multiple_connections() {
    let registry = DefinitionRegistry::new().with_definition(gain_primitive());
    let validation = three_gains_into_one().validate(&registry);
    assert_eq!(only_error_code(&validation), ErrorCode::KernelMultipleSources);
}

#[test]
fn summing_input_accepts_multiple_connections() {
    let registry = DefinitionRegistry::new()
        .with_definition(gain_primitive())
        .with_definition(summing_mixer_primitive());
    let definition = GraphDefinition::new("root")
        .with_node(Node::new(NodeId::new("a"), "gain"))
        .with_node(Node::new(NodeId::new("b"), "gain"))
        .with_node(Node::new(NodeId::new("mix"), "mixer"))
        .with_connection(cable("a", "audio_out", "mix", "inputs"))
        .with_connection(cable("b", "audio_out", "mix", "inputs"));
    let validation = definition.validate(&registry);
    assert!(validation.is_ok(), "summing input should accept multiple connections: {:?}", validation.diagnostics());
}

#[test]
fn summing_input_accepts_single_connection() {
    let registry = DefinitionRegistry::new()
        .with_definition(gain_primitive())
        .with_definition(summing_mixer_primitive());
    let definition = GraphDefinition::new("root")
        .with_node(Node::new(NodeId::new("a"), "gain"))
        .with_node(Node::new(NodeId::new("mix"), "mixer"))
        .with_connection(cable("a", "audio_out", "mix", "inputs"));
    let validation = definition.validate(&registry);
    assert!(
        validation.is_ok(),
        "summing input with single connection should be valid: {:?}",
        validation.diagnostics()
    );
}

#[test]
fn port_defaults_to_single_source_multiplicity() {
    let port = Port::input("test", SignalType::Audio, mono());
    assert_eq!(port.multiplicity(), Multiplicity::SingleSource);
}

#[test]
fn port_with_summing_multiplicity_reports_summing() {
    let port = Port::input("test", SignalType::Audio, mono()).with_multiplicity(Multiplicity::Summing);
    assert_eq!(port.multiplicity(), Multiplicity::Summing);
}

#[test]
fn single_source_error_diagnostic_names_the_port_and_node() {
    let registry = DefinitionRegistry::new().with_definition(gain_primitive());
    let validation = three_gains_into_one().validate(&registry);
    let errors = errors(&validation);
    assert_eq!(errors.len(), 1);
    assert_eq!(errors[0].module_id.as_deref(), Some("c"));
    assert_eq!(errors[0].port_name.as_deref(), Some("audio_in"));
}

#[test]
fn three_sources_into_one_input_report_it_once() {
    let registry = DefinitionRegistry::new().with_definition(gain_primitive());
    let definition = three_gains_into_one()
        .with_node(Node::new(NodeId::new("d"), "gain"))
        .with_connection(cable("d", "audio_out", "c", "audio_in"));
    let validation = definition.validate(&registry);
    let errors = errors(&validation);
    assert_eq!(errors.len(), 1);
    assert_eq!(errors[0].error_code(), ErrorCode::KernelMultipleSources);
}

#[test]
fn illegal_cycle_beside_a_feedback_cycle_is_still_rejected() {
    let mixer = GraphDefinition::new("mix")
        .with_port(Port::input("a", SignalType::Audio, mono()))
        .with_port(Port::input("b", SignalType::Audio, mono()))
        .with_port(Port::output("out", SignalType::Audio, mono()));
    let registry = DefinitionRegistry::new()
        .with_definition(passthrough("gain", SignalType::Audio))
        .with_definition(feedback_delay(SignalType::Audio))
        .with_definition(mixer);
    let definition = GraphDefinition::new("root")
        .with_node(Node::new(NodeId::new("a"), "gain"))
        .with_node(Node::new(NodeId::new("f"), FEEDBACK_DELAY_DEFINITION))
        .with_node(Node::new(NodeId::new("b"), "mix"))
        .with_connection(cable("a", "out", "f", "in"))
        .with_connection(cable("f", "out", "b", "a"))
        .with_connection(cable("b", "out", "a", "in"))
        .with_connection(cable("a", "out", "b", "b"));

    let validation = definition.validate(&registry);

    let errors = errors(&validation);
    assert_eq!(errors.len(), 1);
    assert_eq!(errors[0].error_code(), ErrorCode::KernelCycleWithoutFeedbackDelay);
    assert_eq!(
        errors[0].message,
        "routing cycle a -> b has no 'feedback_delay' node; every feedback cycle must pass through a 'feedback_delay' primitive"
    );
}
