use dandrum_engine::diagnostics::ErrorCode;
use dandrum_engine::flatten::{AtomicNode, FlattenedGraph};
use dandrum_engine::kernel::{
    ChannelCount, Connection, DefinitionRegistry, GraphDefinition, LatencySpec, Multiplicity, Node, NodeId, Port,
    PortDirection, PortRef, ResolvedPort, SignalType, FEEDBACK_DELAY_DEFINITION,
};
use dandrum_engine::name_map::NameMap;

fn port(name: &str, direction: PortDirection, channels: u32) -> ResolvedPort {
    ResolvedPort {
        name: name.to_string(),
        direction,
        signal_type: SignalType::Audio,
        channels,
        control_default: None,
        multiplicity: Multiplicity::SingleSource,
    }
}

fn atom(id: &str, definition: &str, latency: u32, inputs: &[&str], outputs: &[&str]) -> AtomicNode {
    let mut ports = Vec::new();
    for name in inputs {
        ports.push(port(name, PortDirection::Input, 1));
    }
    for name in outputs {
        ports.push(port(name, PortDirection::Output, 1));
    }
    AtomicNode {
        id: NodeId::new(id),
        definition: definition.to_string(),
        static_args: NameMap::new(),
        port_defaults: NameMap::new(),
        ports,
        latency,
    }
}

fn cable(from: &str, from_port: &str, to: &str, to_port: &str) -> Connection {
    Connection::new(PortRef::new(NodeId::new(from), from_port), PortRef::new(NodeId::new(to), to_port))
}

fn graph(nodes: Vec<AtomicNode>, connections: Vec<Connection>, outputs: Vec<PortRef>) -> FlattenedGraph {
    FlattenedGraph {
        nodes,
        connections,
        root_ports: Vec::new(),
        root_output_sources: outputs,
        promotions: Vec::new(),
        expansion_count: 0,
    }
}

fn output(node: &str, port: &str) -> PortRef {
    PortRef::new(NodeId::new(node), port)
}

fn mono() -> ChannelCount {
    ChannelCount::Literal(1)
}

fn source() -> GraphDefinition {
    GraphDefinition::new("source").with_port(Port::output("audio", SignalType::Audio, mono()))
}

/// A processor that declares a fixed processing latency.
fn delayed(name: &str, samples: u32) -> GraphDefinition {
    GraphDefinition::new(name)
        .with_latency(LatencySpec::Samples(samples))
        .with_port(Port::input("audio_in", SignalType::Audio, mono()))
        .with_port(Port::output("audio_out", SignalType::Audio, mono()))
}

/// A zero-latency two-input summing node where paths converge.
fn adder() -> GraphDefinition {
    GraphDefinition::new("adder")
        .with_port(Port::input("a", SignalType::Audio, mono()))
        .with_port(Port::input("b", SignalType::Audio, mono()))
        .with_port(Port::output("out", SignalType::Audio, mono()))
}

fn gain() -> GraphDefinition {
    GraphDefinition::new("gain")
        .with_port(Port::input("audio_in", SignalType::Audio, mono()))
        .with_port(Port::output("audio_out", SignalType::Audio, mono()))
}

fn feedback_delay() -> GraphDefinition {
    GraphDefinition::new(FEEDBACK_DELAY_DEFINITION)
        .with_port(Port::input("audio_in", SignalType::Audio, mono()))
        .with_port(Port::output("audio_out", SignalType::Audio, mono()))
}

#[test]
fn unequal_parallel_paths_receive_a_compensating_delay() {
    let registry = DefinitionRegistry::new()
        .with_definition(source())
        .with_definition(delayed("proc", 64))
        .with_definition(adder());
    let root = GraphDefinition::new("root")
        .with_node(Node::new(NodeId::new("osc"), "source"))
        .with_node(Node::new(NodeId::new("p"), "proc"))
        .with_node(Node::new(NodeId::new("m"), "adder"))
        .with_connection(cable("osc", "audio", "p", "audio_in"))
        .with_connection(cable("osc", "audio", "m", "a"))
        .with_connection(cable("p", "audio_out", "m", "b"));

    let plan = root.flatten(&registry).expect("flattens").balance_latency().expect("balances");

    assert_eq!(plan.compensations().len(), 1, "one convergence needs a single compensating delay");
    let compensation = &plan.compensations()[0];
    assert_eq!(compensation.samples(), 64, "the direct path is delayed to match the 64-sample processing path");
    assert_eq!(compensation.channels(), 1, "delay buffer width matches the port");
    assert_eq!(compensation.connection().destination().port(), "a", "the shorter (direct) input is the one delayed");
    assert_eq!(plan.root_latency(), 64);
}

#[test]
fn balanced_parallel_paths_need_no_compensation() {
    let registry = DefinitionRegistry::new()
        .with_definition(source())
        .with_definition(delayed("p1", 64))
        .with_definition(delayed("p2", 64))
        .with_definition(adder());
    let root = GraphDefinition::new("root")
        .with_node(Node::new(NodeId::new("osc"), "source"))
        .with_node(Node::new(NodeId::new("x"), "p1"))
        .with_node(Node::new(NodeId::new("y"), "p2"))
        .with_node(Node::new(NodeId::new("m"), "adder"))
        .with_connection(cable("osc", "audio", "x", "audio_in"))
        .with_connection(cable("osc", "audio", "y", "audio_in"))
        .with_connection(cable("x", "audio_out", "m", "a"))
        .with_connection(cable("y", "audio_out", "m", "b"));

    let plan = root.flatten(&registry).expect("flattens").balance_latency().expect("balances");

    assert!(plan.compensations().is_empty(), "equal-latency paths align without compensation");
    assert_eq!(plan.root_latency(), 64);
}

#[test]
fn root_latency_is_the_longest_path_latency() {
    let registry = DefinitionRegistry::new()
        .with_definition(source())
        .with_definition(delayed("a", 64))
        .with_definition(delayed("b", 128));
    let root = GraphDefinition::new("root")
        .with_node(Node::new(NodeId::new("osc"), "source"))
        .with_node(Node::new(NodeId::new("first"), "a"))
        .with_node(Node::new(NodeId::new("second"), "b"))
        .with_connection(cable("osc", "audio", "first", "audio_in"))
        .with_connection(cable("first", "audio_out", "second", "audio_in"));

    let plan = root.flatten(&registry).expect("flattens").balance_latency().expect("balances");

    assert_eq!(plan.root_latency(), 192, "accumulated latency of the chain (64 + 128)");
}

#[test]
fn latency_bearing_node_in_feedback_cycle_is_rejected() {
    let registry = DefinitionRegistry::new()
        .with_definition(source())
        .with_definition(delayed("proc", 64))
        .with_definition(adder())
        .with_definition(feedback_delay());
    let root = GraphDefinition::new("root")
        .with_node(Node::new(NodeId::new("osc"), "source"))
        .with_node(Node::new(NodeId::new("m"), "adder"))
        .with_node(Node::new(NodeId::new("p"), "proc"))
        .with_node(Node::new(NodeId::new("fb"), FEEDBACK_DELAY_DEFINITION))
        .with_connection(cable("osc", "audio", "m", "a"))
        .with_connection(cable("m", "out", "p", "audio_in"))
        .with_connection(cable("p", "audio_out", "fb", "audio_in"))
        .with_connection(cable("fb", "audio_out", "m", "b"));

    let diagnostics = root
        .flatten(&registry)
        .expect("flattens")
        .balance_latency()
        .expect_err("latency inside a feedback cycle cannot be compensated");

    assert!(
        diagnostics
            .all()
            .iter()
            .any(|d| d.is_error() && d.error_code() == ErrorCode::KernelLatencyInFeedbackCycle),
        "expected latency-in-feedback-cycle diagnostic, got: {diagnostics:?}"
    );
}

#[test]
fn zero_latency_feedback_cycle_is_allowed() {
    let registry = DefinitionRegistry::new()
        .with_definition(source())
        .with_definition(gain())
        .with_definition(adder())
        .with_definition(feedback_delay());
    let root = GraphDefinition::new("root")
        .with_node(Node::new(NodeId::new("osc"), "source"))
        .with_node(Node::new(NodeId::new("m"), "adder"))
        .with_node(Node::new(NodeId::new("g"), "gain"))
        .with_node(Node::new(NodeId::new("fb"), FEEDBACK_DELAY_DEFINITION))
        .with_connection(cable("osc", "audio", "m", "a"))
        .with_connection(cable("m", "out", "g", "audio_in"))
        .with_connection(cable("g", "audio_out", "fb", "audio_in"))
        .with_connection(cable("fb", "audio_out", "m", "b"));

    let plan = root
        .flatten(&registry)
        .expect("flattens")
        .balance_latency()
        .expect("a zero-latency feedback cycle is legal");

    assert!(plan.compensations().is_empty());
    assert_eq!(plan.root_latency(), 0);
}

#[test]
fn latency_cycle_report_names_the_offender_and_the_path() {
    let graph = graph(
        vec![
            atom("osc", "source", 0, &[], &["audio"]),
            atom("m", "adder", 0, &["a", "b"], &["out"]),
            atom("p", "proc", 64, &["audio_in"], &["audio_out"]),
            atom("fb", FEEDBACK_DELAY_DEFINITION, 0, &["audio_in"], &["audio_out"]),
        ],
        vec![
            cable("osc", "audio", "m", "a"),
            cable("m", "out", "p", "audio_in"),
            cable("p", "audio_out", "fb", "audio_in"),
            cable("fb", "audio_out", "m", "b"),
        ],
        vec![output("m", "out")],
    );
    let diagnostics = graph.balance_latency().expect_err("latency inside a feedback cycle cannot be compensated");
    let reported = &diagnostics.all()[0];
    assert_eq!(reported.module_id.as_deref(), Some("p"));
    assert_eq!(
        reported.message,
        "feedback cycle m -> p -> fb contains latency-bearing node 'p' (64 samples); latency inside a feedback cycle cannot be compensated"
    );
}

#[test]
fn latency_bearing_cycle_beside_a_plain_one_is_rejected() {
    let graph = graph(
        vec![
            atom("x", "proc", 64, &["audio_in"], &["audio_out"]),
            atom("y", "gain", 0, &["audio_in"], &["audio_out"]),
            atom("f", FEEDBACK_DELAY_DEFINITION, 0, &["audio_in"], &["audio_out"]),
        ],
        vec![
            cable("x", "audio_out", "f", "audio_in"),
            cable("f", "audio_out", "x", "audio_in"),
            cable("y", "audio_out", "f", "audio_in"),
            cable("f", "audio_out", "y", "audio_in"),
        ],
        Vec::new(),
    );
    let diagnostics = graph.balance_latency().expect_err("x sits on a feedback cycle");
    assert!(diagnostics.all().iter().all(|d| d.error_code() == ErrorCode::KernelLatencyInFeedbackCycle));
    assert_eq!(diagnostics.all()[0].module_id.as_deref(), Some("x"));
}

#[test]
fn forward_cycle_is_rejected_listing_the_unordered_nodes() {
    let graph = graph(
        vec![
            atom("osc", "source", 0, &[], &["audio"]),
            atom("a", "gain", 0, &["audio_in"], &["audio_out"]),
            atom("b", "gain", 0, &["audio_in"], &["audio_out"]),
        ],
        vec![cable("a", "audio_out", "b", "audio_in"), cable("b", "audio_out", "a", "audio_in")],
        Vec::new(),
    );

    let diagnostics = graph.balance_latency().expect_err("a forward cycle cannot be ordered");
    assert_eq!(diagnostics.len(), 1);
    let reported = &diagnostics.all()[0];
    assert_eq!(reported.error_code(), ErrorCode::KernelCycleWithoutFeedbackDelay);
    assert_eq!(
        reported.message,
        "latency balancing found a routing cycle with no 'feedback_delay' node among nodes: a, b; every feedback cycle must pass through a 'feedback_delay' primitive"
    );
}

#[test]
fn connection_from_an_undeclared_node_blocks_ordering() {
    let graph = graph(
        vec![atom("a", "gain", 0, &["audio_in"], &["audio_out"])],
        vec![cable("ghost", "out", "a", "audio_in")],
        Vec::new(),
    );
    let diagnostics = graph.balance_latency().expect_err("the undeclared source never settles");
    assert_eq!(diagnostics.all()[0].error_code(), ErrorCode::KernelCycleWithoutFeedbackDelay);
}

#[test]
fn root_latency_reads_only_the_root_output_sources() {
    let graph = graph(
        vec![
            atom("osc", "source", 0, &[], &["audio"]),
            atom("slow", "proc", 500, &["audio_in"], &["audio_out"]),
            atom("fast", "proc", 3, &["audio_in"], &["audio_out"]),
        ],
        vec![cable("osc", "audio", "slow", "audio_in"), cable("osc", "audio", "fast", "audio_in")],
        vec![output("fast", "audio_out")],
    );
    let plan = graph.balance_latency().expect("balances");
    assert_eq!(plan.root_latency(), 3, "a dead latency-bearing branch does not inflate the root latency");
}

#[test]
fn compensation_width_follows_the_source_port() {
    let mut wide = atom("wide", "source", 0, &[], &[]);
    wide.ports.push(port("audio", PortDirection::Output, 2));
    let graph = graph(
        vec![
            wide,
            atom("p", "proc", 10, &["audio_in"], &["audio_out"]),
            atom("m", "adder", 0, &["a", "b"], &["out"]),
        ],
        vec![
            cable("wide", "audio", "p", "audio_in"),
            cable("wide", "audio", "m", "a"),
            cable("p", "audio_out", "m", "b"),
            cable("wide", "missing", "m", "a"),
        ],
        vec![output("m", "out")],
    );
    let plan = graph.balance_latency().expect("balances");
    assert_eq!(plan.compensations().len(), 2);
    assert_eq!(plan.compensations()[0].channels(), 2);
    assert_eq!(plan.compensations()[0].samples(), 10);
    assert_eq!(plan.compensations()[1].channels(), 0, "an unresolved source port has no width");
}

#[test]
fn feedback_delay_output_starts_a_fresh_origin() {
    let graph = graph(
        vec![
            atom("osc", "source", 0, &[], &["audio"]),
            atom("p", "proc", 40, &["audio_in"], &["audio_out"]),
            atom("fb", FEEDBACK_DELAY_DEFINITION, 0, &["audio_in"], &["audio_out"]),
            atom("m", "adder", 0, &["a", "b"], &["out"]),
        ],
        vec![
            cable("osc", "audio", "p", "audio_in"),
            cable("p", "audio_out", "fb", "audio_in"),
            cable("fb", "audio_out", "m", "a"),
            cable("osc", "audio", "m", "b"),
        ],
        vec![output("m", "out")],
    );
    let plan = graph.balance_latency().expect("balances");
    assert!(plan.compensations().is_empty(), "the tap into feedback_delay is not compensated");
    assert_eq!(plan.root_latency(), 0);
}

#[test]
fn portless_root_reports_the_longest_settled_output() {
    let graph = graph(
        vec![
            atom("osc", "source", 0, &[], &["audio"]),
            atom("slow", "proc", 500, &["audio_in"], &["audio_out"]),
            atom("fast", "proc", 3, &["audio_in"], &["audio_out"]),
        ],
        vec![cable("osc", "audio", "slow", "audio_in"), cable("osc", "audio", "fast", "audio_in")],
        Vec::new(),
    );
    let plan = graph.balance_latency().expect("balances");
    assert_eq!(plan.root_latency(), 500);
}

#[test]
fn latency_bearing_cycle_missed_by_the_depth_first_walk_is_still_rejected() {
    let graph = graph(
        vec![
            atom("f", FEEDBACK_DELAY_DEFINITION, 0, &["audio_in"], &["audio_out"]),
            atom("u", "adder", 0, &["a", "b"], &["out"]),
            atom("x", "proc", 64, &["audio_in"], &["audio_out"]),
        ],
        vec![
            cable("f", "audio_out", "u", "a"),
            cable("f", "audio_out", "x", "audio_in"),
            cable("x", "audio_out", "u", "b"),
            cable("u", "out", "f", "audio_in"),
        ],
        Vec::new(),
    );
    let diagnostics = graph.balance_latency().expect_err("x sits on the cycle f -> x -> u -> f");
    assert_eq!(diagnostics.len(), 1);
    let reported = &diagnostics.all()[0];
    assert_eq!(reported.error_code(), ErrorCode::KernelLatencyInFeedbackCycle);
    assert_eq!(reported.module_id.as_deref(), Some("x"));
    assert_eq!(
        reported.message,
        "feedback cycle through 'x' contains latency-bearing node 'x' (64 samples); latency inside a feedback cycle cannot be compensated"
    );
}

#[test]
fn each_latency_cycle_met_is_reported_once_in_search_order() {
    let graph = graph(
        vec![
            atom("p1", "proc", 10, &["audio_in"], &["audio_out"]),
            atom("f1", FEEDBACK_DELAY_DEFINITION, 0, &["audio_in"], &["audio_out"]),
            atom("p2", "proc", 20, &["audio_in"], &["audio_out"]),
            atom("f2", FEEDBACK_DELAY_DEFINITION, 0, &["audio_in"], &["audio_out"]),
        ],
        vec![
            cable("p1", "audio_out", "f1", "audio_in"),
            cable("f1", "audio_out", "p1", "audio_in"),
            cable("p2", "audio_out", "f2", "audio_in"),
            cable("f2", "audio_out", "p2", "audio_in"),
        ],
        Vec::new(),
    );
    let diagnostics = graph.balance_latency().expect_err("both cycles carry latency");
    let messages: Vec<&str> = diagnostics.all().iter().map(|d| d.message.as_str()).collect();
    assert_eq!(
        messages,
        vec![
            "feedback cycle p1 -> f1 contains latency-bearing node 'p1' (10 samples); latency inside a feedback cycle cannot be compensated",
            "feedback cycle p2 -> f2 contains latency-bearing node 'p2' (20 samples); latency inside a feedback cycle cannot be compensated",
        ]
    );
}
