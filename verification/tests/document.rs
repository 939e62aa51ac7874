use dandrum_engine::diagnostics::{Diagnostics, ErrorCode};
use dandrum_engine::kernel::document::{
    check_patch_format, convert_node, convert_patch_document, convert_port, patch_format, convert_static_param, convert_static_value,
    infer_static_type, ChannelDocument, CompositeDocument, ConnectionDocument, KernelPatchMetadata,
    MetadataDocument, NodeDocument, PatchDocument, PortDocument, ResourceKindDocument, StaticParamDocument,
    StaticTypeDocument,
};
use dandrum_engine::kernel::yaml::{reject_legacy_document_shape, YamlEntry, YamlValue};
use dandrum_engine::kernel::{
    ChannelCount, DefinitionRegistry, GraphDefinition, Multiplicity, PortDirection, SignalType, StaticArg,
    StaticParam, StaticType, StaticValue,
};
use dandrum_engine::module_package::ModulePackageError;
use dandrum_engine::module_reference::ModuleReferenceError;
use dandrum_engine::name_map::NameMap;

fn text(value: &str) -> YamlValue {
    YamlValue::Str(value.to_string())
}

fn mapping(entries: Vec<(&str, YamlValue)>) -> YamlValue {
    YamlValue::Mapping(
        entries.into_iter().map(|(key, value)| YamlEntry { key: text(key), value }).collect(),
    )
}

fn empty_mapping() -> YamlValue {
    YamlValue::Mapping(Vec::new())
}

fn first(diagnostics: &Diagnostics) -> &dandrum_engine::diagnostics::Diagnostic {
    &diagnostics.all()[0]
}

fn port(name: &str, direction: PortDirection, signal: SignalType) -> PortDocument {
    PortDocument {
        name: name.to_string(),
        direction,
        signal,
        channels: ChannelDocument::Literal(1),
        multiplicity: Multiplicity::SingleSource,
        default: None,
        min: None,
        max: None,
        unit: None,
        maps_to: Vec::new(),
        maps_from: Vec::new(),
    }
}

fn node(id: &str, definition_type: &str, args: Vec<(&str, YamlValue)>) -> NodeDocument {
    let mut static_args = NameMap::new();
    for (name, value) in args {
        static_args.insert(name, value);
    }
    NodeDocument { id: id.to_string(), definition_type: definition_type.to_string(), static_args, defaults: NameMap::new() }
}

fn metadata(name: Option<&str>) -> MetadataDocument {
    MetadataDocument { name: name.map(str::to_string), version: Some("1.2".to_string()), author: None }
}

fn patch(ports: Vec<PortDocument>, composites: Vec<CompositeDocument>, modules: Vec<NodeDocument>) -> PatchDocument {
    PatchDocument {
        metadata: metadata(Some("test")),
        static_params: Vec::new(),
        ports,
        module_definitions: composites,
        modules,
        connections: Vec::new(),
    }
}

fn amplifier() -> CompositeDocument {
    CompositeDocument {
        definition_type: "amplifier".to_string(),
        implementation: None,
        static_params: vec![StaticParamDocument {
            name: "channels".to_string(),
            static_type: StaticTypeDocument::Int,
            resource_kind: None,
            default: Some(YamlValue::Int(2)),
        }],
        ports: vec![port("in", PortDirection::Input, SignalType::Audio), port("out", PortDirection::Output, SignalType::Audio)],
        modules: Vec::new(),
        connections: Vec::new(),
    }
}

#[test]
fn legacy_document_fields_are_rejected_with_specific_diagnostics() {
    for (field, code) in [
        ("render", ErrorCode::KernelDocumentLegacyRender),
        ("voice_allocation", ErrorCode::KernelDocumentLegacyVoiceAllocation),
    ] {
        let value = mapping(vec![("metadata", empty_mapping()), (field, empty_mapping())]);
        let diagnostics = reject_legacy_document_shape(&value).expect_err("legacy field should fail");
        assert_eq!(first(&diagnostics).error_code(), code);
        assert!(first(&diagnostics).message.contains(field));
    }
}

#[test]
fn legacy_instance_parameters_are_rejected_with_module_context() {
    let module = mapping(vec![("id", text("amp")), ("type", text("gain")), ("parameters", empty_mapping())]);
    let value = mapping(vec![("modules", YamlValue::Sequence(vec![module]))]);
    let diagnostics = reject_legacy_document_shape(&value).expect_err("parameters should fail");
    assert_eq!(first(&diagnostics).error_code(), ErrorCode::KernelDocumentLegacyParameters);
    assert_eq!(first(&diagnostics).module_id.as_deref(), Some("amp"));
}

#[test]
fn legacy_binding_anywhere_in_a_module_is_rejected() {
    let module = mapping(vec![
        ("id", text("child")),
        ("type", text("child")),
        ("static", mapping(vec![("channels", text("${channels}"))])),
    ]);
    let value = mapping(vec![("modules", YamlValue::Sequence(vec![module]))]);
    let diagnostics = reject_legacy_document_shape(&value).expect_err("legacy binding should fail");
    assert_eq!(first(&diagnostics).error_code(), ErrorCode::KernelDocumentLegacyBinding);
    assert_eq!(first(&diagnostics).module_id.as_deref(), Some("child"));
}

#[test]
fn legacy_composite_asset_bindings_are_rejected_with_definition_context() {
    let composite = mapping(vec![("type", text("child")), ("asset_bindings", YamlValue::Sequence(Vec::new()))]);
    let value = mapping(vec![("module_definitions", YamlValue::Sequence(vec![composite]))]);
    let diagnostics = reject_legacy_document_shape(&value).expect_err("asset bindings should fail");
    assert_eq!(first(&diagnostics).error_code(), ErrorCode::KernelDocumentLegacyAssetBindings);
    assert_eq!(first(&diagnostics).module_id.as_deref(), Some("child"));
}

#[test]
fn current_document_shapes_pass_the_legacy_check() {
    let module = mapping(vec![("id", text("amp")), ("type", text("gain")), ("static", mapping(vec![("n", text("$n"))]))]);
    let value = mapping(vec![("modules", YamlValue::Sequence(vec![module]))]);
    assert!(reject_legacy_document_shape(&value).is_ok());
    assert!(reject_legacy_document_shape(&YamlValue::Null).is_ok());
}

#[test]
fn summing_multiplicity_and_control_default_convert() {
    let mut document = port("inputs", PortDirection::Input, SignalType::Audio);
    document.multiplicity = Multiplicity::Summing;
    document.default = Some(0.75f64.to_bits());
    document.max = Some(1.0f64.to_bits());
    document.unit = Some("linear".to_string());
    document.channels = ChannelDocument::Param("$channels".to_string());
    let converted = convert_port(&document).expect("port converts");
    assert_eq!(converted.multiplicity(), Multiplicity::Summing);
    assert_eq!(converted.channels, ChannelCount::Param("channels".to_string()));
    let control = converted.control_default().expect("control default");
    assert_eq!(control.default(), 0.75f64.to_bits());
    assert_eq!(control.min(), None);
    assert_eq!(control.max(), Some(1.0f64.to_bits()));
    assert_eq!(control.unit(), Some("linear"));
}

#[test]
fn malformed_internal_mapping_is_reported_with_the_reference() {
    let mut document = port("level", PortDirection::Input, SignalType::Control);
    document.maps_to = vec!["amp.level".to_string(), "amp".to_string()];
    let diagnostics = convert_port(&document).expect_err("reference without a port");
    assert_eq!(first(&diagnostics).error_code(), ErrorCode::KernelDocumentParseFailed);
    assert_eq!(first(&diagnostics).actual.as_deref(), Some("amp"));
    assert_eq!(first(&diagnostics).message, "port reference 'amp' must have the form module.port");
}

#[test]
fn resource_static_parameter_requires_a_resource_kind() {
    let document = StaticParamDocument {
        name: "sample".to_string(),
        static_type: StaticTypeDocument::Resource,
        resource_kind: None,
        default: None,
    };
    let diagnostics = convert_static_param(&document).expect_err("resource declarations without a kind must fail");
    assert_eq!(first(&diagnostics).error_code(), ErrorCode::KernelDocumentParseFailed);
    let with_kind = StaticParamDocument { resource_kind: Some(ResourceKindDocument::Sample), ..document };
    assert_eq!(convert_static_param(&with_kind).expect("kind given").static_type(), StaticType::Resource);
}

#[test]
fn static_values_convert_by_their_declared_type() {
    let resource = mapping(vec![("kind", text("impulse_response")), ("path", text("room_ir.wav"))]);
    assert_eq!(
        convert_static_value(&resource, StaticType::Resource).expect("resource"),
        StaticValue::Resource("room_ir.wav".to_string())
    );
    assert_eq!(infer_static_type(&resource), StaticType::Resource);
    assert_eq!(infer_static_type(&YamlValue::Int(3)), StaticType::Int);
    assert_eq!(infer_static_type(&text("clean")), StaticType::Enum);
    let mismatch = convert_static_value(&text("two"), StaticType::Int).expect_err("not an integer");
    assert_eq!(first(&mismatch).expected.as_deref(), Some("Int"));
}

#[test]
fn node_static_arguments_are_pass_through_expression_or_literal() {
    let registry = DefinitionRegistry::new()
        .with_definition(GraphDefinition::new("gain").with_static_param(StaticParam::new("channels", StaticType::Int)));
    let document = node(
        "amp",
        "gain",
        vec![("channels", YamlValue::Int(2)), ("mode", text("$mode")), ("size", text("$size * 2"))],
    );
    let converted = convert_node(&document, &registry).expect("node converts");
    assert_eq!(converted.static_args().get("channels"), Some(&StaticArg::Literal(StaticValue::Int(2))));
    assert_eq!(converted.static_args().get("mode"), Some(&StaticArg::ParamRef("mode".to_string())));
    assert_eq!(converted.static_args().get("size"), Some(&StaticArg::Expression("$size * 2".to_string())));
}

#[test]
fn legacy_binding_in_a_node_argument_is_rejected() {
    let document = node("child", "child", vec![("channels", text("${channels}"))]);
    let diagnostics = convert_node(&document, &DefinitionRegistry::new()).expect_err("legacy binding");
    assert_eq!(first(&diagnostics).error_code(), ErrorCode::KernelDocumentLegacyBinding);
    assert_eq!(first(&diagnostics).module_id.as_deref(), Some("child"));
}

#[test]
fn declared_literal_type_is_enforced() {
    let registry = DefinitionRegistry::new()
        .with_definition(GraphDefinition::new("gain").with_static_param(StaticParam::new("channels", StaticType::Int)));
    let document = node("amp", "gain", vec![("channels", text("two"))]);
    let diagnostics = convert_node(&document, &registry).expect_err("type mismatch");
    assert_eq!(first(&diagnostics).expected.as_deref(), Some("Int"));
}

#[test]
fn complete_document_produces_root_and_inline_definitions() {
    let mut document = patch(
        vec![port("main", PortDirection::Output, SignalType::Audio)],
        vec![amplifier()],
        vec![node("amp", "amplifier", vec![("channels", YamlValue::Int(1))])],
    );
    document.connections = vec![ConnectionDocument { from: "amp.out".to_string(), to: "amp.in".to_string() }];
    let loaded = convert_patch_document(&document, None, true, DefinitionRegistry::new()).expect("patch converts");
    assert_eq!(loaded.metadata().name(), Some("test"));
    assert_eq!(loaded.metadata().version(), Some("1.2"));
    assert_eq!(loaded.root().name(), "test");
    assert_eq!(loaded.root().nodes().len(), 1);
    assert_eq!(loaded.root().connections().len(), 1);
    let amplifier = loaded.registry().get("amplifier").expect("inline composite");
    assert_eq!(amplifier.ports().len(), 2);
    assert_eq!(amplifier.static_params()[0].default(), Some(&StaticValue::Int(2)));
}

#[test]
fn definition_name_overrides_the_metadata_name() {
    let document = patch(Vec::new(), Vec::new(), Vec::new());
    let loaded = convert_patch_document(&document, Some("$LIB/voice"), false, DefinitionRegistry::new())
        .expect("definitions need no output");
    assert_eq!(loaded.root().name(), "$LIB/voice");
    let mut unnamed = patch(Vec::new(), Vec::new(), Vec::new());
    unnamed.metadata = metadata(None);
    let loaded = convert_patch_document(&unnamed, None, false, DefinitionRegistry::new()).expect("loads");
    assert_eq!(loaded.root().name(), "root");
}

#[test]
fn patch_without_root_output_has_structured_diagnostic() {
    let document = patch(vec![port("level", PortDirection::Input, SignalType::Control)], Vec::new(), Vec::new());
    let diagnostics =
        convert_patch_document(&document, None, true, DefinitionRegistry::new()).expect_err("root output is required");
    assert_eq!(first(&diagnostics).error_code(), ErrorCode::KernelDocumentNoOutput);
    assert!(first(&diagnostics).message.contains("no observable output"));
}

#[test]
fn unsupported_definition_implementation_has_a_structured_diagnostic() {
    let mut counter = amplifier();
    counter.definition_type = "counter".to_string();
    counter.implementation = Some("wasm".to_string());
    let document = patch(vec![port("main", PortDirection::Output, SignalType::Audio)], vec![counter], Vec::new());
    let diagnostics =
        convert_patch_document(&document, None, true, DefinitionRegistry::new()).expect_err("unsupported implementation fails");
    assert_eq!(first(&diagnostics).error_code(), ErrorCode::KernelDefinitionImplementationUnsupported);
    assert_eq!(first(&diagnostics).module_id.as_deref(), Some("counter"));
    assert_eq!(first(&diagnostics).actual.as_deref(), Some("wasm"));
}

#[test]
fn composite_nodes_take_the_types_their_registry_declares() {
    let mut outer = amplifier();
    outer.definition_type = "outer".to_string();
    outer.modules = vec![node("inner", "amplifier", vec![("channels", text("two"))])];
    let document = patch(vec![port("main", PortDirection::Output, SignalType::Audio)], vec![outer, amplifier()], Vec::new());
    let diagnostics =
        convert_patch_document(&document, None, true, DefinitionRegistry::new()).expect_err("declared Int");
    assert_eq!(first(&diagnostics).expected.as_deref(), Some("Int"));
}

#[test]
fn patch_metadata_keeps_what_it_was_given() {
    let metadata = KernelPatchMetadata::new(Some("kit".to_string()), None, Some("Test Author".to_string()));
    assert_eq!(metadata.name(), Some("kit"));
    assert_eq!(metadata.version(), None);
    assert_eq!(metadata.author(), Some("Test Author"));
}

#[test]
fn reference_errors_render_their_messages() {
    let error = ModuleReferenceError::PathEscape { reference: "$LIB/../x".to_string() };
    let diagnostic = error.to_diagnostic();
    assert_eq!(diagnostic.message, "module reference $LIB/../x escapes its library root");
    assert_eq!(ModulePackageError::Reference(error).to_diagnostic(), diagnostic);
    let mismatch = ModulePackageError::NameMismatch { path: "kick/drum.yaml".to_string(), expected: "kick".to_string() };
    assert_eq!(
        mismatch.to_diagnostic().message,
        "module package entry kick/drum.yaml must be named kick.yaml to mirror its folder"
    );
}

#[test]
fn root_asset_bindings_and_composite_parameters_are_rejected() {
    let value = mapping(vec![("asset_bindings", YamlValue::Sequence(Vec::new()))]);
    let diagnostics = reject_legacy_document_shape(&value).expect_err("root asset bindings");
    assert_eq!(first(&diagnostics).error_code(), ErrorCode::KernelDocumentLegacyAssetBindings);
    assert_eq!(first(&diagnostics).module_id, None);
    assert_eq!(
        first(&diagnostics).message,
        "legacy field 'asset_bindings' is not supported in kernel documents; declare assets as resource static parameters"
    );

    let composite = mapping(vec![("type", text("child")), ("parameters", empty_mapping())]);
    let value = mapping(vec![("module_definitions", YamlValue::Sequence(vec![composite]))]);
    let diagnostics = reject_legacy_document_shape(&value).expect_err("composite parameters");
    assert_eq!(first(&diagnostics).error_code(), ErrorCode::KernelDocumentLegacyParameters);
    assert_eq!(first(&diagnostics).module_id.as_deref(), Some("child"));
    assert_eq!(
        first(&diagnostics).suggested_fix.as_deref(),
        Some("declare tunables as public control input ports")
    );
}

#[test]
fn connection_references_must_name_a_module_and_port() {
    let mut document = patch(vec![port("main", PortDirection::Output, SignalType::Audio)], Vec::new(), Vec::new());
    document.connections = vec![ConnectionDocument { from: "osc.out".to_string(), to: "mixer".to_string() }];
    let diagnostics = convert_patch_document(&document, None, true, DefinitionRegistry::new()).expect_err("bad target");
    assert_eq!(first(&diagnostics).error_code(), ErrorCode::KernelDocumentParseFailed);
    assert_eq!(first(&diagnostics).actual.as_deref(), Some("mixer"));
    assert_eq!(first(&diagnostics).expected.as_deref(), Some("module.port"));
}

#[test]
fn unsupported_file_format_has_structured_diagnostic() {
    let diagnostics = check_patch_format("patch.json").expect_err("JSON should be rejected");
    assert_eq!(first(&diagnostics).error_code(), ErrorCode::KernelDocumentUnsupportedFormat);
    assert!(first(&diagnostics).message.contains(".json"));
    assert_eq!(first(&diagnostics).expected.as_deref(), Some(".yaml or .yml"));
    assert!(check_patch_format("kits/patch.yaml").is_ok());
    assert!(check_patch_format("kits/patch.yml").is_ok());
    assert!(patch_format("patch", None).is_err());
}
