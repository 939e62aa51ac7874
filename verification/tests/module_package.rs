use dandrum_engine::diagnostics::{Diagnostic, ErrorCode, Severity};
use dandrum_engine::kernel::document::parse_reference;
use dandrum_engine::kernel::{DefinitionRegistry, GraphDefinition, Node, NodeId};
use dandrum_engine::module_package::{
    absorb_package, check_package_entry, external_references, next_unloaded, validate_package_entry_path,
    ModulePackageError,
    PACKAGE_ENTRY_EXTENSION,
};
use dandrum_engine::module_reference::ModuleReferenceError;

#[test]
fn entry_named_after_its_folder_yields_the_folder_as_package_root() {
    assert_eq!(PACKAGE_ENTRY_EXTENSION, "yaml");
    assert_eq!(
        validate_package_entry_path("lib/1.0.0/drum_voice/drum_voice.yaml"),
        Ok("lib/1.0.0/drum_voice".to_string())
    );
}

#[test]
fn entry_not_named_after_its_folder_is_a_name_mismatch() {
    assert_eq!(
        validate_package_entry_path("lib/1.0.0/drum_voice/voice.yaml"),
        Err(ModulePackageError::NameMismatch {
            path: "lib/1.0.0/drum_voice/voice.yaml".to_string(),
            expected: "drum_voice".to_string(),
        })
    );
}

#[test]
fn entry_with_another_extension_is_a_name_mismatch() {
    assert!(matches!(
        validate_package_entry_path("pkg/pkg.yml"),
        Err(ModulePackageError::NameMismatch { .. })
    ));
}

#[test]
fn entry_without_a_named_folder_is_not_checked() {
    assert_eq!(validate_package_entry_path("anything.yaml"), Ok(String::new()));
}

#[test]
fn package_errors_map_to_their_diagnostic_codes() {
    let read = ModulePackageError::ReadFailed { path: "a/a.yaml".to_string(), message: "gone".to_string() };
    assert_eq!(read.to_diagnostic().error_code(), ErrorCode::LibraryPackageReadFailed);
    assert!(read.to_diagnostic().is_error());

    let mismatch = ModulePackageError::NameMismatch { path: "a/b.yaml".to_string(), expected: "a".to_string() };
    assert_eq!(mismatch.to_diagnostic().error_code(), ErrorCode::LibraryPackageNameMismatch);

    let kernel = Diagnostic::new(ErrorCode::KernelMissingNode, Severity::Warning, "warned".to_string());
    assert_eq!(ModulePackageError::Kernel(kernel.clone()).to_diagnostic(), kernel);

    let reference: ModulePackageError = ModuleReferenceError::UnknownMacro { macro_name: "$X".to_string() }.into();
    assert_eq!(
        reference,
        ModulePackageError::Reference(ModuleReferenceError::UnknownMacro { macro_name: "$X".to_string() })
    );
    assert_eq!(reference.to_diagnostic().error_code(), ErrorCode::LibraryUnknownMacro);
}

#[test]
fn external_references_are_collected_once_in_ascending_order() {
    let inner = GraphDefinition::new("inner")
        .with_node(Node::new(NodeId::new("c"), "$USER_LIB/c/c.yaml"))
        .with_node(Node::new(NodeId::new("a2"), "$LIB/a/a.yaml"));
    let registry = DefinitionRegistry::new().with_definition(inner);
    let root = GraphDefinition::new("root")
        .with_node(Node::new(NodeId::new("b"), "$LIB/b/b.yaml"))
        .with_node(Node::new(NodeId::new("g"), "gain"))
        .with_node(Node::new(NodeId::new("a"), "$LIB/a/a.yaml"));

    assert_eq!(
        external_references(&root, &registry),
        vec!["$LIB/a/a.yaml".to_string(), "$LIB/b/b.yaml".to_string(), "$USER_LIB/c/c.yaml".to_string()]
    );
}

#[test]
fn definitions_without_external_references_yield_none() {
    let root = GraphDefinition::new("root").with_node(Node::new(NodeId::new("g"), "gain"));
    assert!(external_references(&root, &DefinitionRegistry::new()).is_empty());
}

#[test]
fn port_references_split_at_the_first_dot() {
    let reference = parse_reference("amp.audio_in").expect("well-formed reference");
    assert_eq!(reference.node().as_str(), "amp");
    assert_eq!(reference.port(), "audio_in");

    let dotted = parse_reference("env.decay.time").expect("port names may hold dots");
    assert_eq!(dotted.node().as_str(), "env");
    assert_eq!(dotted.port(), "decay.time");

    let diagnostics = parse_reference("amp").expect_err("a reference needs a dot");
    assert_eq!(diagnostics.len(), 1);
    let diagnostic = &diagnostics.all()[0];
    assert_eq!(diagnostic.error_code(), ErrorCode::KernelDocumentParseFailed);
    assert_eq!(diagnostic.expected.as_deref(), Some("module.port"));
    assert_eq!(diagnostic.actual.as_deref(), Some("amp"));
}

#[test]
fn package_entry_check_compares_the_entry_with_the_folder_name() {
    let some = |text: &str| Some(text.to_string());
    assert_eq!(
        check_package_entry("kit/kick/kick.yaml", some("kit/kick"), some("kick"), some("kick.yaml")),
        Ok("kit/kick".to_string())
    );
    assert_eq!(
        check_package_entry("kit/kick/snare.yaml", some("kit/kick"), some("kick"), some("snare.yaml")),
        Err(ModulePackageError::NameMismatch { path: "kit/kick/snare.yaml".to_string(), expected: "kick".to_string() })
    );
    assert_eq!(check_package_entry("x", None, None, some("x")), Ok(".".to_string()));
    assert!(check_package_entry("kit/kick", some("kit"), some("kit"), None).is_err());
}

#[test]
fn next_unloaded_passes_over_loaded_references() {
    let registry = DefinitionRegistry::new().with_definition(GraphDefinition::new("$LIB/a/a.yaml"));
    let pending = vec!["$LIB/a/a.yaml".to_string(), "$LIB/b/b.yaml".to_string(), "$LIB/c/c.yaml".to_string()];
    let (next, rest) = next_unloaded(&registry, pending);
    assert_eq!(next.as_deref(), Some("$LIB/b/b.yaml"));
    assert_eq!(rest, vec!["$LIB/c/c.yaml".to_string()]);
    let (next, rest) = next_unloaded(&registry, vec!["$LIB/a/a.yaml".to_string()]);
    assert_eq!(next, None);
    assert!(rest.is_empty());
}

#[test]
fn absorbed_package_joins_the_registry_after_its_inline_definitions() {
    let registry = DefinitionRegistry::new().with_definition(GraphDefinition::new("root"));
    let inline = GraphDefinition::new("voice").with_node(Node::new(NodeId::new("c"), "$LIB/c/c.yaml"));
    let nested_registry = DefinitionRegistry::new().with_definition(inline);
    let nested = GraphDefinition::new("$LIB/b/b.yaml").with_node(Node::new(NodeId::new("a"), "$LIB/a/a.yaml"));
    let (registry, pending) =
        absorb_package(registry, vec!["$LIB/z/z.yaml".to_string()], nested, nested_registry);
    assert!(registry.get("root").is_some());
    assert!(registry.get("voice").is_some());
    assert_eq!(registry.get("$LIB/b/b.yaml").map(|d| d.nodes().len()), Some(1));
    assert_eq!(
        pending,
        vec!["$LIB/z/z.yaml".to_string(), "$LIB/a/a.yaml".to_string(), "$LIB/c/c.yaml".to_string()]
    );
}
