use dandrum_engine::diagnostics::{Diagnostic, Diagnostics, ErrorCode, Severity};

#[test]
fn builders_fill_the_optional_fields() {
    let diagnostic = Diagnostic::new(ErrorCode::KernelMissingPort, Severity::Error, "missing port".to_string())
        .with_module_id("amp".to_string())
        .with_port_name("in".to_string())
        .with_expected("1".to_string())
        .with_actual("2".to_string())
        .with_suggested_fix("connect it".to_string());
    assert_eq!(diagnostic.error_code(), ErrorCode::KernelMissingPort);
    assert!(diagnostic.is_error());
    assert_eq!(diagnostic.module_id.as_deref(), Some("amp"));
    assert_eq!(diagnostic.port_name.as_deref(), Some("in"));
    assert_eq!(diagnostic.expected.as_deref(), Some("1"));
    assert_eq!(diagnostic.actual.as_deref(), Some("2"));
    assert_eq!(diagnostic.suggested_fix.as_deref(), Some("connect it"));
    assert_eq!(diagnostic.clone(), diagnostic);
}

#[test]
fn warnings_are_not_errors() {
    let mut diagnostics = Diagnostics::new();
    diagnostics.push(Diagnostic::new(ErrorCode::KernelMissingPort, Severity::Warning, "soft".to_string()));
    assert!(!diagnostics.has_errors());
    assert_eq!(diagnostics.error_count(), 0);
    diagnostics.push(Diagnostic::new(ErrorCode::KernelMissingNode, Severity::Error, "hard".to_string()));
    assert!(diagnostics.has_errors());
    assert_eq!(diagnostics.error_count(), 1);
    assert_eq!(diagnostics.len(), 2);
    let single = Diagnostics::single(Diagnostic::new(ErrorCode::KernelMissingNode, Severity::Error, "x".to_string()));
    assert_eq!(single.len(), 1);
}
