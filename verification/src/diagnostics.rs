//! Structured validation diagnostics shared by the kernel, the module
//! reference resolver, the package loader and the library seeder.
use vstd::prelude::*;

verus! {

/// How severe a diagnostic is.
#[derive(Clone, Copy, Debug, PartialEq, Eq, Structural)]
pub enum Severity {
    Error,
    Warning,
}

/// Stable identity of a diagnostic, independent of its message wording.
#[derive(Clone, Copy, Debug, PartialEq, Eq, Structural)]
pub enum ErrorCode {
    LibraryMalformedReference,
    LibraryUnknownMacro,
    LibraryPathEscape,
    LibraryLatestUnavailable,
    LibrarySeedFailed,
    LibraryPackageReadFailed,
    LibraryPackageNameMismatch,
    KernelUnknownDefinition,
    KernelUnknownStaticArgument,
    KernelUnknownStaticParamReference,
    KernelStaticArgumentExpression,
    KernelMissingStaticArgument,
    KernelStaticArgumentTypeMismatch,
    KernelUnresolvedStaticReference,
    KernelInvalidStaticReferenceValue,
    KernelOverrideUnknownPort,
    KernelIncompatibleSignalTypes,
    KernelChannelCountMismatch,
    KernelMultipleSources,
    KernelCycleWithoutFeedbackDelay,
    KernelMissingNode,
    KernelIncorrectPortDirection,
    KernelStaticParamNotAPort,
    KernelMissingPort,
    KernelLatencyInFeedbackCycle,
    KernelMaxDepthExceeded,
    KernelRecursiveDefinition,
    KernelDocumentParseFailed,
    KernelDocumentNoOutput,
    KernelDocumentUnsupportedFormat,
    KernelDocumentReadFailed,
    KernelDocumentLegacyRender,
    KernelDocumentLegacyVoiceAllocation,
    KernelDocumentLegacyAssetBindings,
    KernelDocumentLegacyParameters,
    KernelDocumentLegacyBinding,
    KernelDefinitionImplementationUnsupported,
}

/// One structured diagnostic.
#[derive(Debug, PartialEq, Eq)]
pub struct Diagnostic {
    pub code: ErrorCode,
    pub severity: Severity,
    pub message: String,
    pub module_id: Option<String>,
    pub port_name: Option<String>,
    pub expected: Option<String>,
    pub actual: Option<String>,
    pub suggested_fix: Option<String>,
}

impl Clone for Diagnostic {
    fn clone(&self) -> (copy: Self)
        ensures
            copy == *self,
    {
        Diagnostic {
            code: self.code,
            severity: self.severity,
            message: self.message.clone(),
            module_id: clone_text(&self.module_id),
            port_name: clone_text(&self.port_name),
            expected: clone_text(&self.expected),
            actual: clone_text(&self.actual),
            suggested_fix: clone_text(&self.suggested_fix),
        }
    }
}

/// A copy of an optional text field.
pub fn clone_text(text: &Option<String>) -> (copy: Option<String>)
    ensures
        copy == *text,
{
    match text {
        Some(value) => Some(value.clone()),
        None => None,
    }
}

impl Diagnostic {
    pub fn new(code: ErrorCode, severity: Severity, message: String) -> (diagnostic: Self)
        ensures
            diagnostic.code == code,
            diagnostic.severity == severity,
            diagnostic.message == message,
            diagnostic.module_id.is_none(),
            diagnostic.port_name.is_none(),
            diagnostic.expected.is_none(),
            diagnostic.actual.is_none(),
            diagnostic.suggested_fix.is_none(),
    {
        Diagnostic {
            code,
            severity,
            message,
            module_id: None,
            port_name: None,
            expected: None,
            actual: None,
            suggested_fix: None,
        }
    }

    pub fn error_code(&self) -> (code: ErrorCode)
        ensures
            code == self.code,
    {
        self.code
    }

    pub fn is_error(&self) -> (error: bool)
        ensures
            error == (self.severity == Severity::Error),
    {
        self.severity == Severity::Error
    }

    pub fn with_module_id(self, module_id: String) -> (diagnostic: Self)
        ensures
            diagnostic == (Diagnostic { module_id: Some(module_id), ..self }),
    {
        Diagnostic { module_id: Some(module_id), ..self }
    }

    pub fn with_port_name(self, port_name: String) -> (diagnostic: Self)
        ensures
            diagnostic == (Diagnostic { port_name: Some(port_name), ..self }),
    {
        Diagnostic { port_name: Some(port_name), ..self }
    }

    pub fn with_expected(self, expected: String) -> (diagnostic: Self)
        ensures
            diagnostic == (Diagnostic { expected: Some(expected), ..self }),
    {
        Diagnostic { expected: Some(expected), ..self }
    }

    pub fn with_actual(self, actual: String) -> (diagnostic: Self)
        ensures
            diagnostic == (Diagnostic { actual: Some(actual), ..self }),
    {
        Diagnostic { actual: Some(actual), ..self }
    }

    pub fn with_suggested_fix(self, fix: String) -> (diagnostic: Self)
        ensures
            diagnostic == (Diagnostic { suggested_fix: Some(fix), ..self }),
    {
        Diagnostic { suggested_fix: Some(fix), ..self }
    }
}

/// An ordered collection of diagnostics.
#[derive(Debug, PartialEq, Eq)]
pub struct Diagnostics {
    items: Vec<Diagnostic>,
}

/// `true` when some diagnostic in `items` has error severity.
/// `d` is an error with the given code and message and no further detail.
pub open spec fn plain_error(d: Diagnostic, code: ErrorCode, message: Seq<char>) -> bool {
    &&& d.code == code
    &&& d.severity == Severity::Error
    &&& d.message@ == message
    &&& d.module_id is None
    &&& d.port_name is None
    &&& d.expected is None
    &&& d.actual is None
    &&& d.suggested_fix is None
}

pub open spec fn any_error(items: Seq<Diagnostic>) -> bool {
    exists|i: int| 0 <= i < items.len() && items[i].severity == Severity::Error
}

impl View for Diagnostics {
    type V = Seq<Diagnostic>;

    closed spec fn view(&self) -> Seq<Diagnostic> {
        self.items@
    }
}

impl Diagnostics {
    pub fn new() -> (diagnostics: Self)
        ensures
            diagnostics@ == Seq::<Diagnostic>::empty(),
    {
        Diagnostics { items: Vec::new() }
    }

    /// A collection holding exactly `diagnostic`.
    pub fn single(diagnostic: Diagnostic) -> (diagnostics: Self)
        ensures
            diagnostics@ == seq![diagnostic],
    {
        let mut items = Vec::new();
        items.push(diagnostic);
        Diagnostics { items }
    }

    pub fn push(&mut self, diagnostic: Diagnostic)
        ensures
            final(self)@ == old(self)@.push(diagnostic),
    {
        self.items.push(diagnostic);
    }

    pub fn all(&self) -> (items: &Vec<Diagnostic>)
        ensures
            items@ == self@,
    {
        &self.items
    }

    pub fn len(&self) -> (count: usize)
        ensures
            count == self@.len(),
    {
        self.items.len()
    }

    pub fn has_errors(&self) -> (errors: bool)
        ensures
            errors == any_error(self@),
    {
        let mut i: usize = 0;
        while i < self.items.len()
            invariant
                i <= self.items@.len(),
                forall|j: int| 0 <= j < i ==> self.items@[j].severity != Severity::Error,
            decreases self.items@.len() - i,
        {
            if self.items[i].is_error() {
                return true;
            }
            i = i + 1;
        }
        false
    }

    /// The number of error-severity diagnostics.
    pub fn error_count(&self) -> (count: usize)
        ensures
            count <= self@.len(),
            count == 0 <==> !any_error(self@),
    {
        let mut count: usize = 0;
        let mut i: usize = 0;
        while i < self.items.len()
            invariant
                i <= self.items@.len(),
                count <= i,
                count == 0 <==> forall|j: int| 0 <= j < i ==> self.items@[j].severity != Severity::Error,
            decreases self.items@.len() - i,
        {
            if self.items[i].is_error() {
                count = count + 1;
            }
            i = i + 1;
        }
        count
    }
}

} // verus!
