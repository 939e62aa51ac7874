use vstd::prelude::*;

pub mod chunking;
pub mod diagnostics;
pub mod kernel;
pub mod latency;
pub mod event_queue;
pub mod flatten;
pub mod instrument_state;
pub mod library_version;
pub mod module_library;
pub mod module_package;
pub mod module_reference;
pub mod name_map;
pub mod oscillator;
pub mod text;
pub mod validation;
