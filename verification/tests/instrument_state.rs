use dandrum_engine::instrument_state::InstrumentParameterState;
use dandrum_engine::kernel::document::KernelPatchMetadata;

#[test]
fn a_new_state_holds_no_values() {
    let state: InstrumentParameterState<u64> = InstrumentParameterState::default();
    assert_eq!(state.values_by_id.get("tone.decay"), None);
}

#[test]
fn set_value_replaces_only_the_named_public_parameter() {
    let mut state: InstrumentParameterState<u64> = InstrumentParameterState::default();
    state.set_value("tone.decay", 0.5f64.to_bits());
    state.set_value("tone.level", 1.0f64.to_bits());
    state.set_value("tone.decay", 0.75f64.to_bits());

    assert_eq!(state.values_by_id.get("tone.decay"), Some(&0.75f64.to_bits()));
    assert_eq!(state.values_by_id.get("tone.level"), Some(&1.0f64.to_bits()));
    assert_eq!(state.values_by_id.len(), 2);
}

#[test]
fn default_patch_metadata_is_empty() {
    let metadata = KernelPatchMetadata::default();
    assert_eq!(metadata.name(), None);
    assert_eq!(metadata.version(), None);
    assert_eq!(metadata.author(), None);
}
