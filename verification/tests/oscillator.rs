use dandrum_engine::oscillator::{Waveform, WAVEFORM_SAW, WAVEFORM_SINE, WAVEFORM_SQUARE, WAVEFORM_TRIANGLE};

#[test]
fn unknown_waveform_name_is_rejected() {
    assert!(
        Waveform::from_str("noise").is_none(),
        "only declared oscillator waveforms should parse"
    );
}

#[test]
fn declared_waveform_names_parse() {
    assert_eq!(Waveform::from_str(WAVEFORM_SAW), Some(Waveform::Saw));
    assert_eq!(Waveform::from_str(WAVEFORM_SINE), Some(Waveform::Sine));
    assert_eq!(Waveform::from_str(WAVEFORM_TRIANGLE), Some(Waveform::Triangle));
    assert_eq!(Waveform::from_str(WAVEFORM_SQUARE), Some(Waveform::Square));
    assert_eq!(Waveform::from_str("Saw"), None);
    assert_eq!(Waveform::from_str(""), None);
}

#[test]
fn saw_is_the_default() {
    assert_eq!(Waveform::DEFAULT, Waveform::Saw);
}
