//! Oscillator waveform selection.
use vstd::prelude::*;

use crate::text::str_eq;

verus! {

/// Name of the rising-ramp waveform.
pub const WAVEFORM_SAW: &'static str = "saw";

/// Name of the sine waveform.
pub const WAVEFORM_SINE: &'static str = "sine";

/// Name of the triangle waveform.
pub const WAVEFORM_TRIANGLE: &'static str = "triangle";

/// Name of the square waveform.
pub const WAVEFORM_SQUARE: &'static str = "square";

/// Selectable oscillator waveform shapes.
///
/// `Saw` preserves the historical rising-ramp behaviour and remains the default
/// so existing patches render identically when no `waveform` parameter is set.
#[derive(Clone, Copy, Debug, PartialEq, Eq, Structural)]
pub enum Waveform {
    Saw,
    Sine,
    Triangle,
    Square,
}

/// The waveform a name selects, if it names one.
pub open spec fn waveform_named(name: Seq<char>) -> Option<Waveform> {
    if name == seq!['s', 'a', 'w'] {
        Some(Waveform::Saw)
    } else if name == seq!['s', 'i', 'n', 'e'] {
        Some(Waveform::Sine)
    } else if name == seq!['t', 'r', 'i', 'a', 'n', 'g', 'l', 'e'] {
        Some(Waveform::Triangle)
    } else if name == seq!['s', 'q', 'u', 'a', 'r', 'e'] {
        Some(Waveform::Square)
    } else {
        None
    }
}

impl Waveform {
    /// The waveform used when a patch selects none.
    pub const DEFAULT: Waveform = Waveform::Saw;

    /// Parses a declared waveform name; any other name is rejected.
    pub fn from_str(value: &str) -> (waveform: Option<Waveform>)
        ensures
            waveform == waveform_named(value@),
    {
        proof {
            reveal_strlit("saw");
            reveal_strlit("sine");
            reveal_strlit("triangle");
            reveal_strlit("square");
        }
        if str_eq(value, WAVEFORM_SAW) {
            assert("saw"@ =~= seq!['s', 'a', 'w']);
            Some(Waveform::Saw)
        } else if str_eq(value, WAVEFORM_SINE) {
            assert("sine"@ =~= seq!['s', 'i', 'n', 'e']);
            assert(value@ != seq!['s', 'a', 'w']);
            Some(Waveform::Sine)
        } else if str_eq(value, WAVEFORM_TRIANGLE) {
            assert("triangle"@ =~= seq!['t', 'r', 'i', 'a', 'n', 'g', 'l', 'e']);
            Some(Waveform::Triangle)
        } else if str_eq(value, WAVEFORM_SQUARE) {
            assert("square"@ =~= seq!['s', 'q', 'u', 'a', 'r', 'e']);
            Some(Waveform::Square)
        } else {
            assert("saw"@ =~= seq!['s', 'a', 'w']);
            assert("sine"@ =~= seq!['s', 'i', 'n', 'e']);
            assert("triangle"@ =~= seq!['t', 'r', 'i', 'a', 'n', 'g', 'l', 'e']);
            assert("square"@ =~= seq!['s', 'q', 'u', 'a', 'r', 'e']);
            None
        }
    }
}

} // verus!
