//! Runtime public-parameter values of a loaded instrument.
//!
//! Values live apart from the immutable instrument definition they belong to:
//! changing them never touches the definition.
use vstd::prelude::*;

use crate::name_map::NameMap;

verus! {

/// Mutable public values owned by a loaded plugin or engine instance.
///
/// Values are keyed by stable public id, so replacement instruments and
/// presets can reconcile by public parameter identity rather than by graph
/// structure. `V` is the parameter value type.
#[derive(Debug, PartialEq, Eq)]
pub struct InstrumentParameterState<V> {
    pub values_by_id: NameMap<V>,
}

impl<V> InstrumentParameterState<V> {
    /// The value held for `public_id`.
    pub open spec fn value(&self, public_id: Seq<char>) -> Option<V> {
        self.values_by_id.lookup(public_id)
    }

    /// Sets the value of the public parameter `public_id`, replacing any
    /// previous value; every other parameter keeps its value.
    pub fn set_value(&mut self, public_id: &str, value: V)
        ensures
            final(self).value(public_id@) == Some(value),
            forall|other: Seq<char>| other != public_id@ ==> final(self).value(other) == old(self).value(other),
    {
        self.values_by_id.insert(public_id, value);
    }
}

impl<V> Default for InstrumentParameterState<V> {
    fn default() -> (state: Self)
        ensures
            forall|public_id: Seq<char>| state.value(public_id) is None,
    {
        let state = InstrumentParameterState { values_by_id: NameMap::new() };
        assert forall|public_id: Seq<char>| state.value(public_id) is None by {}
        state
    }
}

} // verus!
