use vstd::prelude::*;

verus! {

/// Identifier of a place (a token counter).
pub type Place = usize;

/// Simulated time, counted in ticks; `Time::MAX` as a horizon runs without bound.
pub type Time = u64;

/// Token count held by one place.
#[derive(Debug, Copy, Clone, PartialEq, Eq, Structural)]
pub struct PlaceState {
    pub tokens: i32,
}

/// One signed delta applied to one place when an event fires.
#[derive(Debug, Copy, Clone, PartialEq, Eq, Structural)]
pub struct StateChange {
    pub place: Place,
    pub value: i32,
}

/// A randomly timed transition of the system.
///
/// The three place lists and the list returned by `fire` are taken to be fixed
/// for the lifetime of a simulation; the engine reads them once, when it is built.
pub trait Event {
    /// The hazard rate's representation, handed as is to a [`DelaySampler`].
    type Rate;

    /// Places whose token counts decide whether the event is enabled.
    fn enablement_inputs(&self) -> Vec<Place>;

    /// Places whose token counts decide the hazard rate.
    fn rate_inputs(&self) -> Vec<Place>;

    /// Places that the event changes when it fires.
    fn outputs(&self) -> Vec<Place>;

    /// Whether the event may fire, given the state of its enablement inputs in order.
    fn enabled(&self, _inputs: &[PlaceState]) -> bool {
        true
    }

    /// Exponential rate of the event, given the state of its rate inputs in order.
    /// Only called when `enabled` has just returned true.
    fn hazard_rate(&self, inputs: &[PlaceState]) -> Self::Rate;

    /// Deltas applied, in order, when the event fires.
    fn fire(&self) -> Vec<StateChange>;
}

/// Source of the random waiting times of the simulation.
pub trait DelaySampler<R> {
    /// Draws a waiting time, in ticks, from an exponential distribution with the given rate.
    fn sample_delay(&mut self, rate: R) -> Time;
}

} // verus!
