//! Discrete-event engine for continuous-time stochastic systems whose state is
//! a set of integer token counters ("places") changed by randomly timed events.

pub mod model;
pub mod queue;
pub mod simulation;
pub mod conservation;

pub use model::{DelaySampler, Event, Place, PlaceState, StateChange, Time};
pub use queue::{FiringQueue, ScheduledFiring};
pub use simulation::{SimError, Simulation};
