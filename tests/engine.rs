use rand::distributions::{Distribution, Exp};

use stochastic_sim::{
    DelaySampler, Event, Place, PlaceState, ScheduledFiring, SimError, Simulation, StateChange, Time,
};

fn events_of(trace: Vec<ScheduledFiring>) -> Vec<usize> {
    trace.iter().map(|f| f.event).collect()
}

/// Moves one token from `from` to `to`, enabled while `from` holds a token.
#[derive(Debug, Clone)]
struct Transfer {
    from: Place,
    to: Place,
    rate: f64,
}

impl Event for Transfer {
    type Rate = f64;

    fn enablement_inputs(&self) -> Vec<Place> {
        vec![self.from]
    }

    fn rate_inputs(&self) -> Vec<Place> {
        vec![]
    }

    fn outputs(&self) -> Vec<Place> {
        vec![self.to, self.from]
    }

    fn enabled(&self, inputs: &[PlaceState]) -> bool {
        inputs[0].tokens > 0
    }

    fn hazard_rate(&self, _inputs: &[PlaceState]) -> f64 {
        self.rate
    }

    fn fire(&self) -> Vec<StateChange> {
        vec![
            StateChange { place: self.from, value: -1 },
            StateChange { place: self.to, value: 1 },
        ]
    }
}

/// Never enabled.
#[derive(Debug, Clone)]
struct Blocked {
    place: Place,
}

impl Event for Blocked {
    type Rate = f64;

    fn enablement_inputs(&self) -> Vec<Place> {
        vec![self.place]
    }

    fn rate_inputs(&self) -> Vec<Place> {
        vec![self.place]
    }

    fn outputs(&self) -> Vec<Place> {
        vec![self.place]
    }

    fn enabled(&self, _inputs: &[PlaceState]) -> bool {
        false
    }

    fn hazard_rate(&self, _inputs: &[PlaceState]) -> f64 {
        1.0
    }

    fn fire(&self) -> Vec<StateChange> {
        vec![StateChange { place: self.place, value: 1 }]
    }
}

/// Writes a place that it does not declare.
#[derive(Debug, Clone)]
struct Undeclared;

impl Event for Undeclared {
    type Rate = f64;

    fn enablement_inputs(&self) -> Vec<Place> {
        vec![0]
    }

    fn rate_inputs(&self) -> Vec<Place> {
        vec![]
    }

    fn outputs(&self) -> Vec<Place> {
        vec![0]
    }

    fn hazard_rate(&self, _inputs: &[PlaceState]) -> f64 {
        1.0
    }

    fn fire(&self) -> Vec<StateChange> {
        vec![StateChange { place: 42, value: 1 }]
    }
}

/// Either kind of event, so that one simulation can hold both.
#[derive(Debug, Clone)]
enum Mixed {
    Move(Transfer),
    Stuck(Blocked),
}

impl Event for Mixed {
    type Rate = f64;

    fn enablement_inputs(&self) -> Vec<Place> {
        match self {
            Mixed::Move(t) => t.enablement_inputs(),
            Mixed::Stuck(b) => b.enablement_inputs(),
        }
    }

    fn rate_inputs(&self) -> Vec<Place> {
        match self {
            Mixed::Move(t) => t.rate_inputs(),
            Mixed::Stuck(b) => b.rate_inputs(),
        }
    }

    fn outputs(&self) -> Vec<Place> {
        match self {
            Mixed::Move(t) => t.outputs(),
            Mixed::Stuck(b) => b.outputs(),
        }
    }

    fn enabled(&self, inputs: &[PlaceState]) -> bool {
        match self {
            Mixed::Move(t) => t.enabled(inputs),
            Mixed::Stuck(b) => b.enabled(inputs),
        }
    }

    fn hazard_rate(&self, inputs: &[PlaceState]) -> f64 {
        match self {
            Mixed::Move(t) => t.hazard_rate(inputs),
            Mixed::Stuck(b) => b.hazard_rate(inputs),
        }
    }

    fn fire(&self) -> Vec<StateChange> {
        match self {
            Mixed::Move(t) => t.fire(),
            Mixed::Stuck(b) => b.fire(),
        }
    }
}

/// Hands out a fixed cycle of waiting times.
struct FixedDelays {
    delays: Vec<Time>,
    next: usize,
}

impl FixedDelays {
    fn new(delays: Vec<Time>) -> Self {
        FixedDelays { delays, next: 0 }
    }
}

impl<R> DelaySampler<R> for FixedDelays {
    fn sample_delay(&mut self, _rate: R) -> Time {
        let d = self.delays[self.next % self.delays.len()];
        self.next += 1;
        d
    }
}

/// Exponential waiting times in milliseconds.
struct ExpMillis;

impl DelaySampler<f64> for ExpMillis {
    fn sample_delay(&mut self, rate: f64) -> Time {
        (Exp::new(rate).sample(&mut rand::thread_rng()) * 1000.0) as Time
    }
}

fn transfer(from: Place, to: Place, rate: f64) -> Transfer {
    Transfer { from, to, rate }
}

#[test]
fn competing_transitions_drain_source() {
    let (a, b, c) = (0, 1, 2);
    let events = vec![transfer(a, b, 0.01), transfer(a, c, 0.02)];
    let mut sim = Simulation::from_events(events).unwrap();
    sim.set_tokens(a, 10).unwrap();
    let mut sampler = ExpMillis;
    sim.setup_initial_firings(&mut sampler);
    let trace = events_of(sim.run_until(Time::MAX, &mut sampler));
    assert_eq!(sim.tokens(a), Some(0));
    let to_b = sim.tokens(b).unwrap();
    let to_c = sim.tokens(c).unwrap();
    assert_eq!(to_b + to_c, 10);
    assert_eq!(trace.len(), 10);
    assert_eq!(trace.iter().filter(|e| **e == 0).count() as i32, to_b);
    assert_eq!(trace.iter().filter(|e| **e == 1).count() as i32, to_c);
}

#[test]
fn each_firing_moves_one_token() {
    let (a, b, c) = (0, 1, 2);
    let events = vec![transfer(a, b, 0.01), transfer(a, c, 0.02)];
    let mut sim = Simulation::from_events(events).unwrap();
    sim.set_tokens(a, 10).unwrap();
    let mut sampler = ExpMillis;
    sim.setup_initial_firings(&mut sampler);
    let mut horizon: Time = 0;
    while sim.tokens(a) != Some(0) {
        let before = (sim.tokens(a).unwrap(), sim.tokens(b).unwrap(), sim.tokens(c).unwrap());
        horizon += 1;
        let trace = events_of(sim.run_until(horizon, &mut sampler));
        let after = (sim.tokens(a).unwrap(), sim.tokens(b).unwrap(), sim.tokens(c).unwrap());
        let fired = trace.len() as i32;
        assert_eq!(after.0, before.0 - fired);
        assert_eq!(after.1 + after.2, before.1 + before.2 + fired);
    }
    assert_eq!(sim.tokens(b).unwrap() + sim.tokens(c).unwrap(), 10);
}

#[test]
fn transfer_conserves_tokens() {
    let events = vec![transfer(0, 1, 1.0), transfer(1, 0, 1.0)];
    let mut sim = Simulation::from_events(events).unwrap();
    sim.set_tokens(0, 3).unwrap();
    sim.set_tokens(1, 4).unwrap();
    let mut sampler = FixedDelays::new(vec![2, 3, 5, 7]);
    sim.setup_initial_firings(&mut sampler);
    let mut horizon: Time = 0;
    for _ in 0..50 {
        horizon += 4;
        events_of(sim.run_until(horizon, &mut sampler));
        assert_eq!(sim.tokens(0).unwrap() + sim.tokens(1).unwrap(), 7);
    }
    assert!(sim.current_time() > 0);
}

#[test]
fn time_never_goes_back() {
    let events = vec![transfer(0, 1, 1.0), transfer(1, 0, 1.0)];
    let mut sim = Simulation::from_events(events).unwrap();
    sim.set_tokens(0, 2).unwrap();
    let mut sampler = FixedDelays::new(vec![3, 1, 4, 1, 5, 9, 2, 6]);
    sim.setup_initial_firings(&mut sampler);
    let mut last = sim.current_time();
    for horizon in [5, 5, 17, 40, 41, 100] {
        events_of(sim.run_until(horizon, &mut sampler));
        assert!(sim.current_time() >= last);
        assert!(sim.current_time() <= horizon);
        last = sim.current_time();
        let scheduled = sim.schedule_event(0, &mut sampler);
        if let Some(t) = scheduled {
            assert!(t >= sim.current_time());
        }
    }
}

#[test]
fn stale_entry_is_never_fired() {
    // p feeds the event; q receives its tokens.
    let (p, q) = (0, 1);
    let mut sim = Simulation::from_events(vec![transfer(p, q, 1.0)]).unwrap();
    sim.set_tokens(p, 1).unwrap();
    let mut sampler = FixedDelays::new(vec![5, 10]);
    sim.setup_initial_firings(&mut sampler);
    // A second scheduling supersedes the entry at 5 with one at 10.
    assert_eq!(sim.schedule_event(0, &mut sampler), Some(10));
    assert_eq!(events_of(sim.run_until(7, &mut sampler)), Vec::<usize>::new());
    assert_eq!(sim.current_time(), 0);
    assert_eq!(sim.tokens(p), Some(1));
    assert_eq!(events_of(sim.run_until(20, &mut sampler)), vec![0]);
    assert_eq!(sim.current_time(), 10);
    assert_eq!(sim.tokens(p), Some(0));
    assert_eq!(sim.tokens(q), Some(1));
}

#[test]
fn reader_rescheduled_once_per_change() {
    // Events 0 and 1 both feed place 1, which event 2 reads.
    let events = vec![transfer(0, 1, 1.0), transfer(3, 1, 1.0), transfer(1, 2, 1.0)];
    let mut sim = Simulation::from_events(events).unwrap();
    sim.set_tokens(0, 1).unwrap();
    sim.set_tokens(3, 1).unwrap();
    // Initial: event 0 at 1, event 1 at 2, event 2 disabled.
    // Event 0 fires at 1: event 0 rescheduled (disabled), event 2 at 1 + 10 = 11.
    // Event 1 fires at 2: event 1 rescheduled (disabled), event 2 again at 2 + 20 = 22.
    let mut sampler = FixedDelays::new(vec![1, 2, 10, 20, 100, 100]);
    sim.setup_initial_firings(&mut sampler);
    let trace = events_of(sim.run_until(1000, &mut sampler));
    assert_eq!(trace, vec![0, 1, 2, 2]);
    assert_eq!(sim.current_time(), 22 + 100);
    assert_eq!(sim.tokens(2), Some(2));
}

#[test]
fn disabled_event_never_fires() {
    let events = vec![
        Mixed::Move(transfer(0, 1, 1.0)),
        Mixed::Stuck(Blocked { place: 1 }),
        Mixed::Move(transfer(1, 0, 1.0)),
    ];
    let mut sim = Simulation::from_events(events).unwrap();
    sim.set_tokens(0, 5).unwrap();
    let mut sampler = FixedDelays::new(vec![1, 2, 3]);
    sim.setup_initial_firings(&mut sampler);
    let trace = events_of(sim.run_until(10_000, &mut sampler));
    assert!(!trace.is_empty());
    assert!(!trace.contains(&1));
    assert_eq!(sim.tokens(0).unwrap() + sim.tokens(1).unwrap(), 5);
}

#[test]
fn resumed_run_matches_single_run() {
    let build = || {
        let events = vec![transfer(0, 1, 1.0), transfer(1, 0, 2.0), transfer(1, 2, 0.5)];
        let mut sim = Simulation::from_events(events).unwrap();
        sim.set_tokens(0, 6).unwrap();
        sim
    };
    let delays = vec![4, 1, 7, 3, 9, 2, 6, 5, 8];
    let mut split = build();
    let mut split_sampler = FixedDelays::new(delays.clone());
    split.setup_initial_firings(&mut split_sampler);
    let mut split_trace = events_of(split.run_until(20, &mut split_sampler));
    split_trace.extend(events_of(split.run_until(60, &mut split_sampler)));

    let mut whole = build();
    let mut whole_sampler = FixedDelays::new(delays);
    whole.setup_initial_firings(&mut whole_sampler);
    let whole_trace = events_of(whole.run_until(60, &mut whole_sampler));

    assert!(!whole_trace.is_empty());
    assert_eq!(split_trace, whole_trace);
    assert_eq!(split.current_time(), whole.current_time());
    for place in 0..3 {
        assert_eq!(split.tokens(place), whole.tokens(place));
    }
}

#[test]
fn unknown_place_is_rejected() {
    let mut sim = Simulation::from_events(vec![transfer(0, 1, 1.0)]).unwrap();
    assert_eq!(sim.set_tokens(7, 3), Err(SimError::UnknownPlace));
    assert_eq!(sim.tokens(7), None);
    assert_eq!(sim.tokens(1), Some(0));
    assert_eq!(sim.set_tokens(1, -4), Ok(()));
    assert_eq!(sim.tokens(1), Some(-4));
}

#[test]
fn undeclared_delta_place_is_rejected() {
    let r = Simulation::from_events(vec![Undeclared]);
    assert!(matches!(r, Err(SimError::UnknownPlace)));
}

#[test]
fn empty_event_set_is_inert() {
    let mut sim = Simulation::<Transfer>::from_events(vec![]).unwrap();
    let mut sampler = FixedDelays::new(vec![1]);
    sim.setup_initial_firings(&mut sampler);
    assert!(events_of(sim.run_until(Time::MAX, &mut sampler)).is_empty());
    assert_eq!(sim.current_time(), 0);
}

#[test]
fn zero_delay_fires_at_current_time() {
    let mut sim = Simulation::from_events(vec![transfer(0, 1, f64::INFINITY)]).unwrap();
    sim.set_tokens(0, 3).unwrap();
    let mut sampler = ExpMillis;
    sim.setup_initial_firings(&mut sampler);
    assert_eq!(events_of(sim.run_until(0, &mut sampler)), vec![0, 0, 0]);
    assert_eq!(sim.current_time(), 0);
    assert_eq!(sim.tokens(1), Some(3));
}

#[test]
fn push_firing_times() {
    let mut sim = Simulation::from_events(vec![transfer(0, 1, 1.0)]).unwrap();
    assert_eq!(sim.push_firing(0, Some(3)), Some(3));
    assert_eq!(sim.push_firing(0, None), None);
    assert_eq!(sim.push_firing(0, Some(Time::MAX)), Some(Time::MAX));
    sim.set_tokens(0, 1).unwrap();
    assert_eq!(sim.push_firing(0, Some(5)), Some(5));
    let mut sampler = FixedDelays::new(vec![Time::MAX]);
    assert_eq!(events_of(sim.run_until(5, &mut sampler)), vec![0]);
    // A waiting time past the end of the time range leaves no firing.
    assert_eq!(sim.push_firing(0, Some(Time::MAX)), None);
}

#[test]
fn self_reading_event_is_rescheduled() {
    // The event reads and writes place 0: after each firing it sees the new count.
    let mut sim = Simulation::from_events(vec![transfer(0, 1, 1.0)]).unwrap();
    sim.set_tokens(0, 2).unwrap();
    let mut sampler = FixedDelays::new(vec![1]);
    sim.setup_initial_firings(&mut sampler);
    assert_eq!(events_of(sim.run_until(100, &mut sampler)), vec![0, 0]);
    assert_eq!(sim.current_time(), 2);
    assert_eq!(sim.tokens(0), Some(0));
}

#[test]
fn fired_entries_carry_their_times() {
    let events = vec![transfer(0, 1, 1.0), transfer(1, 0, 1.0)];
    let mut sim = Simulation::from_events(events).unwrap();
    sim.set_tokens(0, 2).unwrap();
    let mut sampler = FixedDelays::new(vec![3, 1, 4, 1, 5]);
    let queued = sim.setup_initial_firings(&mut sampler);
    assert_eq!(queued, vec![Some(3), None]);
    let trace = sim.run_until(12, &mut sampler);
    assert!(!trace.is_empty());
    let mut last = 0;
    for f in &trace {
        assert!(f.time >= last && f.time <= 12);
        last = f.time;
    }
    assert_eq!(sim.current_time(), last);
    assert_eq!(trace[0].time, 3);
    assert_eq!(trace[0].event, 0);
}

#[test]
fn step_fires_one_due_firing() {
    let mut sim = Simulation::from_events(vec![transfer(0, 1, 1.0)]).unwrap();
    sim.set_tokens(0, 2).unwrap();
    let mut sampler = FixedDelays::new(vec![4]);
    sim.setup_initial_firings(&mut sampler);
    assert_eq!(sim.step(3, &mut sampler), None);
    assert_eq!(sim.current_time(), 0);
    let f = sim.step(4, &mut sampler).unwrap();
    assert_eq!((f.time, f.event), (4, 0));
    assert_eq!(sim.tokens(0), Some(1));
    assert_eq!(sim.step(4, &mut sampler), None);
    assert_eq!(sim.step(8, &mut sampler).map(|f| f.time), Some(8));
    assert_eq!(sim.step(1000, &mut sampler), None);
}

#[test]
fn from_parts_checks_delta_places() {
    let ok = Simulation::from_parts(
        vec![transfer(0, 1, 1.0)],
        vec![vec![0]],
        vec![vec![]],
        vec![vec![1]],
        vec![vec![StateChange { place: 0, value: -1 }, StateChange { place: 1, value: 1 }]],
    )
    .unwrap();
    assert_eq!(ok.tokens(0), Some(0));
    assert_eq!(ok.tokens(1), Some(0));
    assert_eq!(ok.tokens(2), None);
    let bad = Simulation::from_parts(
        vec![transfer(0, 1, 1.0)],
        vec![vec![0]],
        vec![vec![]],
        vec![vec![]],
        vec![vec![StateChange { place: 1, value: 1 }]],
    );
    assert!(matches!(bad, Err(SimError::UnknownPlace)));
}

/// Adds nothing to its place: a zero delta is no change.
#[derive(Debug, Clone)]
struct Touch {
    place: Place,
}

impl Event for Touch {
    type Rate = f64;

    fn enablement_inputs(&self) -> Vec<Place> {
        vec![]
    }

    fn rate_inputs(&self) -> Vec<Place> {
        vec![]
    }

    fn outputs(&self) -> Vec<Place> {
        vec![self.place]
    }

    fn hazard_rate(&self, _inputs: &[PlaceState]) -> f64 {
        1.0
    }

    fn fire(&self) -> Vec<StateChange> {
        vec![StateChange { place: self.place, value: 0 }]
    }
}

#[derive(Debug, Clone)]
enum TouchOrMove {
    Touch(Touch),
    Move(Transfer),
}

impl Event for TouchOrMove {
    type Rate = f64;

    fn enablement_inputs(&self) -> Vec<Place> {
        match self {
            TouchOrMove::Touch(t) => t.enablement_inputs(),
            TouchOrMove::Move(m) => m.enablement_inputs(),
        }
    }

    fn rate_inputs(&self) -> Vec<Place> {
        match self {
            TouchOrMove::Touch(t) => t.rate_inputs(),
            TouchOrMove::Move(m) => m.rate_inputs(),
        }
    }

    fn outputs(&self) -> Vec<Place> {
        match self {
            TouchOrMove::Touch(t) => t.outputs(),
            TouchOrMove::Move(m) => m.outputs(),
        }
    }

    fn enabled(&self, inputs: &[PlaceState]) -> bool {
        match self {
            TouchOrMove::Touch(t) => t.enabled(inputs),
            TouchOrMove::Move(m) => m.enabled(inputs),
        }
    }

    fn hazard_rate(&self, inputs: &[PlaceState]) -> f64 {
        match self {
            TouchOrMove::Touch(t) => t.hazard_rate(inputs),
            TouchOrMove::Move(m) => m.hazard_rate(inputs),
        }
    }

    fn fire(&self) -> Vec<StateChange> {
        match self {
            TouchOrMove::Touch(t) => t.fire(),
            TouchOrMove::Move(m) => m.fire(),
        }
    }
}

#[test]
fn zero_delta_reschedules_no_reader() {
    // Event 0 touches place 0 with a zero delta at 1; event 1 reads place 0 and
    // keeps its firing at 5 rather than being drawn again.
    let events = vec![TouchOrMove::Touch(Touch { place: 0 }), TouchOrMove::Move(transfer(0, 1, 1.0))];
    let mut sim = Simulation::from_events(events).unwrap();
    sim.set_tokens(0, 1).unwrap();
    let mut sampler = FixedDelays::new(vec![1, 5, 100]);
    sim.setup_initial_firings(&mut sampler);
    let trace = sim.run_until(6, &mut sampler);
    assert_eq!(trace.iter().map(|f| (f.time, f.event)).collect::<Vec<_>>(), vec![(1, 0), (5, 1)]);
}
