use vstd::prelude::*;

use crate::model::{DelaySampler, Event, Place, PlaceState, StateChange, Time};
use crate::queue::{earliest_in, FiringQueue, ScheduledFiring};

verus! {

/// Misuse that the engine reports instead of aborting.
#[derive(Debug, Copy, Clone, PartialEq, Eq, Structural)]
pub enum SimError {
    /// A place that no event declares as an input or an output.
    UnknownPlace,
}

/// Token count of each registered place.
pub open spec fn state_of(places: Seq<Place>, tokens: Seq<i32>) -> Map<Place, i32> {
    Map::new(|p: Place| places.contains(p), |p: Place| tokens[places.index_of(p)])
}

/// The state after one delta; a place that is not registered is left alone.
pub open spec fn apply_change(st: Map<Place, i32>, c: StateChange) -> Map<Place, i32> {
    if st.contains_key(c.place) {
        st.insert(c.place, st[c.place].wrapping_add(c.value))
    } else {
        st
    }
}

/// The state after a list of deltas, applied in order.
pub open spec fn apply_changes(st: Map<Place, i32>, cs: Seq<StateChange>) -> Map<Place, i32>
    decreases cs.len(),
{
    if cs.len() == 0 {
        st
    } else {
        apply_change(apply_changes(st, cs.drop_last()), cs.last())
    }
}

/// The state after the events of `trace` fired in order, event `i` applying `changes[i]`.
pub open spec fn apply_firings(
    st: Map<Place, i32>,
    changes: Seq<Seq<StateChange>>,
    trace: Seq<usize>,
) -> Map<Place, i32>
    decreases trace.len(),
{
    if trace.len() == 0 {
        st
    } else {
        apply_changes(apply_firings(st, changes, trace.drop_last()), changes[trace.last() as int])
    }
}

/// Generation counter after one more scheduling.
pub open spec fn next_generation(g: u64) -> u64 {
    if g == u64::MAX {
        0
    } else {
        (g + 1) as u64
    }
}

/// Entries left once `event`, at generation `g`, is scheduled again: all of them,
/// unless its counter wraps round, in which case its own entries are dropped eagerly.
pub open spec fn kept_entries(q: Seq<ScheduledFiring>, event: usize, g: u64) -> Seq<
    ScheduledFiring,
> {
    if g == u64::MAX {
        q.filter(|f: ScheduledFiring| f.event != event)
    } else {
        q
    }
}

/// Absolute firing time for a waiting time drawn at `now`; none when the event is
/// disabled (`delay` is `None`) or the time lies beyond the representable range.
pub open spec fn firing_time(now: Time, delay: Option<Time>) -> Option<Time> {
    match delay {
        Some(d) => if now + d <= u64::MAX {
            Some((now + d) as u64)
        } else {
            None
        },
        None => None,
    }
}

/// `f` is the pending firing of its event: no later scheduling has superseded it.
pub open spec fn is_current(f: ScheduledFiring, gens: Seq<u64>) -> bool {
    f.event < gens.len() && f.generation == gens[f.event as int]
}

/// `g` is in the queue `q` and is the pending firing of its event.
pub open spec fn current_in(q: Seq<ScheduledFiring>, gens: Seq<u64>, g: ScheduledFiring) -> bool {
    q.contains(g) && is_current(g, gens)
}

/// Entries after events `0..k` were scheduled again in order, event `i` queuing
/// at `rs[i]`, if anything, starting from `q` with counters `gens`.
pub open spec fn scheduled_all(
    q: Seq<ScheduledFiring>,
    gens: Seq<u64>,
    rs: Seq<Option<Time>>,
    k: int,
) -> Seq<ScheduledFiring>
    decreases k,
{
    if k <= 0 {
        q
    } else {
        rescheduled_entries(scheduled_all(q, gens, rs, k - 1), (k - 1) as usize, gens[k - 1], rs[k - 1])
    }
}

/// Queue entries name known events, carry no stamp from the future, lie no earlier
/// than `now`, and each event has at most one current firing.
pub open spec fn queue_ok(q: Seq<ScheduledFiring>, gens: Seq<u64>, now: Time) -> bool {
    &&& forall|j: int|
        0 <= j < q.len() ==> (#[trigger] q[j]).event < gens.len() && q[j].generation
            <= gens[q[j].event as int] && now <= q[j].time
    &&& forall|j: int, k: int|
        0 <= j < q.len() && 0 <= k < q.len() && is_current(#[trigger] q[j], gens) && is_current(
            #[trigger] q[k],
            gens,
        ) && q[j].event == q[k].event ==> q[j] == q[k]
}

/// Every entry of `a` is an entry of `b`.
pub open spec fn entries_within(a: Seq<ScheduledFiring>, b: Seq<ScheduledFiring>) -> bool {
    forall|j: int| 0 <= j < a.len() ==> b.contains(#[trigger] a[j])
}

proof fn lemma_queue_ok_within(
    a: Seq<ScheduledFiring>,
    b: Seq<ScheduledFiring>,
    gens: Seq<u64>,
    now: Time,
)
    requires
        queue_ok(b, gens, now),
        entries_within(a, b),
    ensures
        queue_ok(a, gens, now),
{
    assert forall|j: int, k: int|
        0 <= j < a.len() && 0 <= k < a.len() && is_current(#[trigger] a[j], gens) && is_current(
            #[trigger] a[k],
            gens,
        ) && a[j].event == a[k].event implies a[j] == a[k] by {
        assert(b.contains(a[j]));
        assert(b.contains(a[k]));
    }
    assert forall|j: int| 0 <= j < a.len() implies (#[trigger] a[j]).event < gens.len()
        && a[j].generation <= gens[a[j].event as int] && now <= a[j].time by {
        assert(b.contains(a[j]));
    }
}

proof fn lemma_state_at(places: Seq<Place>, tokens: Seq<i32>, k: int)
    requires
        places.no_duplicates(),
        tokens.len() == places.len(),
        0 <= k < places.len(),
    ensures
        state_of(places, tokens).contains_key(places[k]),
        state_of(places, tokens)[places[k]] == tokens[k],
{
    assert(places.contains(places[k]));
    let j = places.index_of(places[k]);
    assert(places[j] == places[k]);
}

proof fn lemma_state_update(places: Seq<Place>, tokens: Seq<i32>, k: int, v: i32)
    requires
        places.no_duplicates(),
        tokens.len() == places.len(),
        0 <= k < places.len(),
    ensures
        state_of(places, tokens.update(k, v)) == state_of(places, tokens).insert(places[k], v),
{
    let a = state_of(places, tokens.update(k, v));
    let b = state_of(places, tokens).insert(places[k], v);
    assert(places.contains(places[k]));
    assert forall|p: Place| #[trigger] a.contains_key(p) implies a[p] == b[p] by {
        let j = places.index_of(p);
        assert(places[j] == p);
    }
    assert(a =~= b);
}

/// Entries after `pending` of an event whose counter stood at `g` has been
/// superseded, with the new entry, if any, appended.
pub open spec fn rescheduled_entries(
    pending: Seq<ScheduledFiring>,
    event: usize,
    g: u64,
    r: Option<Time>,
) -> Seq<ScheduledFiring> {
    match r {
        Some(t) => kept_entries(pending, event, g).push(
            ScheduledFiring { time: t, event: event, generation: next_generation(g) },
        ),
        None => kept_entries(pending, event, g),
    }
}

/// The simulation engine: places and their tokens, the events, the dependency
/// index, the generation counters and the queue of tentative firings.
#[derive(Debug)]
pub struct Simulation<E> {
    current_time: Time,
    events: Vec<E>,
    enablement: Vec<Vec<Place>>,
    rate_places: Vec<Vec<Place>>,
    changes: Vec<Vec<StateChange>>,
    places: Vec<Place>,
    tokens: Vec<i32>,
    dependents: Vec<Vec<usize>>,
    generations: Vec<u64>,
    queue: FiringQueue,
}

fn place_index(places: &Vec<Place>, p: Place) -> (r: Option<usize>)
    ensures
        r matches Some(k) ==> k < places@.len() && places@[k as int] == p,
        r is None ==> !places@.contains(p),
{
    let mut k: usize = 0;
    while k < places.len()
        invariant
            k <= places@.len(),
            forall|j: int| 0 <= j < k ==> places@[j] != p,
        decreases places@.len() - k,
    {
        if places[k] == p {
            return Some(k);
        }
        k = k + 1;
    }
    None
}

fn contains_place(ps: &Vec<Place>, p: Place) -> (r: bool)
    ensures
        r == ps@.contains(p),
{
    match place_index(ps, p) {
        Some(_) => true,
        None => false,
    }
}

/// Adds each place of `ps` not yet registered, with zero tokens.
fn register_places(places: &mut Vec<Place>, tokens: &mut Vec<i32>, ps: &Vec<Place>)
    requires
        old(places)@.no_duplicates(),
        old(tokens)@.len() == old(places)@.len(),
        forall|j: int| 0 <= j < old(tokens)@.len() ==> old(tokens)@[j] == 0,
    ensures
        final(places)@.no_duplicates(),
        final(tokens)@.len() == final(places)@.len(),
        forall|j: int| 0 <= j < final(tokens)@.len() ==> final(tokens)@[j] == 0,
        forall|p: Place| old(places)@.contains(p) ==> final(places)@.contains(p),
        forall|j: int| 0 <= j < ps@.len() ==> final(places)@.contains(#[trigger] ps@[j]),
        forall|p: Place| final(places)@.contains(p) ==> old(places)@.contains(p) || ps@.contains(p),
{
    let mut i: usize = 0;
    while i < ps.len()
        invariant
            i <= ps@.len(),
            places@.no_duplicates(),
            tokens@.len() == places@.len(),
            forall|j: int| 0 <= j < tokens@.len() ==> tokens@[j] == 0,
            forall|p: Place| old(places)@.contains(p) ==> places@.contains(p),
            forall|j: int| 0 <= j < i ==> places@.contains(#[trigger] ps@[j]),
            forall|p: Place| places@.contains(p) ==> old(places)@.contains(p) || ps@.contains(p),
        decreases ps@.len() - i,
    {
        let p = ps[i];
        assert(ps@.contains(ps@[i as int]));
        if !contains_place(places, p) {
            proof {
                assert forall|q: Place| places@.contains(q) implies places@.push(p).contains(q) by {
                    let j = choose|j: int| 0 <= j < places@.len() && places@[j] == q;
                    assert(places@.push(p)[j] == q);
                }
                assert(places@.push(p)[places@.len() as int] == p);
                assert forall|q: Place| places@.push(p).contains(q) implies old(places)@.contains(q)
                    || ps@.contains(q) by {
                    let j = choose|j: int| 0 <= j < places@.push(p).len() && places@.push(p)[j] == q;
                    if j < places@.len() {
                        assert(places@[j] == q);
                    }
                }
            }
            places.push(p);
            tokens.push(0);
        }
        i = i + 1;
    }
}

/// `p` appears in one of the place lists `lists`.
pub open spec fn in_lists(lists: Seq<Vec<Place>>, p: Place) -> bool {
    exists|e: int, j: int| 0 <= e < lists.len() && 0 <= j < lists[e]@.len() && lists[e]@[j] == p
}

/// `p` is declared by some event as an enablement input, a rate input or an output.
pub open spec fn declared(
    enablement: Seq<Vec<Place>>,
    rate_inputs: Seq<Vec<Place>>,
    outputs: Seq<Vec<Place>>,
    p: Place,
) -> bool {
    in_lists(enablement, p) || in_lists(rate_inputs, p) || in_lists(outputs, p)
}

/// Adds each place of each list not yet registered, with zero tokens.
fn register_lists(places: &mut Vec<Place>, tokens: &mut Vec<i32>, lists: &Vec<Vec<Place>>)
    requires
        old(places)@.no_duplicates(),
        old(tokens)@.len() == old(places)@.len(),
        forall|j: int| 0 <= j < old(tokens)@.len() ==> old(tokens)@[j] == 0,
    ensures
        final(places)@.no_duplicates(),
        final(tokens)@.len() == final(places)@.len(),
        forall|j: int| 0 <= j < final(tokens)@.len() ==> final(tokens)@[j] == 0,
        forall|p: Place|
            #[trigger] final(places)@.contains(p) <==> old(places)@.contains(p) || in_lists(
                lists@,
                p,
            ),
{
    let mut i: usize = 0;
    while i < lists.len()
        invariant
            i <= lists@.len(),
            places@.no_duplicates(),
            tokens@.len() == places@.len(),
            forall|j: int| 0 <= j < tokens@.len() ==> tokens@[j] == 0,
            forall|p: Place|
                #[trigger] places@.contains(p) <==> old(places)@.contains(p) || in_lists(
                    lists@.subrange(0, i as int),
                    p,
                ),
        decreases lists@.len() - i,
    {
        let ghost before = places@;
        register_places(places, tokens, &lists[i]);
        proof {
            let sub = lists@.subrange(0, i as int);
            let sub1 = lists@.subrange(0, i + 1);
            assert forall|p: Place| #[trigger] places@.contains(p) <==> old(places)@.contains(p)
                || in_lists(sub1, p) by {
                if in_lists(sub1, p) {
                    let (e, j) = choose|e: int, j: int|
                        0 <= e < sub1.len() && 0 <= j < sub1[e]@.len() && sub1[e]@[j] == p;
                    if e < i {
                        assert(sub[e] == sub1[e]);
                        assert(in_lists(sub, p));
                    } else {
                        assert(lists@[i as int]@[j] == p);
                    }
                }
                if in_lists(sub, p) {
                    let (e, j) = choose|e: int, j: int|
                        0 <= e < sub.len() && 0 <= j < sub[e]@.len() && sub[e]@[j] == p;
                    assert(sub1[e] == sub[e]);
                }
                if lists@[i as int]@.contains(p) {
                    let j = choose|j: int| 0 <= j < lists@[i as int]@.len() && lists@[i as int]@[j] == p;
                    assert(sub1[i as int]@[j] == p);
                }
            }
        }
        i = i + 1;
    }
    proof {
        assert(lists@.subrange(0, i as int) =~= lists@);
    }
}

impl<E: Event> Simulation<E> {
    /// Current simulated time.
    pub closed spec fn now(&self) -> Time {
        self.current_time
    }

    /// Token count of every registered place.
    pub closed spec fn state(&self) -> Map<Place, i32> {
        state_of(self.places@, self.tokens@)
    }

    /// Queue entries, current and stale, in no particular order.
    pub closed spec fn pending(&self) -> Seq<ScheduledFiring> {
        self.queue@
    }

    /// Generation counter of each event.
    pub closed spec fn generations(&self) -> Seq<u64> {
        self.generations@
    }

    /// Deltas of each event, as its `fire` gave them when the engine was built.
    pub closed spec fn changes(&self) -> Seq<Seq<StateChange>> {
        self.changes@.map_values(|cs: Vec<StateChange>| cs@)
    }

    /// Number of events.
    pub closed spec fn event_count(&self) -> nat {
        self.events@.len()
    }

    /// Events registered in the dependency index under the place at position `k`.
    closed spec fn readers(&self, k: int) -> Seq<usize> {
        self.dependents@[k]@
    }

    /// Places read by event `e` for its enablement or its rate.
    pub closed spec fn reads(&self, e: int) -> Seq<Place> {
        self.enablement@[e]@ + self.rate_places@[e]@
    }

    /// Internal consistency of the engine.
    pub closed spec fn wf(&self) -> bool {
        let n = self.events@.len();
        &&& self.enablement@.len() == n
        &&& self.rate_places@.len() == n
        &&& self.changes@.len() == n
        &&& self.generations@.len() == n
        &&& self.places@.no_duplicates()
        &&& self.tokens@.len() == self.places@.len()
        &&& self.dependents@.len() == self.places@.len()
        &&& forall|e: int, j: int|
            0 <= e < n && 0 <= j < self.enablement@[e]@.len() ==> self.places@.contains(
                #[trigger] self.enablement@[e]@[j],
            )
        &&& forall|e: int, j: int|
            0 <= e < n && 0 <= j < self.rate_places@[e]@.len() ==> self.places@.contains(
                #[trigger] self.rate_places@[e]@[j],
            )
        &&& forall|e: int, j: int|
            0 <= e < n && 0 <= j < self.changes@[e]@.len() ==> self.places@.contains(
                (#[trigger] self.changes@[e]@[j]).place,
            )
        &&& forall|k: int, e: usize|
            0 <= k < self.places@.len() ==> (#[trigger] self.dependents@[k]@.contains(e) <==> (e
                < n && self.reads(e as int).contains(self.places@[k])))
        &&& queue_ok(self.queue@, self.generations@, self.current_time)
    }

    /// Current simulated time.
    pub fn current_time(&self) -> (t: Time)
        ensures
            t == self.now(),
    {
        self.current_time
    }

    /// Events, in the order they were given.
    pub closed spec fn events(&self) -> Seq<E> {
        self.events@
    }

    /// Event `e` is registered under place `p` in the dependency index.
    pub closed spec fn indexed(&self, p: Place, e: usize) -> bool {
        self.places@.contains(p) && self.dependents@[self.places@.index_of(p)]@.contains(e)
    }

    /// Builds an engine over `events`, with one place for each place that some
    /// event reads or writes, all at zero tokens, time zero and an empty queue.
    /// Fails when an event's deltas name a place that no event declares.
    pub fn from_events(events: Vec<E>) -> (r: Result<Simulation<E>, SimError>)
        ensures
            events@.len() == 0 ==> r is Ok,
            r matches Ok(s) ==> {
                &&& s.wf()
                &&& s.now() == 0
                &&& s.pending() == Seq::<ScheduledFiring>::empty()
                &&& s.events() == events@
                &&& s.event_count() == events@.len()
                &&& s.generations() == Seq::new(events@.len(), |i: int| 0u64)
                &&& forall|p: Place| #[trigger] s.state().contains_key(p) ==> s.state()[p] == 0
            },
            r matches Err(err) ==> err == SimError::UnknownPlace,
    {
        let n = events.len();
        let mut enablement: Vec<Vec<Place>> = Vec::new();
        let mut rate_inputs: Vec<Vec<Place>> = Vec::new();
        let mut outputs: Vec<Vec<Place>> = Vec::new();
        let mut changes: Vec<Vec<StateChange>> = Vec::new();
        let mut i: usize = 0;
        while i < n
            invariant
                n == events@.len(),
                i <= n,
                enablement@.len() == i,
                rate_inputs@.len() == i,
                outputs@.len() == i,
                changes@.len() == i,
                i == 0 ==> changes@ == Seq::<Vec<StateChange>>::empty(),
            decreases n - i,
        {
            enablement.push(events[i].enablement_inputs());
            rate_inputs.push(events[i].rate_inputs());
            outputs.push(events[i].outputs());
            changes.push(events[i].fire());
            i = i + 1;
        }
        Self::from_parts(events, enablement, rate_inputs, outputs, changes)
    }

    /// Builds an engine from the events and what their methods return: for event
    /// `e`, its enablement inputs, rate inputs, outputs and deltas at index `e`.
    /// The places are exactly those declared, all at zero tokens. Fails when a
    /// delta names a place that no event declares.
    pub fn from_parts(
        events: Vec<E>,
        enablement: Vec<Vec<Place>>,
        rate_inputs: Vec<Vec<Place>>,
        outputs: Vec<Vec<Place>>,
        changes: Vec<Vec<StateChange>>,
    ) -> (r: Result<Simulation<E>, SimError>)
        requires
            enablement@.len() == events@.len(),
            rate_inputs@.len() == events@.len(),
            outputs@.len() == events@.len(),
            changes@.len() == events@.len(),
        ensures
            r is Err <==> exists|e: int, j: int|
                0 <= e < changes@.len() && 0 <= j < changes@[e]@.len() && !declared(
                    enablement@,
                    rate_inputs@,
                    outputs@,
                    (#[trigger] changes@[e]@[j]).place,
                ),
            r matches Err(err) ==> err == SimError::UnknownPlace,
            r matches Ok(s) ==> {
                &&& s.wf()
                &&& s.now() == 0
                &&& s.pending() == Seq::<ScheduledFiring>::empty()
                &&& s.events() == events@
                &&& s.event_count() == events@.len()
                &&& s.generations() == Seq::new(events@.len(), |i: int| 0u64)
                &&& forall|p: Place|
                    #[trigger] s.state().contains_key(p) <==> declared(
                        enablement@,
                        rate_inputs@,
                        outputs@,
                        p,
                    )
                &&& forall|p: Place| #[trigger] s.state().contains_key(p) ==> s.state()[p] == 0
                &&& forall|e: int|
                    0 <= e < events@.len() ==> #[trigger] s.reads(e) == enablement@[e]@
                        + rate_inputs@[e]@ && s.changes()[e] == changes@[e]@
            },
    {
        let n = events.len();
        let mut places: Vec<Place> = Vec::new();
        let mut tokens: Vec<i32> = Vec::new();
        register_lists(&mut places, &mut tokens, &enablement);
        register_lists(&mut places, &mut tokens, &rate_inputs);
        register_lists(&mut places, &mut tokens, &outputs);
        assert forall|e: int, j: int|
            0 <= e < n && 0 <= j < enablement@[e]@.len() implies places@.contains(
                #[trigger] enablement@[e]@[j],
            ) by {
            assert(in_lists(enablement@, enablement@[e]@[j]));
        }
        assert forall|e: int, j: int|
            0 <= e < n && 0 <= j < rate_inputs@[e]@.len() implies places@.contains(
                #[trigger] rate_inputs@[e]@[j],
            ) by {
            assert(in_lists(rate_inputs@, rate_inputs@[e]@[j]));
        }
        let rate_places = rate_inputs;
        let mut generations: Vec<u64> = Vec::new();
        let mut g: usize = 0;
        while g < n
            invariant
                g <= n,
                generations@ == Seq::new(g as nat, |j: int| 0u64),
            decreases n - g,
        {
            generations.push(0);
            proof {
                assert(generations@ =~= Seq::new((g + 1) as nat, |j: int| 0u64));
            }
            g = g + 1;
        }
        let mut e: usize = 0;
        while e < n
            invariant
                n == events@.len(),
                e <= n,
                changes@.len() == n,
                forall|p: Place| #[trigger] places@.contains(p) <==> declared(enablement@, rate_places@, outputs@, p),
                rate_places@ == rate_inputs@,
                forall|f: int, j: int|
                    0 <= f < e && 0 <= j < changes@[f]@.len() ==> places@.contains(
                        (#[trigger] changes@[f]@[j]).place,
                    ),
            decreases n - e,
        {
            let mut j: usize = 0;
            while j < changes[e].len()
                invariant
                    n == changes@.len(),
                    e < n,
                    forall|p: Place| #[trigger] places@.contains(p) <==> declared(enablement@, rate_places@, outputs@, p),
                rate_places@ == rate_inputs@,
                    j <= changes@[e as int]@.len(),
                    forall|f: int, j2: int|
                        0 <= f < e && 0 <= j2 < changes@[f]@.len() ==> places@.contains(
                            (#[trigger] changes@[f]@[j2]).place,
                        ),
                    forall|j2: int|
                        0 <= j2 < j ==> places@.contains(
                            (#[trigger] changes@[e as int]@[j2]).place,
                        ),
                decreases changes@[e as int]@.len() - j,
            {
                if !contains_place(&places, changes[e][j].place) {
                    proof {
                        assert(!declared(enablement@, rate_places@, outputs@, changes@[e as int]@[j as int].place));
                        assert(0 <= e < changes@.len() && 0 <= j < changes@[e as int]@.len());
                    }
                    return Err(SimError::UnknownPlace);
                }
                j = j + 1;
            }
            e = e + 1;
        }
        let mut dependents: Vec<Vec<usize>> = Vec::new();
        let mut k: usize = 0;
        while k < places.len()
            invariant
                n == events@.len(),
                enablement@.len() == n,
                rate_places@.len() == n,
                k <= places@.len(),
                dependents@.len() == k,
                forall|k2: int, f: usize|
                    0 <= k2 < k ==> (#[trigger] dependents@[k2]@.contains(f) <==> (f < n && (
                    enablement@[f as int]@ + rate_places@[f as int]@).contains(places@[k2]))),
            decreases places@.len() - k,
        {
            let p = places[k];
            let mut readers: Vec<usize> = Vec::new();
            let mut f: usize = 0;
            while f < n
                invariant
                    n == events@.len(),
                    enablement@.len() == n,
                    rate_places@.len() == n,
                    f <= n,
                    p == places@[k as int],
                    forall|g: usize|
                        #[trigger] readers@.contains(g) <==> (g < f && (enablement@[g as int]@
                            + rate_places@[g as int]@).contains(p)),
                decreases n - f,
            {
                let hit = contains_place(&enablement[f], p) || contains_place(&rate_places[f], p);
                proof {
                    let both = enablement@[f as int]@ + rate_places@[f as int]@;
                    if enablement@[f as int]@.contains(p) {
                        let j = choose|j: int|
                            0 <= j < enablement@[f as int]@.len() && enablement@[f as int]@[j] == p;
                        assert(both[j] == p);
                    }
                    if rate_places@[f as int]@.contains(p) {
                        let j = choose|j: int|
                            0 <= j < rate_places@[f as int]@.len() && rate_places@[f as int]@[j]
                                == p;
                        assert(both[enablement@[f as int]@.len() + j] == p);
                    }
                    if both.contains(p) {
                        let j = choose|j: int| 0 <= j < both.len() && both[j] == p;
                        if j < enablement@[f as int]@.len() {
                            assert(enablement@[f as int]@[j] == p);
                        } else {
                            assert(rate_places@[f as int]@[j - enablement@[f as int]@.len()] == p);
                        }
                    }
                }
                if hit {
                    proof {
                        assert forall|g: usize|
                            #[trigger] readers@.push(f).contains(g) <==> (g < f + 1 && (
                            enablement@[g as int]@ + rate_places@[g as int]@).contains(p)) by {
                            if readers@.push(f).contains(g) && g != f {
                                let j = choose|j: int|
                                    0 <= j < readers@.push(f).len() && readers@.push(f)[j] == g;
                                assert(readers@[j] == g);
                            }
                            if readers@.contains(g) {
                                let j = choose|j: int| 0 <= j < readers@.len() && readers@[j] == g;
                                assert(readers@.push(f)[j] == g);
                            }
                            assert(readers@.push(f)[readers@.len() as int] == f);
                        }
                    }
                    readers.push(f);
                }
                f = f + 1;
            }
            dependents.push(readers);
            proof {
                assert forall|k2: int, g: usize|
                    0 <= k2 < k + 1 implies (#[trigger] dependents@[k2]@.contains(g) <==> (g < n && (
                    enablement@[g as int]@ + rate_places@[g as int]@).contains(places@[k2]))) by {
                    if k2 < k {
                    } else {
                        assert(dependents@[k2]@ == readers@);
                    }
                }
            }
            k = k + 1;
        }
        let sim = Simulation {
            current_time: 0,
            events,
            enablement,
            rate_places,
            changes,
            places,
            tokens,
            dependents,
            generations,
            queue: FiringQueue::new(),
        };
        proof {
            assert forall|e: int, j: int|
                0 <= e < sim.event_count() && 0 <= j < sim.changes()[e].len() implies sim.state().contains_key(
                    (#[trigger] sim.changes()[e][j]).place,
                ) by {
                assert(sim.changes()[e][j] == sim.changes@[e]@[j]);
            }
            assert forall|e: int, j: int|
                0 <= e < sim.event_count() && 0 <= j < sim.reads(e).len() implies sim.state().contains_key(
                    #[trigger] sim.reads(e)[j],
                ) by {
                let en = sim.enablement@[e]@;
                if j < en.len() {
                    assert(sim.reads(e)[j] == en[j]);
                } else {
                    assert(sim.reads(e)[j] == sim.rate_places@[e]@[j - en.len()]);
                }
            }
            assert forall|p: Place| #[trigger] sim.state().contains_key(p) implies sim.state()[p]
                == 0 by {
                let j = sim.places@.index_of(p);
                assert(0 <= j < sim.tokens@.len());
            }
        }
        proof {
            assert forall|p: Place| #[trigger] sim.state().contains_key(p) <==> declared(
                sim.enablement@, sim.rate_places@, outputs@, p) by {}
            assert forall|e: int, j: int| !(0 <= e < changes@.len() && 0 <= j < changes@[e]@.len() && !declared(
                    sim.enablement@, sim.rate_places@, outputs@, (#[trigger] sim.changes@[e]@[j]).place)) by {
                if 0 <= e < changes@.len() && 0 <= j < changes@[e]@.len() {
                    assert(sim.places@.contains(sim.changes@[e]@[j].place));
                }
            }
            assert forall|e: int| 0 <= e < n implies #[trigger] sim.reads(e) == sim.enablement@[e]@
                + sim.rate_places@[e]@ && sim.changes()[e] == sim.changes@[e]@ by {}
        }
        Ok(sim)
    }

    /// `self` is `prev` after event `e` was scheduled again, `r` being the firing
    /// time queued for it, if any.
    pub open spec fn rescheduled_from(&self, prev: &Self, e: int, r: Option<Time>) -> bool {
        &&& self.now() == prev.now()
        &&& self.state() == prev.state()
        &&& self.changes() == prev.changes()
        &&& self.events() == prev.events()
        &&& self.event_count() == prev.event_count()
        &&& self.generations() == prev.generations().update(
            e,
            next_generation(prev.generations()[e]),
        )
        &&& self.pending() == rescheduled_entries(
            prev.pending(),
            e as usize,
            prev.generations()[e],
            r,
        )
        &&& r matches Some(t) ==> prev.now() <= t
    }

    /// Token count of `place`, if it is registered.
    pub fn tokens(&self, place: Place) -> (r: Option<i32>)
        requires
            self.wf(),
        ensures
            r == (if self.state().contains_key(place) {
                Some(self.state()[place])
            } else {
                None
            }),
    {
        match place_index(&self.places, place) {
            Some(k) => {
                proof {
                    lemma_state_at(self.places@, self.tokens@, k as int);
                }
                Some(self.tokens[k])
            },
            None => None,
        }
    }

    /// Sets the token count of `place`; fails, changing nothing, when the place
    /// is not registered.
    pub fn set_tokens(&mut self, place: Place, tokens: i32) -> (r: Result<(), SimError>)
        requires
            old(self).wf(),
        ensures
            final(self).wf(),
            r is Ok <==> old(self).state().contains_key(place),
            r is Ok ==> final(self).state() == old(self).state().insert(place, tokens),
            r is Err ==> final(self).state() == old(self).state(),
            r is Err ==> r == Err::<(), SimError>(SimError::UnknownPlace),
            final(self).now() == old(self).now(),
            final(self).pending() == old(self).pending(),
            final(self).generations() == old(self).generations(),
            final(self).changes() == old(self).changes(),
            final(self).event_count() == old(self).event_count(),
    {
        match place_index(&self.places, place) {
            Some(k) => {
                proof {
                    lemma_state_update(self.places@, self.tokens@, k as int, tokens);
                }
                self.tokens.set(k, tokens);
                Ok(())
            },
            None => Err(SimError::UnknownPlace),
        }
    }

    /// Current state of each place of `ps`, in order.
    fn gather(&self, ps: &Vec<Place>) -> (r: Vec<PlaceState>)
        requires
            self.wf(),
            forall|j: int| 0 <= j < ps@.len() ==> self.places@.contains(#[trigger] ps@[j]),
        ensures
            r@.len() == ps@.len(),
            forall|j: int|
                0 <= j < ps@.len() ==> (#[trigger] r@[j]).tokens == self.state()[ps@[j]],
    {
        let mut r: Vec<PlaceState> = Vec::new();
        let mut j: usize = 0;
        while j < ps.len()
            invariant
                self.wf(),
                forall|j2: int| 0 <= j2 < ps@.len() ==> self.places@.contains(#[trigger] ps@[j2]),
                j <= ps@.len(),
                r@.len() == j,
                forall|j2: int|
                    0 <= j2 < j ==> (#[trigger] r@[j2]).tokens == self.state()[ps@[j2]],
            decreases ps@.len() - j,
        {
            let p = ps[j];
            assert(self.places@.contains(ps@[j as int]));
            match place_index(&self.places, p) {
                Some(k) => {
                    proof {
                        lemma_state_at(self.places@, self.tokens@, k as int);
                    }
                    r.push(PlaceState { tokens: self.tokens[k] });
                },
                None => {
                    assert(false);
                },
            }
            j = j + 1;
        }
        r
    }

    /// Supersedes event `e`'s pending firing and, when `delay` is given, queues a
    /// new one that many ticks from now. `delay` is `None` for a disabled event.
    pub fn push_firing(&mut self, e: usize, delay: Option<Time>) -> (r: Option<Time>)
        requires
            old(self).wf(),
            e < old(self).event_count(),
        ensures
            final(self).wf(),
            final(self).rescheduled_from(old(self), e as int, r),
            r == firing_time(old(self).now(), delay),
    {
        let ghost prev_q = self.queue@;
        let g = self.generations[e];
        if g == u64::MAX {
            self.queue.discard_event(e);
            proof {
                let pred = |f: ScheduledFiring| f.event != e;
                assert forall|j: int| 0 <= j < self.queue@.len() implies prev_q.contains(
                    #[trigger] self.queue@[j],
                ) && self.queue@[j].event != e by {
                    assert(self.queue@.contains(self.queue@[j]));
                    prev_q.lemma_filter_contains_rev(pred, self.queue@[j]);
                    prev_q.lemma_filter_pred(pred, j);
                }
                lemma_queue_ok_within(self.queue@, prev_q, self.generations@, self.current_time);
            }
            self.generations.set(e, 0);
        } else {
            self.generations.set(e, g + 1);
        }
        let ghost kept = self.queue@;
        proof {
            assert forall|j: int| 0 <= j < kept.len() implies (#[trigger] kept[j]).event
                < self.generations@.len() && kept[j].generation <= self.generations@[kept[j].event as int]
                && self.current_time <= kept[j].time && (kept[j].event == e ==> !is_current(kept[j], self.generations@)) by {
            }
        }
        let fire_at = match delay {
            Some(d) => self.current_time.checked_add(d),
            None => None,
        };
        match fire_at {
            Some(t) => {
                let f = ScheduledFiring { time: t, event: e, generation: self.generations[e] };
                self.queue.push(f);
                proof {
                    let q = self.queue@;
                    assert(q[kept.len() as int] == f);
                    assert forall|j: int, k: int|
                        0 <= j < q.len() && 0 <= k < q.len() && is_current(#[trigger] q[j], self.generations@)
                            && is_current(#[trigger] q[k], self.generations@) && q[j].event == q[k].event
                        implies q[j] == q[k] by {
                        if j < kept.len() && k < kept.len() {
                            assert(kept[j] == q[j] && kept[k] == q[k]);
                        } else if j < kept.len() {
                            assert(kept[j] == q[j]);
                        } else if k < kept.len() {
                            assert(kept[k] == q[k]);
                        }
                    }
                    assert forall|j: int| 0 <= j < q.len() implies (#[trigger] q[j]).event
                        < self.generations@.len() && q[j].generation <= self.generations@[q[j].event as int]
                        && self.current_time <= q[j].time by {
                        if j < kept.len() {
                            assert(kept[j] == q[j]);
                        }
                    }
                }
                Some(t)
            },
            None => None,
        }
    }

    /// Schedules event `e` again at the current time: its pending firing, if any,
    /// is superseded, and when `enabled` holds on its enablement inputs a waiting
    /// time is drawn for its hazard rate and the new firing is queued.
    pub fn schedule_event<S: DelaySampler<E::Rate>>(&mut self, e: usize, sampler: &mut S) -> (r:
        Option<Time>)
        requires
            old(self).wf(),
            e < old(self).event_count(),
        ensures
            final(self).wf(),
            final(self).rescheduled_from(old(self), e as int, r),
    {
        let inputs = self.gather(&self.enablement[e]);
        if self.events[e].enabled(inputs.as_slice()) {
            let rate_inputs = self.gather(&self.rate_places[e]);
            let rate = self.events[e].hazard_rate(rate_inputs.as_slice());
            let delay = sampler.sample_delay(rate);
            self.push_firing(e, Some(delay))
        } else {
            self.push_firing(e, None)
        }
    }

    /// Schedules every event once, in order; called after the initial tokens are set.
    /// Returns, for each event, the firing time queued for it, if any.
    pub fn setup_initial_firings<S: DelaySampler<E::Rate>>(&mut self, sampler: &mut S) -> (rs: Vec<
        Option<Time>,
    >)
        requires
            old(self).wf(),
        ensures
            final(self).wf(),
            final(self).now() == old(self).now(),
            final(self).state() == old(self).state(),
            final(self).changes() == old(self).changes(),
            final(self).event_count() == old(self).event_count(),
            final(self).generations() == Seq::new(
                old(self).event_count(),
                |i: int| next_generation(old(self).generations()[i]),
            ),
            rs@.len() == old(self).event_count(),
            forall|i: int| 0 <= i < rs@.len() ==> (#[trigger] rs@[i] matches Some(t) ==> old(self).now() <= t),
            final(self).pending() == scheduled_all(
                old(self).pending(),
                old(self).generations(),
                rs@,
                old(self).event_count() as int,
            ),
    {
        let mut rs: Vec<Option<Time>> = Vec::new();
        let n = self.events.len();
        let mut i: usize = 0;
        while i < n
            invariant
                self.wf(),
                n == self.event_count(),
                n == old(self).event_count(),
                i <= n,
                self.now() == old(self).now(),
                self.state() == old(self).state(),
                self.changes() == old(self).changes(),
                self.generations().len() == n,
                forall|j: int|
                    0 <= j < n ==> #[trigger] self.generations()[j] == if j < i {
                        next_generation(old(self).generations()[j])
                    } else {
                        old(self).generations()[j]
                    },
                rs@.len() == i,
                forall|j: int| 0 <= j < i ==> (#[trigger] rs@[j] matches Some(t) ==> old(self).now() <= t),
                self.pending() == scheduled_all(old(self).pending(), old(self).generations(), rs@, i as int),
            decreases n - i,
        {
            let ghost rs_before = rs@;
            let ghost gens_before = self.generations();
            assert(gens_before[i as int] == old(self).generations()[i as int]);
            let r = self.schedule_event(i, sampler);
            rs.push(r);
            proof {
                assert(rs@.subrange(0, i as int) =~= rs_before);
                assert(rs@[i as int] == r);
                lemma_scheduled_all_prefix(old(self).pending(), old(self).generations(), rs@, i as int);
            }
            i = i + 1;
        }
        proof {
            assert(self.generations() =~= Seq::new(
                old(self).event_count(),
                |i: int| next_generation(old(self).generations()[i]),
            ));
        }
        rs
    }

    /// Takes the earliest current firing off the queue, discarding the stale
    /// entries that come before it.
    fn pop_event(&mut self) -> (r: Option<ScheduledFiring>)
        requires
            old(self).wf(),
        ensures
            final(self).wf(),
            final(self).now() == old(self).now(),
            final(self).state() == old(self).state(),
            final(self).generations() == old(self).generations(),
            final(self).changes() == old(self).changes(),
            final(self).events() == old(self).events(),
            final(self).enablement@ == old(self).enablement@,
            final(self).rate_places@ == old(self).rate_places@,
            final(self).event_count() == old(self).event_count(),
            entries_within(final(self).pending(), old(self).pending()),
            r is None ==> final(self).pending().len() == 0,
            r is None ==> forall|g: ScheduledFiring|
                !current_in(old(self).pending(), old(self).generations(), g),
            r matches Some(f) ==> {
                &&& is_current(f, final(self).generations())
                &&& old(self).pending().contains(f)
                &&& final(self).now() <= f.time
                &&& earliest_in(final(self).pending(), f)
                &&& forall|g: ScheduledFiring|
                    current_in(old(self).pending(), old(self).generations(), g) ==> f.time <= g.time
                &&& forall|g: ScheduledFiring|
                    g != f ==> (current_in(old(self).pending(), old(self).generations(), g)
                        <==> current_in(final(self).pending(), final(self).generations(), g))
            },
    {
        loop
            invariant
                forall|g: ScheduledFiring|
                    current_in(old(self).pending(), old(self).generations(), g) <==> current_in(
                        self.pending(),
                        self.generations(),
                        g,
                    ),
                self.wf(),
                self.now() == old(self).now(),
                self.state() == old(self).state(),
                self.generations() == old(self).generations(),
                self.events() == old(self).events(),
                self.enablement@ == old(self).enablement@,
                self.rate_places@ == old(self).rate_places@,
                self.changes() == old(self).changes(),
                self.event_count() == old(self).event_count(),
                entries_within(self.pending(), old(self).pending()),
            decreases self.queue@.len(),
        {
            let ghost before = self.queue@;
            match self.queue.pop_min() {
                None => {
                    return None;
                },
                Some(f) => {
                    proof {
                        let i = choose|i: int|
                            0 <= i < before.len() && before[i] == f && self.queue@ == before.remove(i);
                        assert forall|j: int| 0 <= j < self.queue@.len() implies before.contains(
                            #[trigger] self.queue@[j],
                        ) && f.time <= self.queue@[j].time by {
                            if j < i {
                                assert(self.queue@[j] == before[j]);
                            } else {
                                assert(self.queue@[j] == before[j + 1]);
                            }
                        }
                        assert(before.contains(f));
                        assert(old(self).pending().contains(f));
                        assert forall|g: ScheduledFiring| g != f implies (before.contains(g)
                            <==> self.queue@.contains(g)) by {
                            if before.contains(g) {
                                let j = choose|j: int| 0 <= j < before.len() && before[j] == g;
                                if j < i {
                                    assert(self.queue@[j] == g);
                                } else {
                                    assert(j != i);
                                    assert(self.queue@[j - 1] == g);
                                }
                            }
                        }
                        assert forall|g: ScheduledFiring| current_in(before, self.generations@, g)
                            implies f.time <= g.time by {
                            let j = choose|j: int| 0 <= j < before.len() && before[j] == g;
                        }
                        lemma_queue_ok_within(self.queue@, before, self.generations@, self.current_time);
                    }
                    if self.generations[f.event] == f.generation {
                        return Some(f);
                    }
                },
            }
        }
    }

    /// Applies event `e`'s deltas to the state, in order.
    fn apply_event_changes(&mut self, e: usize)
        requires
            old(self).wf(),
            e < old(self).event_count(),
        ensures
            final(self).wf(),
            final(self).state() == apply_changes(old(self).state(), old(self).changes()[e as int]),
            final(self).now() == old(self).now(),
            final(self).pending() == old(self).pending(),
            final(self).generations() == old(self).generations(),
            final(self).changes() == old(self).changes(),
            final(self).events() == old(self).events(),
            final(self).enablement@ == old(self).enablement@,
            final(self).rate_places@ == old(self).rate_places@,
            final(self).event_count() == old(self).event_count(),
    {
        let ghost cs = self.changes@[e as int]@;
        assert(self.changes()[e as int] == cs);
        let m = self.changes[e].len();
        let mut j: usize = 0;
        proof {
            assert(cs.subrange(0, 0) =~= Seq::<StateChange>::empty());
        }
        while j < m
            invariant
                self.wf(),
                e < self.event_count(),
                cs == self.changes@[e as int]@,
                m == cs.len(),
                j <= m,
                self.state() == apply_changes(old(self).state(), cs.subrange(0, j as int)),
                self.now() == old(self).now(),
                self.pending() == old(self).pending(),
                self.generations() == old(self).generations(),
                self.events() == old(self).events(),
                self.enablement@ == old(self).enablement@,
                self.rate_places@ == old(self).rate_places@,
                self.changes() == old(self).changes(),
                self.event_count() == old(self).event_count(),
            decreases m - j,
        {
            let c = self.changes[e][j];
            assert(self.places@.contains(self.changes@[e as int]@[j as int].place));
            match place_index(&self.places, c.place) {
                Some(k) => {
                    proof {
                        lemma_state_at(self.places@, self.tokens@, k as int);
                        lemma_state_update(
                            self.places@,
                            self.tokens@,
                            k as int,
                            self.tokens@[k as int].wrapping_add(c.value),
                        );
                        assert(cs.subrange(0, j + 1).drop_last() =~= cs.subrange(0, j as int));
                    }
                    let v = self.tokens[k].wrapping_add(c.value);
                    self.tokens.set(k, v);
                },
                None => {
                    assert(false);
                },
            }
            j = j + 1;
        }
        proof {
            assert(cs.subrange(0, m as int) =~= cs);
        }
    }

    /// Event `i` must be scheduled again after event `e` fires: it is `e` itself,
    /// or it reads a place that one of `e`'s nonzero deltas changes.
    pub open spec fn affected_by(&self, e: int, i: int) -> bool {
        i == e || exists|j: int|
            0 <= j < self.changes()[e].len() && self.changes()[e][j].value != 0 && self.reads(i).contains(
                (#[trigger] self.changes()[e][j]).place,
            )
    }

    /// Marks, for each event, whether it must be scheduled again after `e` fires.
    fn reschedule_set(&self, e: usize) -> (r: Vec<bool>)
        requires
            self.wf(),
            e < self.event_count(),
        ensures
            r@.len() == self.event_count(),
            forall|i: int| 0 <= i < r@.len() ==> (#[trigger] r@[i] <==> self.affected_by(e as int, i)),
    {
        let n = self.events.len();
        let ghost cs = self.changes@[e as int]@;
        assert(self.changes()[e as int] == cs);
        let mut marks: Vec<bool> = Vec::new();
        let mut i: usize = 0;
        while i < n
            invariant
                i <= n,
                marks@.len() == i,
                forall|i2: int| 0 <= i2 < i ==> (#[trigger] marks@[i2] <==> i2 == e),
            decreases n - i,
        {
            marks.push(i == e);
            i = i + 1;
        }
        let m = self.changes[e].len();
        let mut j: usize = 0;
        while j < m
            invariant
                self.wf(),
                n == self.event_count(),
                e < n,
                cs == self.changes@[e as int]@,
                cs == self.changes()[e as int],
                m == cs.len(),
                j <= m,
                marks@.len() == n,
                forall|i2: int|
                    0 <= i2 < n ==> (#[trigger] marks@[i2] <==> (i2 == e || exists|j2: int|
                        0 <= j2 < j && cs[j2].value != 0 && self.reads(i2).contains((#[trigger] cs[j2]).place))),
            decreases m - j,
        {
            let c = self.changes[e][j];
            assert(self.places@.contains(self.changes@[e as int]@[j as int].place));
            if c.value == 0 {
                proof {
                    assert forall|i2: int|
                        0 <= i2 < n implies (#[trigger] marks@[i2] <==> (i2 == e || exists|j2: int|
                            0 <= j2 < j + 1 && cs[j2].value != 0 && self.reads(i2).contains((#[trigger] cs[j2]).place))) by {
                        if exists|j2: int| 0 <= j2 < j + 1 && cs[j2].value != 0 && self.reads(i2).contains((#[trigger] cs[j2]).place) {
                            let j2 = choose|j2: int| 0 <= j2 < j + 1 && cs[j2].value != 0 && self.reads(i2).contains((#[trigger] cs[j2]).place);
                            assert(j2 != j);
                        }
                    }
                }
                j = j + 1;
                continue;
            }
            match place_index(&self.places, c.place) {
                Some(k) => {
                    let ghost marks0 = marks@;
                    let d = self.dependents[k].len();
                    let mut t: usize = 0;
                    while t < d
                        invariant
                            self.wf(),
                            n == self.event_count(),
                            k < self.places@.len(),
                            d == self.dependents@[k as int]@.len(),
                            t <= d,
                            marks@.len() == n,
                            forall|i2: int|
                                0 <= i2 < n ==> (#[trigger] marks@[i2] <==> (marks0[i2] || exists|t2: int|
                                    0 <= t2 < t && self.dependents@[k as int]@[t2] == i2)),
                        decreases d - t,
                    {
                        let f = self.dependents[k][t];
                        assert(self.dependents@[k as int]@.contains(f));
                        marks.set(f, true);
                        proof {
                            assert forall|i2: int| 0 <= i2 < n implies (#[trigger] marks@[i2] <==> (marks0[i2]
                                || exists|t2: int| 0 <= t2 < t + 1 && self.dependents@[k as int]@[t2] == i2)) by {
                                if i2 == f as int {
                                    assert(self.dependents@[k as int]@[t as int] == i2);
                                }
                            }
                        }
                        t = t + 1;
                    }
                    proof {
                        assert forall|i2: int|
                            0 <= i2 < n implies (#[trigger] marks@[i2] <==> (i2 == e || exists|j2: int|
                                0 <= j2 < j + 1 && cs[j2].value != 0 && self.reads(i2).contains((#[trigger] cs[j2]).place))) by {
                            let deps = self.dependents@[k as int]@;
                            assert(deps.contains(i2 as usize) <==> (i2 < n && self.reads(i2).contains(self.places@[k as int])));
                            if exists|t2: int| 0 <= t2 < d && deps[t2] == i2 {
                                let t2 = choose|t2: int| 0 <= t2 < d && deps[t2] == i2;
                                assert(deps.contains(i2 as usize));
                                assert(self.reads(i2).contains(cs[j as int].place));
                            }
                            if self.reads(i2).contains(cs[j as int].place) {
                                assert(deps.contains(i2 as usize));
                                let t2 = choose|t2: int| 0 <= t2 < deps.len() && deps[t2] == i2 as usize;
                                assert(deps[t2] == i2);
                            }
                        }
                    }
                },
                None => {
                    assert(false);
                },
            }
            j = j + 1;
        }
        marks
    }

    /// `next` is `self` after a `step` that fired nothing: the first current
    /// firing, if any, lies beyond `horizon` and stays queued; only stale entries
    /// may have left the queue.
    pub open spec fn stopped(&self, next: &Self, horizon: Time) -> bool {
        &&& next.now() == self.now()
        &&& next.state() == self.state()
        &&& next.generations() == self.generations()
        &&& next.changes() == self.changes()
        &&& next.events() == self.events()
        &&& next.event_count() == self.event_count()
        &&& forall|g: ScheduledFiring|
            current_in(next.pending(), next.generations(), g) <==> current_in(
                self.pending(),
                self.generations(),
                g,
            )
        &&& forall|g: ScheduledFiring|
            current_in(self.pending(), self.generations(), g) ==> horizon < g.time
    }

    /// `next` is `self` after a `step` that fired `f`: `f` was the earliest current
    /// firing and is due by `horizon`; time moved to it, its deltas were applied,
    /// and every event it affects was scheduled again, the others keeping their
    /// counters and their pending firings.
    pub open spec fn fired(&self, next: &Self, horizon: Time, f: ScheduledFiring) -> bool {
        &&& current_in(self.pending(), self.generations(), f)
        &&& f.time <= horizon
        &&& forall|g: ScheduledFiring|
            current_in(self.pending(), self.generations(), g) ==> f.time <= g.time
        &&& next.now() == f.time
        &&& next.state() == apply_changes(self.state(), self.changes()[f.event as int])
        &&& next.changes() == self.changes()
        &&& next.events() == self.events()
        &&& next.event_count() == self.event_count()
        &&& next.generations() == Seq::new(
            self.event_count(),
            |i: int|
                if self.affected_by(f.event as int, i) {
                    next_generation(self.generations()[i])
                } else {
                    self.generations()[i]
                },
        )
        &&& forall|g: ScheduledFiring|
            !self.affected_by(f.event as int, g.event as int) ==> (current_in(
                next.pending(),
                next.generations(),
                g,
            ) <==> current_in(self.pending(), self.generations(), g))
        &&& forall|g: ScheduledFiring|
            current_in(next.pending(), next.generations(), g) ==> f.time <= g.time
    }

    /// `states` runs from one state to the next by firing the entries of `trace` in turn.
    pub open spec fn fires_through(states: Seq<Self>, horizon: Time, trace: Seq<ScheduledFiring>) -> bool {
        &&& states.len() == trace.len() + 1
        &&& forall|k: int| 0 <= k < trace.len() ==> #[trigger] states[k].fired(&states[k + 1], horizon, trace[k])
    }

    /// Fires the earliest current firing if it is due by `horizon`, and returns it;
    /// otherwise fires nothing and leaves that firing queued.
    pub fn step<S: DelaySampler<E::Rate>>(&mut self, horizon: Time, sampler: &mut S) -> (r: Option<
        ScheduledFiring,
    >)
        requires
            old(self).wf(),
        ensures
            final(self).wf(),
            r is None ==> old(self).stopped(final(self), horizon),
            r matches Some(f) ==> old(self).fired(final(self), horizon, f),
    {
        let ghost before = self.queue@;
        match self.pop_event() {
            None => None,
            Some(f) => {
                if f.time > horizon {
                    let ghost rest = self.queue@;
                    self.queue.push(f);
                    proof {
                        let q = self.queue@;
                        assert forall|j: int| 0 <= j < q.len() implies before.contains(#[trigger] q[j]) by {
                            if j < rest.len() {
                                assert(q[j] == rest[j]);
                                assert(before.contains(rest[j]));
                            } else {
                                assert(q[j] == f);
                            }
                        }
                        lemma_queue_ok_within(q, before, self.generations@, self.current_time);
                        assert forall|g: ScheduledFiring| current_in(q, self.generations@, g) <==> current_in(
                            before, self.generations@, g) by {
                            if g == f {
                                assert(q[rest.len() as int] == f);
                            } else if rest.contains(g) {
                                let j = choose|j: int| 0 <= j < rest.len() && rest[j] == g;
                                assert(q[j] == g);
                            } else if q.contains(g) {
                                let j = choose|j: int| 0 <= j < q.len() && q[j] == g;
                                if j < rest.len() {
                                    assert(rest[j] == g);
                                }
                            }
                        }
                    }
                    return None;
                }
                let ghost popped = self.queue@;
                let ghost gens0 = self.generations@;
                let e = f.event;
                self.current_time = f.time;
                self.apply_event_changes(e);
                let marks = self.reschedule_set(e);
                proof {
                    assert forall|i: int| 0 <= i < marks@.len() implies (#[trigger] marks@[i]
                        <==> old(self).affected_by(e as int, i)) by {
                        assert(self.reads(i) == old(self).reads(i));
                    }
                }
                let ghost mid_state = self.state();
                let n = self.events.len();
                let mut i: usize = 0;
                while i < n
                    invariant
                        self.wf(),
                        n == self.event_count(),
                        n == old(self).event_count(),
                        marks@.len() == n,
                        i <= n,
                        e < n,
                        gens0 == old(self).generations(),
                        self.now() == f.time,
                        self.changes() == old(self).changes(),
                        self.events() == old(self).events(),
                        self.state() == mid_state,
                        self.generations().len() == n,
                        forall|j: int|
                            0 <= j < n ==> #[trigger] self.generations()[j] == if j < i && marks@[j] {
                                next_generation(gens0[j])
                            } else {
                                gens0[j]
                            },
                        forall|g: ScheduledFiring|
                            (g.event >= n || !marks@[g.event as int]) ==> (current_in(
                                self.pending(),
                                self.generations(),
                                g,
                            ) <==> current_in(popped, gens0, g)),
                    decreases n - i,
                {
                    if marks[i] {
                        let ghost q0 = self.queue@;
                        let ghost g0 = self.generations();
                        let r = self.schedule_event(i, sampler);
                        proof {
                            assert forall|g: ScheduledFiring| g.event != i implies (self.queue@.contains(g)
                                <==> q0.contains(g)) by {
                                lemma_rescheduled_keeps_others(q0, i, g0[i as int], r, g);
                            }
                        }
                    }
                    i = i + 1;
                }
                proof {
                    assert(self.generations() =~= Seq::new(
                        old(self).event_count(),
                        |i: int|
                            if old(self).affected_by(e as int, i) {
                                next_generation(old(self).generations()[i])
                            } else {
                                old(self).generations()[i]
                            },
                    ));
                    assert(marks@[e as int]);
                    assert forall|g: ScheduledFiring| current_in(self.queue@, self.generations@, g) implies f.time
                        <= g.time by {
                        let j = choose|j: int| 0 <= j < self.queue@.len() && self.queue@[j] == g;
                    }
                }
                Some(f)
            },
        }
    }

    /// Runs the simulation through every firing whose time is at most `horizon`,
    /// and returns the fired entries in order. A firing later than `horizon` stays
    /// queued, so a later call with a larger horizon resumes where this one stopped.
    /// The run is a chain of `step`s; it ends at the first step that fires nothing,
    /// or after `usize::MAX` firings.
    pub fn run_until<S: DelaySampler<E::Rate>>(&mut self, horizon: Time, sampler: &mut S) -> (trace:
        Vec<ScheduledFiring>)
        requires
            old(self).wf(),
        ensures
            final(self).wf(),
            exists|states: Seq<Simulation<E>>|
                #![trigger Self::fires_through(states, horizon, trace@)]
                states[0] == *old(self) && Self::fires_through(states, horizon, trace@) && (
                trace@.len() < usize::MAX ==> states.last().stopped(final(self), horizon)) && (
                trace@.len() == usize::MAX ==> states.last() == *final(self)),
            forall|k: int|
                0 <= k < trace@.len() ==> old(self).now() <= (#[trigger] trace@[k]).time <= horizon,
            forall|k: int, l: int| 0 <= k <= l < trace@.len() ==> trace@[k].time <= trace@[l].time,
            trace@.len() == 0 ==> final(self).now() == old(self).now(),
            trace@.len() > 0 ==> final(self).now() == trace@.last().time,
            final(self).changes() == old(self).changes(),
            final(self).events() == old(self).events(),
            final(self).event_count() == old(self).event_count(),
            forall|j: int| 0 <= j < trace@.len() ==> (#[trigger] trace@[j]).event < old(self).event_count(),
            final(self).state() == apply_firings(
                old(self).state(),
                old(self).changes(),
                trace@.map_values(|f: ScheduledFiring| f.event),
            ),
            trace@.len() < usize::MAX ==> forall|g: ScheduledFiring|
                current_in(final(self).pending(), final(self).generations(), g) ==> horizon < g.time,
    {
        let mut trace: Vec<ScheduledFiring> = Vec::new();
        let ghost mut states: Seq<Simulation<E>> = seq![*self];
        loop
            invariant_except_break
                states.last() == *self,
            invariant
                self.wf(),
                self.event_count() == old(self).event_count(),
                self.changes() == old(self).changes(),
                self.events() == old(self).events(),
                states[0] == *old(self),
                Self::fires_through(states, horizon, trace@),
                forall|k: int|
                    0 <= k < trace@.len() ==> old(self).now() <= (#[trigger] trace@[k]).time <= horizon,
                forall|k: int, l: int| 0 <= k <= l < trace@.len() ==> trace@[k].time <= trace@[l].time,
                trace@.len() == 0 ==> self.now() == old(self).now(),
                trace@.len() > 0 ==> self.now() == trace@.last().time,
                forall|j: int| 0 <= j < trace@.len() ==> (#[trigger] trace@[j]).event < old(self).event_count(),
                self.state() == apply_firings(
                    old(self).state(),
                    old(self).changes(),
                    trace@.map_values(|f: ScheduledFiring| f.event),
                ),
            ensures
                self.wf(),
                states[0] == *old(self),
                Self::fires_through(states, horizon, trace@),
                trace@.len() < usize::MAX ==> states.last().stopped(self, horizon),
                trace@.len() == usize::MAX ==> states.last() == *self,
                forall|k: int|
                    0 <= k < trace@.len() ==> old(self).now() <= (#[trigger] trace@[k]).time <= horizon,
                forall|k: int, l: int| 0 <= k <= l < trace@.len() ==> trace@[k].time <= trace@[l].time,
                trace@.len() == 0 ==> self.now() == old(self).now(),
                trace@.len() > 0 ==> self.now() == trace@.last().time,
                self.event_count() == old(self).event_count(),
                self.changes() == old(self).changes(),
                self.events() == old(self).events(),
                forall|j: int| 0 <= j < trace@.len() ==> (#[trigger] trace@[j]).event < old(self).event_count(),
                self.state() == apply_firings(
                    old(self).state(),
                    old(self).changes(),
                    trace@.map_values(|f: ScheduledFiring| f.event),
                ),
            decreases usize::MAX - trace@.len(),
        {
            if trace.len() == usize::MAX {
                break;
            }
            let ghost prev = *self;
            match self.step(horizon, sampler) {
                None => {
                    break;
                },
                Some(f) => {
                    proof {
                        let j = choose|j: int| 0 <= j < prev.queue@.len() && prev.queue@[j] == f;
                        assert(prev.now() <= prev.queue@[j].time);
                        let evs = trace@.map_values(|f: ScheduledFiring| f.event);
                        assert(trace@.push(f).map_values(|f: ScheduledFiring| f.event) =~= evs.push(f.event));
                        assert(evs.push(f.event).drop_last() =~= evs);
                    }
                    trace.push(f);
                    proof {
                        let old_states = states;
                        states = states.push(*self);
                        assert forall|k: int| 0 <= k < trace@.len() implies #[trigger] states[k].fired(
                            &states[k + 1], horizon, trace@[k]) by {
                            if k < trace@.len() - 1 {
                                assert(old_states[k].fired(&old_states[k + 1], horizon, trace@[k]));
                                assert(states[k] == old_states[k] && states[k + 1] == old_states[k + 1]);
                            }
                        }
                    }
                },
            }
        }
        proof {
            assert(Self::fires_through(states, horizon, trace@));
        }
        trace
    }
}

/// No queued firing of a well-formed engine lies before its current time.
pub proof fn lemma_pending_not_before_now<E: Event>(sim: &Simulation<E>)
    requires
        sim.wf(),
    ensures
        forall|j: int| 0 <= j < sim.pending().len() ==> sim.now() <= (#[trigger] sim.pending()[j]).time,
{
}

/// Stale entries are never observable: each event has at most one current firing
/// in the queue, however often it was scheduled again.
pub proof fn lemma_one_current_firing<E: Event>(sim: &Simulation<E>, j: int, k: int)
    requires
        sim.wf(),
        0 <= j < sim.pending().len(),
        0 <= k < sim.pending().len(),
        is_current(sim.pending()[j], sim.generations()),
        is_current(sim.pending()[k], sim.generations()),
        sim.pending()[j].event == sim.pending()[k].event,
    ensures
        sim.pending()[j] == sim.pending()[k],
{
}

/// A scheduling that finds the event disabled leaves it no current firing, so
/// it cannot fire until some later scheduling finds it enabled.
pub proof fn lemma_disabled_has_no_firing<E: Event>(
    prev: &Simulation<E>,
    next: &Simulation<E>,
    e: int,
    j: int,
)
    requires
        prev.wf(),
        0 <= e < prev.event_count(),
        next.rescheduled_from(prev, e, None),
        0 <= j < next.pending().len(),
        next.pending()[j].event == e,
    ensures
        !is_current(next.pending()[j], next.generations()),
{
    let g = prev.generations()[e];
    let f = next.pending()[j];
    if g == u64::MAX {
        let pred = |f: ScheduledFiring| f.event != e as usize;
        prev.pending().lemma_filter_pred(pred, j);
    } else {
        assert(prev.pending()[j] == f);
        assert(f.generation <= g);
    }
}

proof fn lemma_scheduled_all_prefix(
    q: Seq<ScheduledFiring>,
    gens: Seq<u64>,
    rs: Seq<Option<Time>>,
    k: int,
)
    requires
        0 <= k < rs.len(),
    ensures
        scheduled_all(q, gens, rs, k) == scheduled_all(q, gens, rs.subrange(0, k), k),
        scheduled_all(q, gens, rs, k + 1) == rescheduled_entries(
            scheduled_all(q, gens, rs, k),
            k as usize,
            gens[k],
            rs[k],
        ),
    decreases k,
{
    if k > 0 {
        lemma_scheduled_all_prefix(q, gens, rs, k - 1);
        lemma_scheduled_all_prefix(q, gens, rs.subrange(0, k), k - 1);
        assert(rs.subrange(0, k).subrange(0, k - 1) =~= rs.subrange(0, k - 1));
    }
}

/// What a well-formed engine guarantees of its parts: one counter and one delta
/// list per event; every queued entry names an event, carries a stamp no later
/// than that event's counter and lies no earlier than now; every place read or
/// written is registered; and event `e` is indexed under place `p` exactly when
/// `p` is registered and `e` reads it.
pub proof fn lemma_wf_facts<E: Event>(sim: &Simulation<E>)
    requires
        sim.wf(),
    ensures
        sim.generations().len() == sim.event_count(),
        sim.changes().len() == sim.event_count(),
        forall|j: int|
            0 <= j < sim.pending().len() ==> (#[trigger] sim.pending()[j]).event < sim.event_count()
                && sim.pending()[j].generation <= sim.generations()[sim.pending()[j].event as int]
                && sim.now() <= sim.pending()[j].time,
        forall|e: int, j: int|
            0 <= e < sim.event_count() && 0 <= j < sim.changes()[e].len() ==> sim.state().contains_key(
                (#[trigger] sim.changes()[e][j]).place,
            ),
        forall|e: int, j: int|
            0 <= e < sim.event_count() && 0 <= j < sim.reads(e).len() ==> sim.state().contains_key(
                #[trigger] sim.reads(e)[j],
            ),
        forall|p: Place, e: usize|
            #[trigger] sim.indexed(p, e) <==> (sim.state().contains_key(p) && e < sim.event_count()
                && sim.reads(e as int).contains(p)),
{
    assert forall|e: int, j: int|
        0 <= e < sim.event_count() && 0 <= j < sim.changes()[e].len() implies sim.state().contains_key(
            (#[trigger] sim.changes()[e][j]).place,
        ) by {
        assert(sim.changes()[e][j] == sim.changes@[e]@[j]);
    }
    assert forall|e: int, j: int|
        0 <= e < sim.event_count() && 0 <= j < sim.reads(e).len() implies sim.state().contains_key(
            #[trigger] sim.reads(e)[j],
        ) by {
        let en = sim.enablement@[e]@;
        if j < en.len() {
            assert(sim.reads(e)[j] == en[j]);
        } else {
            assert(sim.reads(e)[j] == sim.rate_places@[e]@[j - en.len()]);
        }
    }
    assert forall|p: Place, e: usize|
        #[trigger] sim.indexed(p, e) <==> (sim.state().contains_key(p) && e < sim.event_count()
            && sim.reads(e as int).contains(p)) by {
        if sim.places@.contains(p) {
            let k = sim.places@.index_of(p);
            assert(sim.places@[k] == p);
        }
    }
}

proof fn lemma_rescheduled_keeps_others(
    q: Seq<ScheduledFiring>,
    e: usize,
    g: u64,
    r: Option<Time>,
    x: ScheduledFiring,
)
    requires
        x.event != e,
    ensures
        rescheduled_entries(q, e, g, r).contains(x) <==> q.contains(x),
{
    let kept = kept_entries(q, e, g);
    let pred = |f: ScheduledFiring| f.event != e;
    if g == u64::MAX {
        if kept.contains(x) {
            q.lemma_filter_contains_rev(pred, x);
        }
        if q.contains(x) {
            let j = choose|j: int| 0 <= j < q.len() && q[j] == x;
            q.lemma_filter_contains(pred, j);
        }
    }
    match r {
        Some(t) => {
            let entry = ScheduledFiring { time: t, event: e, generation: next_generation(g) };
            let pushed = kept.push(entry);
            if pushed.contains(x) {
                let j = choose|j: int| 0 <= j < pushed.len() && pushed[j] == x;
                assert(j < kept.len());
                assert(kept[j] == x);
            }
            if kept.contains(x) {
                let j = choose|j: int| 0 <= j < kept.len() && kept[j] == x;
                assert(pushed[j] == x);
            }
        },
        None => {},
    }
}

/// Only a current firing fires: in a run, each fired entry was the pending,
/// unsuperseded firing of its event just before it fired, so an event that holds
/// no current firing at any point of the run never appears in its trace.
pub proof fn lemma_only_current_firings_fire<E: Event>(
    states: Seq<Simulation<E>>,
    horizon: Time,
    trace: Seq<ScheduledFiring>,
    d: usize,
)
    requires
        Simulation::<E>::fires_through(states, horizon, trace),
        forall|k: int, g: ScheduledFiring|
            0 <= k < states.len() && g.event == d ==> !#[trigger] current_in(
                states[k].pending(),
                states[k].generations(),
                g,
            ),
    ensures
        forall|k: int| 0 <= k < trace.len() ==> current_in(
            states[k].pending(),
            states[k].generations(),
            #[trigger] trace[k],
        ),
        forall|k: int| 0 <= k < trace.len() ==> (#[trigger] trace[k]).event != d,
{
    assert forall|k: int| 0 <= k < trace.len() implies (#[trigger] trace[k]).event != d by {
        assert(states[k].fired(&states[k + 1], horizon, trace[k]));
    }
    assert forall|k: int| 0 <= k < trace.len() implies current_in(
        states[k].pending(),
        states[k].generations(),
        #[trigger] trace[k],
    ) by {
        assert(states[k].fired(&states[k + 1], horizon, trace[k]));
    }
}

/// A run that starts with no current firing due by `horizon` fires nothing: once
/// `run_until(horizon)` has returned, running to the same horizon again is a no-op.
pub proof fn lemma_nothing_due_fires_nothing<E: Event>(
    states: Seq<Simulation<E>>,
    horizon: Time,
    trace: Seq<ScheduledFiring>,
)
    requires
        Simulation::<E>::fires_through(states, horizon, trace),
        forall|g: ScheduledFiring|
            current_in(states[0].pending(), states[0].generations(), g) ==> horizon < g.time,
    ensures
        trace.len() == 0,
{
    if trace.len() > 0 {
        let k: int = 0;
        assert(states[k].fired(&states[k + 1], horizon, trace[k]));
    }
}

} // verus!
