use vstd::prelude::*;

use crate::model::{Place, StateChange};
use crate::simulation::{apply_change, apply_changes, apply_firings};

verus! {

/// Sum of the token counts of the places `ps`.
pub open spec fn total(st: Map<Place, i32>, ps: Seq<Place>) -> int
    decreases ps.len(),
{
    if ps.len() == 0 {
        0
    } else {
        total(st, ps.drop_last()) + st[ps.last()] as int
    }
}

/// Sum of the deltas of `cs`.
pub open spec fn delta_sum(cs: Seq<StateChange>) -> int
    decreases cs.len(),
{
    if cs.len() == 0 {
        0
    } else {
        delta_sum(cs.drop_last()) + cs.last().value as int
    }
}

/// Applying `cs` in order to `st` keeps every count within `i32`: no delta wraps round.
pub open spec fn changes_fit(st: Map<Place, i32>, cs: Seq<StateChange>) -> bool
    decreases cs.len(),
{
    if cs.len() == 0 {
        true
    } else {
        let before = apply_changes(st, cs.drop_last());
        let c = cs.last();
        changes_fit(st, cs.drop_last()) && (before.contains_key(c.place) ==> i32::MIN <= before[
            c.place] + c.value <= i32::MAX)
    }
}

/// Firing the events of `trace` in order from `st` keeps every count within `i32`.
pub open spec fn firings_fit(
    st: Map<Place, i32>,
    changes: Seq<Seq<StateChange>>,
    trace: Seq<usize>,
) -> bool
    decreases trace.len(),
{
    if trace.len() == 0 {
        true
    } else {
        firings_fit(st, changes, trace.drop_last()) && changes_fit(
            apply_firings(st, changes, trace.drop_last()),
            changes[trace.last() as int],
        )
    }
}

/// The deltas of `cs` only touch places of `ps`, and they sum to zero.
pub open spec fn closed_and_balanced(cs: Seq<StateChange>, ps: Seq<Place>) -> bool {
    &&& forall|j: int| 0 <= j < cs.len() ==> ps.contains(#[trigger] cs[j].place)
    &&& delta_sum(cs) == 0
}

proof fn lemma_total_frame(st: Map<Place, i32>, ps: Seq<Place>, p: Place, v: i32)
    requires
        !ps.contains(p),
    ensures
        total(st.insert(p, v), ps) == total(st, ps),
    decreases ps.len(),
{
    if ps.len() > 0 {
        assert(ps.drop_last().contains(p) ==> ps.contains(p)) by {
            if ps.drop_last().contains(p) {
                let j = choose|j: int| 0 <= j < ps.drop_last().len() && ps.drop_last()[j] == p;
                assert(ps[j] == p);
            }
        }
        assert(ps[ps.len() - 1] != p);
        lemma_total_frame(st, ps.drop_last(), p, v);
    }
}

proof fn lemma_total_insert(st: Map<Place, i32>, ps: Seq<Place>, p: Place, v: i32)
    requires
        ps.no_duplicates(),
        ps.contains(p),
    ensures
        total(st.insert(p, v), ps) == total(st, ps) - st[p] + v,
    decreases ps.len(),
{
    let init = ps.drop_last();
    if ps.last() == p {
        assert(!init.contains(p)) by {
            if init.contains(p) {
                let j = choose|j: int| 0 <= j < init.len() && init[j] == p;
                assert(ps[j] == ps[ps.len() - 1]);
            }
        }
        lemma_total_frame(st, init, p, v);
    } else {
        let j = choose|j: int| 0 <= j < ps.len() && ps[j] == p;
        assert(init[j] == p);
        assert(init.no_duplicates()) by {
            assert forall|a: int, b: int| 0 <= a < init.len() && 0 <= b < init.len() && a != b implies init[a] != init[b] by {
                assert(init[a] == ps[a] && init[b] == ps[b]);
            }
        }
        lemma_total_insert(st, init, p, v);
    }
}

/// Applying deltas that stay within `i32` changes the total over a set of places
/// by the sum of the deltas, when every delta falls on a place of the set.
pub proof fn lemma_changes_total(st: Map<Place, i32>, cs: Seq<StateChange>, ps: Seq<Place>)
    requires
        ps.no_duplicates(),
        forall|p: Place| ps.contains(p) ==> st.contains_key(p),
        forall|j: int| 0 <= j < cs.len() ==> ps.contains(#[trigger] cs[j].place),
        changes_fit(st, cs),
    ensures
        total(apply_changes(st, cs), ps) == total(st, ps) + delta_sum(cs),
        forall|p: Place| ps.contains(p) ==> apply_changes(st, cs).contains_key(p),
    decreases cs.len(),
{
    if cs.len() > 0 {
        let init = cs.drop_last();
        assert forall|j: int| 0 <= j < init.len() implies ps.contains(#[trigger] init[j].place) by {
            assert(init[j] == cs[j]);
        }
        lemma_changes_total(st, init, ps);
        let before = apply_changes(st, init);
        let c = cs.last();
        assert(ps.contains(cs[cs.len() - 1].place));
        lemma_total_insert(before, ps, c.place, before[c.place].wrapping_add(c.value));
        assert(apply_changes(st, cs) == apply_change(before, c));
    }
}

/// Conservation: when every event of `trace` only moves tokens among the places
/// of `ps`, with deltas that sum to zero, and no count wraps round, firing the
/// events of `trace` leaves the total token count over `ps` unchanged.
pub proof fn lemma_conservation(
    st: Map<Place, i32>,
    changes: Seq<Seq<StateChange>>,
    trace: Seq<usize>,
    ps: Seq<Place>,
)
    requires
        ps.no_duplicates(),
        forall|p: Place| ps.contains(p) ==> st.contains_key(p),
        forall|j: int|
            0 <= j < trace.len() ==> #[trigger] trace[j] < changes.len() && closed_and_balanced(
                changes[trace[j] as int],
                ps,
            ),
        firings_fit(st, changes, trace),
    ensures
        total(apply_firings(st, changes, trace), ps) == total(st, ps),
    decreases trace.len(),
{
    if trace.len() > 0 {
        let init = trace.drop_last();
        assert forall|j: int| 0 <= j < init.len() implies #[trigger] init[j] < changes.len()
            && closed_and_balanced(changes[init[j] as int], ps) by {
            assert(init[j] == trace[j]);
        }
        lemma_conservation(st, changes, init, ps);
        lemma_firings_keep_places(st, changes, init, ps);
        let e = trace[trace.len() - 1];
        assert(closed_and_balanced(changes[e as int], ps));
        lemma_changes_total(apply_firings(st, changes, init), changes[e as int], ps);
    }
}

proof fn lemma_firings_keep_places(
    st: Map<Place, i32>,
    changes: Seq<Seq<StateChange>>,
    trace: Seq<usize>,
    ps: Seq<Place>,
)
    requires
        forall|p: Place| ps.contains(p) ==> st.contains_key(p),
    ensures
        forall|p: Place| ps.contains(p) ==> apply_firings(st, changes, trace).contains_key(p),
    decreases trace.len(),
{
    if trace.len() > 0 {
        lemma_firings_keep_places(st, changes, trace.drop_last(), ps);
        lemma_changes_keep_keys(apply_firings(st, changes, trace.drop_last()), changes[trace.last() as int]);
    }
}

proof fn lemma_changes_keep_keys(st: Map<Place, i32>, cs: Seq<StateChange>)
    ensures
        forall|p: Place| st.contains_key(p) ==> apply_changes(st, cs).contains_key(p),
    decreases cs.len(),
{
    if cs.len() > 0 {
        lemma_changes_keep_keys(st, cs.drop_last());
    }
}

} // verus!
