use vstd::prelude::*;

use crate::model::Time;

verus! {

/// A tentative firing: the absolute time at which `event` fires, and the
/// generation stamp the event had when this firing was scheduled.
#[derive(Debug, Copy, Clone, PartialEq, Eq, Structural)]
pub struct ScheduledFiring {
    pub time: Time,
    pub event: usize,
    pub generation: u64,
}

/// Time-ordered queue of tentative firings; the earliest one leaves first.
#[derive(Debug)]
pub struct FiringQueue {
    entries: Vec<ScheduledFiring>,
}

/// `f` fires no later than any entry of `s`.
pub open spec fn earliest_in(s: Seq<ScheduledFiring>, f: ScheduledFiring) -> bool {
    forall|j: int| 0 <= j < s.len() ==> f.time <= (#[trigger] s[j]).time
}

impl View for FiringQueue {
    type V = Seq<ScheduledFiring>;

    closed spec fn view(&self) -> Seq<ScheduledFiring> {
        self.entries@
    }
}

impl FiringQueue {
    pub fn new() -> (q: FiringQueue)
        ensures
            q@ == Seq::<ScheduledFiring>::empty(),
    {
        FiringQueue { entries: Vec::new() }
    }

    pub fn len(&self) -> (n: usize)
        ensures
            n == self@.len(),
    {
        self.entries.len()
    }

    pub fn push(&mut self, f: ScheduledFiring)
        ensures
            final(self)@ == old(self)@.push(f),
    {
        self.entries.push(f);
    }

    /// Removes and returns an entry with the earliest time.
    pub fn pop_min(&mut self) -> (r: Option<ScheduledFiring>)
        ensures
            r is None <==> old(self)@.len() == 0,
            r is None ==> final(self)@ == old(self)@,
            r matches Some(f) ==> earliest_in(old(self)@, f) && exists|i: int|
                0 <= i < old(self)@.len() && old(self)@[i] == f && final(self)@ == old(self)@.remove(i),
    {
        let n = self.entries.len();
        if n == 0 {
            return None;
        }
        let mut best: usize = 0;
        let mut k: usize = 1;
        while k < n
            invariant
                n == self.entries@.len(),
                best < k <= n,
                forall|j: int| 0 <= j < k ==> self.entries@[best as int].time <= #[trigger] self.entries@[j].time,
            decreases n - k,
        {
            if self.entries[k].time < self.entries[best].time {
                best = k;
            }
            k = k + 1;
        }
        let f = self.entries.remove(best);
        proof {
            assert(old(self)@[best as int] == f);
        }
        Some(f)
    }
    /// Drops every entry of `event`, keeping the others in order.
    pub fn discard_event(&mut self, event: usize)
        ensures
            final(self)@ == old(self)@.filter(|f: ScheduledFiring| f.event != event),
    {
        let ghost pred = |f: ScheduledFiring| f.event != event;
        let mut kept: Vec<ScheduledFiring> = Vec::new();
        let mut k: usize = 0;
        proof {
            reveal(Seq::filter);
            assert(self.entries@.subrange(0, 0) =~= Seq::<ScheduledFiring>::empty());
        }
        while k < self.entries.len()
            invariant
                k <= self.entries@.len(),
                self.entries@ == old(self)@,
                pred == (|f: ScheduledFiring| f.event != event),
                kept@ == self.entries@.subrange(0, k as int).filter(pred),
            decreases self.entries@.len() - k,
        {
            let f = self.entries[k];
            proof {
                assert(self.entries@.subrange(0, k + 1) =~= self.entries@.subrange(0, k as int).push(f));
                self.entries@.subrange(0, k as int).lemma_filter_push(f, pred);
            }
            if f.event != event {
                kept.push(f);
            }
            k = k + 1;
        }
        proof {
            assert(self.entries@.subrange(0, k as int) =~= self.entries@);
        }
        self.entries = kept;
    }
}

} // verus!
