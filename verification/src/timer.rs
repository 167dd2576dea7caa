//! The timer schedule shared by both caches.
//!
//! The library records here which timers it believes the host has pending.
//! The host is expected to mirror this schedule: wait until the earliest
//! deadline and hand the fired id back to the library's handler for it (the
//! handler itself retires the id from the schedule).

use vstd::prelude::*;

use crate::assoc::{assoc_map, lemma_assoc_map_dom, lemma_assoc_map_index, lemma_assoc_map_len,
    lemma_assoc_map_push, lemma_assoc_map_remove, lemma_assoc_map_update, unique_keys};
use crate::ip::IpVersion;
use crate::reassembly::FragmentCacheKey;
use crate::time::Instant;

verus! {

/// Identifies one pending timer. Reassembly timers are per fragment key and
/// family; maintenance timers are per family. The two families' ids are
/// disjoint by construction.
#[derive(Clone, Copy, Debug, PartialEq, Eq, Structural)]
pub enum TimerId {
    /// Expiration of the reassembly budget for one datagram's fragments.
    ReassemblyTimeout(IpVersion, FragmentCacheKey),
    /// The periodic path-MTU maintenance sweep of one family's cache.
    PmtuMaintenance(IpVersion),
}

/// The set of timers the library believes pending, each with its deadline.
pub struct TimerSchedule {
    timers: Vec<(TimerId, Instant)>,
}

impl View for TimerSchedule {
    type V = Map<TimerId, Instant>;

    closed spec fn view(&self) -> Map<TimerId, Instant> {
        assoc_map(self.timers@)
    }
}

impl TimerSchedule {
    /// Each id has at most one pending deadline.
    pub closed spec fn wf(&self) -> bool {
        unique_keys(self.timers@)
    }

    /// An empty schedule.
    pub fn new() -> (r: TimerSchedule)
        ensures
            r.wf(),
            r@ == Map::<TimerId, Instant>::empty(),
    {
        TimerSchedule { timers: Vec::new() }
    }

    /// Index of `id` in the backing vector, if pending.
    fn find_index(&self, id: TimerId) -> (r: Option<usize>)
        ensures
            match r {
                Some(i) => i < self.timers@.len() && self.timers@[i as int].0 == id,
                None => forall|i: int|
                    0 <= i < self.timers@.len() ==> (#[trigger] self.timers@[i]).0 != id,
            },
    {
        let mut i: usize = 0;
        while i < self.timers.len()
            invariant
                i <= self.timers@.len(),
                forall|j: int| 0 <= j < i ==> (#[trigger] self.timers@[j]).0 != id,
            decreases self.timers@.len() - i,
        {
            if self.timers[i].0 == id {
                return Some(i);
            }
            i = i + 1;
        }
        None
    }

    /// How many timers are pending.
    pub fn len(&self) -> (r: usize)
        requires
            self.wf(),
        ensures
            r == self@.dom().len(),
    {
        proof {
            lemma_assoc_map_len(self.timers@);
        }
        self.timers.len()
    }

    /// The deadline pending for `id`, if any.
    pub fn deadline_of(&self, id: TimerId) -> (r: Option<Instant>)
        requires
            self.wf(),
        ensures
            r == (if self@.contains_key(id) {
                Some(self@[id])
            } else {
                None::<Instant>
            }),
    {
        proof {
            lemma_assoc_map_dom(self.timers@, id);
        }
        match self.find_index(id) {
            Some(i) => {
                proof {
                    lemma_assoc_map_index(self.timers@, i as int);
                }
                Some(self.timers[i].1)
            },
            None => None,
        }
    }

    /// Arrange for `id` to fire `delay_ms` after `now`, replacing any
    /// pending deadline for the same id, which is returned.
    pub fn schedule_timer(&mut self, now: Instant, delay_ms: u64, id: TimerId) -> (r: Option<
        Instant,
    >)
        requires
            old(self).wf(),
            now.millis + delay_ms <= u64::MAX,
        ensures
            final(self).wf(),
            final(self)@ == old(self)@.insert(
                id,
                Instant { millis: (now.millis + delay_ms) as u64 },
            ),
            r == (if old(self)@.contains_key(id) {
                Some(old(self)@[id])
            } else {
                None::<Instant>
            }),
    {
        let deadline = Instant { millis: now.millis + delay_ms };
        proof {
            lemma_assoc_map_dom(self.timers@, id);
        }
        match self.find_index(id) {
            Some(i) => {
                proof {
                    lemma_assoc_map_index(self.timers@, i as int);
                    lemma_assoc_map_update(self.timers@, i as int, deadline);
                }
                let prior = self.timers[i].1;
                self.timers.set(i, (id, deadline));
                Some(prior)
            },
            None => {
                proof {
                    lemma_assoc_map_push(self.timers@, id, deadline);
                }
                self.timers.push((id, deadline));
                None
            },
        }
    }

    /// Retire `id`, returning the deadline it was pending for, if any.
    pub fn cancel_timer(&mut self, id: TimerId) -> (r: Option<Instant>)
        requires
            old(self).wf(),
        ensures
            final(self).wf(),
            final(self)@ == old(self)@.remove(id),
            r == (if old(self)@.contains_key(id) {
                Some(old(self)@[id])
            } else {
                None::<Instant>
            }),
    {
        proof {
            lemma_assoc_map_dom(self.timers@, id);
        }
        match self.find_index(id) {
            Some(i) => {
                proof {
                    lemma_assoc_map_index(self.timers@, i as int);
                    lemma_assoc_map_remove(self.timers@, i as int);
                }
                let (_, prior) = self.timers.remove(i);
                Some(prior)
            },
            None => {
                proof {
                    assert(self@.remove(id) =~= self@);
                }
                None
            },
        }
    }

    /// The pending timer with the earliest deadline, if any. Ties are broken
    /// arbitrarily.
    pub fn earliest(&self) -> (r: Option<(TimerId, Instant)>)
        requires
            self.wf(),
        ensures
            match r {
                Some(p) => self@.contains_key(p.0) && self@[p.0] == p.1 && forall|id: TimerId|
                    self@.contains_key(id) ==> p.1.millis <= (#[trigger] self@[id]).millis,
                None => self@ == Map::<TimerId, Instant>::empty(),
            },
    {
        if self.timers.len() == 0 {
            proof {
                assert(self@ =~= Map::<TimerId, Instant>::empty());
            }
            return None;
        }
        let mut best: usize = 0;
        let mut i: usize = 1;
        while i < self.timers.len()
            invariant
                best < i <= self.timers@.len(),
                forall|j: int|
                    0 <= j < i ==> self.timers@[best as int].1.millis <= (#[trigger] self.timers@[j]).1.millis,
            decreases self.timers@.len() - i,
        {
            if self.timers[i].1.millis < self.timers[best].1.millis {
                best = i;
            }
            i = i + 1;
        }
        proof {
            lemma_assoc_map_index(self.timers@, best as int);
            assert forall|id: TimerId| self@.contains_key(id) implies self.timers@[best as int].1.millis
                <= (#[trigger] self@[id]).millis by {
                lemma_assoc_map_dom(self.timers@, id);
                let j = choose|j: int| 0 <= j < self.timers@.len() && (#[trigger] self.timers@[j]).0 == id;
                lemma_assoc_map_index(self.timers@, j);
            }
        }
        Some(self.timers[best])
    }
}

} // verus!
