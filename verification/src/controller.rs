//! The abort registry with its clock.
use std::time::{Duration, Instant};

use vstd::prelude::*;

use crate::clock::nanos_since;
use crate::reason::AbortReason;
use crate::registry::Registry;
use crate::state::{AbortInfo, State};
use crate::stats::Stats;

verus! {

/// Persistent, prefix-aware abort registry.
///
/// * [`abort`](InterruptController::abort) registers an id as a **prefix**, so that it also
///   interrupts the requests that were derived from it (`{rid}_0`, `{rid}_1`, ...).
/// * [`abort_all`](InterruptController::abort_all) records an epoch. Every request whose admission
///   epoch is older is interrupted; requests admitted afterwards are untouched.
/// * Entries survive until [`ack`](InterruptController::ack) or until their time to live is over,
///   so an abort that arrives before or around its request is not lost.
pub struct InterruptController {
    registry: Registry,
    /// The moment from which the clock counts.
    origin: Instant,
}

impl View for InterruptController {
    type V = State;

    closed spec fn view(&self) -> State {
        self.registry@
    }
}

impl InterruptController {
    /// The registry is in order.
    #[verifier::type_invariant]
    spec fn in_order(self) -> bool {
        self.registry.wf()
    }

    /// The moment from which the clock counts.
    pub closed spec fn origin(self) -> Instant {
        self.origin
    }

    /// Whether `reading` is what the clock of this controller can read.
    pub open spec fn has_read(self, reading: u128) -> bool {
        crate::clock::clock_read(self.origin(), reading)
    }

    /// What the clock of this controller reads are times that pass from its origin.
    pub proof fn law_clock_counts_from_origin(self, reading: u128)
        ensures
            self.has_read(reading) <==> exists|passed: Duration|
                {
                    &&& #[trigger] call_ensures(Instant::elapsed, (&self.origin(),), passed)
                    &&& reading == crate::clock::duration_nanos(passed)
                    &&& reading <= u64::MAX * 1_000_000_000 + 999_999_999
                },
    {
    }

    /// A controller that keeps entries for `ttl`.
    pub fn new(ttl: Duration) -> (controller: InterruptController)
        ensures
            controller@ == State::fresh(crate::clock::duration_nanos(ttl)),
    {
        InterruptController::with_ttl_nanos(ttl.as_nanos())
    }

    /// A controller that keeps entries for `ttl` nanoseconds.
    pub fn with_ttl_nanos(ttl: u128) -> (controller: InterruptController)
        ensures
            controller@ == State::fresh(ttl),
    {
        InterruptController { registry: Registry::new(ttl), origin: Instant::now() }
    }

    /// Takes the registry out, and leaves an empty one in its place. The invariant holds of a
    /// controller at every step, so an operation works on the registry outside of it and puts it
    /// back when done.
    fn take(&mut self) -> (registry: Registry)
        ensures
            registry.wf(),
            registry@ == old(self)@,
            registry@.wf(),
            final(self).origin() == old(self).origin(),
    {
        let mut registry = Registry::new(0);
        proof {
            use_type_invariant(&*self);
        }
        std::mem::swap(&mut registry, &mut self.registry);
        proof {
            registry.lemma_wf();
        }
        registry
    }

    /// Admits a request: hands out its admission epoch, to be kept with the request.
    pub fn admit_request(&mut self) -> (epoch: u64)
        ensures
            old(self)@.wf(),
            epoch == old(self)@.next_epoch(),
            final(self)@ == old(self)@.after_admit(),
            final(self).origin() == old(self).origin(),
    {
        let mut registry = self.take();
        let epoch: u64 = registry.admit_request();
        self.registry = registry;
        epoch
    }

    /// Registers an abort of `rid` and of all ids that start with it, at the clock's present
    /// reading. Where the id is registered already, its entry stays as it is and the answer is the
    /// epoch of that registration. An empty id aborts all requests. Every so many registrations
    /// the entries that are too old are dropped first.
    pub fn abort(&mut self, rid: &str, reason: AbortReason) -> (epoch: u64)
        ensures
            old(self)@.wf(),
            exists|reading: u128|
                {
                    &&& old(self).has_read(reading)
                    &&& epoch == old(self)@.abort_epoch(rid@, reading)
                    &&& final(self)@ == #[trigger] old(self)@.after_abort(rid@, reason, reading)
                },
            final(self).origin() == old(self).origin(),
    {
        let reading: u128 = nanos_since(&self.origin);
        self.abort_at(rid, reason, reading)
    }

    /// Registers an abort as [`abort`](InterruptController::abort) does, when the clock reads
    /// `reading`.
    pub fn abort_at(&mut self, rid: &str, reason: AbortReason, reading: u128) -> (epoch: u64)
        ensures
            old(self)@.wf(),
            epoch == old(self)@.abort_epoch(rid@, reading),
            final(self)@ == old(self)@.after_abort(rid@, reason, reading),
            final(self).origin() == old(self).origin(),
    {
        let mut registry = self.take();
        let epoch: u64 = registry.abort(rid, reason, reading);
        self.registry = registry;
        epoch
    }

    /// Interrupts every request admitted before this call.
    pub fn abort_all(&mut self, reason: AbortReason) -> (epoch: u64)
        ensures
            old(self)@.wf(),
            epoch == old(self)@.next_epoch(),
            final(self)@ == old(self)@.after_abort_all(reason),
            final(self).origin() == old(self).origin(),
    {
        let mut registry = self.take();
        let epoch: u64 = registry.abort_all(reason);
        self.registry = registry;
        epoch
    }

    /// The abort that the request `rid`, admitted at `admitted_epoch`, matches. Counts a hit where
    /// there is one.
    pub fn check(&mut self, rid: &str, admitted_epoch: u64) -> (info: Option<AbortInfo>)
        ensures
            old(self)@.wf(),
            crate::state::told(info) == old(self)@.answer(rid@, admitted_epoch),
            info matches Some(i) ==> if old(self)@.precedes_abort_all(admitted_epoch) {
                i.key@.len() == 0
            } else {
                crate::state::shortest_match(old(self)@.entries, rid@, i.key@)
            },
            final(self)@ == old(self)@.after_check(rid@, admitted_epoch),
            final(self)@.entries.dom() == old(self)@.entries.dom(),
            final(self).origin() == old(self).origin(),
    {
        let mut registry = self.take();
        proof {
            crate::laws::law_check_keeps_aborts(old(self)@, rid@, admitted_epoch);
            crate::laws::law_answer_is_true(old(self)@, rid@, admitted_epoch);
        }
        let info = registry.check(rid, admitted_epoch);
        self.registry = registry;
        info
    }

    /// Whether the request `rid`, admitted at `admitted_epoch`, is interrupted. Counts a hit where
    /// it is.
    pub fn should_interrupt(&mut self, rid: &str, admitted_epoch: u64) -> (interrupted: bool)
        ensures
            old(self)@.wf(),
            interrupted == old(self)@.interrupts(rid@, admitted_epoch),
            final(self)@ == old(self)@.after_check(rid@, admitted_epoch),
            final(self)@.entries.dom() == old(self)@.entries.dom(),
            final(self).origin() == old(self).origin(),
    {
        proof {
            crate::laws::law_check_keeps_aborts(old(self)@, rid@, admitted_epoch);
        }
        let mut registry = self.take();
        let interrupted: bool = registry.should_interrupt(rid, admitted_epoch);
        self.registry = registry;
        interrupted
    }

    /// Batch sweep: the ids of those of `reqs`, pairs of an id and an admission epoch, that must be
    /// interrupted, in their order. Counts a hit for each.
    pub fn filter_aborted(&mut self, reqs: &[(&str, u64)]) -> (out: Vec<String>)
        ensures
            old(self)@.wf(),
            crate::state::texts(out@) == old(self)@.interrupted_of(
                crate::state::requests(reqs@),
            ),
            final(self)@ == old(self)@.after_checks(crate::state::requests(reqs@)),
            final(self)@.entries.dom() == old(self)@.entries.dom(),
            final(self).origin() == old(self).origin(),
    {
        proof {
            crate::laws::law_batch_keeps_aborts(old(self)@, crate::state::requests(reqs@));
        }
        let mut registry = self.take();
        let out = registry.filter_aborted(reqs);
        self.registry = registry;
        out
    }

    /// Whether a check of `rid` at `admitted_epoch` would find it interrupted. Counts nothing.
    pub fn would_interrupt(&self, rid: &str, admitted_epoch: u64) -> (interrupted: bool)
        ensures
            self@.wf(),
            interrupted == self@.interrupts(rid@, admitted_epoch),
    {
        proof {
            use_type_invariant(self);
            self.registry.lemma_wf();
        }
        self.registry.would_interrupt(rid, admitted_epoch)
    }

    /// Whether a batch sweep of `reqs` would find any request to interrupt. Counts nothing.
    pub fn would_interrupt_any(&self, reqs: &[(&str, u64)]) -> (any: bool)
        ensures
            self@.wf(),
            any == (self@.interrupted_of(crate::state::requests(reqs@)).len() > 0),
    {
        proof {
            use_type_invariant(self);
            self.registry.lemma_wf();
        }
        self.registry.would_interrupt_any(reqs)
    }

    /// Drops the entry of `rid`, whose request has been cleaned up. Only the exact key goes: a
    /// shorter prefix stays until its time is over, since other requests with it may still run.
    /// Says whether there was an entry.
    pub fn ack(&mut self, rid: &str) -> (found: bool)
        ensures
            old(self)@.wf(),
            found == old(self)@.entries.contains_key(rid@),
            final(self)@ == old(self)@.after_ack(rid@),
            final(self).origin() == old(self).origin(),
    {
        let mut registry = self.take();
        let found: bool = registry.ack(rid);
        self.registry = registry;
        found
    }

    /// Drops the entries that are older than the time to live at the clock's present reading, and
    /// says how many there were.
    pub fn gc(&mut self) -> (removed: usize)
        ensures
            old(self)@.wf(),
            exists|reading: u128|
                {
                    &&& old(self).has_read(reading)
                    &&& removed == old(self)@.after_reading(reading).expired_keys().len()
                    &&& final(self)@ == #[trigger] old(self)@.after_gc(reading)
                },
            final(self).origin() == old(self).origin(),
    {
        let reading: u128 = nanos_since(&self.origin);
        self.gc_at(reading)
    }

    /// Drops the entries that are older than the time to live when the clock reads `reading`, and
    /// says how many there were.
    pub fn gc_at(&mut self, reading: u128) -> (removed: usize)
        ensures
            old(self)@.wf(),
            removed == old(self)@.after_reading(reading).expired_keys().len(),
            final(self)@ == old(self)@.after_gc(reading),
            final(self).origin() == old(self).origin(),
    {
        let mut registry = self.take();
        let removed: usize = registry.gc(reading);
        self.registry = registry;
        removed
    }

    /// The moment from which the clock counts.
    pub(crate) fn clock_origin(&self) -> (origin: Instant)
        ensures
            origin == self.origin(),
        opens_invariants none
    {
        self.origin
    }

    /// The number of entries.
    pub fn len(&self) -> (n: usize)
        ensures
            self@.wf(),
            n == self@.entries.len(),
    {
        proof {
            use_type_invariant(self);
            self.registry.lemma_wf();
        }
        self.registry.len()
    }

    /// Whether there is no entry.
    pub fn is_empty(&self) -> (empty: bool)
        ensures
            self@.wf(),
            empty == (self@.entries.len() == 0),
    {
        proof {
            use_type_invariant(self);
            self.registry.lemma_wf();
        }
        self.registry.is_empty()
    }

    /// The counters.
    pub fn stats(&self) -> (stats: Stats)
        ensures
            self@.wf(),
            stats == self@.stats(),
    {
        proof {
            use_type_invariant(self);
            self.registry.lemma_wf();
        }
        self.registry.stats()
    }
}

} // verus!
