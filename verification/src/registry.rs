//! The registry as a sequential machine: every operation with the clock's reading as an argument.
use vstd::prelude::*;

use crate::inner::Inner;
use crate::reason::AbortReason;
use crate::state::{AbortInfo, Entry, State, GC_EVERY_OPS};
use crate::stats::Stats;

verus! {

/// The registered aborts, the epochs and the counters.
pub struct Registry {
    inner: Inner,
    live: usize,
    epoch: u64,
    abort_all_epoch: u64,
    abort_all_code: u8,
    ttl: u128,
    clock: u128,
    total_aborts: u64,
    total_hits: u64,
    total_acked: u64,
    total_expired: u64,
    ops_since_gc: u32,
}

impl View for Registry {
    type V = State;

    closed spec fn view(&self) -> State {
        State {
            entries: self.inner@,
            epoch: self.epoch,
            abort_all_epoch: self.abort_all_epoch,
            abort_all_code: self.abort_all_code,
            ttl: self.ttl,
            clock: self.clock,
            total_aborts: self.total_aborts,
            total_hits: self.total_hits,
            total_acked: self.total_acked,
            total_expired: self.total_expired,
            ops_since_gc: self.ops_since_gc,
        }
    }
}

impl Registry {
    /// The table is in order, the count of live entries is right, and the state is one that a
    /// registry can be in.
    pub closed spec fn wf(self) -> bool {
        &&& self.inner.wf()
        &&& self.live == self.inner@.len()
        &&& self@.wf()
    }

    /// A registry in order is in a state that a registry can be in.
    pub proof fn lemma_wf(self)
        requires
            self.wf(),
        ensures
            self@.wf(),
            self@.entries.len() <= usize::MAX,
    {
    }

    /// A registry that keeps entries for `ttl` nanoseconds.
    pub fn new(ttl: u128) -> (registry: Registry)
        ensures
            registry.wf(),
            registry@ == State::fresh(ttl),
    {
        Registry {
            inner: Inner::new(),
            live: 0,
            epoch: 0,
            abort_all_epoch: 0,
            abort_all_code: 0,
            ttl,
            clock: 0,
            total_aborts: 0,
            total_hits: 0,
            total_acked: 0,
            total_expired: 0,
            ops_since_gc: 0,
        }
    }

    /// Hands out the next epoch.
    fn next_epoch(&mut self) -> (epoch: u64)
        requires
            old(self).wf(),
        ensures
            final(self).wf(),
            epoch == old(self)@.next_epoch(),
            final(self)@ == old(self)@.after_admit(),
            final(self).inner == old(self).inner,
    {
        self.epoch = self.epoch.wrapping_add(1);
        self.epoch
    }

    /// Admits a request: hands out the epoch of its admission.
    pub fn admit_request(&mut self) -> (epoch: u64)
        requires
            old(self).wf(),
        ensures
            final(self).wf(),
            epoch == old(self)@.next_epoch(),
            final(self)@ == old(self)@.after_admit(),
    {
        self.next_epoch()
    }

    /// Takes note of a reading of the clock.
    fn read_clock(&mut self, reading: u128)
        requires
            old(self).wf(),
        ensures
            final(self).wf(),
            final(self)@ == old(self)@.after_reading(reading),
    {
        if self.clock < reading {
            self.clock = reading;
        }
    }

    /// Registers an abort of `rid` and of all ids that start with it, when the clock reads
    /// `reading`.
    pub fn abort(&mut self, rid: &str, reason: AbortReason, reading: u128) -> (epoch: u64)
        requires
            old(self).wf(),
        ensures
            final(self).wf(),
            epoch == old(self)@.abort_epoch(rid@, reading),
            final(self)@ == old(self)@.after_abort(rid@, reason, reading),
    {
        if rid.is_empty() {
            // An empty prefix matches every id.
            return self.abort_all(reason);
        }
        self.read_clock(reading);
        self.maybe_gc();
        if let Some(entry) = self.inner.get(rid) {
            return entry.epoch;
        }
        let ghost ticked = self@;
        let epoch: u64 = self.next_epoch();
        self.inner.insert(rid, Entry { reason, epoch, created: self.clock, hits: 0 });
        self.live = self.inner.len();
        self.total_aborts = self.total_aborts.wrapping_add(1);
        assert(self@ =~= ticked.after_register(rid@, reason));
        epoch
    }

    /// Interrupts every request admitted so far.
    pub fn abort_all(&mut self, reason: AbortReason) -> (epoch: u64)
        requires
            old(self).wf(),
        ensures
            final(self).wf(),
            epoch == old(self)@.next_epoch(),
            final(self)@ == old(self)@.after_abort_all(reason),
    {
        let epoch: u64 = self.next_epoch();
        self.abort_all_code = reason.to_u8();
        if self.abort_all_epoch < epoch {
            self.abort_all_epoch = epoch;
        }
        self.total_aborts = self.total_aborts.wrapping_add(1);
        epoch
    }

    /// Whether the request `rid`, admitted at `admitted_epoch`, is interrupted. Counts nothing.
    pub fn would_interrupt(&self, rid: &str, admitted_epoch: u64) -> (interrupted: bool)
        requires
            self.wf(),
        ensures
            interrupted == self@.interrupts(rid@, admitted_epoch),
    {
        if self.abort_all_epoch != 0 && admitted_epoch < self.abort_all_epoch {
            true
        } else {
            self.inner.covers(rid)
        }
    }

    /// The abort that the request `rid`, admitted at `admitted_epoch`, matches. Counts a hit where
    /// there is one.
    pub fn check(&mut self, rid: &str, admitted_epoch: u64) -> (info: Option<AbortInfo>)
        requires
            old(self).wf(),
        ensures
            final(self).wf(),
            crate::state::told(info) == old(self)@.answer(rid@, admitted_epoch),
            final(self)@ == old(self)@.after_check(rid@, admitted_epoch),
    {
        let all: u64 = self.abort_all_epoch;
        if all != 0 && admitted_epoch < all {
            self.total_hits = self.total_hits.wrapping_add(1);
            let reason = match AbortReason::from_u8(self.abort_all_code) {
                Some(reason) => reason,
                None => AbortReason::Shutdown,
            };
            return Some(AbortInfo { key: String::new(), reason, epoch: all });
        }
        // The registry is empty almost all of the time.
        if self.live == 0 {
            assert(self.inner@.dom() =~= Set::empty());
            return None;
        }
        let info = self.inner.hit_info(rid);
        if info.is_some() {
            proof {
                crate::state::lemma_matching_key(old(self).inner@, rid@);
                crate::state::lemma_hit_keeps_keys(old(self).inner@, old(self)@.key_for(rid@));
            }
            self.total_hits = self.total_hits.wrapping_add(1);
        }
        info
    }

    /// Whether the request `rid`, admitted at `admitted_epoch`, is interrupted. Counts a hit where
    /// it is.
    pub fn should_interrupt(&mut self, rid: &str, admitted_epoch: u64) -> (interrupted: bool)
        requires
            old(self).wf(),
        ensures
            final(self).wf(),
            interrupted == old(self)@.interrupts(rid@, admitted_epoch),
            final(self)@ == old(self)@.after_check(rid@, admitted_epoch),
    {
        self.check(rid, admitted_epoch).is_some()
    }

    /// Drops the entries that are older than the time to live when the clock reads `reading`, and
    /// says how many there were.
    pub fn gc(&mut self, reading: u128) -> (removed: usize)
        requires
            old(self).wf(),
        ensures
            final(self).wf(),
            removed == old(self)@.after_reading(reading).expired_keys().len(),
            final(self)@ == old(self)@.after_gc(reading),
    {
        self.read_clock(reading);
        self.sweep()
    }

    /// Drops the entries that are expired at the latest reading of the clock, and says how many
    /// there were.
    fn sweep(&mut self) -> (removed: usize)
        requires
            old(self).wf(),
        ensures
            final(self).wf(),
            removed == old(self)@.expired_keys().len(),
            final(self)@ == old(self)@.swept(),
    {
        if self.live == 0 {
            proof {
                assert(self.inner@.dom() =~= Set::empty());
                assert(self@.expired_keys() =~= Set::empty());
                assert(self@ =~= self@.swept());
            }
            return 0;
        }
        let removed: usize = self.inner.remove_outlived(self.clock, self.ttl);
        self.live = self.inner.len();
        proof {
            self.inner.lemma_finite();
        }
        self.total_expired = self.total_expired.wrapping_add(removed as u64);
        removed
    }

    /// Counts a registration, and drops expired entries every so many of them.
    fn maybe_gc(&mut self)
        requires
            old(self).wf(),
        ensures
            final(self).wf(),
            final(self)@ == old(self)@.ticked(),
    {
        if self.ops_since_gc + 1 >= GC_EVERY_OPS {
            self.ops_since_gc = 0;
            self.sweep();
        } else {
            self.ops_since_gc = self.ops_since_gc + 1;
        }
    }

    /// Drops the entry registered under exactly `rid`. Says whether there was one.
    pub fn ack(&mut self, rid: &str) -> (found: bool)
        requires
            old(self).wf(),
        ensures
            final(self).wf(),
            found == old(self)@.entries.contains_key(rid@),
            final(self)@ == old(self)@.after_ack(rid@),
    {
        if self.inner.remove(rid) {
            self.live = self.inner.len();
            self.total_acked = self.total_acked.wrapping_add(1);
            true
        } else {
            assert(self.inner@ =~= old(self).inner@);
            false
        }
    }

    /// The number of entries.
    pub fn len(&self) -> (n: usize)
        requires
            self.wf(),
        ensures
            n == self@.entries.len(),
    {
        self.live
    }

    /// Whether there is no entry.
    pub fn is_empty(&self) -> (empty: bool)
        requires
            self.wf(),
        ensures
            empty == (self@.entries.len() == 0),
    {
        self.len() == 0
    }

    /// The counters.
    pub fn stats(&self) -> (stats: Stats)
        requires
            self.wf(),
        ensures
            stats == self@.stats(),
    {
        Stats {
            live_entries: self.len() as u64,
            total_aborts: self.total_aborts,
            total_hits: self.total_hits,
            total_acked: self.total_acked,
            total_expired: self.total_expired,
            epoch: self.epoch,
            abort_all_epoch: self.abort_all_epoch,
        }
    }

    /// Whether any of `reqs`, pairs of an id and an admission epoch, is interrupted. Counts
    /// nothing. Where nothing has been aborted, none of `reqs` is looked at.
    pub fn would_interrupt_any(&self, reqs: &[(&str, u64)]) -> (any: bool)
        requires
            self.wf(),
        ensures
            any == (self@.interrupted_of(crate::state::requests(reqs@)).len() > 0),
    {
        if self.abort_all_epoch == 0 && self.live == 0 {
            proof {
                assert(self.inner@.dom() =~= Set::empty());
                crate::state::lemma_quiet_batch(self@, crate::state::requests(reqs@));
            }
            return false;
        }
        let n: usize = reqs.len();
        for i in 0..n
            invariant
                self.wf(),
                n == reqs@.len(),
                forall|j: int|
                    0 <= j < i ==> !self@.interrupts((#[trigger] reqs@[j]).0@, reqs@[j].1),
        {
            let (rid, admitted) = reqs[i];
            if self.would_interrupt(rid, admitted) {
                proof {
                    crate::state::lemma_busy_batch(
                        self@,
                        crate::state::requests(reqs@),
                        i as int,
                    );
                }
                return true;
            }
        }
        proof {
            crate::state::lemma_quiet_batch(self@, crate::state::requests(reqs@));
        }
        false
    }

    /// The ids of those of `reqs`, pairs of an id and an admission epoch, that are interrupted, in
    /// their order. Counts a hit for each.
    pub fn filter_aborted(&mut self, reqs: &[(&str, u64)]) -> (out: Vec<String>)
        requires
            old(self).wf(),
        ensures
            final(self).wf(),
            crate::state::texts(out@) == old(self)@.interrupted_of(
                crate::state::requests(reqs@),
            ),
            final(self)@ == old(self)@.after_checks(crate::state::requests(reqs@)),
    {
        let ghost start = self@;
        let ghost batch = crate::state::requests(reqs@);
        let all: u64 = self.abort_all_epoch;
        let mut out: Vec<String> = Vec::new();
        if all == 0 && self.live == 0 {
            proof {
                assert(self.inner@.dom() =~= Set::empty());
                crate::state::lemma_quiet_batch(start, batch);
                assert(crate::state::texts(out@) =~= Seq::empty());
            }
            return out;
        }
        let n: usize = reqs.len();
        assert(batch.take(0) =~= Seq::empty());
        assert(crate::state::texts(out@) =~= Seq::empty());
        for i in 0..n
            invariant
                self.wf(),
                n == reqs@.len(),
                batch == crate::state::requests(reqs@),
                all == start.abort_all_epoch,
                self@.abort_all_epoch == start.abort_all_epoch,
                self@.entries.dom() == start.entries.dom(),
                self@ == start.after_checks(batch.take(i as int)),
                crate::state::texts(out@) == start.interrupted_of(batch.take(i as int)),
        {
            let (rid, admitted) = reqs[i];
            let ghost before = self@;
            let ghost listed = out@;
            proof {
                assert(batch.take(i + 1).drop_last() =~= batch.take(i as int));
                assert(batch.take(i + 1).last() == (rid@, admitted));
                crate::state::lemma_covered_by_keys(before.entries, start.entries, rid@);
            }
            if all != 0 && admitted < all {
                self.total_hits = self.total_hits.wrapping_add(1);
                out.push(rid.to_owned());
                assert(crate::state::texts(out@) =~= crate::state::texts(listed).push(rid@));
            } else if self.inner.hit(rid) {
                proof {
                    crate::state::lemma_matching_key(before.entries, rid@);
                    crate::state::lemma_hit_keeps_keys(before.entries, before.key_for(rid@));
                }
                self.total_hits = self.total_hits.wrapping_add(1);
                out.push(rid.to_owned());
                assert(crate::state::texts(out@) =~= crate::state::texts(listed).push(rid@));
            }
            assert(self@ =~= before.after_check(rid@, admitted));
        }
        assert(batch.take(n as int) =~= batch);
        out
    }
}

} // verus!
