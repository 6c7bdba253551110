//! The abort registry shared between threads, behind a reader-writer lock.
//!
//! The lock puts the operations of all threads in one order, and each of them works on the state
//! that the operations before it have left. That order is the history of the shared registry.
//! Where in it a call comes, the other threads decide. So the contracts here say that the call has
//! a place in the history, what it makes of the state there, and what it answers from that state.
//!
//! A call adds no other operation to the history than its own: each method gives, after
//! `opens_invariants`, the number of the operation that its body may perform, and Verus refuses a
//! body that performs any other, itself or through another method. What is not claimed is an order
//! between two calls, not even of one caller, nor how often a call performs its operation.
use std::time::{Duration, Instant};

use parking_lot::{lock_api, RawRwLock};
use vstd::prelude::*;

use crate::clock::nanos_since;
use crate::controller::InterruptController;
use crate::reason::AbortReason;
use crate::state::{AbortInfo, Op, State};
use crate::stats::Stats;

verus! {

/// The raw lock of `parking_lot`.
#[verifier::external_type_specification]
#[verifier::external_body]
pub struct ExRawRwLock(RawRwLock);

/// The reader-writer lock of `lock_api`, of which that of `parking_lot` is an instance.
#[verifier::external_type_specification]
#[verifier::external_body]
#[verifier::reject_recursive_types(R)]
#[verifier::reject_recursive_types(T)]
pub struct ExRwLock<R, T: ?Sized>(lock_api::RwLock<R, T>);

/// The state of the controller that a lock was made around.
pub uninterp spec fn made_around(
    lock: lock_api::RwLock<RawRwLock, InterruptController>,
) -> State;

/// The operations that write accesses to a lock perform over its life, in their order.
pub uninterp spec fn history(
    lock: lock_api::RwLock<RawRwLock, InterruptController>,
) -> Seq<Op>;

/// Where in the history of a lock read accesses take place: each after how many write accesses.
pub uninterp spec fn reads(lock: lock_api::RwLock<RawRwLock, InterruptController>) -> Set<nat>;

/// `RwLock::new`: an unlocked lock around `controller`. The contract names the state that the lock
/// starts with; what the lock holds later changes behind shared references and is not a property
/// of the lock.
#[verifier::external_body]
fn new_lock(controller: InterruptController) -> (lock: lock_api::RwLock<
    RawRwLock,
    InterruptController,
>)
    ensures
        made_around(lock) == controller@,
    opens_invariants none
{
    lock_api::RwLock::new(controller)
}

/// An operation that a caller asks for, to be performed on the controller behind a lock.
trait Step: Sized {
    /// What is answered.
    type Out;

    /// The operation that is asked for. What the clock reads when it is performed is open.
    spec fn asked(&self) -> Op;

    /// Whether performing `op` in the state `before` answers `out`.
    spec fn gives(&self, before: State, op: Op, out: Self::Out) -> bool;

    /// Performs the operation that is asked for.
    fn perform(self, c: &mut InterruptController) -> (out: Self::Out)
        ensures
            exists|op: Op|
                {
                    &&& crate::calls::same_call(op, self.asked())
                    &&& self.gives(old(c)@, op, out)
                    &&& final(c)@ == #[trigger] old(c)@.after(op)
                },
    ;
}

/// Whether a write access to a lock can have performed `step` and answered `out`, where `start` is
/// the state that the lock was made around and `history` are the operations performed on it.
spec fn stepped<S: Step>(start: State, history: Seq<Op>, step: S, out: S::Out) -> bool {
    exists|n: nat|
        {
            &&& n < history.len()
            &&& crate::calls::same_call(history[n as int], step.asked())
            &&& step.gives(#[trigger] start.at(history, n), history[n as int], out)
        }
}

/// Whether a read access to a lock can have returned `result` from `look`, where `start` is the
/// state that the lock was made around, `history` are the operations performed on it, and `reads`
/// says where among them the read accesses take place.
pub open spec fn looked<T, F: FnOnce(&InterruptController) -> T>(
    start: State,
    history: Seq<Op>,
    reads: Set<nat>,
    look: F,
    result: T,
) -> bool {
    exists|c: &InterruptController, n: nat|
        {
            &&& #[trigger] look.ensures((c,), result)
            &&& n <= history.len()
            &&& reads.contains(n)
            &&& (*c)@ == #[trigger] start.at(history, n)
        }
}

/// `RwLock::write`: waits for exclusive access, performs `step` on the guarded value once, gives
/// the access back when `step` is done, and returns what it answered. Since the access is
/// exclusive, the write accesses come one after the other. Since every `step` performs the
/// operation that it asks for, this makes a history of operations: `step` finds what those before
/// it have left, and leaves what those after it find. Where in the history it comes is left unsaid:
/// other threads decide it. The lock is not reentrant, so `step` must not use it. The number of the
/// operation stands in the header, so that only a function that lists it can make this call.
#[verifier::external_body]
fn with_write<S: Step>(
    lock: &lock_api::RwLock<RawRwLock, InterruptController>,
    step: S,
) -> (out: S::Out)
    ensures
        stepped(made_around(*lock), history(*lock), step, out),
    opens_invariants [crate::calls::mark(step.asked())]
{
    step.perform(&mut lock.write())
}

/// `RwLock::read`: waits for shared access, hands the guarded value to `look` once, gives the
/// access back when `look` is done, and returns what `look` returned. No write access takes place
/// meanwhile, so `look` finds what some number of the write accesses have left. How many is left
/// unsaid: other threads decide it. The lock is not reentrant, so `look` must not use it.
#[verifier::external_body]
fn with_read<T, F: FnOnce(&InterruptController) -> T>(
    lock: &lock_api::RwLock<RawRwLock, InterruptController>,
    look: F,
) -> (result: T)
    requires
        forall|c: &InterruptController| look.requires((c,)),
    ensures
        looked(made_around(*lock), history(*lock), reads(*lock), look, result),
    opens_invariants none
{
    look(&lock.read())
}

/// The admission of a request.
struct Admit;

impl Step for Admit {
    type Out = u64;

    spec fn asked(&self) -> Op {
        Op::AdmitRequest
    }

    spec fn gives(&self, before: State, op: Op, out: u64) -> bool {
        before.wf() && out == before.next_epoch()
    }

    fn perform(self, c: &mut InterruptController) -> (out: u64) {
        let epoch: u64 = c.admit_request();
        assert(c@ == old(c)@.after(self.asked()));
        epoch
    }
}

/// An abort of a single id, at the present reading of a clock that counts from `origin`.
struct Abort<'a> {
    rid: &'a str,
    reason: AbortReason,
    origin: &'a Instant,
}

impl<'a> Step for Abort<'a> {
    type Out = u64;

    spec fn asked(&self) -> Op {
        Op::Abort { rid: self.rid@, reason: self.reason, reading: 0 }
    }

    spec fn gives(&self, before: State, op: Op, out: u64) -> bool {
        op matches Op::Abort { rid, reason, reading } && {
            &&& before.wf()
            &&& crate::clock::clock_read(*self.origin, reading)
            &&& out == before.abort_epoch(rid, reading)
        }
    }

    fn perform(self, c: &mut InterruptController) -> (out: u64) {
        let reading: u128 = nanos_since(self.origin);
        let epoch: u64 = c.abort_at(self.rid, self.reason, reading);
        assert(c@ == old(c)@.after(
            Op::Abort { rid: self.rid@, reason: self.reason, reading },
        ));
        epoch
    }
}

/// An abort of all requests.
struct AbortAll {
    reason: AbortReason,
}

impl Step for AbortAll {
    type Out = u64;

    spec fn asked(&self) -> Op {
        Op::AbortAll { reason: self.reason }
    }

    spec fn gives(&self, before: State, op: Op, out: u64) -> bool {
        before.wf() && out == before.next_epoch()
    }

    fn perform(self, c: &mut InterruptController) -> (out: u64) {
        let epoch: u64 = c.abort_all(self.reason);
        assert(c@ == old(c)@.after(self.asked()));
        epoch
    }
}

/// A check of a request.
struct Check<'a> {
    rid: &'a str,
    admitted: u64,
}

impl<'a> Step for Check<'a> {
    type Out = Option<AbortInfo>;

    spec fn asked(&self) -> Op {
        Op::Check { rid: self.rid@, admitted: self.admitted }
    }

    spec fn gives(&self, before: State, op: Op, out: Option<AbortInfo>) -> bool {
        before.wf() && crate::state::told(out) == before.answer(self.rid@, self.admitted)
    }

    fn perform(self, c: &mut InterruptController) -> (out: Option<AbortInfo>) {
        let info = c.check(self.rid, self.admitted);
        assert(c@ == old(c)@.after(self.asked()));
        info
    }
}

/// A batch sweep.
struct CheckBatch<'a> {
    reqs: &'a [(&'a str, u64)],
}

impl<'a> Step for CheckBatch<'a> {
    type Out = Vec<String>;

    spec fn asked(&self) -> Op {
        Op::CheckBatch { reqs: crate::state::requests(self.reqs@) }
    }

    spec fn gives(&self, before: State, op: Op, out: Vec<String>) -> bool {
        before.wf() && crate::state::texts(out@) == before.interrupted_of(
            crate::state::requests(self.reqs@),
        )
    }

    fn perform(self, c: &mut InterruptController) -> (out: Vec<String>) {
        let out = c.filter_aborted(self.reqs);
        assert(c@ == old(c)@.after(self.asked()));
        out
    }
}

/// An acknowledgement.
struct Ack<'a> {
    rid: &'a str,
}

impl<'a> Step for Ack<'a> {
    type Out = bool;

    spec fn asked(&self) -> Op {
        Op::Ack { rid: self.rid@ }
    }

    spec fn gives(&self, before: State, op: Op, out: bool) -> bool {
        before.wf() && out == before.entries.contains_key(self.rid@)
    }

    fn perform(self, c: &mut InterruptController) -> (out: bool) {
        let found: bool = c.ack(self.rid);
        assert(c@ == old(c)@.after(self.asked()));
        found
    }
}

/// A sweep, at the present reading of a clock that counts from `origin`.
struct Gc<'a> {
    origin: &'a Instant,
}

impl<'a> Step for Gc<'a> {
    type Out = usize;

    spec fn asked(&self) -> Op {
        Op::Gc { reading: 0 }
    }

    spec fn gives(&self, before: State, op: Op, out: usize) -> bool {
        op matches Op::Gc { reading } && {
            &&& before.wf()
            &&& crate::clock::clock_read(*self.origin, reading)
            &&& out == before.after_reading(reading).expired_keys().len()
        }
    }

    fn perform(self, c: &mut InterruptController) -> (out: usize) {
        let reading: u128 = nanos_since(self.origin);
        let removed: usize = c.gc_at(reading);
        assert(c@ == old(c)@.after(Op::Gc { reading }));
        removed
    }
}

/// An abort registry that threads share.
pub struct SharedInterruptController {
    lock: lock_api::RwLock<RawRwLock, InterruptController>,
    /// The moment from which the clock counts.
    origin: Instant,
}

impl SharedInterruptController {
    /// The state of the controller that was shared.
    pub closed spec fn shared(self) -> State {
        made_around(self.lock)
    }

    /// The operations performed on this controller over its life, in their order.
    pub closed spec fn history(self) -> Seq<Op> {
        history(self.lock)
    }

    /// The state that the first `n` operations of the history leave.
    pub open spec fn state_at(self, n: nat) -> State {
        self.shared().at(self.history(), n)
    }

    /// Whether an operation comes after the first `n` of the history, and leaves the state `after`.
    pub open spec fn performed(self, n: nat, after: State) -> bool {
        n < self.history().len() && self.state_at(n + 1) == after
    }

    /// Whether the state is looked at, and left as it is, after the first `n` operations of the
    /// history.
    pub closed spec fn observed(self, n: nat) -> bool {
        n <= self.history().len() && reads(self.lock).contains(n)
    }

    /// The moment from which the clock counts.
    pub closed spec fn origin(self) -> Instant {
        self.origin
    }

    /// Whether `reading` is what the clock of this controller can read.
    pub open spec fn has_read(self, reading: u128) -> bool {
        crate::clock::clock_read(self.origin(), reading)
    }

    /// The history is that of the lock, and the clock counts from the moment kept beside it.
    proof fn lemma_lock(&self)
        ensures
            self.shared() == made_around(self.lock),
            self.history() == history(self.lock),
            self.origin() == self.origin,
            forall|n: nat| #[trigger]
                self.observed(n) <==> n <= history(self.lock).len() && reads(self.lock).contains(n),
            forall|n: nat| #[trigger]
                made_around(self.lock).at(history(self.lock), n) == self.state_at(n),
            forall|n: nat|
                n < history(self.lock).len() ==> #[trigger] self.state_at(n + 1) == self.state_at(
                    n,
                ).after(history(self.lock)[n as int]),
            forall|reading: u128| #[trigger]
                crate::clock::clock_read(self.origin, reading) == self.has_read(reading),
    {
        assert forall|n: nat| n < history(self.lock).len() implies #[trigger] self.state_at(n + 1)
            == self.state_at(n).after(history(self.lock)[n as int]) by {
            assert(history(self.lock).take((n + 1) as int).drop_last() =~= history(self.lock).take(
                n as int,
            ));
        }
    }

    /// The history starts from the state that was shared, and each operation leaves what it makes
    /// of the state that those before it have left. Nothing is looked at beyond its end.
    pub proof fn law_operations_follow_each_other(self, n: nat, after: State)
        ensures
            self.state_at(0) == self.shared(),
            self.performed(n, after) <==> {
                &&& n < self.history().len()
                &&& after == self.state_at(n).after(self.history()[n as int])
            },
            self.observed(n) ==> n <= self.history().len(),
    {
        if n < self.history().len() {
            assert(self.history().take((n + 1) as int).drop_last() =~= self.history().take(
                n as int,
            ));
        }
    }

    /// What the clock of this controller reads are times that pass from its origin.
    pub proof fn law_clock_counts_from_origin(self, reading: u128)
        ensures
            self.has_read(reading) <==> exists|passed: Duration|
                {
                    &&& #[trigger] call_ensures(Instant::elapsed, (&self.origin(),), passed)
                    &&& reading == crate::clock::duration_nanos(passed)
                    &&& reading <= u64::MAX * 1_000_000_000 + 999_999_999
                },
    {
    }

    /// Shares `controller`.
    pub fn share(controller: InterruptController) -> (shared: SharedInterruptController)
        ensures
            shared.shared() == controller@,
            shared.origin() == controller.origin(),
        opens_invariants none
    {
        let origin = controller.clock_origin();
        SharedInterruptController { lock: new_lock(controller), origin }
    }

    /// A shared controller that keeps entries for `ttl`.
    pub fn new(ttl: Duration) -> (shared: SharedInterruptController)
        ensures
            shared.shared() == State::fresh(crate::clock::duration_nanos(ttl)),
    {
        SharedInterruptController::share(InterruptController::new(ttl))
    }

    /// Admits a request: hands out its admission epoch, to be kept with the request.
    pub fn admit_request(&self) -> (epoch: u64)
        ensures
            exists|n: nat|
                {
                    let s = #[trigger] self.state_at(n);
                    &&& s.wf()
                    &&& epoch == s.next_epoch()
                    &&& self.performed(n, s.after_admit())
                    &&& self.history()[n as int] == Op::AdmitRequest
                },
        opens_invariants [crate::calls::mark(Op::AdmitRequest)]
    {
        proof {
            self.lemma_lock();
        }
        with_write(&self.lock, Admit)
    }

    /// Registers an abort of `rid` and of all ids that start with it, at the clock's present
    /// reading.
    pub fn abort(&self, rid: &str, reason: AbortReason) -> (epoch: u64)
        ensures
            exists|n: nat, reading: u128|
                {
                    let s = #[trigger] self.state_at(n);
                    &&& s.wf()
                    &&& #[trigger] self.has_read(reading)
                    &&& epoch == s.abort_epoch(rid@, reading)
                    &&& self.performed(n, s.after_abort(rid@, reason, reading))
                    &&& self.history()[n as int] == (Op::Abort { rid: rid@, reason, reading })
                },
        opens_invariants [crate::calls::mark((Op::Abort { rid: rid@, reason, reading: 0 }))]
    {
        proof {
            self.lemma_lock();
        }
        with_write(&self.lock, Abort { rid, reason, origin: &self.origin })
    }

    /// Interrupts every request admitted before this call.
    pub fn abort_all(&self, reason: AbortReason) -> (epoch: u64)
        ensures
            exists|n: nat|
                {
                    let s = #[trigger] self.state_at(n);
                    &&& s.wf()
                    &&& epoch == s.next_epoch()
                    &&& self.performed(n, s.after_abort_all(reason))
                    &&& self.history()[n as int] == (Op::AbortAll { reason })
                },
        opens_invariants [crate::calls::mark((Op::AbortAll { reason }))]
    {
        proof {
            self.lemma_lock();
        }
        with_write(&self.lock, AbortAll { reason })
    }

    /// The abort that the request `rid`, admitted at `admitted_epoch`, matches. Counts a hit where
    /// there is one. Checks of requests that are not interrupted do not wait for each other.
    pub fn check(&self, rid: &str, admitted_epoch: u64) -> (info: Option<AbortInfo>)
        ensures
            exists|n: nat|
                {
                    let s = #[trigger] self.state_at(n);
                    &&& s.wf()
                    &&& crate::state::told(info) == s.answer(rid@, admitted_epoch)
                    &&& (self.performed(n, s.after_check(rid@, admitted_epoch))
                        && self.history()[n as int] == (Op::Check {
                        rid: rid@,
                        admitted: admitted_epoch,
                    }))
                        || (info is None && self.observed(n))
                },
        opens_invariants [crate::calls::mark((Op::Check { rid: rid@, admitted: admitted_epoch }))]
    {
        proof {
            self.lemma_lock();
        }
        let look = |c: &InterruptController| -> (interrupted: bool)
            ensures
                c@.wf(),
                interrupted == (c@.answer(rid@, admitted_epoch) is Some),
            { c.would_interrupt(rid, admitted_epoch) };
        if !with_read(&self.lock, look) {
            return None;
        }
        with_write(&self.lock, Check { rid, admitted: admitted_epoch })
    }

    /// Whether the request `rid`, admitted at `admitted_epoch`, is interrupted. Counts a hit where
    /// it is.
    pub fn should_interrupt(&self, rid: &str, admitted_epoch: u64) -> (interrupted: bool)
        ensures
            exists|n: nat|
                {
                    let s = #[trigger] self.state_at(n);
                    &&& s.wf()
                    &&& interrupted == s.interrupts(rid@, admitted_epoch)
                    &&& (self.performed(n, s.after_check(rid@, admitted_epoch))
                        && self.history()[n as int] == (Op::Check {
                        rid: rid@,
                        admitted: admitted_epoch,
                    }))
                        || (!interrupted && self.observed(n))
                },
        opens_invariants [crate::calls::mark((Op::Check { rid: rid@, admitted: admitted_epoch }))]
    {
        match self.check(rid, admitted_epoch) {
            Some(_) => true,
            None => false,
        }
    }

    /// Batch sweep: the ids of those of `reqs`, pairs of an id and an admission epoch, that must be
    /// interrupted, in their order. Counts a hit for each. The whole batch is answered from one
    /// state of the registry. Sweeps that find nothing do not wait for each other.
    pub fn filter_aborted(&self, reqs: &[(&str, u64)]) -> (out: Vec<String>)
        ensures
            exists|n: nat|
                {
                    let batch = crate::state::requests(reqs@);
                    let s = #[trigger] self.state_at(n);
                    &&& s.wf()
                    &&& crate::state::texts(out@) == s.interrupted_of(batch)
                    &&& (self.performed(n, s.after_checks(batch)) && self.history()[n as int]
                        == (Op::CheckBatch { reqs: batch })) || (out@.len() == 0
                        && self.observed(n))
                },
        opens_invariants [
            crate::calls::mark((Op::CheckBatch { reqs: crate::state::requests(reqs@) })),
        ]
    {
        let ghost batch = crate::state::requests(reqs@);
        proof {
            self.lemma_lock();
        }
        let look = |c: &InterruptController| -> (found: (bool, Vec<String>))
            ensures
                c@.wf(),
                found.0 == (c@.interrupted_of(batch).len() > 0),
                found.1@.len() == 0,
            { (c.would_interrupt_any(reqs), Vec::new()) };
        let (any, nothing) = with_read(&self.lock, look);
        if !any {
            assert forall|s: State| (#[trigger] s.interrupted_of(batch)).len() == 0 implies
                crate::state::texts(nothing@) == s.interrupted_of(batch) by {
                assert(crate::state::texts(nothing@) =~= s.interrupted_of(batch));
            }
            return nothing;
        }
        with_write(&self.lock, CheckBatch { reqs })
    }

    /// Drops the entry of `rid`, whose request has been cleaned up. Says whether there was one.
    pub fn ack(&self, rid: &str) -> (found: bool)
        ensures
            exists|n: nat|
                {
                    let s = #[trigger] self.state_at(n);
                    &&& s.wf()
                    &&& found == s.entries.contains_key(rid@)
                    &&& self.performed(n, s.after_ack(rid@))
                    &&& self.history()[n as int] == (Op::Ack { rid: rid@ })
                },
        opens_invariants [crate::calls::mark((Op::Ack { rid: rid@ }))]
    {
        proof {
            self.lemma_lock();
        }
        with_write(&self.lock, Ack { rid })
    }

    /// Drops the entries that are older than the time to live at the clock's present reading, and
    /// says how many there were.
    pub fn gc(&self) -> (removed: usize)
        ensures
            exists|n: nat, reading: u128|
                {
                    let s = #[trigger] self.state_at(n);
                    &&& s.wf()
                    &&& #[trigger] self.has_read(reading)
                    &&& removed == s.after_reading(reading).expired_keys().len()
                    &&& self.performed(n, s.after_gc(reading))
                    &&& self.history()[n as int] == (Op::Gc { reading })
                },
        opens_invariants [crate::calls::mark((Op::Gc { reading: 0 }))]
    {
        proof {
            self.lemma_lock();
        }
        with_write(&self.lock, Gc { origin: &self.origin })
    }

    /// The number of entries.
    pub fn len(&self) -> (len: usize)
        ensures
            exists|n: nat|
                {
                    let s = #[trigger] self.state_at(n);
                    &&& s.wf()
                    &&& len == s.entries.len()
                    &&& self.observed(n)
                },
        opens_invariants none
    {
        let look = |c: &InterruptController| -> (n: usize)
            ensures
                c@.wf(),
                n == c@.entries.len(),
            { c.len() };
        proof {
            self.lemma_lock();
        }
        with_read(&self.lock, look)
    }

    /// Whether there is no entry.
    pub fn is_empty(&self) -> (empty: bool)
        ensures
            exists|n: nat|
                {
                    let s = #[trigger] self.state_at(n);
                    &&& s.wf()
                    &&& empty == (s.entries.len() == 0)
                    &&& self.observed(n)
                },
        opens_invariants none
    {
        self.len() == 0
    }

    /// The counters.
    pub fn stats(&self) -> (stats: Stats)
        ensures
            exists|n: nat|
                {
                    let s = #[trigger] self.state_at(n);
                    &&& s.wf()
                    &&& stats == s.stats()
                    &&& self.observed(n)
                },
        opens_invariants none
    {
        let look = |c: &InterruptController| -> (stats: Stats)
            ensures
                c@.wf(),
                stats == c@.stats(),
            { c.stats() };
        proof {
            self.lemma_lock();
        }
        with_read(&self.lock, look)
    }
}

} // verus!
