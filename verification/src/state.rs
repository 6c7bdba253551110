//! The mathematical model of the registry: its state and what each operation makes of it.
//!
//! Counters wrap around at the end of their range, as shared atomic counters do. Times are
//! readings of one monotonic clock, in nanoseconds.
use vstd::prelude::*;

use crate::reason::AbortReason;
use crate::stats::Stats;

verus! {

/// How many aborts are registered between two sweeps for expired entries.
pub const GC_EVERY_OPS: u32 = 256;

/// A registered abort.
#[derive(Clone, Copy)]
pub struct Entry {
    /// Why the requests are interrupted.
    pub reason: AbortReason,
    /// The epoch at which the abort was registered.
    pub epoch: u64,
    /// What the clock read when the abort was registered.
    pub created: u128,
    /// How many requests it has matched.
    pub hits: u32,
}

/// What an [`AbortInfo`] says.
pub struct InfoView {
    /// The registered key that matched; empty where the request was interrupted by an abort of
    /// all requests.
    pub key: Seq<char>,
    /// Why the request is interrupted.
    pub reason: AbortReason,
    /// The epoch of the abort.
    pub epoch: u64,
}

/// What a caller is told of the abort that a request matches.
#[derive(Clone, Debug, PartialEq, Eq)]
pub struct AbortInfo {
    /// The registered key that matched: the whole id of the request, or a prefix of it. Empty
    /// where the request was interrupted by an abort of all requests.
    pub key: String,
    /// Why the request is interrupted.
    pub reason: AbortReason,
    /// The epoch of the abort.
    pub epoch: u64,
}

impl View for AbortInfo {
    type V = InfoView;

    open spec fn view(&self) -> InfoView {
        InfoView { key: self.key@, reason: self.reason, epoch: self.epoch }
    }
}

/// What an optional answer tells.
pub open spec fn told(info: Option<AbortInfo>) -> Option<InfoView> {
    match info {
        Some(info) => Some(info@),
        None => None,
    }
}

/// The state of the registry.
#[verifier::ext_equal]
pub struct State {
    /// The registered aborts, by key.
    pub entries: Map<Seq<char>, Entry>,
    /// The epoch handed out last.
    pub epoch: u64,
    /// The epoch of the last abort of all requests, or 0 where there was none.
    pub abort_all_epoch: u64,
    /// The code of the reason of the last abort of all requests.
    pub abort_all_code: u8,
    /// How long an entry is kept, in nanoseconds.
    pub ttl: u128,
    /// The latest reading of the clock.
    pub clock: u128,
    /// The number of aborts so far.
    pub total_aborts: u64,
    /// The number of requests found interrupted so far.
    pub total_hits: u64,
    /// The number of entries acknowledged so far.
    pub total_acked: u64,
    /// The number of entries expired so far.
    pub total_expired: u64,
    /// The number of registrations since the last sweep.
    pub ops_since_gc: u32,
}

/// Whether `key` is the shortest of the registered keys that `rid` starts with.
pub open spec fn shortest_match(
    entries: Map<Seq<char>, Entry>,
    rid: Seq<char>,
    key: Seq<char>,
) -> bool {
    &&& entries.contains_key(key)
    &&& key.is_prefix_of(rid)
    &&& forall|k: Seq<char>| #[trigger]
        entries.contains_key(k) && k.is_prefix_of(rid) ==> key.len() <= k.len()
}

/// Whether some registered key is a prefix of `rid`.
pub open spec fn covered(entries: Map<Seq<char>, Entry>, rid: Seq<char>) -> bool {
    exists|k: Seq<char>| #[trigger] entries.contains_key(k) && k.is_prefix_of(rid)
}

/// The shortest registered key that is a prefix of `rid`.
pub open spec fn matching_key(entries: Map<Seq<char>, Entry>, rid: Seq<char>) -> Seq<char> {
    choose|k: Seq<char>| shortest_match(entries, rid, k)
}

/// At most one key is the shortest match.
pub proof fn lemma_shortest_unique(
    entries: Map<Seq<char>, Entry>,
    rid: Seq<char>,
    a: Seq<char>,
    b: Seq<char>,
)
    requires
        shortest_match(entries, rid, a),
        shortest_match(entries, rid, b),
    ensures
        a == b,
{
    assert(a.len() == b.len());
    assert(a =~= b);
}

/// A registered prefix of `rid` has a shortest match beside it.
proof fn lemma_shortest_exists(entries: Map<Seq<char>, Entry>, rid: Seq<char>, k: Seq<char>)
    requires
        entries.contains_key(k),
        k.is_prefix_of(rid),
    ensures
        exists|key: Seq<char>| shortest_match(entries, rid, key),
    decreases k.len(),
{
    if !shortest_match(entries, rid, k) {
        let shorter = choose|j: Seq<char>| #[trigger]
            entries.contains_key(j) && j.is_prefix_of(rid) && j.len() < k.len();
        lemma_shortest_exists(entries, rid, shorter);
    }
}

/// Where some registered key is a prefix of `rid`, the matching key is the shortest such key.
pub proof fn lemma_matching_key(entries: Map<Seq<char>, Entry>, rid: Seq<char>)
    requires
        covered(entries, rid),
    ensures
        shortest_match(entries, rid, matching_key(entries, rid)),
{
    let k = choose|k: Seq<char>| #[trigger] entries.contains_key(k) && k.is_prefix_of(rid);
    lemma_shortest_exists(entries, rid, k);
}

/// `entries` with one more hit counted for `key`.
pub open spec fn with_hit(entries: Map<Seq<char>, Entry>, key: Seq<char>) -> Map<Seq<char>, Entry> {
    entries.insert(key, Entry { hits: entries[key].hits.wrapping_add(1), ..entries[key] })
}

/// Counting a hit for a registered key keeps the keys.
pub proof fn lemma_hit_keeps_keys(entries: Map<Seq<char>, Entry>, key: Seq<char>)
    requires
        entries.contains_key(key),
    ensures
        with_hit(entries, key).dom() == entries.dom(),
{
    assert(with_hit(entries, key).dom() =~= entries.dom());
}

/// Which keys match is a matter of the registered keys alone.
pub proof fn lemma_covered_by_keys(
    a: Map<Seq<char>, Entry>,
    b: Map<Seq<char>, Entry>,
    rid: Seq<char>,
)
    requires
        a.dom() == b.dom(),
    ensures
        covered(a, rid) == covered(b, rid),
{
    if covered(a, rid) {
        let k = choose|k: Seq<char>| #[trigger] a.contains_key(k) && k.is_prefix_of(rid);
        assert(b.contains_key(k));
    }
    if covered(b, rid) {
        let k = choose|k: Seq<char>| #[trigger] b.contains_key(k) && k.is_prefix_of(rid);
        assert(a.contains_key(k));
    }
}

/// Requests, pairs of an id and an admission epoch, with the ids as sequences of characters.
pub open spec fn requests(reqs: Seq<(&str, u64)>) -> Seq<(Seq<char>, u64)> {
    reqs.map_values(|req: (&str, u64)| (req.0@, req.1))
}

/// Strings as sequences of characters.
pub open spec fn texts(strings: Seq<String>) -> Seq<Seq<char>> {
    strings.map_values(|s: String| s@)
}

/// Whether `entry` is older than `ttl` when the clock reads `now`.
pub open spec fn outlived(entry: Entry, now: u128, ttl: u128) -> bool {
    now - entry.created > ttl
}

/// The keys of the entries that are older than `ttl` when the clock reads `now`.
pub open spec fn outlived_keys(
    entries: Map<Seq<char>, Entry>,
    now: u128,
    ttl: u128,
) -> Set<Seq<char>> {
    entries.dom().filter(|k: Seq<char>| outlived(entries[k], now, ttl))
}

/// An operation on a registry.
pub enum Op {
    /// A request is admitted.
    AdmitRequest,
    /// An id is aborted when the clock reads `reading`.
    Abort { rid: Seq<char>, reason: AbortReason, reading: u128 },
    /// All requests admitted so far are aborted.
    AbortAll { reason: AbortReason },
    /// A request is checked.
    Check { rid: Seq<char>, admitted: u64 },
    /// A batch of requests is checked.
    CheckBatch { reqs: Seq<(Seq<char>, u64)> },
    /// An id is acknowledged.
    Ack { rid: Seq<char> },
    /// Expired entries are dropped when the clock reads `reading`.
    Gc { reading: u128 },
}

impl State {
    /// A registry to which nothing has happened yet.
    pub open spec fn fresh(ttl: u128) -> State {
        State {
            entries: Map::empty(),
            epoch: 0,
            abort_all_epoch: 0,
            abort_all_code: 0,
            ttl,
            clock: 0,
            total_aborts: 0,
            total_hits: 0,
            total_acked: 0,
            total_expired: 0,
            ops_since_gc: 0,
        }
    }

    /// What holds of every state of a registry: there are finitely many entries, none of them has
    /// the empty key or lies in the future, an abort of all requests has left the code of a
    /// reason, and the next sweep is not overdue.
    pub open spec fn wf(self) -> bool {
        &&& self.entries.dom().finite()
        &&& !self.entries.contains_key(Seq::empty())
        &&& forall|k: Seq<char>| #[trigger]
            self.entries.contains_key(k) ==> self.entries[k].created <= self.clock
        &&& self.abort_all_epoch != 0 ==> AbortReason::decode(self.abort_all_code) is Some
        &&& self.ops_since_gc < GC_EVERY_OPS
    }

    /// The epoch handed out next.
    pub open spec fn next_epoch(self) -> u64 {
        self.epoch.wrapping_add(1)
    }

    /// Whether some registered key is a prefix of `rid`.
    pub open spec fn covers(self, rid: Seq<char>) -> bool {
        covered(self.entries, rid)
    }

    /// The shortest registered key that is a prefix of `rid`.
    pub open spec fn key_for(self, rid: Seq<char>) -> Seq<char> {
        matching_key(self.entries, rid)
    }

    /// Whether a request admitted at `admitted` is older than the last abort of all requests.
    pub open spec fn precedes_abort_all(self, admitted: u64) -> bool {
        self.abort_all_epoch != 0 && admitted < self.abort_all_epoch
    }

    /// Whether the request `rid`, admitted at `admitted`, is interrupted.
    pub open spec fn interrupts(self, rid: Seq<char>, admitted: u64) -> bool {
        self.precedes_abort_all(admitted) || self.covers(rid)
    }

    /// The reason of the last abort of all requests.
    pub open spec fn abort_all_reason(self) -> AbortReason {
        match AbortReason::decode(self.abort_all_code) {
            Some(reason) => reason,
            None => AbortReason::Shutdown,
        }
    }

    /// What a check of the request `rid`, admitted at `admitted`, answers.
    pub open spec fn answer(self, rid: Seq<char>, admitted: u64) -> Option<InfoView> {
        if self.precedes_abort_all(admitted) {
            Some(
                InfoView {
                    key: Seq::empty(),
                    reason: self.abort_all_reason(),
                    epoch: self.abort_all_epoch,
                },
            )
        } else if self.covers(rid) {
            let key = self.key_for(rid);
            Some(
                InfoView {
                    key,
                    reason: self.entries[key].reason,
                    epoch: self.entries[key].epoch,
                },
            )
        } else {
            None
        }
    }

    /// The counters.
    pub open spec fn stats(self) -> Stats {
        Stats {
            live_entries: self.entries.len() as u64,
            total_aborts: self.total_aborts,
            total_hits: self.total_hits,
            total_acked: self.total_acked,
            total_expired: self.total_expired,
            epoch: self.epoch,
            abort_all_epoch: self.abort_all_epoch,
        }
    }

    /// The state after a request is admitted.
    pub open spec fn after_admit(self) -> State {
        State { epoch: self.next_epoch(), ..self }
    }

    /// The state after all requests admitted so far are aborted.
    pub open spec fn after_abort_all(self, reason: AbortReason) -> State {
        let epoch = self.next_epoch();
        State {
            epoch,
            abort_all_epoch: if self.abort_all_epoch < epoch {
                epoch
            } else {
                self.abort_all_epoch
            },
            abort_all_code: reason.code(),
            total_aborts: self.total_aborts.wrapping_add(1),
            ..self
        }
    }

    /// The state after the clock is read. The clock never goes back: a reading that is earlier
    /// than one before it counts as the one before it.
    pub open spec fn after_reading(self, reading: u128) -> State {
        State {
            clock: if self.clock < reading {
                reading
            } else {
                self.clock
            },
            ..self
        }
    }

    /// Whether `entry` is older than the time to live at the latest reading of the clock.
    pub open spec fn expired(self, entry: Entry) -> bool {
        outlived(entry, self.clock, self.ttl)
    }

    /// The keys of the entries that are expired at the latest reading of the clock.
    pub open spec fn expired_keys(self) -> Set<Seq<char>> {
        outlived_keys(self.entries, self.clock, self.ttl)
    }

    /// The state after a sweep for the entries that are expired at the latest reading.
    pub open spec fn swept(self) -> State {
        State {
            entries: self.entries.remove_keys(self.expired_keys()),
            total_expired: self.total_expired.wrapping_add(self.expired_keys().len() as u64),
            ..self
        }
    }

    /// The state after a sweep when the clock reads `reading`.
    pub open spec fn after_gc(self, reading: u128) -> State {
        self.after_reading(reading).swept()
    }

    /// The state after one more registration is counted towards the next sweep, and after the
    /// sweep where it is due.
    pub open spec fn ticked(self) -> State {
        if self.ops_since_gc + 1 >= GC_EVERY_OPS {
            State { ops_since_gc: 0, ..self }.swept()
        } else {
            State { ops_since_gc: (self.ops_since_gc + 1) as u32, ..self }
        }
    }

    /// The state after `rid` is registered under a new epoch, at the latest reading of the clock.
    pub open spec fn after_register(self, rid: Seq<char>, reason: AbortReason) -> State {
        let epoch = self.next_epoch();
        State {
            entries: self.entries.insert(
                rid,
                Entry { reason, epoch, created: self.clock, hits: 0 },
            ),
            epoch,
            total_aborts: self.total_aborts.wrapping_add(1),
            ..self
        }
    }

    /// The state after an abort of `rid` when the clock reads `reading`.
    pub open spec fn after_abort(
        self,
        rid: Seq<char>,
        reason: AbortReason,
        reading: u128,
    ) -> State {
        if rid.len() == 0 {
            self.after_abort_all(reason)
        } else {
            let ticked = self.after_reading(reading).ticked();
            if ticked.entries.contains_key(rid) {
                ticked
            } else {
                ticked.after_register(rid, reason)
            }
        }
    }

    /// The epoch that an abort of `rid` answers when the clock reads `reading`.
    pub open spec fn abort_epoch(self, rid: Seq<char>, reading: u128) -> u64 {
        let ticked = self.after_reading(reading).ticked();
        if rid.len() > 0 && ticked.entries.contains_key(rid) {
            ticked.entries[rid].epoch
        } else {
            self.next_epoch()
        }
    }

    /// The state after a check of the request `rid`, admitted at `admitted`.
    pub open spec fn after_check(self, rid: Seq<char>, admitted: u64) -> State {
        if self.precedes_abort_all(admitted) {
            State { total_hits: self.total_hits.wrapping_add(1), ..self }
        } else if self.covers(rid) {
            State {
                entries: with_hit(self.entries, self.key_for(rid)),
                total_hits: self.total_hits.wrapping_add(1),
                ..self
            }
        } else {
            self
        }
    }

    /// The ids of those of `reqs`, pairs of an id and an admission epoch, that are interrupted,
    /// in their order.
    pub open spec fn interrupted_of(self, reqs: Seq<(Seq<char>, u64)>) -> Seq<Seq<char>>
        decreases reqs.len(),
    {
        if reqs.len() == 0 {
            Seq::empty()
        } else {
            let rest = self.interrupted_of(reqs.drop_last());
            let (rid, admitted) = reqs.last();
            if self.interrupts(rid, admitted) {
                rest.push(rid)
            } else {
                rest
            }
        }
    }

    /// The state after each of `reqs` is checked in turn.
    pub open spec fn after_checks(self, reqs: Seq<(Seq<char>, u64)>) -> State
        decreases reqs.len(),
    {
        if reqs.len() == 0 {
            self
        } else {
            let (rid, admitted) = reqs.last();
            self.after_checks(reqs.drop_last()).after_check(rid, admitted)
        }
    }

    /// The state after the entry of `rid` is acknowledged.
    pub open spec fn after_ack(self, rid: Seq<char>) -> State {
        if self.entries.contains_key(rid) {
            State {
                entries: self.entries.remove(rid),
                total_acked: self.total_acked.wrapping_add(1),
                ..self
            }
        } else {
            self
        }
    }

    /// The state after an operation.
    pub open spec fn after(self, op: Op) -> State {
        match op {
            Op::AdmitRequest => self.after_admit(),
            Op::Abort { rid, reason, reading } => self.after_abort(rid, reason, reading),
            Op::AbortAll { reason } => self.after_abort_all(reason),
            Op::Check { rid, admitted } => self.after_check(rid, admitted),
            Op::CheckBatch { reqs } => self.after_checks(reqs),
            Op::Ack { rid } => self.after_ack(rid),
            Op::Gc { reading } => self.after_gc(reading),
        }
    }

    /// The state after the operations `ops`, one after the other.
    pub open spec fn run(self, ops: Seq<Op>) -> State
        decreases ops.len(),
    {
        if ops.len() == 0 {
            self
        } else {
            self.run(ops.drop_last()).after(ops.last())
        }
    }

    /// The state that the first `n` of `ops` lead to.
    pub open spec fn at(self, ops: Seq<Op>, n: nat) -> State {
        self.run(ops.take(n as int))
    }

    /// Whether some sequence of operations leads from this state to `s`.
    pub open spec fn reaches(self, s: State) -> bool {
        exists|ops: Seq<Op>| s == #[trigger] self.run(ops)
    }
}

/// A batch in which no request is interrupted gives nothing and changes nothing.
pub proof fn lemma_quiet_batch(state: State, reqs: Seq<(Seq<char>, u64)>)
    requires
        forall|i: int|
            0 <= i < reqs.len() ==> !state.interrupts((#[trigger] reqs[i]).0, reqs[i].1),
    ensures
        state.interrupted_of(reqs) == Seq::<Seq<char>>::empty(),
        state.after_checks(reqs) == state,
    decreases reqs.len(),
{
    if reqs.len() > 0 {
        let rest = reqs.drop_last();
        assert forall|i: int| 0 <= i < rest.len() implies !state.interrupts(
            (#[trigger] rest[i]).0,
            rest[i].1,
        ) by {
            assert(rest[i] == reqs[i]);
        }
        lemma_quiet_batch(state, rest);
        assert(!state.interrupts(reqs[reqs.len() - 1].0, reqs[reqs.len() - 1].1));
    }
}

/// A batch in which some request is interrupted gives something.
pub proof fn lemma_busy_batch(state: State, reqs: Seq<(Seq<char>, u64)>, i: int)
    requires
        0 <= i < reqs.len(),
        state.interrupts(reqs[i].0, reqs[i].1),
    ensures
        state.interrupted_of(reqs).len() > 0,
    decreases reqs.len(),
{
    if i < reqs.len() - 1 {
        lemma_busy_batch(state, reqs.drop_last(), i);
    }
}

} // verus!
