//! What the registry promises as a whole.
use vstd::prelude::*;

use crate::reason::AbortReason;
use crate::shared::SharedInterruptController;
use crate::state::{Entry, InfoView, Op, State};

verus! {

/// Whether two entries are the same abort, up to the hits counted for it.
pub open spec fn same_abort(a: Entry, b: Entry) -> bool {
    a.reason == b.reason && a.epoch == b.epoch && a.created == b.created
}

/// A check keeps the registered aborts, the epochs and the settings; it only counts hits.
pub proof fn law_check_keeps_aborts(s: State, rid: Seq<char>, admitted: u64)
    ensures
        ({
            let t = s.after_check(rid, admitted);
            &&& t.entries.dom() == s.entries.dom()
            &&& forall|k: Seq<char>| #[trigger]
                s.entries.contains_key(k) ==> same_abort(t.entries[k], s.entries[k])
            &&& t == (State { entries: t.entries, total_hits: t.total_hits, ..s })
        }),
{
    if !s.precedes_abort_all(admitted) && s.covers(rid) {
        crate::state::lemma_matching_key(s.entries, rid);
        crate::state::lemma_hit_keeps_keys(s.entries, s.key_for(rid));
    }
}

/// Checking a batch keeps the registered aborts, the epochs and the settings; it only counts hits.
pub proof fn law_batch_keeps_aborts(s: State, reqs: Seq<(Seq<char>, u64)>)
    ensures
        ({
            let t = s.after_checks(reqs);
            &&& t.entries.dom() == s.entries.dom()
            &&& forall|k: Seq<char>| #[trigger]
                s.entries.contains_key(k) ==> same_abort(t.entries[k], s.entries[k])
            &&& t == (State { entries: t.entries, total_hits: t.total_hits, ..s })
        }),
    decreases reqs.len(),
{
    if reqs.len() > 0 {
        let (rid, admitted) = reqs.last();
        law_batch_keeps_aborts(s, reqs.drop_last());
        law_check_keeps_aborts(s.after_checks(reqs.drop_last()), rid, admitted);
    }
}

/// Every operation keeps the state one that a registry can be in, and keeps the time to live.
pub proof fn law_operations_keep_wf(s: State, op: Op)
    requires
        s.wf(),
    ensures
        s.after(op).wf(),
        s.after(op).ttl == s.ttl,
{
    match op {
        Op::Check { rid, admitted } => law_check_keeps_aborts(s, rid, admitted),
        Op::CheckBatch { reqs } => law_batch_keeps_aborts(s, reqs),
        Op::Gc { reading } => lemma_sweep_wf(s.after_reading(reading)),
        Op::Abort { rid, reason, reading } => {
            lemma_sweep_wf(State { ops_since_gc: 0, ..s.after_reading(reading) });
        },
        _ => {},
    }
}

/// A sweep keeps the state one that a registry can be in.
proof fn lemma_sweep_wf(s: State)
    requires
        s.wf(),
    ensures
        s.swept().wf(),
{
    assert(s.swept().entries.dom() =~= s.entries.dom().difference(s.expired_keys()));
}

/// In every state that operations lead to from a fresh registry, the invariant holds and the time
/// to live is the one that the registry was made with.
pub proof fn law_every_state_is_wf(ttl: u128, s: State)
    requires
        State::fresh(ttl).reaches(s),
    ensures
        s.wf(),
        s.ttl == ttl,
{
    let ops = choose|ops: Seq<Op>| s == #[trigger] State::fresh(ttl).run(ops);
    lemma_run_wf(ttl, ops);
}

proof fn lemma_run_wf(ttl: u128, ops: Seq<Op>)
    ensures
        State::fresh(ttl).run(ops).wf(),
        State::fresh(ttl).run(ops).ttl == ttl,
    decreases ops.len(),
{
    if ops.len() > 0 {
        lemma_run_wf(ttl, ops.drop_last());
        law_operations_keep_wf(State::fresh(ttl).run(ops.drop_last()), ops.last());
    }
}

/// One more operation leads on from a state that was reached.
pub proof fn law_reaches_step(start: State, s: State, op: Op)
    requires
        start.reaches(s),
    ensures
        start.reaches(s.after(op)),
{
    let ops = choose|ops: Seq<Op>| s == #[trigger] start.run(ops);
    assert(ops.push(op).drop_last() =~= ops);
    assert(start.run(ops.push(op)) == s.after(op));
}

/// A registry to which nothing has happened interrupts no request.
pub proof fn law_fresh_interrupts_nothing(ttl: u128, rid: Seq<char>, admitted: u64)
    ensures
        !State::fresh(ttl).interrupts(rid, admitted),
        State::fresh(ttl).answer(rid, admitted) is None,
{
}

/// After an abort of an id, every request whose id starts with it is interrupted, whenever the
/// request was or will be admitted, and the answer names a registered prefix of it.
pub proof fn law_abort_interrupts(
    s: State,
    rid: Seq<char>,
    reason: AbortReason,
    reading: u128,
    req: Seq<char>,
    admitted: u64,
)
    requires
        rid.len() > 0,
        rid.is_prefix_of(req),
    ensures
        s.after_abort(rid, reason, reading).entries.contains_key(rid),
        s.after_abort(rid, reason, reading).entries[rid].epoch == s.abort_epoch(rid, reading),
        s.after_abort(rid, reason, reading).interrupts(req, admitted),
        s.after_abort(rid, reason, reading).answer(req, admitted) matches Some(info)
            && info.key.is_prefix_of(req) && info.key.len() <= rid.len(),
{
    let t = s.after_abort(rid, reason, reading);
    assert(t.entries.contains_key(rid));
    assert(t.covers(req));
    crate::state::lemma_matching_key(t.entries, req);
}

/// An abort interrupts no request whose id does not start with the aborted id.
pub proof fn law_abort_spares_others(
    s: State,
    rid: Seq<char>,
    reason: AbortReason,
    reading: u128,
    req: Seq<char>,
    admitted: u64,
)
    requires
        rid.len() > 0,
        !rid.is_prefix_of(req),
        s.after_abort(rid, reason, reading).interrupts(req, admitted),
    ensures
        s.interrupts(req, admitted),
{
    let t = s.after_abort(rid, reason, reading);
    if !t.precedes_abort_all(admitted) {
        let k = choose|k: Seq<char>| #[trigger] t.entries.contains_key(k) && k.is_prefix_of(req);
        assert(s.entries.contains_key(k));
    }
}

/// Whether an abort of a single id in the state `s`, when the clock reads `reading`, drops no
/// entry: no sweep is due, or no entry is too old.
pub open spec fn nothing_expires(s: State, reading: u128) -> bool {
    s.ops_since_gc + 1 < crate::state::GC_EVERY_OPS || forall|k: Seq<char>| #[trigger]
        s.entries.contains_key(k) ==> !s.after_reading(reading).expired(s.entries[k])
}

/// Where nothing expires, counting towards the next sweep moves no entry and no counter.
proof fn lemma_idle_tick(s: State, reading: u128)
    requires
        nothing_expires(s, reading),
    ensures
        ({
            let t = s.after_reading(reading).ticked();
            &&& t.entries == s.entries
            &&& t.stats() == s.stats()
        }),
{
    let at = State { ops_since_gc: 0, ..s.after_reading(reading) };
    if s.ops_since_gc + 1 >= crate::state::GC_EVERY_OPS {
        assert(at.expired_keys() =~= Set::empty());
        assert(at.swept().entries =~= s.entries);
    }
}

/// Where nothing expires, an abort keeps the answer of every request whose id does not start with
/// the aborted id.
pub proof fn law_abort_keeps_other_answers(
    s: State,
    rid: Seq<char>,
    reason: AbortReason,
    reading: u128,
    req: Seq<char>,
    admitted: u64,
)
    requires
        rid.len() > 0,
        !rid.is_prefix_of(req),
        nothing_expires(s, reading),
    ensures
        s.after_abort(rid, reason, reading).answer(req, admitted) == s.answer(req, admitted),
        s.after_abort(rid, reason, reading).interrupts(req, admitted) == s.interrupts(
            req,
            admitted,
        ),
{
    let t = s.after_abort(rid, reason, reading);
    lemma_idle_tick(s, reading);
    assert forall|k: Seq<char>| k.is_prefix_of(req) implies #[trigger] t.entries.contains_key(k)
        == s.entries.contains_key(k) by {}
    if s.covers(req) {
        crate::state::lemma_matching_key(s.entries, req);
        let key = s.key_for(req);
        assert(t.entries.contains_key(key));
        assert(crate::state::shortest_match(t.entries, req, key));
        crate::state::lemma_matching_key(t.entries, req);
        crate::state::lemma_shortest_unique(t.entries, req, key, t.key_for(req));
    } else if t.covers(req) {
        let k = choose|k: Seq<char>| #[trigger] t.entries.contains_key(k) && k.is_prefix_of(req);
        assert(s.entries.contains_key(k));
    }
}

/// Where nothing expires, an abort of an id that is registered already answers the epoch of that
/// registration and leaves the entries, the counters and the answer of every request as they were.
pub proof fn law_repeated_abort_changes_nothing(
    s: State,
    rid: Seq<char>,
    reason: AbortReason,
    reading: u128,
    req: Seq<char>,
    admitted: u64,
)
    requires
        rid.len() > 0,
        s.entries.contains_key(rid),
        nothing_expires(s, reading),
    ensures
        s.abort_epoch(rid, reading) == s.entries[rid].epoch,
        s.after_abort(rid, reason, reading).entries == s.entries,
        s.after_abort(rid, reason, reading).stats() == s.stats(),
        s.after_abort(rid, reason, reading).answer(req, admitted) == s.answer(req, admitted),
{
    lemma_idle_tick(s, reading);
}

/// Whether `op` leaves alone the entry of `key` in a history that goes on from `s`: it is no
/// acknowledgement of `key`, and it does not read the clock at a time when the entry is too old.
pub open spec fn spares(s: State, key: Seq<char>, op: Op) -> bool {
    match op {
        Op::Ack { rid } => rid != key,
        Op::Abort { rid, reason, reading } => rid.len() == 0 || !s.after_reading(reading).expired(
            s.entries[key],
        ),
        Op::Gc { reading } => !s.after_reading(reading).expired(s.entries[key]),
        _ => true,
    }
}

/// An entry survives every operation but its acknowledgement and a sweep after its time to live.
pub proof fn law_entry_survives(s: State, key: Seq<char>, op: Op)
    requires
        s.entries.contains_key(key),
        spares(s, key, op),
    ensures
        s.after(op).entries.contains_key(key),
        same_abort(s.after(op).entries[key], s.entries[key]),
{
    match op {
        Op::Check { rid, admitted } => law_check_keeps_aborts(s, rid, admitted),
        Op::CheckBatch { reqs } => law_batch_keeps_aborts(s, reqs),
        _ => {},
    }
}

/// Operations keep the time to live, and only those that read the clock move it on.
proof fn lemma_settings_kept(s: State, op: Op)
    ensures
        s.after(op).ttl == s.ttl,
        s.after(op).clock == match op {
            Op::Abort { rid, reason, reading } => if rid.len() == 0 {
                s.clock
            } else {
                s.after_reading(reading).clock
            },
            Op::Gc { reading } => s.after_reading(reading).clock,
            _ => s.clock,
        },
{
    match op {
        Op::CheckBatch { reqs } => law_batch_keeps_aborts(s, reqs),
        _ => {},
    }
}

/// An abort is not lost: through any sequence of operations without its acknowledgement and
/// without a sweep after its time to live, the entry stays registered, and every request whose id
/// starts with its key is interrupted.
pub proof fn law_abort_is_not_lost(
    s: State,
    key: Seq<char>,
    ops: Seq<Op>,
    req: Seq<char>,
    admitted: u64,
)
    requires
        s.entries.contains_key(key),
        forall|i: int|
            0 <= i < ops.len() ==> spares(s, key, #[trigger] ops[i]),
        key.is_prefix_of(req),
    ensures
        s.run(ops).entries.contains_key(key),
        same_abort(s.run(ops).entries[key], s.entries[key]),
        s.run(ops).ttl == s.ttl,
        s.run(ops).interrupts(req, admitted),
{
    lemma_entry_stays(s, key, ops);
    assert(s.run(ops).covers(req));
}

proof fn lemma_entry_stays(s: State, key: Seq<char>, ops: Seq<Op>)
    requires
        s.entries.contains_key(key),
        forall|i: int| 0 <= i < ops.len() ==> spares(s, key, #[trigger] ops[i]),
    ensures
        s.run(ops).entries.contains_key(key),
        same_abort(s.run(ops).entries[key], s.entries[key]),
        s.run(ops).ttl == s.ttl,
        s.run(ops).clock == s.clock || !s.run(ops).expired(s.entries[key]),
    decreases ops.len(),
{
    if ops.len() > 0 {
        let first = ops.drop_last();
        assert forall|i: int| 0 <= i < first.len() implies spares(s, key, #[trigger] first[i]) by {
            assert(first[i] == ops[i]);
        }
        lemma_entry_stays(s, key, first);
        assert(spares(s, key, ops[ops.len() - 1]));
        lemma_settings_kept(s.run(first), ops.last());
        law_entry_survives(s.run(first), key, ops.last());
    }
}

/// Aborting an id a second time, before its entry is too old, answers the same epoch and changes
/// neither the entry nor the epoch nor the number of aborts.
pub proof fn law_abort_is_idempotent(
    s: State,
    rid: Seq<char>,
    reason: AbortReason,
    reading: u128,
    reason2: AbortReason,
    reading2: u128,
)
    requires
        rid.len() > 0,
        ({
            let once = s.after_abort(rid, reason, reading);
            !once.after_reading(reading2).expired(once.entries[rid])
        }),
    ensures
        ({
            let once = s.after_abort(rid, reason, reading);
            let twice = once.after_abort(rid, reason2, reading2);
            &&& once.abort_epoch(rid, reading2) == s.abort_epoch(rid, reading)
            &&& twice.entries[rid] == once.entries[rid]
            &&& twice.entries.dom().subset_of(once.entries.dom())
            &&& twice.epoch == once.epoch
            &&& twice.total_aborts == once.total_aborts
        }),
{
}

/// Aborting the empty id is aborting all requests.
pub proof fn law_empty_abort_is_abort_all(
    s: State,
    rid: Seq<char>,
    reason: AbortReason,
    reading: u128,
)
    requires
        rid.len() == 0,
    ensures
        s.after_abort(rid, reason, reading) == s.after_abort_all(reason),
        s.abort_epoch(rid, reading) == s.next_epoch(),
{
}

/// No epoch in the state is later than the epoch handed out last.
pub open spec fn epochs_in_order(s: State) -> bool {
    &&& s.abort_all_epoch <= s.epoch
    &&& forall|k: Seq<char>| #[trigger]
        s.entries.contains_key(k) ==> 0 < s.entries[k].epoch <= s.epoch
}

/// As long as the epoch does not wrap around, operations keep the epochs in order and the epoch
/// never falls; the epoch that the next operation is given is later than all before.
pub proof fn law_epochs_stay_in_order(s: State, op: Op)
    requires
        epochs_in_order(s),
        s.epoch < u64::MAX,
    ensures
        epochs_in_order(s.after(op)),
        s.epoch <= s.after(op).epoch <= s.epoch + 1,
        s.next_epoch() == s.epoch + 1,
{
    match op {
        Op::Check { rid, admitted } => law_check_keeps_aborts(s, rid, admitted),
        Op::CheckBatch { reqs } => law_batch_keeps_aborts(s, reqs),
        _ => {},
    }
}

/// In every history of a registry that is shorter than the range of the epochs, the epochs are in
/// order.
pub proof fn law_history_in_order(ttl: u128, ops: Seq<Op>)
    requires
        ops.len() <= u64::MAX,
    ensures
        epochs_in_order(State::fresh(ttl).run(ops)),
        State::fresh(ttl).run(ops).epoch <= ops.len(),
    decreases ops.len(),
{
    if ops.len() > 0 {
        law_history_in_order(ttl, ops.drop_last());
        law_epochs_stay_in_order(State::fresh(ttl).run(ops.drop_last()), ops.last());
    }
}

/// An abort of all requests interrupts every request admitted before it, whatever its id, and the
/// answer gives its reason and its epoch with an empty key.
pub proof fn law_abort_all_interrupts_earlier(
    s: State,
    reason: AbortReason,
    rid: Seq<char>,
    admitted: u64,
)
    requires
        epochs_in_order(s),
        s.epoch < u64::MAX,
        admitted <= s.epoch,
    ensures
        s.after_abort_all(reason).interrupts(rid, admitted),
        s.after_abort_all(reason).answer(rid, admitted) == Some(
            InfoView { key: Seq::empty(), reason, epoch: s.next_epoch() },
        ),
{
}

/// A request that an abort of all requests interrupts stays interrupted, whatever happens after.
pub proof fn law_abort_all_lasts(s: State, ops: Seq<Op>, rid: Seq<char>, admitted: u64)
    requires
        s.precedes_abort_all(admitted),
    ensures
        s.run(ops).precedes_abort_all(admitted),
        s.run(ops).interrupts(rid, admitted),
    decreases ops.len(),
{
    if ops.len() > 0 {
        let first = ops.drop_last();
        law_abort_all_lasts(s, first, rid, admitted);
        match ops.last() {
            Op::CheckBatch { reqs } => law_batch_keeps_aborts(s.run(first), reqs),
            _ => {},
        }
    }
}

/// Whether `op` aborts all requests.
pub open spec fn aborts_all(op: Op) -> bool {
    match op {
        Op::AbortAll { reason } => true,
        Op::Abort { rid, reason, reading } => rid.len() == 0,
        _ => false,
    }
}

/// A request is not touched by the aborts of all requests that came before its admission: until
/// the next such abort it is interrupted only where a registered key is a prefix of its id.
pub proof fn law_abort_all_spares_later(s: State, ops: Seq<Op>, rid: Seq<char>)
    requires
        epochs_in_order(s),
        s.epoch < u64::MAX,
        forall|i: int| 0 <= i < ops.len() ==> !aborts_all(#[trigger] ops[i]),
    ensures
        s.after_admit().run(ops).interrupts(rid, s.next_epoch()) == s.after_admit().run(ops).covers(
            rid,
        ),
{
    lemma_abort_all_epoch_kept(s.after_admit(), ops);
}

/// Operations that do not abort all requests keep the epoch of the last such abort.
proof fn lemma_abort_all_epoch_kept(s: State, ops: Seq<Op>)
    requires
        forall|i: int| 0 <= i < ops.len() ==> !aborts_all(#[trigger] ops[i]),
    ensures
        s.run(ops).abort_all_epoch == s.abort_all_epoch,
    decreases ops.len(),
{
    if ops.len() > 0 {
        let first = ops.drop_last();
        assert forall|i: int| 0 <= i < first.len() implies !aborts_all(#[trigger] first[i]) by {
            assert(first[i] == ops[i]);
        }
        lemma_abort_all_epoch_kept(s, first);
        assert(!aborts_all(ops[ops.len() - 1]));
        match ops.last() {
            Op::CheckBatch { reqs } => law_batch_keeps_aborts(s.run(first), reqs),
            _ => {},
        }
    }
}

/// An acknowledgement drops the entry of exactly the given id and no other, so a second one finds
/// nothing; an acknowledgement of an id that is not registered changes nothing.
pub proof fn law_ack_is_exact(s: State, rid: Seq<char>)
    ensures
        s.after_ack(rid).entries == s.entries.remove(rid),
        !s.after_ack(rid).entries.contains_key(rid),
        s.after_ack(rid).after_ack(rid) == s.after_ack(rid),
        !s.entries.contains_key(rid) ==> s.after_ack(rid) == s,
{
    assert(s.after_ack(rid).entries =~= s.entries.remove(rid));
}

/// After an acknowledgement, a request is interrupted only by an abort of all requests or by
/// another registered prefix.
pub proof fn law_ack_ends_interruption(s: State, rid: Seq<char>, req: Seq<char>, admitted: u64)
    ensures
        s.after_ack(rid).interrupts(req, admitted) <==> (s.precedes_abort_all(admitted) || exists|
            k: Seq<char>,
        | #[trigger]
            s.entries.contains_key(k) && k.is_prefix_of(req) && k != rid),
{
    let t = s.after_ack(rid);
    if t.covers(req) {
        let k = choose|k: Seq<char>| #[trigger] t.entries.contains_key(k) && k.is_prefix_of(req);
        assert(s.entries.contains_key(k) && k != rid);
    }
    if exists|k: Seq<char>| #[trigger]
        s.entries.contains_key(k) && k.is_prefix_of(req) && k != rid {
        let k = choose|k: Seq<char>| #[trigger]
            s.entries.contains_key(k) && k.is_prefix_of(req) && k != rid;
        assert(t.entries.contains_key(k));
    }
}

/// What an answer says is true: an empty key means that the request is older than the last abort
/// of all requests; any other key is registered, is the shortest registered prefix of the id, and
/// comes with its reason and epoch. There is no answer exactly where the request is not
/// interrupted.
pub proof fn law_answer_is_true(s: State, rid: Seq<char>, admitted: u64)
    requires
        s.wf(),
    ensures
        s.answer(rid, admitted) is Some <==> s.interrupts(rid, admitted),
        s.answer(rid, admitted) matches Some(info) ==> {
            &&& info.key.len() == 0 <==> s.precedes_abort_all(admitted)
            &&& info.key.len() == 0 ==> admitted < info.epoch && info.epoch == s.abort_all_epoch
                && info.reason.code() == s.abort_all_code
            &&& info.key.len() > 0 ==> crate::state::shortest_match(s.entries, rid, info.key)
                && info.reason == s.entries[info.key].reason && info.epoch
                == s.entries[info.key].epoch
        },
{
    if !s.precedes_abort_all(admitted) && s.covers(rid) {
        crate::state::lemma_matching_key(s.entries, rid);
        let key = s.key_for(rid);
        if key.len() == 0 {
            assert(key =~= Seq::empty());
        }
    }
}

/// A check only counts: after it every request gets the same answer as before.
pub proof fn law_check_only_counts(
    s: State,
    rid: Seq<char>,
    admitted: u64,
    req: Seq<char>,
    admitted2: u64,
)
    ensures
        s.after_check(rid, admitted).answer(req, admitted2) == s.answer(req, admitted2),
        s.after_check(rid, admitted).total_hits == if s.interrupts(rid, admitted) {
            s.total_hits.wrapping_add(1)
        } else {
            s.total_hits
        },
{
    let t = s.after_check(rid, admitted);
    law_check_keeps_aborts(s, rid, admitted);
    lemma_same_keys_same_answer(s, t, req, admitted2);
}

/// States that differ only in hits give the same answers.
proof fn lemma_same_keys_same_answer(s: State, t: State, rid: Seq<char>, admitted: u64)
    requires
        t.entries.dom() == s.entries.dom(),
        forall|k: Seq<char>| #[trigger]
            s.entries.contains_key(k) ==> same_abort(t.entries[k], s.entries[k]),
        t.abort_all_epoch == s.abort_all_epoch,
        t.abort_all_code == s.abort_all_code,
    ensures
        t.answer(rid, admitted) == s.answer(rid, admitted),
        t.interrupts(rid, admitted) == s.interrupts(rid, admitted),
{
    crate::state::lemma_covered_by_keys(s.entries, t.entries, rid);
    if s.covers(rid) {
        crate::state::lemma_matching_key(s.entries, rid);
        crate::state::lemma_matching_key(t.entries, rid);
        let a = s.key_for(rid);
        let b = t.key_for(rid);
        assert(t.entries.contains_key(a));
        assert(s.entries.contains_key(b));
        assert(a.len() == b.len());
        assert(a =~= b);
    }
}

/// A batch sweep lists a request exactly where a check of the request alone would interrupt it,
/// also after the requests before it in the batch have been counted.
pub proof fn law_batch_agrees_with_checks(s: State, reqs: Seq<(Seq<char>, u64)>)
    ensures
        s.interrupted_of(reqs) == reqs.filter(
            |req: (Seq<char>, u64)| s.interrupts(req.0, req.1),
        ).map_values(|req: (Seq<char>, u64)| req.0),
        forall|i: int|
            0 <= i < reqs.len() ==> (s.after_checks(#[trigger] reqs.take(i)).answer(
                reqs[i].0,
                reqs[i].1,
            ) is Some <==> s.interrupts(reqs[i].0, reqs[i].1)),
{
    lemma_interrupted_is_filter(s, reqs);
    assert forall|i: int| 0 <= i < reqs.len() implies (s.after_checks(
        #[trigger] reqs.take(i),
    ).answer(reqs[i].0, reqs[i].1) is Some <==> s.interrupts(reqs[i].0, reqs[i].1)) by {
        let t = s.after_checks(reqs.take(i));
        law_batch_keeps_aborts(s, reqs.take(i));
        lemma_same_keys_same_answer(s, t, reqs[i].0, reqs[i].1);
    }
}

proof fn lemma_interrupted_is_filter(s: State, reqs: Seq<(Seq<char>, u64)>)
    ensures
        s.interrupted_of(reqs) == reqs.filter(
            |req: (Seq<char>, u64)| s.interrupts(req.0, req.1),
        ).map_values(|req: (Seq<char>, u64)| req.0),
    decreases reqs.len(),
{
    reveal(Seq::filter);
    let hit = |req: (Seq<char>, u64)| s.interrupts(req.0, req.1);
    let id = |req: (Seq<char>, u64)| req.0;
    if reqs.len() == 0 {
        assert(reqs.filter(hit).map_values(id) =~= Seq::empty());
    } else {
        lemma_interrupted_is_filter(s, reqs.drop_last());
        let rest = reqs.drop_last().filter(hit);
        assert(rest.push(reqs.last()).map_values(id) =~= rest.map_values(id).push(
            reqs.last().0,
        ));
    }
}

/// A batch sweep counts as many hits as it lists requests.
pub proof fn law_batch_counts_hits(s: State, reqs: Seq<(Seq<char>, u64)>)
    requires
        reqs.len() <= u64::MAX,
    ensures
        s.interrupted_of(reqs).len() <= reqs.len(),
        s.after_checks(reqs).total_hits == s.total_hits.wrapping_add(
            s.interrupted_of(reqs).len() as u64,
        ),
    decreases reqs.len(),
{
    if reqs.len() > 0 {
        let rest = reqs.drop_last();
        let (rid, admitted) = reqs.last();
        law_batch_counts_hits(s, rest);
        law_batch_keeps_aborts(s, rest);
        lemma_same_keys_same_answer(s, s.after_checks(rest), rid, admitted);
    }
}

/// The latest reading of the clock never falls, whatever happens.
pub proof fn law_clock_never_goes_back(s: State, op: Op)
    ensures
        s.clock <= s.after(op).clock,
{
    lemma_settings_kept(s, op);
}

/// A sweep drops exactly the entries that are too old and leaves the others as they are, so a
/// second sweep at the same time finds nothing.
pub proof fn law_gc_is_exact(s: State, reading: u128)
    requires
        s.wf(),
    ensures
        ({
            let at = s.after_reading(reading);
            let t = s.after_gc(reading);
            &&& forall|k: Seq<char>| #[trigger]
                t.entries.contains_key(k) <==> s.entries.contains_key(k) && !at.expired(
                    s.entries[k],
                )
            &&& forall|k: Seq<char>| #[trigger]
                t.entries.contains_key(k) ==> t.entries[k] == s.entries[k]
            &&& t.entries.len() + at.expired_keys().len() == s.entries.len()
            &&& t.expired_keys().len() == 0
            &&& t.after_gc(reading) == t
        }),
{
    let at = s.after_reading(reading);
    let t = at.swept();
    s.entries.lemma_remove_keys_len(at.expired_keys());
    assert(t.expired_keys() =~= Set::empty());
    assert(t.swept() =~= t);
}

/// An entry that is too old at one reading of the clock is dropped by every sweep after it,
/// whatever the clock reads then.
pub proof fn law_too_old_is_dropped(s: State, k: Seq<char>, reading: u128)
    requires
        s.expired(s.entries[k]),
    ensures
        !s.after_gc(reading).entries.contains_key(k),
{
}

/// Whether `op` reads the clock, if at all, at `bound` or before.
pub open spec fn reads_within(op: Op, bound: u128) -> bool {
    match op {
        Op::Abort { rid, reason, reading } => reading <= bound,
        Op::Gc { reading } => reading <= bound,
        _ => true,
    }
}

/// With a time to live that the clock cannot exceed nothing ever expires. No clock exceeds
/// [`MAX_NANOS`](crate::clock::MAX_NANOS), so this holds of the longest time to live.
pub proof fn law_longest_ttl_never_expires(ttl: u128, ops: Seq<Op>, reading: u128)
    requires
        forall|i: int| 0 <= i < ops.len() ==> reads_within(#[trigger] ops[i], ttl),
        reading <= ttl,
    ensures
        State::fresh(ttl).run(ops).total_expired == 0,
        State::fresh(ttl).run(ops).after_reading(reading).expired_keys().len() == 0,
{
    lemma_nothing_expires(ttl, ops);
    let s = State::fresh(ttl).run(ops);
    assert(s.after_reading(reading).expired_keys() =~= Set::empty());
}

proof fn lemma_nothing_expires(ttl: u128, ops: Seq<Op>)
    requires
        forall|i: int| 0 <= i < ops.len() ==> reads_within(#[trigger] ops[i], ttl),
    ensures
        State::fresh(ttl).run(ops).ttl == ttl,
        State::fresh(ttl).run(ops).clock <= ttl,
        State::fresh(ttl).run(ops).total_expired == 0,
    decreases ops.len(),
{
    if ops.len() > 0 {
        let first = ops.drop_last();
        assert forall|i: int| 0 <= i < first.len() implies reads_within(
            #[trigger] first[i],
            ttl,
        ) by {
            assert(first[i] == ops[i]);
        }
        lemma_nothing_expires(ttl, first);
        let s = State::fresh(ttl).run(first);
        assert(reads_within(ops[ops.len() - 1], ttl));
        lemma_settings_kept(s, ops.last());
        match ops.last() {
            Op::Check { rid, admitted } => law_check_keeps_aborts(s, rid, admitted),
            Op::CheckBatch { reqs } => law_batch_keeps_aborts(s, reqs),
            Op::Gc { reading } => {
                assert(s.after_reading(reading).expired_keys() =~= Set::empty());
            },
            Op::Abort { rid, reason, reading } => {
                let at = State { ops_since_gc: 0, ..s.after_reading(reading) };
                assert(at.expired_keys() =~= Set::empty());
            },
            _ => {},
        }
    }
}

/// When a sweep is due, an abort leaves no entry that is too old.
pub proof fn law_due_sweep_happens(
    s: State,
    rid: Seq<char>,
    reason: AbortReason,
    reading: u128,
    k: Seq<char>,
)
    requires
        rid.len() > 0,
        s.ops_since_gc == crate::state::GC_EVERY_OPS - 1,
        s.after_abort(rid, reason, reading).entries.contains_key(k),
    ensures
        ({
            let t = s.after_abort(rid, reason, reading);
            &&& !t.expired(t.entries[k])
            &&& t.ops_since_gc == 0
        }),
{
}

/// Whether `op` aborts a single id. Each such operation, repeats included, counts towards the
/// next sweep.
pub open spec fn aborts_one(op: Op) -> bool {
    match op {
        Op::Abort { rid, reason, reading } => rid.len() > 0,
        _ => false,
    }
}

/// The number of operations in `ops` that abort a single id.
pub open spec fn count_aborts_one(ops: Seq<Op>) -> nat
    decreases ops.len(),
{
    if ops.len() == 0 {
        0
    } else {
        count_aborts_one(ops.drop_last()) + if aborts_one(ops.last()) {
            1nat
        } else {
            0
        }
    }
}

/// In every history the number of aborts of a single id since the last sweep that they brought
/// about is their number so far, up to whole rounds.
pub proof fn law_aborts_count_towards_sweep(ttl: u128, ops: Seq<Op>)
    ensures
        State::fresh(ttl).run(ops).ops_since_gc == count_aborts_one(ops)
            % crate::state::GC_EVERY_OPS as nat,
    decreases ops.len(),
{
    if ops.len() > 0 {
        let first = ops.drop_last();
        let s = State::fresh(ttl).run(first);
        law_aborts_count_towards_sweep(ttl, first);
        match ops.last() {
            Op::CheckBatch { reqs } => law_batch_keeps_aborts(s, reqs),
            _ => {},
        }
    }
}

/// In every history the aborts of a single id sweep at a fixed pace. Let the next of them be the
/// `n`-th. Where `n` is a multiple of [`GC_EVERY_OPS`](crate::state::GC_EVERY_OPS), the entries
/// that are too old are dropped before the id is looked up; else no entry is dropped and no
/// counter moves before that.
pub proof fn law_sweeps_keep_pace(ttl: u128, ops: Seq<Op>, rid: Seq<char>, reading: u128)
    requires
        rid.len() > 0,
    ensures
        ({
            let s = State::fresh(ttl).run(ops);
            let at = s.after_reading(reading);
            let n = count_aborts_one(ops) + 1;
            &&& n % crate::state::GC_EVERY_OPS as nat == 0 ==> at.ticked() == (State {
                ops_since_gc: 0,
                ..s.after_gc(reading)
            })
            &&& n % crate::state::GC_EVERY_OPS as nat != 0 ==> at.ticked().entries == s.entries
                && at.ticked().stats() == s.stats()
            &&& forall|reason: AbortReason| #[trigger]
                s.after_abort(rid, reason, reading) == if at.ticked().entries.contains_key(rid) {
                    at.ticked()
                } else {
                    at.ticked().after_register(rid, reason)
                }
        }),
{
    law_aborts_count_towards_sweep(ttl, ops);
}

/// The number of operations in `ops` that abort all requests.
pub open spec fn count_aborts_all(ops: Seq<Op>) -> nat
    decreases ops.len(),
{
    if ops.len() == 0 {
        0
    } else {
        count_aborts_all(ops.drop_last()) + if aborts_all(ops.last()) {
            1nat
        } else {
            0
        }
    }
}

/// The books balance: of the aborts that a registry has counted, each was an abort of all requests
/// or the registration of an entry that is live, acknowledged or expired by now.
pub proof fn law_aborts_are_accounted_for(ttl: u128, ops: Seq<Op>)
    requires
        ops.len() <= u64::MAX,
    ensures
        ({
            let s = State::fresh(ttl).run(ops);
            &&& s.total_aborts == s.entries.len() + s.total_acked + s.total_expired
                + count_aborts_all(ops)
            &&& s.total_aborts <= ops.len()
        }),
    decreases ops.len(),
{
    if ops.len() > 0 {
        let first = ops.drop_last();
        let s = State::fresh(ttl).run(first);
        law_aborts_are_accounted_for(ttl, first);
        lemma_run_wf(ttl, first);
        match ops.last() {
            Op::Check { rid, admitted } => law_check_keeps_aborts(s, rid, admitted),
            Op::CheckBatch { reqs } => law_batch_keeps_aborts(s, reqs),
            Op::Gc { reading } => law_gc_is_exact(s, reading),
            Op::Abort { rid, reason, reading } => {
                let reset = State { ops_since_gc: 0, ..s };
                law_gc_is_exact(reset, reading);
                lemma_sweep_wf(reset.after_reading(reading));
            },
            _ => {},
        }
    }
}

/// The number of operations in `ops` that admit a request.
pub open spec fn count_admissions(ops: Seq<Op>) -> nat
    decreases ops.len(),
{
    if ops.len() == 0 {
        0
    } else {
        count_admissions(ops.drop_last()) + if ops.last() is AdmitRequest {
            1nat
        } else {
            0
        }
    }
}

/// The epoch counts the admissions and the aborts: in every history of a registry that is shorter
/// than the range of the epochs, it is the number of admissions and of counted aborts together.
pub proof fn law_epoch_counts_events(ttl: u128, ops: Seq<Op>)
    requires
        ops.len() <= u64::MAX,
    ensures
        ({
            let s = State::fresh(ttl).run(ops);
            &&& s.epoch == count_admissions(ops) + s.total_aborts
            &&& s.epoch <= ops.len()
        }),
    decreases ops.len(),
{
    if ops.len() > 0 {
        let first = ops.drop_last();
        let s = State::fresh(ttl).run(first);
        law_epoch_counts_events(ttl, first);
        match ops.last() {
            Op::Check { rid, admitted } => law_check_keeps_aborts(s, rid, admitted),
            Op::CheckBatch { reqs } => law_batch_keeps_aborts(s, reqs),
            _ => {},
        }
    }
}

/// Later states of a history come out of earlier ones, by the operations between them.
pub proof fn law_history_goes_on(start: State, ops: Seq<Op>, n: nat, m: nat)
    requires
        n <= m <= ops.len(),
    ensures
        start.at(ops, m) == start.at(ops, n).run(ops.subrange(n as int, m as int)),
        start.at(ops, n).reaches(start.at(ops, m)),
    decreases m,
{
    let between = ops.subrange(n as int, m as int);
    if n == m {
        assert(between =~= Seq::empty());
    } else {
        let before = (m - 1) as nat;
        law_history_goes_on(start, ops, n, before);
        assert(between.drop_last() =~= ops.subrange(n as int, before as int));
        assert(ops.take(m as int).drop_last() =~= ops.take(before as int));
    }
    assert(start.at(ops, m) == start.at(ops, n).run(between));
}

/// An abort on a shared controller is not lost: in its history, from the abort on and until its
/// acknowledgement or a sweep after its time to live, every request whose id starts with the
/// aborted id is interrupted.
pub proof fn law_shared_abort_is_not_lost(
    c: SharedInterruptController,
    n: nat,
    m: nat,
    rid: Seq<char>,
    reason: AbortReason,
    reading: u128,
    req: Seq<char>,
    admitted: u64,
)
    requires
        c.performed(n, c.state_at(n).after_abort(rid, reason, reading)),
        n < m <= c.history().len(),
        forall|i: int| n < i < m ==> spares(c.state_at(n + 1), rid, #[trigger] c.history()[i]),
        rid.len() > 0,
        rid.is_prefix_of(req),
    ensures
        c.state_at(m).interrupts(req, admitted),
        c.state_at(m).answer(req, admitted) is Some,
{
    let s = c.state_at(n + 1);
    let ops = c.history().subrange((n + 1) as int, m as int);
    law_abort_interrupts(c.state_at(n), rid, reason, reading, req, admitted);
    law_history_goes_on(c.shared(), c.history(), n + 1, m);
    assert forall|i: int| 0 <= i < ops.len() implies spares(s, rid, #[trigger] ops[i]) by {
        assert(ops[i] == c.history()[n + 1 + i]);
    }
    law_abort_is_not_lost(s, rid, ops, req, admitted);
}

/// An abort of all requests on a shared controller interrupts every request admitted before it in
/// the history, from then on and whatever its id, as long as the history is shorter than the range
/// of the epochs.
pub proof fn law_shared_abort_all_interrupts_earlier(
    c: SharedInterruptController,
    ttl: u128,
    admission: nat,
    n: nat,
    m: nat,
    reason: AbortReason,
    rid: Seq<char>,
)
    requires
        c.shared() == State::fresh(ttl),
        c.history().len() <= u64::MAX,
        c.performed(admission, c.state_at(admission).after_admit()),
        c.performed(n, c.state_at(n).after_abort_all(reason)),
        admission < n < m <= c.history().len(),
    ensures
        c.state_at(m).interrupts(rid, c.state_at(admission).next_epoch()),
{
    let admitted = c.state_at(admission).next_epoch();
    let s = c.state_at(n);
    law_history_in_order(ttl, c.history().take(admission as int));
    law_history_in_order(ttl, c.history().take(n as int));
    law_history_goes_on(c.shared(), c.history(), admission + 1, n);
    lemma_epoch_never_falls(
        c.state_at(admission + 1),
        c.history().subrange((admission + 1) as int, n as int),
    );
    law_abort_all_interrupts_earlier(s, reason, rid, admitted);
    law_history_goes_on(c.shared(), c.history(), n + 1, m);
    let rest = c.history().subrange((n + 1) as int, m as int);
    law_abort_all_lasts(c.state_at(n + 1), rest, rid, admitted);
}

/// The epoch does not fall, as long as it does not wrap around.
proof fn lemma_epoch_never_falls(s: State, ops: Seq<Op>)
    requires
        s.epoch + ops.len() <= u64::MAX,
    ensures
        s.epoch <= s.run(ops).epoch <= s.epoch + ops.len(),
    decreases ops.len(),
{
    if ops.len() > 0 {
        let t = s.run(ops.drop_last());
        lemma_epoch_never_falls(s, ops.drop_last());
        match ops.last() {
            Op::CheckBatch { reqs } => law_batch_keeps_aborts(t, reqs),
            _ => {},
        }
    }
}

/// A request admitted on a shared controller is not touched by the aborts of all requests before
/// it in the history: until the next such abort it is interrupted only where a registered key is a
/// prefix of its id.
pub proof fn law_shared_abort_all_spares_later(
    c: SharedInterruptController,
    ttl: u128,
    n: nat,
    m: nat,
    rid: Seq<char>,
)
    requires
        c.shared() == State::fresh(ttl),
        c.history().len() <= u64::MAX,
        c.performed(n, c.state_at(n).after_admit()),
        n < m <= c.history().len(),
        forall|i: int| n < i < m ==> !aborts_all(#[trigger] c.history()[i]),
    ensures
        c.state_at(m).interrupts(rid, c.state_at(n).next_epoch()) == c.state_at(m).covers(rid),
{
    let ops = c.history().subrange((n + 1) as int, m as int);
    law_history_in_order(ttl, c.history().take(n as int));
    law_history_goes_on(c.shared(), c.history(), n + 1, m);
    assert forall|i: int| 0 <= i < ops.len() implies !aborts_all(#[trigger] ops[i]) by {
        assert(ops[i] == c.history()[n + 1 + i]);
    }
    law_abort_all_spares_later(c.state_at(n), ops, rid);
}

/// A batch sweep lists the id of every request of the batch that is interrupted, and lists nothing
/// but such ids.
pub proof fn law_batch_lists_the_interrupted(s: State, reqs: Seq<(Seq<char>, u64)>, id: Seq<char>)
    ensures
        s.interrupted_of(reqs).contains(id) <==> exists|i: int|
            0 <= i < reqs.len() && (#[trigger] reqs[i]).0 == id && s.answer(id, reqs[i].1) is Some,
    decreases reqs.len(),
{
    if reqs.len() == 0 {
        assert(s.interrupted_of(reqs) =~= Seq::empty());
    } else {
        let rest = reqs.drop_last();
        let list = s.interrupted_of(rest);
        let last = reqs[reqs.len() - 1];
        law_batch_lists_the_interrupted(s, rest, id);
        assert forall|i: int| 0 <= i < rest.len() implies #[trigger] rest[i] == reqs[i] by {}
        if s.interrupted_of(reqs).contains(id) {
            if list.contains(id) {
                let i = choose|i: int|
                    0 <= i < rest.len() && (#[trigger] rest[i]).0 == id && s.answer(
                        id,
                        rest[i].1,
                    ) is Some;
                assert(reqs[i].0 == id);
            } else {
                let j = choose|j: int|
                    0 <= j < s.interrupted_of(reqs).len() && s.interrupted_of(reqs)[j] == id;
                if j < list.len() {
                    assert(list[j] == id);
                }
                assert(last.0 == id);
            }
        }
        if exists|i: int|
            0 <= i < reqs.len() && (#[trigger] reqs[i]).0 == id && s.answer(id, reqs[i].1) is Some {
            let i = choose|i: int|
                0 <= i < reqs.len() && (#[trigger] reqs[i]).0 == id && s.answer(
                    id,
                    reqs[i].1,
                ) is Some;
            if i < rest.len() {
                assert(rest[i].0 == id);
                let j = choose|j: int| 0 <= j < list.len() && list[j] == id;
                assert(s.interrupted_of(reqs)[j] == id);
            } else {
                assert(s.interrupted_of(reqs)[list.len() as int] == id);
            }
        }
    }
}

/// Checks on a shared controller, alone or in a batch, end no abort: between two places in the
/// history with nothing but checks between them, the same keys are registered and every request is
/// told the same.
pub proof fn law_shared_checks_leave_answers(
    c: SharedInterruptController,
    n: nat,
    m: nat,
    req: Seq<char>,
    admitted: u64,
)
    requires
        n <= m <= c.history().len(),
        forall|i: int|
            n <= i < m ==> (#[trigger] c.history()[i] is Check || c.history()[i] is CheckBatch),
    ensures
        c.state_at(m).entries.dom() == c.state_at(n).entries.dom(),
        c.state_at(m).answer(req, admitted) == c.state_at(n).answer(req, admitted),
    decreases m,
{
    if n < m {
        let before = (m - 1) as nat;
        let s = c.state_at(before);
        law_shared_checks_leave_answers(c, n, before, req, admitted);
        assert(c.history().take(m as int).drop_last() =~= c.history().take(before as int));
        match c.history()[before as int] {
            Op::Check { rid, admitted: epoch } => {
                law_check_keeps_aborts(s, rid, epoch);
                lemma_same_keys_same_answer(s, c.state_at(m), req, admitted);
            },
            Op::CheckBatch { reqs } => {
                law_batch_keeps_aborts(s, reqs);
                lemma_same_keys_same_answer(s, c.state_at(m), req, admitted);
            },
            _ => {},
        }
    }
}

/// A request whose id starts with an aborted id is listed by every batch sweep of a shared
/// controller that has it in its batch, from the abort on and until its acknowledgement or a sweep
/// after its time to live.
pub proof fn law_shared_abort_is_listed(
    c: SharedInterruptController,
    n: nat,
    m: nat,
    rid: Seq<char>,
    reason: AbortReason,
    reading: u128,
    reqs: Seq<(Seq<char>, u64)>,
    i: int,
)
    requires
        c.performed(n, c.state_at(n).after_abort(rid, reason, reading)),
        n < m <= c.history().len(),
        forall|j: int| n < j < m ==> spares(c.state_at(n + 1), rid, #[trigger] c.history()[j]),
        rid.len() > 0,
        0 <= i < reqs.len(),
        rid.is_prefix_of(reqs[i].0),
    ensures
        c.state_at(m).interrupted_of(reqs).contains(reqs[i].0),
{
    law_shared_abort_is_not_lost(c, n, m, rid, reason, reading, reqs[i].0, reqs[i].1);
    law_batch_lists_the_interrupted(c.state_at(m), reqs, reqs[i].0);
}

} // verus!
