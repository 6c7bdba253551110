//! What each operation does, in plain terms.
//!
//! The laws here say of every operation and every answer what comes out of what goes in: which
//! entries are there afterwards, what is in them, what is answered, and how far each counter moves.
//! They are written out over the fields of the state, with the comparisons and the arithmetic as
//! they stand, and do not rest on the predicates by which the model is put together.
use vstd::prelude::*;

use crate::reason::AbortReason;
use crate::state::{AbortInfo, Entry, InfoView, Op, State};

verus! {

/// A new registry has no entry, has handed out no epoch, has counted nothing, and keeps entries for
/// the time that it was given.
pub proof fn law_new_registry_is_blank(ttl: u128, k: Seq<char>)
    ensures
        ({
            let s = State::fresh(ttl);
            &&& !s.entries.contains_key(k)
            &&& s.entries.len() == 0
            &&& s.epoch == 0
            &&& s.abort_all_epoch == 0
            &&& s.abort_all_code == 0
            &&& s.ttl == ttl
            &&& s.clock == 0
            &&& s.ops_since_gc == 0
            &&& s.total_aborts == 0
            &&& s.total_hits == 0
            &&& s.total_acked == 0
            &&& s.total_expired == 0
        }),
{
}

/// An admission hands out the number after the last one, and the number after the largest is 0.
/// Nothing else changes.
pub proof fn law_admission_takes_next_epoch(s: State)
    ensures
        s.next_epoch() as int == if s.epoch == u64::MAX {
            0int
        } else {
            s.epoch + 1
        },
        ({
            let t = s.after_admit();
            &&& t.epoch == s.next_epoch()
            &&& t.entries == s.entries
            &&& t.abort_all_epoch == s.abort_all_epoch
            &&& t.abort_all_code == s.abort_all_code
            &&& t.ttl == s.ttl
            &&& t.clock == s.clock
            &&& t.ops_since_gc == s.ops_since_gc
            &&& t.total_aborts == s.total_aborts
            &&& t.total_hits == s.total_hits
            &&& t.total_acked == s.total_acked
            &&& t.total_expired == s.total_expired
        }),
{
}

/// An abort of all requests takes the next epoch. From then on the epoch of the last such abort is
/// that one, unless an earlier one is greater, and every request admitted before it is told the
/// reason that was given. One more abort is counted, and nothing else changes.
pub proof fn law_abort_all_records_reason(
    s: State,
    reason: AbortReason,
    rid: Seq<char>,
    admitted: u64,
)
    ensures
        ({
            let t = s.after_abort_all(reason);
            let epoch: int = if s.epoch == u64::MAX {
                0
            } else {
                s.epoch + 1
            };
            &&& t.epoch == epoch
            &&& t.abort_all_epoch == if epoch > s.abort_all_epoch {
                epoch
            } else {
                s.abort_all_epoch as int
            }
            &&& admitted < t.abort_all_epoch ==> t.answer(rid, admitted) == Some(
                InfoView { key: Seq::empty(), reason, epoch: t.abort_all_epoch },
            )
            &&& t.total_aborts == if s.total_aborts == u64::MAX {
                0int
            } else {
                s.total_aborts + 1
            }
            &&& t.entries == s.entries
            &&& t.ttl == s.ttl
            &&& t.clock == s.clock
            &&& t.ops_since_gc == s.ops_since_gc
            &&& t.total_hits == s.total_hits
            &&& t.total_acked == s.total_acked
            &&& t.total_expired == s.total_expired
        }),
{
}

/// A sweep goes by age alone. When the clock reads `reading`, or has read later before, an entry
/// stays exactly where the time since its registration does not exceed the time to live, whatever
/// that time is, and it stays as it is. What is answered is how many entries have gone, and that
/// many more are counted as expired. Nothing else changes.
pub proof fn law_sweep_goes_by_age(s: State, reading: u128)
    requires
        s.entries.dom().finite(),
        s.entries.len() <= u64::MAX,
    ensures
        ({
            let t = s.after_gc(reading);
            let now: int = if reading > s.clock {
                reading as int
            } else {
                s.clock as int
            };
            let gone = s.after_reading(reading).expired_keys().len();
            &&& forall|k: Seq<char>| #[trigger]
                t.entries.contains_key(k) <==> (s.entries.contains_key(k) && now
                    - s.entries[k].created <= s.ttl)
            &&& forall|k: Seq<char>| #[trigger]
                t.entries.contains_key(k) ==> t.entries[k] == s.entries[k]
            &&& gone == s.entries.len() - t.entries.len()
            &&& t.total_expired == (s.total_expired + gone) % 0x1_0000_0000_0000_0000
            &&& t.clock == now
            &&& t.epoch == s.epoch
            &&& t.abort_all_epoch == s.abort_all_epoch
            &&& t.abort_all_code == s.abort_all_code
            &&& t.ttl == s.ttl
            &&& t.ops_since_gc == s.ops_since_gc
            &&& t.total_aborts == s.total_aborts
            &&& t.total_hits == s.total_hits
            &&& t.total_acked == s.total_acked
        }),
{
    let at = s.after_reading(reading);
    s.entries.lemma_remove_keys_len(at.expired_keys());
}

/// An abort of a single id records what was asked. The id is registered afterwards. Where it was
/// not registered, or its entry has just been dropped for its age, the entry has the reason that
/// was given, the next epoch, which is also the answer, and the present time, and counts as one
/// more abort. Where it was registered, its entry stays as it is, the answer is its epoch, and no
/// epoch is handed out and no abort counted. Every other entry stays as it is, but for the 256th
/// abort since the last round, which drops the entries whose age exceeds the time to live and
/// counts them. Nothing else changes.
pub proof fn law_abort_records_what_was_asked(
    s: State,
    rid: Seq<char>,
    reason: AbortReason,
    reading: u128,
)
    requires
        rid.len() > 0,
        s.entries.dom().finite(),
        s.entries.len() <= u64::MAX,
    ensures
        ({
            let t = s.after_abort(rid, reason, reading);
            let now: int = if reading > s.clock {
                reading as int
            } else {
                s.clock as int
            };
            let next: int = if s.epoch == u64::MAX {
                0
            } else {
                s.epoch + 1
            };
            let due = s.ops_since_gc >= 255;
            let stays = |k: Seq<char>|
                s.entries.contains_key(k) && (due ==> now - s.entries[k].created <= s.ttl);
            let left: int = t.entries.len() - if stays(rid) {
                0int
            } else {
                1
            };
            &&& t.entries.contains_key(rid)
            &&& stays(rid) ==> {
                &&& t.entries[rid] == s.entries[rid]
                &&& s.abort_epoch(rid, reading) == s.entries[rid].epoch
                &&& t.epoch == s.epoch
                &&& t.total_aborts == s.total_aborts
            }
            &&& !stays(rid) ==> {
                &&& t.entries[rid].reason == reason
                &&& t.entries[rid].epoch == next
                &&& t.entries[rid].created == now
                &&& t.entries[rid].hits == 0
                &&& s.abort_epoch(rid, reading) == next
                &&& t.epoch == next
                &&& t.total_aborts == if s.total_aborts == u64::MAX {
                    0int
                } else {
                    s.total_aborts + 1
                }
            }
            &&& forall|k: Seq<char>|
                k != rid ==> (#[trigger] t.entries.contains_key(k) <==> stays(k))
            &&& forall|k: Seq<char>|
                k != rid && #[trigger] t.entries.contains_key(k) ==> t.entries[k] == s.entries[k]
            &&& t.total_expired == (s.total_expired + (s.entries.len() - left))
                % 0x1_0000_0000_0000_0000
            &&& t.ops_since_gc == if due {
                0int
            } else {
                s.ops_since_gc + 1
            }
            &&& t.clock == now
            &&& t.abort_all_epoch == s.abort_all_epoch
            &&& t.abort_all_code == s.abort_all_code
            &&& t.ttl == s.ttl
            &&& t.total_hits == s.total_hits
            &&& t.total_acked == s.total_acked
        }),
{
    let at = s.after_reading(reading);
    s.entries.lemma_remove_keys_len(at.expired_keys());
    let reset = State { ops_since_gc: 0, ..at };
    assert(reset.expired_keys() =~= at.expired_keys());
    assert(at.swept().entries.dom() =~= s.entries.dom().difference(at.expired_keys()));
}

/// An abort of the empty id answers and does what an abort of all requests does.
pub proof fn law_empty_id_takes_next_epoch(s: State, reason: AbortReason, reading: u128)
    ensures
        s.abort_epoch(Seq::empty(), reading) as int == if s.epoch == u64::MAX {
            0int
        } else {
            s.epoch + 1
        },
        s.after_abort(Seq::empty(), reason, reading) == s.after_abort_all(reason),
{
}

/// An acknowledgement drops the entry under exactly the given id, if there is one, and counts it.
/// Nothing else changes.
pub proof fn law_ack_drops_one(s: State, rid: Seq<char>)
    requires
        s.entries.dom().finite(),
    ensures
        ({
            let t = s.after_ack(rid);
            &&& forall|k: Seq<char>| #[trigger]
                t.entries.contains_key(k) <==> (s.entries.contains_key(k) && k != rid)
            &&& forall|k: Seq<char>| #[trigger]
                t.entries.contains_key(k) ==> t.entries[k] == s.entries[k]
            &&& t.entries.len() == s.entries.len() - if s.entries.contains_key(rid) {
                1int
            } else {
                0
            }
            &&& t.total_acked == if !s.entries.contains_key(rid) {
                s.total_acked as int
            } else if s.total_acked == u64::MAX {
                0
            } else {
                s.total_acked + 1
            }
            &&& t.epoch == s.epoch
            &&& t.abort_all_epoch == s.abort_all_epoch
            &&& t.abort_all_code == s.abort_all_code
            &&& t.ttl == s.ttl
            &&& t.clock == s.clock
            &&& t.ops_since_gc == s.ops_since_gc
            &&& t.total_aborts == s.total_aborts
            &&& t.total_hits == s.total_hits
            &&& t.total_expired == s.total_expired
        }),
{
}

/// A request is interrupted where it was admitted before the last abort of all requests, or where
/// a registered key is the beginning of its id, and nowhere else.
pub proof fn law_interruption_rule(s: State, rid: Seq<char>, admitted: u64)
    ensures
        s.interrupts(rid, admitted) <==> (admitted < s.abort_all_epoch || exists|k: Seq<char>|
            #[trigger] s.entries.contains_key(k) && k.len() <= rid.len() && k == rid.take(
                k.len() as int,
            )),
        s.answer(rid, admitted) is Some <==> (admitted < s.abort_all_epoch || exists|k: Seq<char>|
            #[trigger] s.entries.contains_key(k) && k.len() <= rid.len() && k == rid.take(
                k.len() as int,
            )),
{
    if s.covers(rid) {
        let k = choose|k: Seq<char>| #[trigger] s.entries.contains_key(k) && k.is_prefix_of(rid);
        assert(k =~= rid.take(k.len() as int));
    }
    if exists|k: Seq<char>| #[trigger]
        s.entries.contains_key(k) && k.len() <= rid.len() && k == rid.take(k.len() as int) {
        let k = choose|k: Seq<char>| #[trigger]
            s.entries.contains_key(k) && k.len() <= rid.len() && k == rid.take(k.len() as int);
        assert(k.is_prefix_of(rid));
        assert(s.covers(rid));
    }
}

/// What a request is told. One admitted before the last abort of all requests is told of that
/// abort: no key, its epoch, and the reason for which its code stands. Any other is told of the
/// shortest registered key with which its id begins: that key, and the reason and the epoch of the
/// entry under it. A request that is not interrupted is told nothing.
pub proof fn law_answer_names_the_abort(s: State, rid: Seq<char>, admitted: u64)
    ensures
        admitted < s.abort_all_epoch ==> (s.answer(rid, admitted) matches Some(info) && {
            &&& info.key.len() == 0
            &&& info.epoch == s.abort_all_epoch
            &&& s.abort_all_code == 1 ==> info.reason == AbortReason::ClientDisconnect
            &&& s.abort_all_code == 2 ==> info.reason == AbortReason::Timeout
            &&& s.abort_all_code == 3 ==> info.reason == AbortReason::Explicit
            &&& s.abort_all_code == 4 ==> info.reason == AbortReason::Shutdown
        }),
        admitted >= s.abort_all_epoch ==> match s.answer(rid, admitted) {
            Some(info) => {
                &&& s.entries.contains_key(info.key)
                &&& info.key.len() <= rid.len()
                &&& info.key == rid.take(info.key.len() as int)
                &&& info.reason == s.entries[info.key].reason
                &&& info.epoch == s.entries[info.key].epoch
                &&& forall|n: int|
                    0 <= n < info.key.len() ==> !s.entries.contains_key(#[trigger] rid.take(n))
            },
            None => forall|n: int|
                0 <= n <= rid.len() ==> !s.entries.contains_key(#[trigger] rid.take(n)),
        },
{
    if admitted >= s.abort_all_epoch {
        if s.covers(rid) {
            crate::state::lemma_matching_key(s.entries, rid);
            let key = s.key_for(rid);
            assert(key =~= rid.take(key.len() as int));
            assert forall|n: int| 0 <= n < key.len() implies !s.entries.contains_key(
                #[trigger] rid.take(n),
            ) by {
                assert(rid.take(n).is_prefix_of(rid));
            }
        } else {
            assert forall|n: int| 0 <= n <= rid.len() implies !s.entries.contains_key(
                #[trigger] rid.take(n),
            ) by {
                assert(rid.take(n).is_prefix_of(rid));
            }
        }
    }
}

/// A check counts and does nothing else. Where the request is interrupted, one more hit is counted
/// in all, and one more for the entry whose key it is told, if it is told one. No entry comes or
/// goes, and no entry's reason, epoch or age changes.
pub proof fn law_check_counts_one_hit(s: State, rid: Seq<char>, admitted: u64)
    ensures
        ({
            let t = s.after_check(rid, admitted);
            &&& t.total_hits == if s.answer(rid, admitted) is None {
                s.total_hits as int
            } else if s.total_hits == u64::MAX {
                0
            } else {
                s.total_hits + 1
            }
            &&& forall|k: Seq<char>| #[trigger]
                t.entries.contains_key(k) <==> s.entries.contains_key(k)
            &&& forall|k: Seq<char>| #[trigger]
                s.entries.contains_key(k) ==> {
                    let counted = admitted >= s.abort_all_epoch && s.answer(rid, admitted) is Some
                        && s.answer(rid, admitted)->0.key == k;
                    &&& t.entries[k].reason == s.entries[k].reason
                    &&& t.entries[k].epoch == s.entries[k].epoch
                    &&& t.entries[k].created == s.entries[k].created
                    &&& t.entries[k].hits == if !counted {
                        s.entries[k].hits as int
                    } else if s.entries[k].hits == u32::MAX {
                        0
                    } else {
                        s.entries[k].hits + 1
                    }
                }
            &&& t.epoch == s.epoch
            &&& t.abort_all_epoch == s.abort_all_epoch
            &&& t.abort_all_code == s.abort_all_code
            &&& t.ttl == s.ttl
            &&& t.clock == s.clock
            &&& t.ops_since_gc == s.ops_since_gc
            &&& t.total_aborts == s.total_aborts
            &&& t.total_acked == s.total_acked
            &&& t.total_expired == s.total_expired
        }),
{
    if !s.precedes_abort_all(admitted) && s.covers(rid) {
        crate::state::lemma_matching_key(s.entries, rid);
    }
}

/// A batch sweep goes through the batch in order. Of an empty batch it lists nothing and counts
/// nothing. One more request at the end adds its id to the list where the request was admitted
/// before the last abort of all requests or its id begins with a registered key, and adds nothing
/// else where not; and it is counted as a check of that request alone would be.
pub proof fn law_batch_goes_in_order(
    s: State,
    reqs: Seq<(Seq<char>, u64)>,
    rid: Seq<char>,
    admitted: u64,
)
    ensures
        s.interrupted_of(Seq::empty()).len() == 0,
        s.after_checks(Seq::empty()) == s,
        s.interrupted_of(reqs.push((rid, admitted))) == if admitted < s.abort_all_epoch || exists|
            k: Seq<char>,
        | #[trigger]
            s.entries.contains_key(k) && k.len() <= rid.len() && k == rid.take(k.len() as int) {
            s.interrupted_of(reqs).push(rid)
        } else {
            s.interrupted_of(reqs)
        },
        s.after_checks(reqs.push((rid, admitted))) == s.after_checks(reqs).after_check(
            rid,
            admitted,
        ),
{
    law_interruption_rule(s, rid, admitted);
    assert(reqs.push((rid, admitted)).drop_last() =~= reqs);
}

/// The report says what the state holds: the number of entries, and each counter under its own
/// name.
pub proof fn law_report_is_faithful(s: State)
    requires
        s.entries.len() <= u64::MAX,
    ensures
        s.stats().live_entries == s.entries.len(),
        s.stats().total_aborts == s.total_aborts,
        s.stats().total_hits == s.total_hits,
        s.stats().total_acked == s.total_acked,
        s.stats().total_expired == s.total_expired,
        s.stats().epoch == s.epoch,
        s.stats().abort_all_epoch == s.abort_all_epoch,
{
}

/// The reported number of acknowledgements rises by one with each acknowledgement that finds an
/// entry, and is moved by nothing else.
pub proof fn law_reported_acks_follow_acks(s: State, op: Op)
    ensures
        s.after(op).stats().total_acked == match op {
            Op::Ack { rid } => if !s.entries.contains_key(rid) {
                s.stats().total_acked as int
            } else if s.stats().total_acked == u64::MAX {
                0
            } else {
                s.stats().total_acked + 1
            },
            _ => s.stats().total_acked as int,
        },
{
    lemma_checks_count_only(s, op);
}

/// The reported number of aborts rises by one with each abort of all requests and with each abort
/// that does not find its id registered, or finds it too old at a sweep that is due. It is moved
/// by nothing else. The reported epoch rises with it, and by one with each admission too.
pub proof fn law_reported_aborts_follow_aborts(s: State, op: Op)
    requires
        s.total_aborts < u64::MAX,
        s.epoch < u64::MAX,
    ensures
        ({
            let before = s.stats();
            let after = s.after(op).stats();
            let aborts: int = match op {
                Op::AbortAll { reason } => 1,
                Op::Abort { rid, reason, reading } => if rid.len() > 0 && s.entries.contains_key(
                    rid,
                ) && (s.ops_since_gc < 255 || ((if reading > s.clock {
                    reading
                } else {
                    s.clock
                }) - s.entries[rid].created <= s.ttl)) {
                    0
                } else {
                    1
                },
                _ => 0,
            };
            let admissions: int = if op is AdmitRequest {
                1
            } else {
                0
            };
            &&& after.total_aborts == before.total_aborts + aborts
            &&& after.epoch == before.epoch + aborts + admissions
        }),
{
    lemma_checks_count_only(s, op);
}

/// The reported number of hits rises by one with each check of an interrupted request and by the
/// number of listed requests with each batch, and is moved by nothing else.
pub proof fn law_reported_hits_follow_checks(s: State, op: Op)
    requires
        op matches Op::CheckBatch { reqs } ==> reqs.len() <= u64::MAX,
    ensures
        s.after(op).stats().total_hits == match op {
            Op::Check { rid, admitted } => (s.stats().total_hits + if s.answer(
                rid,
                admitted,
            ) is Some {
                1int
            } else {
                0
            }) % 0x1_0000_0000_0000_0000,
            Op::CheckBatch { reqs } => (s.stats().total_hits + s.interrupted_of(reqs).len())
                % 0x1_0000_0000_0000_0000,
            _ => s.stats().total_hits as int,
        },
{
    match op {
        Op::CheckBatch { reqs } => crate::laws::law_batch_counts_hits(s, reqs),
        _ => {},
    }
}

/// The reported numbers of live and of expired entries fit together: with a sweep, and with the
/// sweep that an abort brings, as many entries are counted as expired as are dropped for their
/// age, and no other operation moves the number of expired entries.
pub proof fn law_reported_expiry_follows_sweeps(s: State, op: Op)
    requires
        s.entries.dom().finite(),
        s.entries.len() <= u64::MAX,
    ensures
        ({
            let before = s.stats();
            let after = s.after(op).stats();
            &&& op is Gc ==> after.total_expired == (before.total_expired + (before.live_entries
                - after.live_entries)) % 0x1_0000_0000_0000_0000
            &&& !(op is Gc || op is Abort) ==> after.total_expired == before.total_expired
            &&& (op is Abort && s.ops_since_gc < 255) ==> after.total_expired
                == before.total_expired
            &&& (op is AdmitRequest || op is AbortAll || op is Check || op is CheckBatch)
                ==> after.live_entries == before.live_entries
        }),
{
    lemma_checks_count_only(s, op);
    match op {
        Op::Gc { reading } => law_sweep_goes_by_age(s, reading),
        _ => {},
    }
}

/// Checks, alone or in a batch, change nothing but hits.
proof fn lemma_checks_count_only(s: State, op: Op)
    ensures
        op is Check || op is CheckBatch ==> {
            let t = s.after(op);
            &&& t.entries.dom() == s.entries.dom()
            &&& t == (State { entries: t.entries, total_hits: t.total_hits, ..s })
            &&& t.entries.len() == s.entries.len()
        },
{
    match op {
        Op::Check { rid, admitted } => crate::laws::law_check_keeps_aborts(s, rid, admitted),
        Op::CheckBatch { reqs } => crate::laws::law_batch_keeps_aborts(s, reqs),
        _ => {},
    }
}

/// The reported epoch of the last abort of all requests is moved by such aborts alone.
pub proof fn law_reported_abort_all_follows_aborts_all(s: State, op: Op)
    ensures
        match op {
            Op::AbortAll { reason } => s.after(op).stats().abort_all_epoch >= s.after(
                op,
            ).stats().epoch,
            Op::Abort { rid, reason, reading } => rid.len() == 0 || s.after(
                op,
            ).stats().abort_all_epoch == s.stats().abort_all_epoch,
            _ => s.after(op).stats().abort_all_epoch == s.stats().abort_all_epoch,
        },
{
    lemma_checks_count_only(s, op);
}

/// An operation of a history does what the operation of its name does, and a history does what its
/// operations do one after the other.
pub proof fn law_histories_run_their_operations(
    s: State,
    rid: Seq<char>,
    reason: AbortReason,
    reading: u128,
    admitted: u64,
    reqs: Seq<(Seq<char>, u64)>,
    ops: Seq<Op>,
    op: Op,
)
    ensures
        s.after(Op::AdmitRequest) == s.after_admit(),
        s.after(Op::Abort { rid, reason, reading }) == s.after_abort(rid, reason, reading),
        s.after(Op::AbortAll { reason }) == s.after_abort_all(reason),
        s.after(Op::Check { rid, admitted }) == s.after_check(rid, admitted),
        s.after(Op::CheckBatch { reqs }) == s.after_checks(reqs),
        s.after(Op::Ack { rid }) == s.after_ack(rid),
        s.after(Op::Gc { reading }) == s.after_gc(reading),
        s.run(Seq::empty()) == s,
        s.run(ops.push(op)) == s.run(ops).after(op),
        forall|n: nat|
            n < ops.len() ==> #[trigger] s.at(ops, n + 1) == s.at(ops, n).after(ops[n as int]),
        s.at(ops, 0) == s,
        s.at(ops, ops.len()) == s.run(ops),
{
    assert(ops.push(op).drop_last() =~= ops);
    assert forall|n: nat| n < ops.len() implies #[trigger] s.at(ops, n + 1) == s.at(ops, n).after(
        ops[n as int],
    ) by {
        assert(ops.take((n + 1) as int).drop_last() =~= ops.take(n as int));
    }
    assert(ops.take(ops.len() as int) =~= ops);
}

/// In every state that operations lead to from a new registry, there are finitely many entries,
/// none under the empty key and none from the future, fewer than 256 aborts wait for their sweep,
/// and an abort of all requests has left the code of its reason.
pub proof fn law_every_state_is_in_order(ttl: u128, ops: Seq<Op>)
    ensures
        ({
            let s = State::fresh(ttl).run(ops);
            &&& s.entries.dom().finite()
            &&& !s.entries.contains_key(Seq::empty())
            &&& forall|k: Seq<char>| #[trigger]
                s.entries.contains_key(k) ==> s.entries[k].created <= s.clock
            &&& s.ops_since_gc < 256
            &&& s.abort_all_epoch != 0 ==> 1 <= s.abort_all_code <= 4
            &&& s.ttl == ttl
        }),
{
    assert(State::fresh(ttl).reaches(State::fresh(ttl).run(ops)));
    crate::laws::law_every_state_is_wf(ttl, State::fresh(ttl).run(ops));
}

/// What is said of a state in order.
pub proof fn law_state_in_order(s: State)
    ensures
        s.wf() <==> {
            &&& s.entries.dom().finite()
            &&& !s.entries.contains_key(Seq::empty())
            &&& forall|k: Seq<char>| #[trigger]
                s.entries.contains_key(k) ==> s.entries[k].created <= s.clock
            &&& s.ops_since_gc < 256
            &&& s.abort_all_epoch != 0 ==> 1 <= s.abort_all_code <= 4
        },
{
}

/// The table is asked for keys in the same sense: a key is too old where its age exceeds the time
/// to live, an id is covered where a key is its beginning, and the key for it is the shortest.
pub proof fn law_table_rules(
    entries: Map<Seq<char>, Entry>,
    rid: Seq<char>,
    key: Seq<char>,
    now: u128,
    ttl: u128,
)
    ensures
        crate::state::outlived_keys(entries, now, ttl).contains(key) <==> (entries.contains_key(key)
            && now > entries[key].created + ttl),
        crate::state::covered(entries, rid) <==> exists|n: int|
            0 <= n <= rid.len() && entries.contains_key(#[trigger] rid.take(n)),
        crate::state::shortest_match(entries, rid, key) <==> (entries.contains_key(key) && key.len()
            <= rid.len() && key == rid.take(key.len() as int) && forall|n: int|
            0 <= n < key.len() ==> !entries.contains_key(#[trigger] rid.take(n))),
        crate::state::covered(entries, rid) ==> crate::state::shortest_match(
            entries,
            rid,
            crate::state::matching_key(entries, rid),
        ),
        ({
            let counted = crate::state::with_hit(entries, key);
            &&& counted.dom() == entries.dom().insert(key)
            &&& forall|k: Seq<char>|
                k != key && entries.contains_key(k) ==> #[trigger] counted[k] == entries[k]
            &&& counted[key].reason == entries[key].reason
            &&& counted[key].epoch == entries[key].epoch
            &&& counted[key].created == entries[key].created
            &&& counted[key].hits == (entries[key].hits + 1) % 0x1_0000_0000
        }),
{
    if crate::state::covered(entries, rid) {
        let k = choose|k: Seq<char>| #[trigger] entries.contains_key(k) && k.is_prefix_of(rid);
        assert(k =~= rid.take(k.len() as int));
        crate::state::lemma_matching_key(entries, rid);
    }
    if exists|n: int| 0 <= n <= rid.len() && entries.contains_key(#[trigger] rid.take(n)) {
        let n = choose|n: int| 0 <= n <= rid.len() && entries.contains_key(#[trigger] rid.take(n));
        assert(rid.take(n).is_prefix_of(rid));
    }
    assert(key.is_prefix_of(rid) <==> (key.len() <= rid.len() && key == rid.take(
        key.len() as int,
    ))) by {
        if key.is_prefix_of(rid) {
            assert(key =~= rid.take(key.len() as int));
        }
    }
    if crate::state::shortest_match(entries, rid, key) {
        assert forall|n: int| 0 <= n < key.len() implies !entries.contains_key(
            #[trigger] rid.take(n),
        ) by {
            assert(rid.take(n).is_prefix_of(rid));
        }
    }
    if entries.contains_key(key) && key.is_prefix_of(rid) && (forall|n: int|
        0 <= n < key.len() ==> !entries.contains_key(#[trigger] rid.take(n))) {
        assert forall|k: Seq<char>| #[trigger]
            entries.contains_key(k) && k.is_prefix_of(rid) implies key.len() <= k.len() by {
            assert(k =~= rid.take(k.len() as int));
        }
    }
    assert(crate::state::with_hit(entries, key).dom() =~= entries.dom().insert(key));
}

/// What a caller is told has the key, the reason and the epoch that the answer has, and is nothing
/// where the answer is none.
pub proof fn law_told_in_full(info: Option<AbortInfo>)
    ensures
        match info {
            Some(i) => crate::state::told(info) == Some(
                InfoView { key: i.key@, reason: i.reason, epoch: i.epoch },
            ),
            None => crate::state::told(info) is None,
        },
{
}

/// A batch is taken, and its ids are listed, one by one and in order.
pub proof fn law_batches_in_full(reqs: Seq<(&str, u64)>, out: Seq<String>)
    ensures
        crate::state::requests(reqs).len() == reqs.len(),
        forall|i: int|
            0 <= i < reqs.len() ==> #[trigger] crate::state::requests(reqs)[i] == (
                reqs[i].0@,
                reqs[i].1,
            ),
        crate::state::texts(out).len() == out.len(),
        forall|i: int|
            0 <= i < out.len() ==> #[trigger] crate::state::texts(out)[i] == out[i]@,
{
}

/// The numbers on which the registry runs: a sweep is due with every 256th abort, and no clock
/// reads more nanoseconds than the longest length of time has.
pub proof fn law_constants()
    ensures
        crate::state::GC_EVERY_OPS == 256,
        crate::clock::MAX_NANOS == u64::MAX * 1_000_000_000 + 999_999_999,
{
}

/// A reading of the clock is the length, in nanoseconds, of a time that `Instant::elapsed` gives.
pub proof fn law_readings_are_elapsed_times(origin: std::time::Instant, reading: u128)
    ensures
        crate::clock::clock_read(origin, reading) <==> (reading <= u64::MAX * 1_000_000_000
            + 999_999_999 && exists|passed: std::time::Duration| #[trigger]
            call_ensures(std::time::Instant::elapsed, (&origin,), passed) && reading
                == crate::clock::duration_nanos(passed)),
{
}

} // verus!
