//! Calls told apart by number.
//!
//! A call on a shared registry says which operation it may perform. Verus keeps such a list for
//! every function, as numbers after `opens_invariants`, and refuses a body that calls anything with
//! a number that is not on it. So every operation gets a number of its own here. The clock's
//! reading is left out of it: a call does not know beforehand what it will read.
use vstd::prelude::*;

use crate::state::Op;

verus! {

/// A character as a number above 0.
pub open spec fn letter(c: char) -> nat {
    c as u32 as nat + 1
}

/// The characters of a text as numbers above 0.
pub open spec fn letters(text: Seq<char>) -> Seq<nat> {
    text.map_values(|c: char| letter(c))
}

/// A batch of requests as numbers: for each the characters of its id, a 0 and its epoch.
pub open spec fn batch(reqs: Seq<(Seq<char>, u64)>) -> Seq<nat>
    decreases reqs.len(),
{
    if reqs.len() == 0 {
        Seq::empty()
    } else {
        letters(reqs[0].0) + (seq![0nat, reqs[0].1 as nat] + batch(reqs.drop_first()))
    }
}

/// What is asked for by an operation, as numbers: its kind, then what it is about.
pub open spec fn asked(op: Op) -> Seq<nat> {
    match op {
        Op::AdmitRequest => seq![0nat],
        Op::Abort { rid, reason, reading } => seq![1nat, reason.code() as nat] + letters(rid),
        Op::AbortAll { reason } => seq![2nat, reason.code() as nat],
        Op::Check { rid, admitted } => seq![3nat, admitted as nat] + letters(rid),
        Op::CheckBatch { reqs } => seq![4nat] + batch(reqs),
        Op::Ack { rid } => seq![5nat] + letters(rid),
        Op::Gc { reading } => seq![6nat],
    }
}

/// One number for a sequence of them, none of which exceeds 64 bits.
pub open spec fn joined(numbers: Seq<nat>) -> int
    decreases numbers.len(),
{
    if numbers.len() == 0 {
        0
    } else {
        joined(numbers.drop_last()) * 0x1_0000_0000_0000_0001 + numbers.last() + 1
    }
}

/// The number of an operation.
pub open spec fn mark(op: Op) -> int {
    joined(asked(op))
}

/// Whether two operations are one call, made perhaps at different times.
pub open spec fn same_call(a: Op, b: Op) -> bool {
    match (a, b) {
        (
            Op::Abort { rid, reason, reading },
            Op::Abort { rid: rid2, reason: reason2, reading: reading2 },
        ) => rid == rid2 && reason == reason2,
        (Op::Gc { reading }, Op::Gc { reading: reading2 }) => true,
        _ => a == b,
    }
}

/// Whether all of `numbers` fit 64 bits.
spec fn small(numbers: Seq<nat>) -> bool {
    forall|i: int| 0 <= i < numbers.len() ==> #[trigger] numbers[i] <= u64::MAX
}

proof fn lemma_joined_positive(a: Seq<nat>)
    ensures
        joined(a) >= 0,
        a.len() > 0 ==> joined(a) > 0,
    decreases a.len(),
{
    if a.len() > 0 {
        lemma_joined_positive(a.drop_last());
    }
}

/// Different sequences have different numbers.
proof fn lemma_joined_injective(a: Seq<nat>, b: Seq<nat>)
    requires
        small(a),
        small(b),
        joined(a) == joined(b),
    ensures
        a == b,
    decreases a.len(),
{
    lemma_joined_positive(a);
    lemma_joined_positive(b);
    if a.len() == 0 || b.len() == 0 {
        assert(a =~= b);
    } else {
        let x = joined(a.drop_last());
        let y = joined(b.drop_last());
        assert(a.last() == a[a.len() - 1] && b.last() == b[b.len() - 1]);
        assert(x == y);
        assert forall|i: int| 0 <= i < a.drop_last().len() implies #[trigger] a.drop_last()[i]
            <= u64::MAX by {
            assert(a.drop_last()[i] == a[i]);
        }
        assert forall|i: int| 0 <= i < b.drop_last().len() implies #[trigger] b.drop_last()[i]
            <= u64::MAX by {
            assert(b.drop_last()[i] == b[i]);
        }
        lemma_joined_injective(a.drop_last(), b.drop_last());
        assert(a =~= a.drop_last().push(a.last()));
        assert(b =~= b.drop_last().push(b.last()));
    }
}

proof fn lemma_letter_injective(a: char, b: char)
    requires
        letter(a) == letter(b),
    ensures
        a == b,
{
}

/// Different texts have different letters.
proof fn lemma_letters_injective(a: Seq<char>, b: Seq<char>)
    requires
        letters(a) == letters(b),
    ensures
        a == b,
{
    assert(a.len() == letters(a).len() && b.len() == letters(b).len());
    assert forall|i: int| 0 <= i < a.len() implies a[i] == b[i] by {
        assert(letters(a)[i] == letter(a[i]));
        assert(letters(b)[i] == letter(b[i]));
        lemma_letter_injective(a[i], b[i]);
    }
    assert(a =~= b);
}

/// Different batches have different numbers.
proof fn lemma_batch_injective(a: Seq<(Seq<char>, u64)>, b: Seq<(Seq<char>, u64)>)
    requires
        batch(a) == batch(b),
    ensures
        a == b,
    decreases a.len(),
{
    if a.len() == 0 || b.len() == 0 {
        if a.len() > 0 {
            assert(batch(a).len() > 0);
        }
        if b.len() > 0 {
            assert(batch(b).len() > 0);
        }
        assert(a =~= b);
    } else {
        let x = letters(a[0].0);
        let y = letters(b[0].0);
        let w = batch(a);
        let end = x.len() as int;
        assert(w[end] == 0);
        assert(w[y.len() as int] == 0);
        assert forall|i: int| 0 <= i < x.len() implies w[i] > 0 by {
            assert(w[i] == x[i]);
        }
        assert forall|i: int| 0 <= i < y.len() implies w[i] > 0 by {
            assert(w[i] == y[i]);
        }
        assert(x.len() == y.len());
        assert(x =~= y) by {
            assert forall|i: int| 0 <= i < x.len() implies x[i] == y[i] by {
                assert(w[i] == x[i] && w[i] == y[i]);
            }
        }
        lemma_letters_injective(a[0].0, b[0].0);
        assert(w[end + 1] == a[0].1 as nat);
        assert(w[end + 1] == b[0].1 as nat);
        assert(w.skip(end + 2) =~= batch(a.drop_first()));
        assert(w.skip(end + 2) =~= batch(b.drop_first()));
        lemma_batch_injective(a.drop_first(), b.drop_first());
        assert(a =~= seq![a[0]] + a.drop_first());
        assert(b =~= seq![b[0]] + b.drop_first());
    }
}

proof fn lemma_batch_small(reqs: Seq<(Seq<char>, u64)>)
    ensures
        small(batch(reqs)),
    decreases reqs.len(),
{
    if reqs.len() > 0 {
        let text = letters(reqs[0].0);
        let rest = batch(reqs.drop_first());
        lemma_batch_small(reqs.drop_first());
        assert forall|i: int| 0 <= i < batch(reqs).len() implies #[trigger] batch(reqs)[i]
            <= u64::MAX by {
            if i < text.len() {
                assert(batch(reqs)[i] == letter(reqs[0].0[i]));
            } else if i >= text.len() + 2 {
                assert(batch(reqs)[i] == rest[i - text.len() - 2]);
            }
        }
    }
}

/// Two operations are one call only where they are of one kind and about the same ids, epochs and
/// reasons; an operation is one call with itself.
pub proof fn law_one_call_asks_one_thing(a: Op, b: Op)
    ensures
        same_call(a, a),
        same_call(a, b) ==> match a {
            Op::AdmitRequest => b is AdmitRequest,
            Op::Abort { rid, reason, reading } => b is Abort && b->Abort_rid == rid
                && b->Abort_reason == reason,
            Op::AbortAll { reason } => b is AbortAll && b->AbortAll_reason == reason,
            Op::Check { rid, admitted } => b is Check && b->Check_rid == rid && b->admitted
                == admitted,
            Op::CheckBatch { reqs } => b is CheckBatch && b->reqs == reqs,
            Op::Ack { rid } => b is Ack && b->Ack_rid == rid,
            Op::Gc { reading } => b is Gc,
        },
{
}

/// Operations have the same number exactly where they are the same call: the same operation, about
/// the same ids, epochs and reasons.
pub proof fn law_calls_are_told_apart(a: Op, b: Op)
    ensures
        mark(a) == mark(b) <==> same_call(a, b),
{
    if mark(a) == mark(b) {
        let x = asked(a);
        let y = asked(b);
        lemma_asked_small(a);
        lemma_asked_small(b);
        lemma_joined_injective(x, y);
        assert(x[0] == y[0]);
        match (a, b) {
            (
                Op::Abort { rid, reason, reading },
                Op::Abort { rid: rid2, reason: reason2, reading: reading2 },
            ) => {
                assert(x[1] == y[1]);
                assert(x.skip(2) =~= letters(rid));
                assert(y.skip(2) =~= letters(rid2));
                lemma_letters_injective(rid, rid2);
            },
            (Op::AbortAll { reason }, Op::AbortAll { reason: reason2 }) => {
                assert(x[1] == y[1]);
            },
            (Op::Check { rid, admitted }, Op::Check { rid: rid2, admitted: admitted2 }) => {
                assert(x[1] == y[1]);
                assert(x.skip(2) =~= letters(rid));
                assert(y.skip(2) =~= letters(rid2));
                lemma_letters_injective(rid, rid2);
            },
            (Op::CheckBatch { reqs }, Op::CheckBatch { reqs: reqs2 }) => {
                assert(x.skip(1) =~= batch(reqs));
                assert(y.skip(1) =~= batch(reqs2));
                lemma_batch_injective(reqs, reqs2);
            },
            (Op::Ack { rid }, Op::Ack { rid: rid2 }) => {
                assert(x.skip(1) =~= letters(rid));
                assert(y.skip(1) =~= letters(rid2));
                lemma_letters_injective(rid, rid2);
            },
            _ => {},
        }
    }
}

proof fn lemma_asked_small(op: Op)
    ensures
        small(asked(op)),
{
    match op {
        Op::CheckBatch { reqs } => {
            lemma_batch_small(reqs);
            assert forall|i: int| 0 <= i < asked(op).len() implies #[trigger] asked(op)[i]
                <= u64::MAX by {
                if i > 0 {
                    assert(asked(op)[i] == batch(reqs)[i - 1]);
                }
            }
        },
        _ => {},
    }
}

} // verus!
