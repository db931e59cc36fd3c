use vstd::prelude::*;

use crate::service::add_post;
use crate::service::bet_post;
use crate::service::claim_one_post;
use crate::store::Reservations;
use crate::types::ReservationError;
use crate::types::Transfer;

verus! {

/// A run of `bet` calls against one slot: `states` are the books before and
/// after each call, `calls` the (bidder, amount) of each call, `results`
/// what each call returned.
pub open spec fn bet_trace(
    states: Seq<Reservations>,
    owner: Seq<char>,
    slot_time: u64,
    calls: Seq<(Seq<char>, u128)>,
    results: Seq<Result<Option<Transfer>, ReservationError>>,
) -> bool {
    &&& states.len() == calls.len() + 1
    &&& results.len() == calls.len()
    &&& forall|i: int|
        0 <= i < calls.len() ==> #[trigger] bet_post(
            states[i],
            states[i + 1],
            owner,
            slot_time,
            calls[i].0,
            calls[i].1,
            results[i],
        )
}

/// The amount the book holds in escrow for one slot: its winning bid, or
/// zero while the slot is absent or has no winner.
pub open spec fn escrow_amount(s: Reservations, owner: Seq<char>, slot_time: u64) -> u128 {
    if s.has_slot(owner, slot_time) {
        match s.slot_at(owner, slot_time).winner {
            Some(w) => w.amount,
            None => 0,
        }
    } else {
        0
    }
}

/// The sum of all refund transfers a run of `bet` calls requested.
pub open spec fn refund_total(
    results: Seq<Result<Option<Transfer>, ReservationError>>,
) -> int
    decreases results.len(),
{
    if results.len() == 0 {
        0
    } else {
        refund_total(results.drop_last()) + (match results.last() {
            Ok(Some(tr)) => tr.amount as int,
            _ => 0,
        })
    }
}

/// The sum of the amounts of the accepted bids in a run of `bet` calls.
pub open spec fn accepted_total(
    calls: Seq<(Seq<char>, u128)>,
    results: Seq<Result<Option<Transfer>, ReservationError>>,
) -> int
    decreases calls.len(),
{
    if calls.len() == 0 || results.len() == 0 {
        0
    } else {
        accepted_total(calls.drop_last(), results.drop_last()) + (if results.last() is Ok {
            calls.last().1 as int
        } else {
            0
        })
    }
}

/// One `bet` call never lowers the amount held in escrow for the slot.
pub proof fn lemma_bet_step_monotonic(
    pre: Reservations,
    post: Reservations,
    owner: Seq<char>,
    slot_time: u64,
    caller: Seq<char>,
    amount: u128,
    r: Result<Option<Transfer>, ReservationError>,
)
    requires
        bet_post(pre, post, owner, slot_time, caller, amount, r),
    ensures
        escrow_amount(pre, owner, slot_time) <= escrow_amount(post, owner, slot_time),
{
}

/// Across any run of `bet` calls on one slot, the stored winning amount is
/// monotonically non-decreasing: at every later point of the run the slot
/// holds at least as much as at every earlier one.
pub proof fn lemma_bet_trace_monotonic(
    states: Seq<Reservations>,
    owner: Seq<char>,
    slot_time: u64,
    calls: Seq<(Seq<char>, u128)>,
    results: Seq<Result<Option<Transfer>, ReservationError>>,
    i: int,
    j: int,
)
    requires
        bet_trace(states, owner, slot_time, calls, results),
        0 <= i <= j < states.len(),
    ensures
        escrow_amount(states[i], owner, slot_time)
            <= escrow_amount(states[j], owner, slot_time),
    decreases j - i,
{
    if i < j {
        lemma_bet_trace_monotonic(states, owner, slot_time, calls, results, i, j - 1);
        assert(bet_post(
            states[j - 1],
            states[(j - 1) + 1],
            owner,
            slot_time,
            calls[j - 1].0,
            calls[j - 1].1,
            results[j - 1],
        ));
        lemma_bet_step_monotonic(
            states[j - 1],
            states[j],
            owner,
            slot_time,
            calls[j - 1].0,
            calls[j - 1].1,
            results[j - 1],
        );
    }
}

/// Escrow conservation across any run of `bet` calls on one slot: the
/// refunds requested plus what stays in escrow equal the accepted bids plus
/// what was in escrow at the start. Every displaced amount — each accepted
/// amount except the one still held at the end — has been refunded exactly
/// once; no value is destroyed or duplicated.
pub proof fn lemma_bet_trace_conservation(
    states: Seq<Reservations>,
    owner: Seq<char>,
    slot_time: u64,
    calls: Seq<(Seq<char>, u128)>,
    results: Seq<Result<Option<Transfer>, ReservationError>>,
)
    requires
        bet_trace(states, owner, slot_time, calls, results),
    ensures
        refund_total(results) + escrow_amount(states.last(), owner, slot_time)
            == accepted_total(calls, results)
                + escrow_amount(states[0], owner, slot_time),
    decreases calls.len(),
{
    if calls.len() == 0 {
        assert(states.last() == states[0]);
    } else {
        let n = calls.len() as int;
        let pstates = states.drop_last();
        let pcalls = calls.drop_last();
        let presults = results.drop_last();
        assert(bet_trace(pstates, owner, slot_time, pcalls, presults)) by {
            assert forall|i: int| 0 <= i < pcalls.len() implies #[trigger] bet_post(
                pstates[i],
                pstates[i + 1],
                owner,
                slot_time,
                pcalls[i].0,
                pcalls[i].1,
                presults[i],
            ) by {
                assert(pstates[i] == states[i]);
                assert(pstates[i + 1] == states[i + 1]);
                assert(pcalls[i] == calls[i]);
                assert(presults[i] == results[i]);
                assert(bet_post(
                    states[i],
                    states[i + 1],
                    owner,
                    slot_time,
                    calls[i].0,
                    calls[i].1,
                    results[i],
                ));
            }
        }
        lemma_bet_trace_conservation(pstates, owner, slot_time, pcalls, presults);
        assert(bet_post(
            states[n - 1],
            states[(n - 1) + 1],
            owner,
            slot_time,
            calls[n - 1].0,
            calls[n - 1].1,
            results[n - 1],
        ));
        assert(pstates.last() == states[n - 1]);
        assert(states.last() == states[n]);
    }
}

/// Across any run of `bet` calls on a slot that starts with no winner, the
/// refunds requested sum to exactly the displaced bid amounts: every
/// accepted amount except the one still held in escrow at the end.
pub proof fn lemma_bet_trace_refunds_displaced(
    states: Seq<Reservations>,
    owner: Seq<char>,
    slot_time: u64,
    calls: Seq<(Seq<char>, u128)>,
    results: Seq<Result<Option<Transfer>, ReservationError>>,
)
    requires
        bet_trace(states, owner, slot_time, calls, results),
        escrow_amount(states[0], owner, slot_time) == 0,
    ensures
        refund_total(results) == accepted_total(calls, results)
            - escrow_amount(states.last(), owner, slot_time),
{
    lemma_bet_trace_conservation(states, owner, slot_time, calls, results);
}

/// A second `add_slot` at the same (owner, slot_time) always fails with
/// `SlotAlreadyExists` and leaves the book — the first slot's metadata
/// included — exactly as the first call left it.
pub proof fn lemma_add_slot_rejects_duplicate(
    s0: Reservations,
    s1: Reservations,
    s2: Reservations,
    owner: Seq<char>,
    slot_time: u64,
    m1: Seq<char>,
    m2: Seq<char>,
    r1: Result<(), ReservationError>,
    r2: Result<(), ReservationError>,
)
    requires
        add_post(s0, s1, owner, slot_time, m1, r1),
        add_post(s1, s2, owner, slot_time, m2, r2),
        r1 is Ok,
    ensures
        r2 == Result::<(), ReservationError>::Err(ReservationError::SlotAlreadyExists),
        s2 == s1,
        s2.slot_at(owner, slot_time).metadata == m1,
{
    if r2 is Ok {
        assert(!s1.has_slot(owner, slot_time));
        assert(false);
    }
}

/// A `claim_and_remove_slot` immediately repeated never pays twice: the
/// second, identical call returns no payment and changes nothing.
pub proof fn lemma_claim_and_remove_slot_idempotent(
    s0: Reservations,
    s1: Reservations,
    s2: Reservations,
    caller: Seq<char>,
    slot_time: u64,
    r1: Option<Transfer>,
    r2: Option<Transfer>,
)
    requires
        claim_one_post(s0, s1, caller, slot_time, r1),
        claim_one_post(s1, s2, caller, slot_time, r2),
    ensures
        r2 is None,
        s2 == s1,
{
    if r2 is Some {
        assert(s1.has_slot(caller, slot_time));
        assert(false);
    }
}

} // verus!
