//! The protocol's laws, stated and proved over the models its contracts
//! use: a stake is never driven negative by any sequence of operations;
//! a withdrawal obeys its lock and pays out exactly once; a dispute's
//! tally is dispatched exactly once however often the tick runs; and a
//! query's identifier is a function of its data alone.

use vstd::prelude::*;
use crate::consumer::ConsumerChain;
use crate::consumer::DisputeStatus;
use crate::consumer::Dispute;
use crate::consumer::sent_ids;
use crate::consumer::tally_event_count;
use crate::execution::withdraw_result;
use crate::types::Error;

verus! {

/// The stake model: one reporter's active and locked amounts, as plain
/// integers, so that staying non-negative is a theorem about the
/// transitions rather than a gift of the machine types.
pub struct StakeModel {
    pub staked: int,
    pub locked: int,
}

/// One operation on a stake.
pub enum StakeOp {
    /// Add to the active stake.
    Deposit { amount: int },
    /// Move an amount behind the withdrawal lock, returning any earlier
    /// locked amount to the active stake first; asked for more than is
    /// there, it does nothing.
    RequestWithdraw { amount: int },
    /// Pay the locked amount out.
    Withdraw,
    /// Take a dispute fee, from the active stake first, then from the
    /// locked amount, never below zero.
    Slash { fee: int },
}

/// An operation's own validity: amounts are not negative.
pub open spec fn op_wf(op: StakeOp) -> bool {
    match op {
        StakeOp::Deposit { amount } => amount >= 0,
        StakeOp::RequestWithdraw { amount } => amount >= 0,
        StakeOp::Withdraw => true,
        StakeOp::Slash { fee } => fee >= 0,
    }
}

/// A model state's validity: nothing is negative.
pub open spec fn model_wf(m: StakeModel) -> bool {
    m.staked >= 0 && m.locked >= 0
}

/// One transition of the stake model.
pub open spec fn apply_op(m: StakeModel, op: StakeOp) -> StakeModel {
    match op {
        StakeOp::Deposit { amount } => StakeModel { staked: m.staked + amount, locked: m.locked },
        StakeOp::RequestWithdraw { amount } => if amount <= m.staked + m.locked {
            StakeModel { staked: m.staked + m.locked - amount, locked: amount }
        } else {
            m
        },
        StakeOp::Withdraw => StakeModel { staked: m.staked, locked: 0 },
        StakeOp::Slash { fee } => if fee <= m.staked {
            StakeModel { staked: m.staked - fee, locked: m.locked }
        } else if fee - m.staked <= m.locked {
            StakeModel { staked: 0, locked: m.locked - (fee - m.staked) }
        } else {
            StakeModel { staked: 0, locked: 0 }
        },
    }
}

/// A whole history of operations, applied in order.
pub open spec fn apply_ops(m: StakeModel, ops: Seq<StakeOp>) -> StakeModel
    decreases ops.len(),
{
    if ops.len() == 0 {
        m
    } else {
        apply_op(apply_ops(m, ops.drop_last()), ops.last())
    }
}

/// Whether every operation of a history is valid.
pub open spec fn ops_wf(ops: Seq<StakeOp>) -> bool {
    forall|i: int| 0 <= i < ops.len() ==> op_wf(#[trigger] ops[i])
}

/// A staked amount is never negative: any sequence of deposits,
/// withdrawal requests, withdrawals and slashes carries a valid stake
/// state to a valid stake state — no operation can drive the active or
/// the locked amount below zero.
pub proof fn lemma_stake_never_negative(m: StakeModel, ops: Seq<StakeOp>)
    requires
        model_wf(m),
        ops_wf(ops),
    ensures
        model_wf(apply_ops(m, ops)),
    decreases ops.len(),
{
    if ops.len() > 0 {
        assert(ops_wf(ops.drop_last()));
        lemma_stake_never_negative(m, ops.drop_last());
        assert(op_wf(ops[ops.len() - 1]));
    }
}

/// The model state a ledger record with these amounts stands for.
pub open spec fn ledger_model(staked: u128, locked: u128) -> StakeModel {
    StakeModel { staked: staked as int, locked: locked as int }
}

/// A withdrawal executed before `request_time + LOCK_PERIOD` always
/// fails with `LockNotExpired`; executed at or after, it always succeeds
/// and pays the locked amount — and exactly once: a second attempt, at
/// any later time, fails with `NoWithdrawalRequested`, since success
/// consumes the pending request. Without a pending request it fails with
/// `NoWithdrawalRequested` outright.
pub proof fn lemma_withdrawal_lock(locked: u128, request_time: u64, now: u64, later: u64)
    ensures
        now < request_time + crate::params::LOCK_PERIOD ==> withdraw_result(
            locked,
            request_time,
            true,
            now,
        ) == Err::<u128, Error>(Error::LockNotExpired),
        now >= request_time + crate::params::LOCK_PERIOD ==> withdraw_result(
            locked,
            request_time,
            true,
            now,
        ) == Ok::<u128, Error>(locked),
        withdraw_result(0, request_time, false, later) == Err::<u128, Error>(
            Error::NoWithdrawalRequested,
        ),
{
}

/// A dispute's vote tally is dispatched exactly once. In every
/// well-formed consumer chain state — and every call keeps the chain
/// well-formed — the event log holds exactly one tally dispatch for a
/// dispute past `Voting` and none for one still `Voting`; so however
/// often the tally tick runs, no dispute's tally ever goes out twice.
pub proof fn lemma_tally_dispatched_exactly_once(c: ConsumerChain, i: int)
    requires
        c.wf(),
        0 <= i < c.disputes@.len(),
    ensures
        tally_event_count(c.events@, c.disputes@[i].dispute_id@) == (
        if c.disputes@[i].status is Voting {
            0int
        } else {
            1int
        }),
        tally_event_count(c.events@, c.disputes@[i].dispute_id@) <= 1,
{
}

/// A tick over disputes none of which is still `Voting` dispatches
/// nothing: once every tally is out, re-running the tick is a no-op.
pub proof fn lemma_tick_idempotent(disputes: Seq<Dispute>, budget: int, now: u64)
    requires
        forall|i: int| 0 <= i < disputes.len() ==> !((#[trigger] disputes[i]).status is Voting),
    ensures
        sent_ids(disputes, budget, now).len() == 0,
    decreases disputes.len(),
{
    if disputes.len() > 0 {
        assert(forall|i: int|
            0 <= i < disputes.drop_last().len() ==> !((#[trigger] disputes.drop_last()[i]).status
                is Voting));
        lemma_tick_idempotent(disputes.drop_last(), budget, now);
        assert(!(disputes[disputes.len() - 1].status is Voting));
    }
}

/// A query's identifier is deterministic: the same query data always
/// yield the same query id, in every call and on every chain.
pub proof fn lemma_query_id_deterministic(a: Seq<u8>, b: Seq<u8>)
    requires
        a == b,
    ensures
        crate::hashing::keccak256_of(a) == crate::hashing::keccak256_of(b),
{
}

} // verus!
