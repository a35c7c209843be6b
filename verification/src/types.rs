//! Types shared by the two chains: accounts and identifiers as plain byte
//! strings, the error taxonomy, the registration weight schedule, the
//! six-count vote tally, the cross-chain messages, and the addresses of
//! the execution chain's contracts.

use vstd::prelude::*;

verus! {

/// Why a call or an inbound message was rejected. Local calls receive the
/// error synchronously; an inbound cross-chain message that fails leaves a
/// diagnostic event behind and mutates nothing else, since there is no
/// return path to the sender.
#[derive(Clone, Copy, PartialEq, Eq, Structural, Debug)]
pub enum Error {
    /// The remote chain has not registered (or no registration was sent).
    NotRegistered,
    /// The caller's token balance does not cover the transfer.
    InsufficientBalance,
    /// The caller's approval for the staking contract does not cover the
    /// transfer.
    InsufficientAllowance,
    /// The staked amount does not cover the requested withdrawal.
    InsufficientStake,
    /// The account has no stake.
    NotStaked,
    /// No withdrawal was requested, or an earlier one already executed.
    NoWithdrawalRequested,
    /// The withdrawal lock has not expired yet.
    LockNotExpired,
    /// The query id is not the digest of the given query data.
    InvalidQueryId,
    /// The query data exceed the accepted length.
    QueryDataTooLong,
    /// The reported value exceeds the accepted length.
    ValueTooLong,
    /// The nonce does not match the number of reports for the query.
    InvalidNonce,
    /// A report for this query already carries this timestamp.
    DuplicateReport,
    /// No report stands at the given query id and timestamp.
    NoSuchReport,
    /// A dispute with this identifier was already opened.
    DisputeAlreadyOpen,
    /// No dispute carries this identifier.
    DisputeNotFound,
    /// The dispute's voting window has closed, or its tally is already out.
    VotingClosed,
    /// The six tally counts do not add up to the declared checksum.
    TallyEncodingMismatch,
    /// An inbound message contradicts this chain's view of the state.
    InconsistentState,
    /// The operation would overflow a balance or a counter.
    Overflow,
    /// The consumer of oracle data has no query configured.
    NotConfigured,
    /// No reported value is old enough to be read yet.
    NoValueAvailable,
    /// A reported value does not decode as the consumer expects.
    MalformedValue,
}

/// The weight schedule a registration announces to the remote chain: the
/// execution cost the consumer chain charges for each inbound report kind.
#[derive(Clone, Copy, PartialEq, Eq, Structural, Debug)]
pub struct Weights {
    pub report_stake_deposited: u64,
    pub report_staking_withdraw_request: u64,
    pub report_stake_withdrawn: u64,
    pub report_vote_tallied: u64,
    pub report_vote_executed: u64,
    pub report_slash: u64,
}

/// The weight schedule this implementation announces.
pub fn weight_schedule() -> (r: Weights)
    ensures
        r == spec_weight_schedule(),
{
    Weights {
        report_stake_deposited: 300_000_000,
        report_staking_withdraw_request: 300_000_000,
        report_stake_withdrawn: 300_000_000,
        report_vote_tallied: 200_000_000,
        report_vote_executed: 400_000_000,
        report_slash: 300_000_000,
    }
}

/// The announced weight schedule, as contracts see it.
pub open spec fn spec_weight_schedule() -> Weights {
    Weights {
        report_stake_deposited: 300_000_000,
        report_staking_withdraw_request: 300_000_000,
        report_stake_withdrawn: 300_000_000,
        report_vote_tallied: 200_000_000,
        report_vote_executed: 400_000_000,
        report_slash: 300_000_000,
    }
}

/// The six aggregate counts of a vote tally, in the fixed order the two
/// chains agree on: the tip-weighted user counts, then the report-counted
/// reporter counts, each split into support / against / invalid. The
/// categories' meaning is the remote contract's business; here they are
/// opaque weight buckets.
#[derive(Clone, Copy, PartialEq, Eq, Structural, Debug)]
pub struct Tally {
    pub users_support: u128,
    pub users_against: u128,
    pub users_invalid: u128,
    pub reporters_support: u128,
    pub reporters_against: u128,
    pub reporters_invalid: u128,
}

/// Addition on weight buckets: saturating, so an enormous bucket pins at
/// the maximum instead of wrapping.
pub open spec fn sat_add(a: u128, b: int) -> u128 {
    if a + b > u128::MAX {
        u128::MAX
    } else {
        (a + b) as u128
    }
}

/// The checksum sent beside a tally: its six counts folded up with
/// saturating addition, in their fixed order. The receiving chain
/// recomputes it; a mismatch means the encoding drifted.
pub open spec fn spec_tally_checksum(t: Tally) -> u128 {
    sat_add(
        sat_add(
            sat_add(
                sat_add(sat_add(t.users_support, t.users_against as int), t.users_invalid as int),
                t.reporters_support as int,
            ),
            t.reporters_against as int,
        ),
        t.reporters_invalid as int,
    )
}

/// Computes the tally checksum.
pub fn tally_checksum(t: &Tally) -> (r: u128)
    ensures
        r == spec_tally_checksum(*t),
{
    let mut acc: u128 = t.users_support;
    acc = sat_add_exec(acc, t.users_against);
    acc = sat_add_exec(acc, t.users_invalid);
    acc = sat_add_exec(acc, t.reporters_support);
    acc = sat_add_exec(acc, t.reporters_against);
    acc = sat_add_exec(acc, t.reporters_invalid);
    acc
}

/// Saturating addition on weight buckets.
pub fn sat_add_exec(a: u128, b: u128) -> (r: u128)
    ensures
        r == sat_add(a, b as int),
{
    if a <= u128::MAX - b {
        a + b
    } else {
        u128::MAX
    }
}

/// An inbound call to one of the execution chain's contracts, carried as a
/// cross-chain message from the consumer chain.
#[derive(Clone, PartialEq, Eq, Debug)]
pub enum ExecutionCall {
    /// To the registry contract: chain `para_id` registers with this weight
    /// schedule.
    Register { para_id: u32, weights: Weights },
    /// To the governance contract: chain `para_id` opened a dispute against
    /// the report at `(query_id, timestamp)`; slash the disputed reporter's
    /// stake by `fee`.
    NewDispute {
        para_id: u32,
        query_id: Vec<u8>,
        timestamp: u64,
        disputed_reporter: Vec<u8>,
        fee: u128,
    },
    /// To the governance contract: the vote tally of a dispute, with its
    /// checksum.
    VoteTally { para_id: u32, dispute_id: Vec<u8>, tally: Tally, checksum: u128 },
    /// To the staking contract: the consumer chain took note of the
    /// withdrawal request of `staker`.
    ConfirmWithdrawRequest { para_id: u32, staker: Vec<u8>, amount: u128 },
}

/// An inbound report to the consumer chain, carried as a cross-chain
/// message from the execution chain. `reporter` is the consumer-chain
/// account a stake is attributed to; `address` the execution-chain account
/// holding it.
#[derive(Clone, PartialEq, Eq, Debug)]
pub enum ConsumerCall {
    /// A stake was deposited; `amount` is the staker's new total.
    StakeReported { reporter: Vec<u8>, address: Vec<u8>, amount: u128 },
    /// A withdrawal of `amount` was requested.
    WithdrawRequestReported { reporter: Vec<u8>, address: Vec<u8>, amount: u128 },
    /// The requested withdrawal executed.
    WithdrawExecutedReported { reporter: Vec<u8> },
    /// The reporter's stake was slashed by `amount`.
    SlashReported { reporter: Vec<u8>, amount: u128 },
    /// The registry recorded this chain's registration.
    RegistrationAck { para_id: u32, contract_address: Vec<u8>, weights: Weights },
    /// The governance contract applied the dispute's vote tally.
    TallyConfirmed { dispute_id: Vec<u8> },
}

/// A 20-byte account: `b` repeated.
pub open spec fn spec_repeat_address(b: u8) -> Seq<u8> {
    Seq::new(20, |i: int| b)
}

/// The registry contract's account on the execution chain.
pub open spec fn spec_registry_address() -> Seq<u8> {
    spec_repeat_address(0xA1)
}

/// The staking contract's account on the execution chain.
pub open spec fn spec_staking_address() -> Seq<u8> {
    spec_repeat_address(0xB2)
}

/// The governance contract's account on the execution chain.
pub open spec fn spec_governance_address() -> Seq<u8> {
    spec_repeat_address(0xC3)
}

fn repeat_address(b: u8) -> (r: Vec<u8>)
    ensures
        r@ == spec_repeat_address(b),
{
    let mut r: Vec<u8> = Vec::new();
    let mut i: usize = 0;
    while i < 20
        invariant
            i <= 20,
            r@.len() == i,
            forall|j: int| 0 <= j < i ==> r@[j] == b,
        decreases 20 - i,
    {
        r.push(b);
        i = i + 1;
    }
    proof {
        assert(r@ =~= spec_repeat_address(b));
    }
    r
}

/// The registry contract's account on the execution chain.
pub fn registry_address() -> (r: Vec<u8>)
    ensures
        r@ == spec_registry_address(),
{
    repeat_address(0xA1)
}

/// The staking contract's account on the execution chain.
pub fn staking_address() -> (r: Vec<u8>)
    ensures
        r@ == spec_staking_address(),
{
    repeat_address(0xB2)
}

/// The governance contract's account on the execution chain.
pub fn governance_address() -> (r: Vec<u8>)
    ensures
        r@ == spec_governance_address(),
{
    repeat_address(0xC3)
}

} // verus!
