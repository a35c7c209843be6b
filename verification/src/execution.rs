//! The execution chain: it custodies the bridged stake asset and hosts the
//! three contracts the consumer chain talks to. The staking contract keeps
//! per-(chain, staker) stake records and enforces the withdrawal lock; the
//! registry records which chains registered; the governance contract
//! applies inbound disputes (slashing the disputed reporter) and vote
//! tallies. Every applied change goes back to the consumer chain as a
//! message in the outbox.

use vstd::prelude::*;
use crate::codec::bytes_eq;
use crate::codec::clone_bytes;
use crate::store::appended;
use crate::store::lemma_appended_push;
use crate::store::lemma_appended_push2;
use crate::store::lemma_map_of_index;
use crate::store::lemma_map_of_push;
use crate::store::lemma_map_of_update;
use crate::store::lemma_map_of_contains;
use crate::store::lemma_unique_push;
use crate::store::lemma_unique_update;
use crate::store::map_of;
use crate::store::unique_keys;
use crate::types::ConsumerCall;
use crate::types::Error;
use crate::types::Weights;

verus! {

/// One account's balance of the bridged asset.
#[derive(Clone, PartialEq, Eq, Debug)]
pub struct BalanceRecord {
    pub account: Vec<u8>,
    pub amount: u128,
}

/// What `owner` lets `spender` transfer on their behalf.
#[derive(Clone, PartialEq, Eq, Debug)]
pub struct AllowanceRecord {
    pub owner: Vec<u8>,
    pub spender: Vec<u8>,
    pub amount: u128,
}

/// The staking contract's record for one staker on behalf of one remote
/// chain: the bound consumer-chain reporter account, the active stake,
/// and the amount locked behind a pending withdrawal with its timer.
#[derive(Clone, PartialEq, Eq, Debug)]
pub struct StakeInfo {
    pub staker: Vec<u8>,
    pub para_id: u32,
    pub reporter: Vec<u8>,
    pub staked: u128,
    pub locked: u128,
    pub request_time: u64,
    pub has_request: bool,
}

/// The registry contract's record of one registered chain.
#[derive(Clone, PartialEq, Eq, Debug)]
pub struct RegistrationRecord {
    pub para_id: u32,
    pub weights: Weights,
}

/// The governance contract's bookkeeping for one dispute: whether its vote
/// tally already arrived and was applied.
#[derive(Clone, PartialEq, Eq, Debug)]
pub struct GovDispute {
    pub dispute_id: Vec<u8>,
    pub tallied: bool,
}

/// What the execution chain announces in its append-only event log.
#[derive(Clone, PartialEq, Eq, Debug)]
pub enum ExecutionEvent {
    /// The registry recorded a chain's registration.
    ParachainRegistered { para_id: u32 },
    /// A stake was deposited.
    NewStaker { staker: Vec<u8>, amount: u128 },
    /// The deposit, attributed to a remote chain and its reporter account.
    NewParachainStaker { para_id: u32, staker: Vec<u8>, reporter: Vec<u8>, amount: u128 },
    /// A withdrawal was requested.
    StakeWithdrawRequested { staker: Vec<u8>, amount: u128 },
    /// The request, attributed to a remote chain.
    ParachainStakeWithdrawRequested { para_id: u32, reporter: Vec<u8>, amount: u128 },
    /// The consumer chain confirmed that it saw the request.
    ParachainStakeWithdrawRequestConfirmed { para_id: u32, staker: Vec<u8>, amount: u128 },
    /// The locked stake was withdrawn.
    StakeWithdrawn { staker: Vec<u8> },
    /// The withdrawal, attributed to a remote chain.
    ParachainStakeWithdrawn { para_id: u32, staker: Vec<u8> },
    /// The governance contract slashed a disputed reporter's stake.
    ParachainReporterSlashed { para_id: u32, reporter: Vec<u8>, recipient: Vec<u8>, amount: u128 },
    /// The governance contract opened a dispute relayed from a chain.
    NewParachainDispute { para_id: u32, query_id: Vec<u8>, timestamp: u64, reporter: Vec<u8> },
    /// The governance contract applied a dispute's vote tally.
    ParachainVoted { dispute_id: Vec<u8>, tally: crate::types::Tally },
    /// An inbound message contradicted local state and was dropped.
    InboundMessageDropped { error: Error },
}

/// The execution chain's whole state.
pub struct ExecutionChain {
    pub para_id: u32,
    pub now: u64,
    pub balances: Vec<BalanceRecord>,
    pub allowances: Vec<AllowanceRecord>,
    pub stakes: Vec<StakeInfo>,
    pub registered: Vec<RegistrationRecord>,
    pub gov_disputes: Vec<GovDispute>,
    pub events: Vec<ExecutionEvent>,
    pub outbox: Vec<ConsumerCall>,
}

/// The key of a balance record: its account.
pub open spec fn balance_key() -> spec_fn(BalanceRecord) -> Seq<u8> {
    |b: BalanceRecord| b.account@
}

/// The data of a balance record: the amount.
pub open spec fn balance_val() -> spec_fn(BalanceRecord) -> u128 {
    |b: BalanceRecord| b.amount
}

/// The key of an allowance record: owner and spender.
pub open spec fn allowance_key() -> spec_fn(AllowanceRecord) -> (Seq<u8>, Seq<u8>) {
    |a: AllowanceRecord| (a.owner@, a.spender@)
}

/// The data of an allowance record: the amount.
pub open spec fn allowance_val() -> spec_fn(AllowanceRecord) -> u128 {
    |a: AllowanceRecord| a.amount
}

/// The key of a stake record: staker and remote chain.
pub open spec fn exec_stake_key() -> spec_fn(StakeInfo) -> (Seq<u8>, u32) {
    |s: StakeInfo| (s.staker@, s.para_id)
}

/// The data of a stake record: the bound reporter, the active and locked
/// amounts, the request timer, and whether a withdrawal is pending.
pub open spec fn exec_stake_val() -> spec_fn(StakeInfo) -> (Seq<u8>, u128, u128, u64, bool) {
    |s: StakeInfo| (s.reporter@, s.staked, s.locked, s.request_time, s.has_request)
}

/// The key of a registration record: the chain.
pub open spec fn registration_key() -> spec_fn(RegistrationRecord) -> u32 {
    |r: RegistrationRecord| r.para_id
}

/// The data of a registration record: the weight schedule.
pub open spec fn registration_val() -> spec_fn(RegistrationRecord) -> Weights {
    |r: RegistrationRecord| r.weights
}

/// The key of a governance dispute record: its identifier.
pub open spec fn gov_dispute_key() -> spec_fn(GovDispute) -> Seq<u8> {
    |d: GovDispute| d.dispute_id@
}

/// The data of a governance dispute record: whether its tally was applied.
pub open spec fn gov_dispute_val() -> spec_fn(GovDispute) -> bool {
    |d: GovDispute| d.tallied
}

/// The balance store as a map: account to amount; an absent account holds
/// nothing.
pub open spec fn balances_map(s: Seq<BalanceRecord>) -> Map<Seq<u8>, u128> {
    map_of(s, balance_key(), balance_val())
}

/// An account's balance, zero when absent.
pub open spec fn balance_of(s: Seq<BalanceRecord>, account: Seq<u8>) -> u128 {
    if balances_map(s).contains_key(account) {
        balances_map(s)[account]
    } else {
        0
    }
}

/// The allowance store as a map: (owner, spender) to amount.
pub open spec fn allowances_map(s: Seq<AllowanceRecord>) -> Map<(Seq<u8>, Seq<u8>), u128> {
    map_of(s, allowance_key(), allowance_val())
}

/// An owner's allowance for a spender, zero when absent.
pub open spec fn allowance_of(s: Seq<AllowanceRecord>, owner: Seq<u8>, spender: Seq<u8>) -> u128 {
    if allowances_map(s).contains_key((owner, spender)) {
        allowances_map(s)[(owner, spender)]
    } else {
        0
    }
}

/// The stake store as a map: (staker, chain) to its record data.
pub open spec fn exec_stakes_map(s: Seq<StakeInfo>) -> Map<
    (Seq<u8>, u32),
    (Seq<u8>, u128, u128, u64, bool),
> {
    map_of(s, exec_stake_key(), exec_stake_val())
}

/// The registry as a map: chain to weight schedule.
pub open spec fn registered_map(s: Seq<RegistrationRecord>) -> Map<u32, Weights> {
    map_of(s, registration_key(), registration_val())
}

/// The governance dispute store as a map: dispute id to whether its tally
/// was applied.
pub open spec fn gov_disputes_map(s: Seq<GovDispute>) -> Map<Seq<u8>, bool> {
    map_of(s, gov_dispute_key(), gov_dispute_val())
}

impl ExecutionChain {
    /// The chain's invariant: keyed stores have distinct keys, and every
    /// pending withdrawal's timer lies in the past.
    pub open spec fn wf(self) -> bool {
        &&& unique_keys(self.balances@, balance_key())
        &&& unique_keys(self.allowances@, allowance_key())
        &&& unique_keys(self.stakes@, exec_stake_key())
        &&& unique_keys(self.registered@, registration_key())
        &&& unique_keys(self.gov_disputes@, gov_dispute_key())
        &&& forall|i: int|
            0 <= i < self.stakes@.len() ==> ((#[trigger] self.stakes@[i]).has_request
                ==> self.stakes@[i].request_time <= self.now)
    }

    /// Configuration that no call touches.
    pub open spec fn same_config(self, other: ExecutionChain) -> bool {
        &&& self.para_id == other.para_id
        &&& self.now == other.now
    }

    /// A fresh chain at genesis: its own id, the genesis clock, and
    /// nothing else.
    pub fn new(para_id: u32, genesis_time: u64) -> (r: ExecutionChain)
        ensures
            r.wf(),
            r.para_id == para_id,
            r.now == genesis_time,
            r.balances@.len() == 0,
            r.allowances@.len() == 0,
            r.stakes@.len() == 0,
            r.registered@.len() == 0,
            r.gov_disputes@.len() == 0,
            r.events@.len() == 0,
            r.outbox@.len() == 0,
    {
        ExecutionChain {
            para_id,
            now: genesis_time,
            balances: Vec::new(),
            allowances: Vec::new(),
            stakes: Vec::new(),
            registered: Vec::new(),
            gov_disputes: Vec::new(),
            events: Vec::new(),
            outbox: Vec::new(),
        }
    }

    /// Advances this chain's clock by `secs`, saturating at the end of
    /// time. The clock only ever moves forward.
    pub fn advance_time(&mut self, secs: u64)
        requires
            old(self).wf(),
        ensures
            final(self).wf(),
            final(self).now == if old(self).now + secs <= u64::MAX {
                (old(self).now + secs) as u64
            } else {
                u64::MAX
            },
            final(self).now >= old(self).now,
            final(self).para_id == old(self).para_id,
            final(self).balances == old(self).balances,
            final(self).allowances == old(self).allowances,
            final(self).stakes == old(self).stakes,
            final(self).registered == old(self).registered,
            final(self).gov_disputes == old(self).gov_disputes,
            final(self).events == old(self).events,
            final(self).outbox == old(self).outbox,
    {
        if self.now <= u64::MAX - secs {
            self.now = self.now + secs;
        } else {
            self.now = u64::MAX;
        }
    }

    /// Hands the queued outbound messages over, in order, and empties the
    /// outbox; the harness delivers them to the consumer chain.
    pub fn take_outbox(&mut self) -> (r: Vec<ConsumerCall>)
        requires
            old(self).wf(),
        ensures
            final(self).wf(),
            r@ == old(self).outbox@,
            final(self).outbox@.len() == 0,
            final(self).same_config(*old(self)),
            final(self).balances == old(self).balances,
            final(self).allowances == old(self).allowances,
            final(self).stakes == old(self).stakes,
            final(self).registered == old(self).registered,
            final(self).gov_disputes == old(self).gov_disputes,
            final(self).events == old(self).events,
    {
        let r = self.outbox.split_off(0);
        proof {
            assert(r@ =~= old(self).outbox@);
            assert(final(self).outbox@ =~= Seq::<ConsumerCall>::empty());
        }
        r
    }

    /// Mints bridged tokens to an account. The balance must not overflow.
    pub fn mint(&mut self, to: Vec<u8>, amount: u128) -> (r: Result<(), Error>)
        requires
            old(self).wf(),
        ensures
            final(self).wf(),
            r == if balance_of(old(self).balances@, to@) + amount > u128::MAX {
                Err::<(), Error>(Error::Overflow)
            } else {
                Ok::<(), Error>(())
            },
            r is Ok ==> balances_map(final(self).balances@) == balances_map(
                old(self).balances@,
            ).insert(to@, (balance_of(old(self).balances@, to@) + amount) as u128),
            r is Err ==> final(self).balances == old(self).balances,
            final(self).same_config(*old(self)),
            final(self).allowances == old(self).allowances,
            final(self).stakes == old(self).stakes,
            final(self).registered == old(self).registered,
            final(self).gov_disputes == old(self).gov_disputes,
            final(self).events == old(self).events,
            final(self).outbox == old(self).outbox,
    {
        credit_balance(&mut self.balances, to, amount)
    }

    /// Lets `spender` transfer up to `amount` of the caller's tokens: the
    /// allowance is set outright, as token contracts do.
    pub fn approve(&mut self, owner: Vec<u8>, spender: Vec<u8>, amount: u128)
        requires
            old(self).wf(),
        ensures
            final(self).wf(),
            allowances_map(final(self).allowances@) == allowances_map(
                old(self).allowances@,
            ).insert((owner@, spender@), amount),
            final(self).same_config(*old(self)),
            final(self).balances == old(self).balances,
            final(self).stakes == old(self).stakes,
            final(self).registered == old(self).registered,
            final(self).gov_disputes == old(self).gov_disputes,
            final(self).events == old(self).events,
            final(self).outbox == old(self).outbox,
    {
        let record = AllowanceRecord { owner, spender, amount };
        let found = find_allowance(&self.allowances, &record.owner, &record.spender);
        match found {
            Some(i) => {
                proof {
                    lemma_unique_update(old(self).allowances@, allowance_key(), i as int, record);
                    lemma_map_of_update(
                        old(self).allowances@,
                        allowance_key(),
                        allowance_val(),
                        i as int,
                        record,
                    );
                }
                self.allowances[i] = record;
            },
            None => {
                proof {
                    lemma_unique_push(old(self).allowances@, allowance_key(), record);
                    lemma_map_of_push(
                        old(self).allowances@,
                        allowance_key(),
                        allowance_val(),
                        record,
                    );
                }
                self.allowances.push(record);
            },
        }
    }

    /// The registry's entry point: records (or overwrites) a chain's
    /// registration, announces it, and acknowledges it back to the chain.
    pub fn register_parachain(&mut self, para_id: u32, weights: Weights)
        requires
            old(self).wf(),
        ensures
            final(self).wf(),
            registered_map(final(self).registered@) == registered_map(
                old(self).registered@,
            ).insert(para_id, weights),
            appended(old(self).events@, final(self).events@, 1),
            (final(self).events@.last() matches ExecutionEvent::ParachainRegistered {
                para_id: p,
            } && p == para_id),
            appended(old(self).outbox@, final(self).outbox@, 1),
            (final(self).outbox@.last() matches ConsumerCall::RegistrationAck {
                para_id: p,
                contract_address,
                weights: w,
            } && p == old(self).para_id && contract_address@
                == crate::types::spec_registry_address() && w == weights),
            final(self).same_config(*old(self)),
            final(self).balances == old(self).balances,
            final(self).allowances == old(self).allowances,
            final(self).stakes == old(self).stakes,
            final(self).gov_disputes == old(self).gov_disputes,
    {
        let record = RegistrationRecord { para_id, weights };
        let found = find_registration(&self.registered, para_id);
        match found {
            Some(i) => {
                proof {
                    lemma_unique_update(old(self).registered@, registration_key(), i as int, record);
                    lemma_map_of_update(
                        old(self).registered@,
                        registration_key(),
                        registration_val(),
                        i as int,
                        record,
                    );
                }
                self.registered[i] = record;
            },
            None => {
                proof {
                    lemma_unique_push(old(self).registered@, registration_key(), record);
                    lemma_map_of_push(
                        old(self).registered@,
                        registration_key(),
                        registration_val(),
                        record,
                    );
                }
                self.registered.push(record);
            },
        }
        self.events.push(ExecutionEvent::ParachainRegistered { para_id });
        self.outbox.push(
            ConsumerCall::RegistrationAck {
                para_id: self.para_id,
                contract_address: crate::types::registry_address(),
                weights,
            },
        );
        proof {
            lemma_appended_push(old(self).events@, self.events@.last());
            lemma_appended_push(old(self).outbox@, self.outbox@.last());
        }
    }

    /// The staking contract's confirmation entry point: announces that the
    /// consumer chain took note of a withdrawal request.
    pub fn confirm_withdraw_request(&mut self, para_id: u32, staker: Vec<u8>, amount: u128)
        requires
            old(self).wf(),
        ensures
            final(self).wf(),
            appended(old(self).events@, final(self).events@, 1),
            (final(self).events@.last()
                matches ExecutionEvent::ParachainStakeWithdrawRequestConfirmed {
                para_id: p,
                staker: s,
                amount: a,
            } && p == para_id && s@ == staker@ && a == amount),
            final(self).same_config(*old(self)),
            final(self).balances == old(self).balances,
            final(self).allowances == old(self).allowances,
            final(self).stakes == old(self).stakes,
            final(self).registered == old(self).registered,
            final(self).gov_disputes == old(self).gov_disputes,
            final(self).outbox == old(self).outbox,
    {
        self.events.push(
            ExecutionEvent::ParachainStakeWithdrawRequestConfirmed { para_id, staker, amount },
        );
        proof {
            lemma_appended_push(old(self).events@, self.events@.last());
        }
    }
}

/// The stake-record data for a (staker, chain) key, or the empty record of
/// a fresh staker.
pub open spec fn stake_entry(s: Seq<StakeInfo>, staker: Seq<u8>, para_id: u32) -> (
    Seq<u8>,
    u128,
    u128,
    u64,
    bool,
) {
    if exec_stakes_map(s).contains_key((staker, para_id)) {
        exec_stakes_map(s)[(staker, para_id)]
    } else {
        (Seq::empty(), 0, 0, 0, false)
    }
}

/// What a withdrawal attempt returns, given the record's locked amount and
/// timer: without a pending request nothing is owed; before the lock
/// expires it must fail; from `request_time + LOCK_PERIOD` on it pays the
/// locked amount out.
pub open spec fn withdraw_result(
    locked: u128,
    request_time: u64,
    has_request: bool,
    now: u64,
) -> Result<u128, Error> {
    if !has_request {
        Err(Error::NoWithdrawalRequested)
    } else if now < request_time + crate::params::LOCK_PERIOD {
        Err(Error::LockNotExpired)
    } else {
        Ok(locked)
    }
}

/// How much a slash of `fee` takes: all of it, or whatever the record
/// holds when the fee exceeds stake and locked amount together.
pub open spec fn slash_amount(staked: u128, locked: u128, fee: u128) -> u128 {
    if fee <= staked {
        fee
    } else if fee - staked <= locked {
        fee
    } else {
        (staked + locked) as u128
    }
}

impl ExecutionChain {
    /// The staking contract's deposit: moves `amount` of the staker's
    /// approved tokens into the contract's custody and adds it to the
    /// staker's stake for chain `para_id`, binding the stake to the given
    /// consumer-chain reporter account. The new stake total is reported to
    /// the consumer chain.
    #[verifier::rlimit(50)]
    pub fn deposit_parachain_stake(
        &mut self,
        staker: Vec<u8>,
        para_id: u32,
        reporter: Vec<u8>,
        amount: u128,
    ) -> (r: Result<(), Error>)
        requires
            old(self).wf(),
        ensures
            final(self).wf(),
            r == if !registered_map(old(self).registered@).contains_key(para_id) {
                Err::<(), Error>(Error::NotRegistered)
            } else if allowance_of(old(self).allowances@, staker@, crate::types::spec_staking_address())
                < amount {
                Err::<(), Error>(Error::InsufficientAllowance)
            } else if balance_of(old(self).balances@, staker@) < amount {
                Err::<(), Error>(Error::InsufficientBalance)
            } else if stake_entry(old(self).stakes@, staker@, para_id).1 + amount > u128::MAX {
                Err::<(), Error>(Error::Overflow)
            } else if staker@ != crate::types::spec_staking_address() && balance_of(
                old(self).balances@,
                crate::types::spec_staking_address(),
            ) + amount > u128::MAX {
                Err::<(), Error>(Error::Overflow)
            } else {
                Ok::<(), Error>(())
            },
            r is Ok ==> {
                let prev = stake_entry(old(self).stakes@, staker@, para_id);
                let total = (prev.1 + amount) as u128;
                let bal = balance_of(old(self).balances@, staker@);
                let mid = if staker@ == crate::types::spec_staking_address() {
                    (bal - amount) as u128
                } else {
                    balance_of(old(self).balances@, crate::types::spec_staking_address())
                };
                &&& exec_stakes_map(final(self).stakes@) == exec_stakes_map(
                    old(self).stakes@,
                ).insert((staker@, para_id), (reporter@, total, prev.2, prev.3, prev.4))
                &&& crate::laws::apply_op(
                    crate::laws::ledger_model(prev.1, prev.2),
                    (crate::laws::StakeOp::Deposit { amount: amount as int }),
                ) == crate::laws::ledger_model(total, prev.2)
                &&& allowances_map(final(self).allowances@) == allowances_map(
                    old(self).allowances@,
                ).insert(
                    (staker@, crate::types::spec_staking_address()),
                    (allowance_of(
                        old(self).allowances@,
                        staker@,
                        crate::types::spec_staking_address(),
                    ) - amount) as u128,
                )
                &&& balances_map(final(self).balances@) == balances_map(old(self).balances@).insert(
                    staker@,
                    (bal - amount) as u128,
                ).insert(crate::types::spec_staking_address(), (mid + amount) as u128)
                &&& appended(old(self).events@, final(self).events@, 2)
                &&& (final(self).events@[old(self).events@.len() as int]
                    matches ExecutionEvent::NewStaker { staker: s, amount: a } && s@ == staker@ && a
                    == amount)
                &&& (final(self).events@.last() matches ExecutionEvent::NewParachainStaker {
                    para_id: p,
                    staker: s,
                    reporter: rep,
                    amount: a,
                } && p == para_id && s@ == staker@ && rep@ == reporter@ && a == amount)
                &&& appended(old(self).outbox@, final(self).outbox@, 1)
                &&& (final(self).outbox@.last() matches ConsumerCall::StakeReported {
                    reporter: rep,
                    address,
                    amount: a,
                } && rep@ == reporter@ && address@ == staker@ && a == total)
            },
            r is Err ==> {
                &&& final(self).stakes == old(self).stakes
                &&& final(self).balances == old(self).balances
                &&& final(self).allowances == old(self).allowances
                &&& final(self).events == old(self).events
                &&& final(self).outbox == old(self).outbox
            },
            final(self).same_config(*old(self)),
            final(self).registered == old(self).registered,
            final(self).gov_disputes == old(self).gov_disputes,
    {
        let staking_addr = crate::types::staking_address();
        if find_registration(&self.registered, para_id).is_none() {
            proof {
                lemma_map_of_contains(
                    old(self).registered@,
                    registration_key(),
                    registration_val(),
                    para_id,
                );
            }
            return Err(Error::NotRegistered);
        }
        proof {
            lemma_map_of_contains(
                old(self).registered@,
                registration_key(),
                registration_val(),
                para_id,
            );
        }
        let allowed = match find_allowance(&self.allowances, &staker, &staking_addr) {
            Some(i) => {
                proof {
                    lemma_map_of_index(
                        old(self).allowances@,
                        allowance_key(),
                        allowance_val(),
                        i as int,
                    );
                }
                self.allowances[i].amount
            },
            None => {
                proof {
                    lemma_map_of_contains(
                        old(self).allowances@,
                        allowance_key(),
                        allowance_val(),
                        (staker@, crate::types::spec_staking_address()),
                    );
                }
                0
            },
        };
        if allowed < amount {
            return Err(Error::InsufficientAllowance);
        }
        let held = match find_balance(&self.balances, &staker) {
            Some(i) => {
                proof {
                    lemma_map_of_index(old(self).balances@, balance_key(), balance_val(), i as int);
                }
                self.balances[i].amount
            },
            None => {
                proof {
                    lemma_map_of_contains(old(self).balances@, balance_key(), balance_val(), staker@);
                }
                0
            },
        };
        if held < amount {
            return Err(Error::InsufficientBalance);
        }
        let found_stake = find_exec_stake(&self.stakes, &staker, para_id);
        let prev = match found_stake {
            Some(i) => {
                proof {
                    lemma_map_of_index(old(self).stakes@, exec_stake_key(), exec_stake_val(), i as int);
                }
                self.stakes[i].staked
            },
            None => {
                proof {
                    lemma_map_of_contains(
                        old(self).stakes@,
                        exec_stake_key(),
                        exec_stake_val(),
                        (staker@, para_id),
                    );
                }
                0
            },
        };
        if prev > u128::MAX - amount {
            return Err(Error::Overflow);
        }
        if !bytes_eq(&staker, &staking_addr) {
            let staking_held = match find_balance(&self.balances, &staking_addr) {
                Some(i) => {
                    proof {
                        lemma_map_of_index(
                            old(self).balances@,
                            balance_key(),
                            balance_val(),
                            i as int,
                        );
                    }
                    self.balances[i].amount
                },
                None => {
                    proof {
                        lemma_map_of_contains(
                            old(self).balances@,
                            balance_key(),
                            balance_val(),
                            crate::types::spec_staking_address(),
                        );
                    }
                    0
                },
            };
            if staking_held > u128::MAX - amount {
                return Err(Error::Overflow);
            }
        }
        let dr = debit_balance(&mut self.balances, &staker, amount);
        if dr.is_err() {
            proof {
                assert(false);
            }
            return Err(Error::InsufficientBalance);
        }
        let cr = credit_balance(&mut self.balances, clone_bytes(&staking_addr), amount);
        if cr.is_err() {
            proof {
                assert(false);
            }
            return Err(Error::Overflow);
        }
        let ar = debit_allowance(&mut self.allowances, &staker, &staking_addr, amount);
        if ar.is_err() {
            proof {
                assert(false);
            }
            return Err(Error::InsufficientAllowance);
        }
        let total = prev + amount;
        match found_stake {
            Some(i) => {
                let record = StakeInfo {
                    staker: clone_bytes(&staker),
                    para_id,
                    reporter: clone_bytes(&reporter),
                    staked: total,
                    locked: self.stakes[i].locked,
                    request_time: self.stakes[i].request_time,
                    has_request: self.stakes[i].has_request,
                };
                proof {
                    lemma_unique_update(old(self).stakes@, exec_stake_key(), i as int, record);
                    lemma_map_of_update(
                        old(self).stakes@,
                        exec_stake_key(),
                        exec_stake_val(),
                        i as int,
                        record,
                    );
                }
                self.stakes[i] = record;
            },
            None => {
                let record = StakeInfo {
                    staker: clone_bytes(&staker),
                    para_id,
                    reporter: clone_bytes(&reporter),
                    staked: total,
                    locked: 0,
                    request_time: 0,
                    has_request: false,
                };
                proof {
                    lemma_unique_push(old(self).stakes@, exec_stake_key(), record);
                    lemma_map_of_push(old(self).stakes@, exec_stake_key(), exec_stake_val(), record);
                }
                self.stakes.push(record);
            },
        }
        self.events.push(ExecutionEvent::NewStaker { staker: clone_bytes(&staker), amount });
        self.events.push(
            ExecutionEvent::NewParachainStaker {
                para_id,
                staker: clone_bytes(&staker),
                reporter: clone_bytes(&reporter),
                amount,
            },
        );
        self.outbox.push(ConsumerCall::StakeReported { reporter, address: staker, amount: total });
        proof {
            lemma_appended_push2(
                old(self).events@,
                self.events@[old(self).events@.len() as int],
                self.events@.last(),
            );
            lemma_appended_push(old(self).outbox@, self.outbox@.last());
        }
        Ok(())
    }
}

impl ExecutionChain {
    /// The staking contract's withdrawal request: moves `amount` out of
    /// the active stake behind a fresh lock timer. A new request replaces
    /// a pending one outright — the previously locked amount returns to
    /// the stake first, and the timer starts over. The request is reported
    /// to the consumer chain.
    pub fn request_parachain_stake_withdraw(&mut self, staker: Vec<u8>, para_id: u32, amount: u128)
        -> (r: Result<(), Error>)
        requires
            old(self).wf(),
        ensures
            final(self).wf(),
            r == ({
                let prev = stake_entry(old(self).stakes@, staker@, para_id);
                if !exec_stakes_map(old(self).stakes@).contains_key((staker@, para_id)) {
                    Err::<(), Error>(Error::NotStaked)
                } else if amount > prev.1 + prev.2 {
                    Err::<(), Error>(Error::InsufficientStake)
                } else if prev.1 + prev.2 - amount > u128::MAX {
                    Err::<(), Error>(Error::Overflow)
                } else {
                    Ok::<(), Error>(())
                }
            }),
            r is Ok ==> {
                let prev = stake_entry(old(self).stakes@, staker@, para_id);
                &&& exec_stakes_map(final(self).stakes@) == exec_stakes_map(
                    old(self).stakes@,
                ).insert(
                    (staker@, para_id),
                    (prev.0, (prev.1 + prev.2 - amount) as u128, amount, old(self).now, true),
                )
                &&& crate::laws::apply_op(
                    crate::laws::ledger_model(prev.1, prev.2),
                    (crate::laws::StakeOp::RequestWithdraw { amount: amount as int }),
                ) == crate::laws::ledger_model((prev.1 + prev.2 - amount) as u128, amount)
                &&& appended(old(self).events@, final(self).events@, 2)
                &&& (final(self).events@[old(self).events@.len() as int]
                    matches ExecutionEvent::StakeWithdrawRequested { staker: s, amount: a } && s@
                    == staker@ && a == amount)
                &&& (final(self).events@.last()
                    matches ExecutionEvent::ParachainStakeWithdrawRequested {
                    para_id: p,
                    reporter,
                    amount: a,
                } && p == para_id && reporter@ == prev.0 && a == amount)
                &&& appended(old(self).outbox@, final(self).outbox@, 1)
                &&& (final(self).outbox@.last() matches ConsumerCall::WithdrawRequestReported {
                    reporter,
                    address,
                    amount: a,
                } && reporter@ == prev.0 && address@ == staker@ && a == amount)
            },
            r is Err ==> {
                &&& final(self).stakes == old(self).stakes
                &&& final(self).events == old(self).events
                &&& final(self).outbox == old(self).outbox
            },
            final(self).same_config(*old(self)),
            final(self).balances == old(self).balances,
            final(self).allowances == old(self).allowances,
            final(self).registered == old(self).registered,
            final(self).gov_disputes == old(self).gov_disputes,
    {
        let i = match find_exec_stake(&self.stakes, &staker, para_id) {
            Some(i) => {
                proof {
                    lemma_map_of_index(old(self).stakes@, exec_stake_key(), exec_stake_val(), i as int);
                }
                i
            },
            None => {
                proof {
                    lemma_map_of_contains(
                        old(self).stakes@,
                        exec_stake_key(),
                        exec_stake_val(),
                        (staker@, para_id),
                    );
                }
                return Err(Error::NotStaked);
            },
        };
        let staked = self.stakes[i].staked;
        let locked = self.stakes[i].locked;
        if amount > staked {
            if amount - staked > locked {
                return Err(Error::InsufficientStake);
            }
        }
        if staked >= amount && staked - amount > u128::MAX - locked {
            return Err(Error::Overflow);
        }
        let remaining = if staked >= amount {
            staked - amount + locked
        } else {
            locked - (amount - staked)
        };
        let reporter = clone_bytes(&self.stakes[i].reporter);
        let record = StakeInfo {
            staker: clone_bytes(&staker),
            para_id,
            reporter: clone_bytes(&reporter),
            staked: remaining,
            locked: amount,
            request_time: self.now,
            has_request: true,
        };
        proof {
            lemma_unique_update(old(self).stakes@, exec_stake_key(), i as int, record);
            lemma_map_of_update(
                old(self).stakes@,
                exec_stake_key(),
                exec_stake_val(),
                i as int,
                record,
            );
        }
        self.stakes[i] = record;
        self.events.push(
            ExecutionEvent::StakeWithdrawRequested { staker: clone_bytes(&staker), amount },
        );
        self.events.push(
            ExecutionEvent::ParachainStakeWithdrawRequested {
                para_id,
                reporter: clone_bytes(&reporter),
                amount,
            },
        );
        self.outbox.push(
            ConsumerCall::WithdrawRequestReported { reporter, address: staker, amount },
        );
        proof {
            lemma_appended_push2(
                old(self).events@,
                self.events@[old(self).events@.len() as int],
                self.events@.last(),
            );
            lemma_appended_push(old(self).outbox@, self.outbox@.last());
        }
        Ok(())
    }

    /// The staking contract's withdrawal: pays the locked amount back to
    /// the staker once the lock has expired, consuming the request, and
    /// reports the executed withdrawal to the consumer chain. Before
    /// `request_time + LOCK_PERIOD` it always fails; repeated after
    /// success it fails again, since no request is pending any more.
    #[verifier::rlimit(50)]
    pub fn withdraw_parachain_stake(&mut self, staker: Vec<u8>, para_id: u32) -> (r: Result<
        u128,
        Error,
    >)
        requires
            old(self).wf(),
        ensures
            final(self).wf(),
            r == ({
                let prev = stake_entry(old(self).stakes@, staker@, para_id);
                if !exec_stakes_map(old(self).stakes@).contains_key((staker@, para_id)) {
                    Err::<u128, Error>(Error::NotStaked)
                } else if withdraw_result(prev.2, prev.3, prev.4, old(self).now) is Err {
                    withdraw_result(prev.2, prev.3, prev.4, old(self).now)
                } else if balance_of(old(self).balances@, crate::types::spec_staking_address())
                    < prev.2 {
                    Err::<u128, Error>(Error::InsufficientBalance)
                } else if staker@ != crate::types::spec_staking_address() && balance_of(
                    old(self).balances@,
                    staker@,
                ) + prev.2 > u128::MAX {
                    Err::<u128, Error>(Error::Overflow)
                } else {
                    Ok::<u128, Error>(prev.2)
                }
            }),
            r is Ok ==> {
                let prev = stake_entry(old(self).stakes@, staker@, para_id);
                let staking_bal = balance_of(
                    old(self).balances@,
                    crate::types::spec_staking_address(),
                );
                let mid = if staker@ == crate::types::spec_staking_address() {
                    (staking_bal - prev.2) as u128
                } else {
                    balance_of(old(self).balances@, staker@)
                };
                &&& exec_stakes_map(final(self).stakes@) == exec_stakes_map(
                    old(self).stakes@,
                ).insert((staker@, para_id), (prev.0, prev.1, 0, prev.3, false))
                &&& crate::laws::apply_op(
                    crate::laws::ledger_model(prev.1, prev.2),
                    crate::laws::StakeOp::Withdraw,
                ) == crate::laws::ledger_model(prev.1, 0)
                &&& balances_map(final(self).balances@) == balances_map(old(self).balances@).insert(
                    crate::types::spec_staking_address(),
                    (staking_bal - prev.2) as u128,
                ).insert(staker@, (mid + prev.2) as u128)
                &&& appended(old(self).events@, final(self).events@, 2)
                &&& (final(self).events@[old(self).events@.len() as int]
                    matches ExecutionEvent::StakeWithdrawn { staker: s } && s@ == staker@)
                &&& (final(self).events@.last() matches ExecutionEvent::ParachainStakeWithdrawn {
                    para_id: p,
                    staker: s,
                } && p == para_id && s@ == staker@)
                &&& appended(old(self).outbox@, final(self).outbox@, 1)
                &&& (final(self).outbox@.last() matches ConsumerCall::WithdrawExecutedReported {
                    reporter,
                } && reporter@ == prev.0)
            },
            r is Err ==> {
                &&& final(self).stakes == old(self).stakes
                &&& final(self).balances == old(self).balances
                &&& final(self).events == old(self).events
                &&& final(self).outbox == old(self).outbox
            },
            final(self).same_config(*old(self)),
            final(self).allowances == old(self).allowances,
            final(self).registered == old(self).registered,
            final(self).gov_disputes == old(self).gov_disputes,
    {
        let staking_addr = crate::types::staking_address();
        let i = match find_exec_stake(&self.stakes, &staker, para_id) {
            Some(i) => {
                proof {
                    lemma_map_of_index(old(self).stakes@, exec_stake_key(), exec_stake_val(), i as int);
                }
                i
            },
            None => {
                proof {
                    lemma_map_of_contains(
                        old(self).stakes@,
                        exec_stake_key(),
                        exec_stake_val(),
                        (staker@, para_id),
                    );
                }
                return Err(Error::NotStaked);
            },
        };
        if !self.stakes[i].has_request {
            return Err(Error::NoWithdrawalRequested);
        }
        if self.now - self.stakes[i].request_time < crate::params::LOCK_PERIOD {
            return Err(Error::LockNotExpired);
        }
        let payout = self.stakes[i].locked;
        let staking_held = match find_balance(&self.balances, &staking_addr) {
            Some(b) => {
                proof {
                    lemma_map_of_index(old(self).balances@, balance_key(), balance_val(), b as int);
                }
                self.balances[b].amount
            },
            None => {
                proof {
                    lemma_map_of_contains(
                        old(self).balances@,
                        balance_key(),
                        balance_val(),
                        crate::types::spec_staking_address(),
                    );
                }
                0
            },
        };
        if staking_held < payout {
            return Err(Error::InsufficientBalance);
        }
        if !bytes_eq(&staker, &staking_addr) {
            let held = match find_balance(&self.balances, &staker) {
                Some(b) => {
                    proof {
                        lemma_map_of_index(
                            old(self).balances@,
                            balance_key(),
                            balance_val(),
                            b as int,
                        );
                    }
                    self.balances[b].amount
                },
                None => {
                    proof {
                        lemma_map_of_contains(
                            old(self).balances@,
                            balance_key(),
                            balance_val(),
                            staker@,
                        );
                    }
                    0
                },
            };
            if held > u128::MAX - payout {
                return Err(Error::Overflow);
            }
        }
        let dr = debit_balance(&mut self.balances, &staking_addr, payout);
        if dr.is_err() {
            proof {
                assert(false);
            }
            return Err(Error::InsufficientBalance);
        }
        let cr = credit_balance(&mut self.balances, clone_bytes(&staker), payout);
        if cr.is_err() {
            proof {
                assert(false);
            }
            return Err(Error::Overflow);
        }
        let reporter = clone_bytes(&self.stakes[i].reporter);
        let record = StakeInfo {
            staker: clone_bytes(&staker),
            para_id,
            reporter: clone_bytes(&reporter),
            staked: self.stakes[i].staked,
            locked: 0,
            request_time: self.stakes[i].request_time,
            has_request: false,
        };
        proof {
            lemma_unique_update(old(self).stakes@, exec_stake_key(), i as int, record);
            lemma_map_of_update(
                old(self).stakes@,
                exec_stake_key(),
                exec_stake_val(),
                i as int,
                record,
            );
        }
        self.stakes[i] = record;
        self.events.push(ExecutionEvent::StakeWithdrawn { staker: clone_bytes(&staker) });
        self.events.push(
            ExecutionEvent::ParachainStakeWithdrawn { para_id, staker: clone_bytes(&staker) },
        );
        self.outbox.push(ConsumerCall::WithdrawExecutedReported { reporter });
        proof {
            lemma_appended_push2(
                old(self).events@,
                self.events@[old(self).events@.len() as int],
                self.events@.last(),
            );
            lemma_appended_push(old(self).outbox@, self.outbox@.last());
        }
        Ok(payout)
    }

    /// The governance contract's dispute entry point: slashes the disputed
    /// reporter's stake by the dispute fee — from the active stake first,
    /// then from the locked amount, never below zero — records the
    /// dispute, announces the slash and the dispute, and reports the
    /// slashed amount back to the consumer chain. A replay of a dispute
    /// already recorded changes nothing; a dispute against an unknown
    /// staker, or with a malformed query id, is dropped with a diagnostic.
    #[verifier::rlimit(50)]
    pub fn begin_parachain_dispute(
        &mut self,
        para_id: u32,
        query_id: Vec<u8>,
        timestamp: u64,
        disputed_reporter: Vec<u8>,
        fee: u128,
    ) -> (r: Result<(), Error>)
        requires
            old(self).wf(),
        ensures
            final(self).wf(),
            r == if query_id@.len() != 32 {
                Err::<(), Error>(Error::InconsistentState)
            } else if gov_disputes_map(old(self).gov_disputes@).contains_key(
                crate::hashing::spec_dispute_id(para_id, query_id@, timestamp),
            ) {
                Ok::<(), Error>(())
            } else if !exec_stakes_map(old(self).stakes@).contains_key(
                (disputed_reporter@, para_id),
            ) {
                Err::<(), Error>(Error::InconsistentState)
            } else {
                Ok::<(), Error>(())
            },
            query_id@.len() == 32 && gov_disputes_map(old(self).gov_disputes@).contains_key(
                crate::hashing::spec_dispute_id(para_id, query_id@, timestamp),
            ) ==> {
                &&& final(self).stakes == old(self).stakes
                &&& final(self).gov_disputes == old(self).gov_disputes
                &&& final(self).events == old(self).events
                &&& final(self).outbox == old(self).outbox
            },
            r is Ok && !gov_disputes_map(old(self).gov_disputes@).contains_key(
                crate::hashing::spec_dispute_id(para_id, query_id@, timestamp),
            ) ==> {
                let prev = stake_entry(old(self).stakes@, disputed_reporter@, para_id);
                let slashed = slash_amount(prev.1, prev.2, fee);
                let taken_from_stake = if fee <= prev.1 {
                    fee
                } else {
                    prev.1
                };
                &&& exec_stakes_map(final(self).stakes@) == exec_stakes_map(
                    old(self).stakes@,
                ).insert(
                    (disputed_reporter@, para_id),
                    (
                        prev.0,
                        (prev.1 - taken_from_stake) as u128,
                        (prev.2 - (slashed - taken_from_stake)) as u128,
                        prev.3,
                        prev.4,
                    ),
                )
                &&& crate::laws::apply_op(
                    crate::laws::ledger_model(prev.1, prev.2),
                    (crate::laws::StakeOp::Slash { fee: fee as int }),
                ) == crate::laws::ledger_model(
                    (prev.1 - taken_from_stake) as u128,
                    (prev.2 - (slashed - taken_from_stake)) as u128,
                )
                &&& gov_disputes_map(final(self).gov_disputes@) == gov_disputes_map(
                    old(self).gov_disputes@,
                ).insert(crate::hashing::spec_dispute_id(para_id, query_id@, timestamp), false)
                &&& appended(old(self).events@, final(self).events@, 2)
                &&& (final(self).events@[old(self).events@.len() as int]
                    matches ExecutionEvent::ParachainReporterSlashed {
                    para_id: p,
                    reporter,
                    recipient,
                    amount,
                } && p == para_id && reporter@ == disputed_reporter@ && recipient@
                    == crate::types::spec_governance_address() && amount == slashed)
                &&& (final(self).events@.last() matches ExecutionEvent::NewParachainDispute {
                    para_id: p,
                    query_id: q,
                    timestamp: t,
                    reporter,
                } && p == para_id && q@ == query_id@ && t == timestamp && reporter@
                    == disputed_reporter@)
                &&& appended(old(self).outbox@, final(self).outbox@, 1)
                &&& (final(self).outbox@.last() matches ConsumerCall::SlashReported {
                    reporter,
                    amount,
                } && reporter@ == prev.0 && amount == slashed)
            },
            r is Err ==> {
                &&& final(self).stakes == old(self).stakes
                &&& final(self).gov_disputes == old(self).gov_disputes
                &&& final(self).outbox == old(self).outbox
                &&& appended(old(self).events@, final(self).events@, 1)
                &&& (final(self).events@.last() matches ExecutionEvent::InboundMessageDropped {
                    error,
                } && error == Error::InconsistentState)
            },
            final(self).same_config(*old(self)),
            final(self).balances == old(self).balances,
            final(self).allowances == old(self).allowances,
            final(self).registered == old(self).registered,
    {
        if query_id.len() != 32 {
            self.events.push(
                ExecutionEvent::InboundMessageDropped { error: Error::InconsistentState },
            );
            proof {
                lemma_appended_push(old(self).events@, self.events@.last());
            }
            return Err(Error::InconsistentState);
        }
        let did = crate::hashing::dispute_id(para_id, &query_id, timestamp);
        if find_gov_dispute(&self.gov_disputes, &did).is_some() {
            proof {
                lemma_map_of_contains(
                    old(self).gov_disputes@,
                    gov_dispute_key(),
                    gov_dispute_val(),
                    crate::hashing::spec_dispute_id(para_id, query_id@, timestamp),
                );
            }
            return Ok(());
        }
        proof {
            lemma_map_of_contains(
                old(self).gov_disputes@,
                gov_dispute_key(),
                gov_dispute_val(),
                crate::hashing::spec_dispute_id(para_id, query_id@, timestamp),
            );
        }
        let i = match find_exec_stake(&self.stakes, &disputed_reporter, para_id) {
            Some(i) => {
                proof {
                    lemma_map_of_index(old(self).stakes@, exec_stake_key(), exec_stake_val(), i as int);
                }
                i
            },
            None => {
                proof {
                    lemma_map_of_contains(
                        old(self).stakes@,
                        exec_stake_key(),
                        exec_stake_val(),
                        (disputed_reporter@, para_id),
                    );
                }
                self.events.push(
                    ExecutionEvent::InboundMessageDropped { error: Error::InconsistentState },
                );
                proof {
                    lemma_appended_push(old(self).events@, self.events@.last());
                }
                return Err(Error::InconsistentState);
            },
        };
        let staked = self.stakes[i].staked;
        let locked = self.stakes[i].locked;
        let taken_from_stake = if fee <= staked {
            fee
        } else {
            staked
        };
        let rest = fee - taken_from_stake;
        let taken_from_locked = if rest <= locked {
            rest
        } else {
            locked
        };
        let slashed = taken_from_stake + taken_from_locked;
        let reporter = clone_bytes(&self.stakes[i].reporter);
        let record = StakeInfo {
            staker: clone_bytes(&disputed_reporter),
            para_id,
            reporter: clone_bytes(&reporter),
            staked: staked - taken_from_stake,
            locked: locked - taken_from_locked,
            request_time: self.stakes[i].request_time,
            has_request: self.stakes[i].has_request,
        };
        proof {
            lemma_unique_update(old(self).stakes@, exec_stake_key(), i as int, record);
            lemma_map_of_update(
                old(self).stakes@,
                exec_stake_key(),
                exec_stake_val(),
                i as int,
                record,
            );
        }
        self.stakes[i] = record;
        let gov_record = GovDispute { dispute_id: clone_bytes(&did), tallied: false };
        proof {
            lemma_unique_push(old(self).gov_disputes@, gov_dispute_key(), gov_record);
            lemma_map_of_push(
                old(self).gov_disputes@,
                gov_dispute_key(),
                gov_dispute_val(),
                gov_record,
            );
        }
        self.gov_disputes.push(gov_record);
        self.events.push(
            ExecutionEvent::ParachainReporterSlashed {
                para_id,
                reporter: clone_bytes(&disputed_reporter),
                recipient: crate::types::governance_address(),
                amount: slashed,
            },
        );
        self.events.push(
            ExecutionEvent::NewParachainDispute {
                para_id,
                query_id,
                timestamp,
                reporter: disputed_reporter,
            },
        );
        self.outbox.push(ConsumerCall::SlashReported { reporter, amount: slashed });
        proof {
            lemma_appended_push2(
                old(self).events@,
                self.events@[old(self).events@.len() as int],
                self.events@.last(),
            );
            lemma_appended_push(old(self).outbox@, self.outbox@.last());
        }
        Ok(())
    }

    /// The governance contract's tally entry point: verifies the checksum
    /// against the six counts, applies the tally once, announces it in the
    /// agreed order, and confirms it back to the consumer chain. A replay
    /// for a dispute already tallied changes nothing; a mismatched
    /// checksum fails closed, and a tally for an unknown dispute is
    /// dropped, each with a diagnostic.
    pub fn apply_vote_tally(
        &mut self,
        dispute_id: Vec<u8>,
        tally: crate::types::Tally,
        checksum: u128,
    ) -> (r: Result<(), Error>)
        requires
            old(self).wf(),
        ensures
            final(self).wf(),
            r == if checksum != crate::types::spec_tally_checksum(tally) {
                Err::<(), Error>(Error::TallyEncodingMismatch)
            } else if !gov_disputes_map(old(self).gov_disputes@).contains_key(dispute_id@) {
                Err::<(), Error>(Error::InconsistentState)
            } else {
                Ok::<(), Error>(())
            },
            r is Ok && gov_disputes_map(old(self).gov_disputes@)[dispute_id@] ==> {
                &&& final(self).gov_disputes == old(self).gov_disputes
                &&& final(self).events == old(self).events
                &&& final(self).outbox == old(self).outbox
            },
            r is Ok && !gov_disputes_map(old(self).gov_disputes@)[dispute_id@] ==> {
                &&& gov_disputes_map(final(self).gov_disputes@) == gov_disputes_map(
                    old(self).gov_disputes@,
                ).insert(dispute_id@, true)
                &&& appended(old(self).events@, final(self).events@, 1)
                &&& (final(self).events@.last() matches ExecutionEvent::ParachainVoted {
                    dispute_id: d,
                    tally: t,
                } && d@ == dispute_id@ && t == tally)
                &&& appended(old(self).outbox@, final(self).outbox@, 1)
                &&& (final(self).outbox@.last() matches ConsumerCall::TallyConfirmed {
                    dispute_id: d,
                } && d@ == dispute_id@)
            },
            r is Err ==> {
                &&& final(self).gov_disputes == old(self).gov_disputes
                &&& final(self).outbox == old(self).outbox
                &&& appended(old(self).events@, final(self).events@, 1)
                &&& (final(self).events@.last() matches ExecutionEvent::InboundMessageDropped {
                    error,
                } && Err::<(), Error>(error) == r)
            },
            final(self).same_config(*old(self)),
            final(self).balances == old(self).balances,
            final(self).allowances == old(self).allowances,
            final(self).stakes == old(self).stakes,
            final(self).registered == old(self).registered,
    {
        let expected = crate::types::tally_checksum(&tally);
        if checksum != expected {
            self.events.push(
                ExecutionEvent::InboundMessageDropped { error: Error::TallyEncodingMismatch },
            );
            proof {
                lemma_appended_push(old(self).events@, self.events@.last());
            }
            return Err(Error::TallyEncodingMismatch);
        }
        let i = match find_gov_dispute(&self.gov_disputes, &dispute_id) {
            Some(i) => {
                proof {
                    lemma_map_of_index(
                        old(self).gov_disputes@,
                        gov_dispute_key(),
                        gov_dispute_val(),
                        i as int,
                    );
                }
                i
            },
            None => {
                proof {
                    lemma_map_of_contains(
                        old(self).gov_disputes@,
                        gov_dispute_key(),
                        gov_dispute_val(),
                        dispute_id@,
                    );
                }
                self.events.push(
                    ExecutionEvent::InboundMessageDropped { error: Error::InconsistentState },
                );
                proof {
                    lemma_appended_push(old(self).events@, self.events@.last());
                }
                return Err(Error::InconsistentState);
            },
        };
        if self.gov_disputes[i].tallied {
            return Ok(());
        }
        let record = GovDispute { dispute_id: clone_bytes(&dispute_id), tallied: true };
        proof {
            lemma_unique_update(old(self).gov_disputes@, gov_dispute_key(), i as int, record);
            lemma_map_of_update(
                old(self).gov_disputes@,
                gov_dispute_key(),
                gov_dispute_val(),
                i as int,
                record,
            );
        }
        self.gov_disputes[i] = record;
        self.events.push(ExecutionEvent::ParachainVoted { dispute_id: clone_bytes(&dispute_id), tally });
        self.outbox.push(ConsumerCall::TallyConfirmed { dispute_id });
        proof {
            lemma_appended_push(old(self).events@, self.events@.last());
            lemma_appended_push(old(self).outbox@, self.outbox@.last());
        }
        Ok(())
    }
}

/// Removes tokens from an owner's allowance for a spender; it must cover
/// them.
fn debit_allowance(
    allowances: &mut Vec<AllowanceRecord>,
    owner: &Vec<u8>,
    spender: &Vec<u8>,
    amount: u128,
) -> (r: Result<(), Error>)
    requires
        unique_keys(old(allowances)@, allowance_key()),
    ensures
        unique_keys(final(allowances)@, allowance_key()),
        r == if allowance_of(old(allowances)@, owner@, spender@) < amount {
            Err::<(), Error>(Error::InsufficientAllowance)
        } else {
            Ok::<(), Error>(())
        },
        r is Ok ==> allowances_map(final(allowances)@) == allowances_map(old(allowances)@).insert(
            (owner@, spender@),
            (allowance_of(old(allowances)@, owner@, spender@) - amount) as u128,
        ),
        r is Err ==> *final(allowances) == *old(allowances),
{
    let found = find_allowance(allowances, owner, spender);
    match found {
        Some(i) => {
            proof {
                lemma_map_of_index(old(allowances)@, allowance_key(), allowance_val(), i as int);
            }
            let held = allowances[i].amount;
            if held < amount {
                return Err(Error::InsufficientAllowance);
            }
            let record = AllowanceRecord {
                owner: clone_bytes(owner),
                spender: clone_bytes(spender),
                amount: held - amount,
            };
            proof {
                lemma_unique_update(old(allowances)@, allowance_key(), i as int, record);
                lemma_map_of_update(
                    old(allowances)@,
                    allowance_key(),
                    allowance_val(),
                    i as int,
                    record,
                );
            }
            allowances[i] = record;
            Ok(())
        },
        None => {
            proof {
                lemma_map_of_contains(
                    old(allowances)@,
                    allowance_key(),
                    allowance_val(),
                    (owner@, spender@),
                );
            }
            if amount == 0 {
                let record = AllowanceRecord {
                    owner: clone_bytes(owner),
                    spender: clone_bytes(spender),
                    amount: 0,
                };
                proof {
                    lemma_unique_push(old(allowances)@, allowance_key(), record);
                    lemma_map_of_push(old(allowances)@, allowance_key(), allowance_val(), record);
                }
                allowances.push(record);
                Ok(())
            } else {
                Err(Error::InsufficientAllowance)
            }
        },
    }
}

/// Adds tokens to an account's balance record, creating it if absent.
fn credit_balance(balances: &mut Vec<BalanceRecord>, to: Vec<u8>, amount: u128) -> (r: Result<
    (),
    Error,
>)
    requires
        unique_keys(old(balances)@, balance_key()),
    ensures
        unique_keys(final(balances)@, balance_key()),
        r == if balance_of(old(balances)@, to@) + amount > u128::MAX {
            Err::<(), Error>(Error::Overflow)
        } else {
            Ok::<(), Error>(())
        },
        r is Ok ==> balances_map(final(balances)@) == balances_map(old(balances)@).insert(
            to@,
            (balance_of(old(balances)@, to@) + amount) as u128,
        ),
        r is Err ==> *final(balances) == *old(balances),
{
    let found = find_balance(balances, &to);
    match found {
        Some(i) => {
            proof {
                lemma_map_of_index(old(balances)@, balance_key(), balance_val(), i as int);
            }
            let held = balances[i].amount;
            if held > u128::MAX - amount {
                return Err(Error::Overflow);
            }
            let record = BalanceRecord { account: to, amount: held + amount };
            proof {
                lemma_unique_update(old(balances)@, balance_key(), i as int, record);
                lemma_map_of_update(
                    old(balances)@,
                    balance_key(),
                    balance_val(),
                    i as int,
                    record,
                );
            }
            balances[i] = record;
            Ok(())
        },
        None => {
            proof {
                lemma_map_of_contains(old(balances)@, balance_key(), balance_val(), to@);
            }
            let record = BalanceRecord { account: to, amount };
            proof {
                lemma_unique_push(old(balances)@, balance_key(), record);
                lemma_map_of_push(old(balances)@, balance_key(), balance_val(), record);
            }
            balances.push(record);
            Ok(())
        },
    }
}

/// Removes tokens from an account's balance record; the account must hold
/// them.
fn debit_balance(balances: &mut Vec<BalanceRecord>, from: &Vec<u8>, amount: u128) -> (r: Result<
    (),
    Error,
>)
    requires
        unique_keys(old(balances)@, balance_key()),
    ensures
        unique_keys(final(balances)@, balance_key()),
        r == if balance_of(old(balances)@, from@) < amount {
            Err::<(), Error>(Error::InsufficientBalance)
        } else {
            Ok::<(), Error>(())
        },
        r is Ok ==> balances_map(final(balances)@) == balances_map(old(balances)@).insert(
            from@,
            (balance_of(old(balances)@, from@) - amount) as u128,
        ),
        r is Err ==> *final(balances) == *old(balances),
{
    let found = find_balance(balances, from);
    match found {
        Some(i) => {
            proof {
                lemma_map_of_index(old(balances)@, balance_key(), balance_val(), i as int);
            }
            let held = balances[i].amount;
            if held < amount {
                return Err(Error::InsufficientBalance);
            }
            let record = BalanceRecord { account: clone_bytes(from), amount: held - amount };
            proof {
                lemma_unique_update(old(balances)@, balance_key(), i as int, record);
                lemma_map_of_update(
                    old(balances)@,
                    balance_key(),
                    balance_val(),
                    i as int,
                    record,
                );
            }
            balances[i] = record;
            Ok(())
        },
        None => {
            proof {
                lemma_map_of_contains(old(balances)@, balance_key(), balance_val(), from@);
            }
            if amount == 0 {
                let record = BalanceRecord { account: clone_bytes(from), amount: 0 };
                proof {
                    lemma_unique_push(old(balances)@, balance_key(), record);
                    lemma_map_of_push(old(balances)@, balance_key(), balance_val(), record);
                }
                balances.push(record);
                Ok(())
            } else {
                Err(Error::InsufficientBalance)
            }
        },
    }
}

/// Looks an account's balance record up.
fn find_balance(balances: &Vec<BalanceRecord>, account: &Vec<u8>) -> (r: Option<usize>)
    ensures
        match r {
            Some(i) => i < balances@.len() && balances@[i as int].account@ == account@,
            None => forall|i: int|
                0 <= i < balances@.len() ==> (#[trigger] balances@[i]).account@ != account@,
        },
{
    let mut i: usize = 0;
    while i < balances.len()
        invariant
            i <= balances@.len(),
            forall|j: int| 0 <= j < i ==> (#[trigger] balances@[j]).account@ != account@,
        decreases balances@.len() - i,
    {
        if bytes_eq(&balances[i].account, account) {
            return Some(i);
        }
        i = i + 1;
    }
    None
}

/// Looks an (owner, spender) allowance record up.
fn find_allowance(allowances: &Vec<AllowanceRecord>, owner: &Vec<u8>, spender: &Vec<u8>) -> (r:
    Option<usize>)
    ensures
        match r {
            Some(i) => i < allowances@.len() && allowances@[i as int].owner@ == owner@
                && allowances@[i as int].spender@ == spender@,
            None => forall|i: int|
                0 <= i < allowances@.len() ==> !((#[trigger] allowances@[i]).owner@ == owner@
                    && allowances@[i].spender@ == spender@),
        },
{
    let mut i: usize = 0;
    while i < allowances.len()
        invariant
            i <= allowances@.len(),
            forall|j: int|
                0 <= j < i ==> !((#[trigger] allowances@[j]).owner@ == owner@
                    && allowances@[j].spender@ == spender@),
        decreases allowances@.len() - i,
    {
        if bytes_eq(&allowances[i].owner, owner) && bytes_eq(&allowances[i].spender, spender) {
            return Some(i);
        }
        i = i + 1;
    }
    None
}

/// Looks a (staker, chain) stake record up.
fn find_exec_stake(stakes: &Vec<StakeInfo>, staker: &Vec<u8>, para_id: u32) -> (r: Option<usize>)
    ensures
        match r {
            Some(i) => i < stakes@.len() && stakes@[i as int].staker@ == staker@
                && stakes@[i as int].para_id == para_id,
            None => forall|i: int|
                0 <= i < stakes@.len() ==> !((#[trigger] stakes@[i]).staker@ == staker@
                    && stakes@[i].para_id == para_id),
        },
{
    let mut i: usize = 0;
    while i < stakes.len()
        invariant
            i <= stakes@.len(),
            forall|j: int|
                0 <= j < i ==> !((#[trigger] stakes@[j]).staker@ == staker@ && stakes@[j].para_id
                    == para_id),
        decreases stakes@.len() - i,
    {
        if stakes[i].para_id == para_id && bytes_eq(&stakes[i].staker, staker) {
            return Some(i);
        }
        i = i + 1;
    }
    None
}

/// Looks a chain's registration record up.
fn find_registration(registered: &Vec<RegistrationRecord>, para_id: u32) -> (r: Option<usize>)
    ensures
        match r {
            Some(i) => i < registered@.len() && registered@[i as int].para_id == para_id,
            None => forall|i: int|
                0 <= i < registered@.len() ==> (#[trigger] registered@[i]).para_id != para_id,
        },
{
    let mut i: usize = 0;
    while i < registered.len()
        invariant
            i <= registered@.len(),
            forall|j: int| 0 <= j < i ==> (#[trigger] registered@[j]).para_id != para_id,
        decreases registered@.len() - i,
    {
        if registered[i].para_id == para_id {
            return Some(i);
        }
        i = i + 1;
    }
    None
}

/// Looks a governance dispute record up.
fn find_gov_dispute(disputes: &Vec<GovDispute>, dispute_id: &Vec<u8>) -> (r: Option<usize>)
    ensures
        match r {
            Some(i) => i < disputes@.len() && disputes@[i as int].dispute_id@ == dispute_id@,
            None => forall|i: int|
                0 <= i < disputes@.len() ==> (#[trigger] disputes@[i]).dispute_id@ != dispute_id@,
        },
{
    let mut i: usize = 0;
    while i < disputes.len()
        invariant
            i <= disputes@.len(),
            forall|j: int| 0 <= j < i ==> (#[trigger] disputes@[j]).dispute_id@ != dispute_id@,
        decreases disputes@.len() - i,
    {
        if bytes_eq(&disputes[i].dispute_id, dispute_id) {
            return Some(i);
        }
        i = i + 1;
    }
    None
}

} // verus!
