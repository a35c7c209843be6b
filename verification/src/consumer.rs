//! The oracle-consumer chain: it mirrors reporter stakes from inbound
//! staking-lifecycle messages, stores submitted oracle reports, and runs
//! the dispute and vote-tally engine. Everything a call changes is stated
//! against the chain's map and sequence views; the event log is append-only
//! and doubles as the record that each dispute's tally went out exactly
//! once.

use vstd::prelude::*;
use crate::codec::bytes_eq;
use crate::codec::clone_bytes;
use crate::store::appended;
use crate::store::lemma_appended_push;
use crate::store::lemma_appended_push2;
use crate::store::lemma_map_of_index;
use crate::store::lemma_map_of_push;
use crate::store::lemma_map_of_update;
use crate::store::lemma_map_of_remove;
use crate::store::lemma_map_of_contains;
use crate::store::lemma_unique_push;
use crate::store::lemma_unique_update;
use crate::store::lemma_unique_remove;
use crate::store::map_of;
use crate::store::unique_keys;
use crate::types::Error;
use crate::types::ExecutionCall;
use crate::types::Weights;
use crate::types::Tally;

verus! {

/// A submitted oracle report. Immutable once stored; later reports for the
/// same query stand beside it under later timestamps.
#[derive(Clone, PartialEq, Eq, Debug)]
pub struct Report {
    pub query_id: Vec<u8>,
    pub timestamp: u64,
    pub value: Vec<u8>,
    pub nonce: u64,
    pub query_data: Vec<u8>,
    pub reporter: Vec<u8>,
}

/// This chain's view of one reporter's stake: the consumer-chain account,
/// the execution-chain account holding the tokens, and the staked amount.
/// The amount goes to zero on full withdrawal; the record stays for
/// dispute lookups.
#[derive(Clone, PartialEq, Eq, Debug)]
pub struct StakeRecord {
    pub reporter: Vec<u8>,
    pub address: Vec<u8>,
    pub amount: u128,
}

/// A pending withdrawal, created by an inbound withdrawal-request message
/// and consumed by the withdrawal-executed message. At most one per
/// reporter; a new request overwrites it with a fresh timer.
#[derive(Clone, PartialEq, Eq, Debug)]
pub struct WithdrawalRequest {
    pub reporter: Vec<u8>,
    pub amount: u128,
    pub request_time: u64,
}

/// The running tip total of one account; a voter's weight in the user
/// bucket of a tally.
#[derive(Clone, PartialEq, Eq, Debug)]
pub struct TipRecord {
    pub tipper: Vec<u8>,
    pub total: u128,
}

/// One cast vote. `None` is an explicit abstain, distinct from not having
/// voted at all.
#[derive(Clone, PartialEq, Eq, Debug)]
pub struct Vote {
    pub voter: Vec<u8>,
    pub choice: Option<bool>,
}

/// Where a dispute stands: votes accumulate while `Voting`; the tally has
/// gone out once `TallySent`; the remote confirmation makes it `Resolved`.
#[derive(Clone, Copy, PartialEq, Eq, Structural, Debug)]
pub enum DisputeStatus {
    Voting,
    TallySent,
    Resolved,
}

/// One dispute against a stored report.
#[derive(Clone, PartialEq, Eq, Debug)]
pub struct Dispute {
    pub dispute_id: Vec<u8>,
    pub query_id: Vec<u8>,
    pub timestamp: u64,
    pub disputed_reporter: Vec<u8>,
    pub fee: u128,
    pub fee_payer: Option<Vec<u8>>,
    pub votes: Vec<Vote>,
    pub status: DisputeStatus,
    pub opened_at: u64,
}

/// What the consumer chain announces in its append-only event log. The
/// log is what tests and downstream consumers observe; it is never
/// drained.
#[derive(Clone, PartialEq, Eq, Debug)]
pub enum ConsumerEvent {
    /// A registration message went out to the remote registry contract.
    RegistrationSent { para_id: u32, contract_address: Vec<u8>, weights: Weights },
    /// An inbound message reported a (new total) stake for `staker`.
    NewStakerReported { staker: Vec<u8>, amount: u128, address: Vec<u8> },
    /// An inbound message reported a withdrawal request.
    StakeWithdrawRequestReported { reporter: Vec<u8>, amount: u128, address: Vec<u8> },
    /// The confirmation of that request went out to the staking contract.
    StakeWithdrawRequestConfirmationSent { para_id: u32, contract_address: Vec<u8> },
    /// An inbound message reported the withdrawal executed.
    StakeWithdrawnReported { staker: Vec<u8> },
    /// An inbound message reported the reporter's stake slashed.
    SlashReported { reporter: Vec<u8>, amount: u128 },
    /// A value was submitted to the oracle.
    NewReport {
        query_id: Vec<u8>,
        time: u64,
        value: Vec<u8>,
        nonce: u64,
        query_data: Vec<u8>,
        reporter: Vec<u8>,
    },
    /// A dispute was opened against the report at `(query_id, timestamp)`.
    NewDispute { dispute_id: Vec<u8>, query_id: Vec<u8>, timestamp: u64, reporter: Vec<u8> },
    /// The new-dispute message went out to the governance contract.
    NewDisputeSent { para_id: u32, contract_address: Vec<u8> },
    /// The dispute's vote tally went out to the governance contract.
    VoteTallySent { dispute_id: Vec<u8> },
    /// An inbound message contradicted local state and was dropped.
    InboundMessageDropped { error: Error },
}

/// The remote chain's acknowledged registration.
#[derive(Clone, PartialEq, Eq, Debug)]
pub struct Registration {
    pub para_id: u32,
    pub contract_address: Vec<u8>,
    pub weights: Weights,
}

/// The oracle-consumer chain's whole state: its own id, its clock, its
/// view of the remote chain, the keyed stores, the append-only report
/// list, the disputes, the event log and the outbox of messages for the
/// execution chain.
pub struct ConsumerChain {
    pub para_id: u32,
    pub now: u64,
    pub remote_para_id: Option<u32>,
    pub registration: Option<Registration>,
    pub stakes: Vec<StakeRecord>,
    pub withdrawals: Vec<WithdrawalRequest>,
    pub tips: Vec<TipRecord>,
    pub reports: Vec<Report>,
    pub disputes: Vec<Dispute>,
    pub events: Vec<ConsumerEvent>,
    pub outbox: Vec<ExecutionCall>,
}

/// The key of a stake record: its reporter.
pub open spec fn stake_key() -> spec_fn(StakeRecord) -> Seq<u8> {
    |r: StakeRecord| r.reporter@
}

/// The data of a stake record: holding address and amount.
pub open spec fn stake_val() -> spec_fn(StakeRecord) -> (Seq<u8>, u128) {
    |r: StakeRecord| (r.address@, r.amount)
}

/// The key of a pending withdrawal: its reporter.
pub open spec fn withdrawal_key() -> spec_fn(WithdrawalRequest) -> Seq<u8> {
    |w: WithdrawalRequest| w.reporter@
}

/// The data of a pending withdrawal: amount and request time.
pub open spec fn withdrawal_val() -> spec_fn(WithdrawalRequest) -> (u128, u64) {
    |w: WithdrawalRequest| (w.amount, w.request_time)
}

/// The key of a tip record: the tipper.
pub open spec fn tip_key() -> spec_fn(TipRecord) -> Seq<u8> {
    |t: TipRecord| t.tipper@
}

/// The data of a tip record: the running total.
pub open spec fn tip_val() -> spec_fn(TipRecord) -> u128 {
    |t: TipRecord| t.total
}

/// The key of a cast vote: the voter.
pub open spec fn vote_key() -> spec_fn(Vote) -> Seq<u8> {
    |v: Vote| v.voter@
}

/// The data of a cast vote: the choice.
pub open spec fn vote_val() -> spec_fn(Vote) -> Option<bool> {
    |v: Vote| v.choice
}

/// The key of a dispute: its identifier.
pub open spec fn dispute_key() -> spec_fn(Dispute) -> Seq<u8> {
    |d: Dispute| d.dispute_id@
}

/// The stake store as a map: reporter to (holding address, amount).
pub open spec fn stakes_map(s: Seq<StakeRecord>) -> Map<Seq<u8>, (Seq<u8>, u128)> {
    map_of(s, stake_key(), stake_val())
}

/// The pending-withdrawal store as a map: reporter to (amount, request
/// time).
pub open spec fn withdrawals_map(s: Seq<WithdrawalRequest>) -> Map<Seq<u8>, (u128, u64)> {
    map_of(s, withdrawal_key(), withdrawal_val())
}

/// The tip store as a map: account to its tip total.
pub open spec fn tips_map(s: Seq<TipRecord>) -> Map<Seq<u8>, u128> {
    map_of(s, tip_key(), tip_val())
}

/// A vote list as a map: voter to choice.
pub open spec fn votes_map(s: Seq<Vote>) -> Map<Seq<u8>, Option<bool>> {
    map_of(s, vote_key(), vote_val())
}

/// Whether some report stands at `(query_id, timestamp)`.
pub open spec fn has_report_at(reports: Seq<Report>, query_id: Seq<u8>, timestamp: u64) -> bool {
    exists|i: int|
        0 <= i < reports.len() && (#[trigger] reports[i]).query_id@ == query_id
            && reports[i].timestamp == timestamp
}

/// How many reports stand under `query_id`.
pub open spec fn report_count(reports: Seq<Report>, query_id: Seq<u8>) -> int
    decreases reports.len(),
{
    if reports.len() == 0 {
        0
    } else {
        report_count(reports.drop_last(), query_id) + if reports.last().query_id@ == query_id {
            1int
        } else {
            0int
        }
    }
}

/// How many reports `reporter` submitted; their weight in the reporter
/// bucket of a tally.
pub open spec fn reports_by(reports: Seq<Report>, reporter: Seq<u8>) -> int
    decreases reports.len(),
{
    if reports.len() == 0 {
        0
    } else {
        reports_by(reports.drop_last(), reporter) + if reports.last().reporter@ == reporter {
            1int
        } else {
            0int
        }
    }
}

/// Whether `reporter` currently has a nonzero stake.
pub open spec fn has_nonzero_stake(stakes: Seq<StakeRecord>, reporter: Seq<u8>) -> bool {
    stakes_map(stakes).contains_key(reporter) && stakes_map(stakes)[reporter].1 > 0
}

/// How many tally-dispatch entries for `dispute_id` the event log holds.
pub open spec fn tally_event_count(events: Seq<ConsumerEvent>, dispute_id: Seq<u8>) -> int
    decreases events.len(),
{
    if events.len() == 0 {
        0
    } else {
        tally_event_count(events.drop_last(), dispute_id) + match events.last() {
            ConsumerEvent::VoteTallySent { dispute_id: d } => if d@ == dispute_id {
                1int
            } else {
                0int
            },
            _ => 0int,
        }
    }
}

/// Every dispute's tally went out exactly once, and none went out while it
/// is still `Voting`: the log holds one dispatch entry per dispute past
/// `Voting` and none for one still `Voting`.
pub open spec fn tally_once(disputes: Seq<Dispute>, events: Seq<ConsumerEvent>) -> bool {
    forall|i: int|
        0 <= i < disputes.len() ==> tally_event_count(
            events,
            (#[trigger] disputes[i]).dispute_id@,
        ) == (if disputes[i].status is Voting {
            0int
        } else {
            1int
        })
}

/// Every tally-dispatch entry in the log belongs to a recorded dispute.
pub open spec fn tally_covered(disputes: Seq<Dispute>, events: Seq<ConsumerEvent>) -> bool {
    forall|j: int|
        0 <= j < events.len() ==> match #[trigger] events[j] {
            ConsumerEvent::VoteTallySent { dispute_id } => exists|i: int|
                0 <= i < disputes.len() && (#[trigger] disputes[i]).dispute_id@ == dispute_id@,
            _ => true,
        }
}

impl Dispute {
    /// A dispute's own invariant: opened in the past, a digest-sized id,
    /// one vote per voter.
    pub open spec fn wf(self, now: u64) -> bool {
        &&& self.opened_at <= now
        &&& self.dispute_id@.len() == 32
        &&& unique_keys(self.votes@, vote_key())
    }
}

impl ConsumerChain {
    /// The chain's invariant: keyed stores have distinct keys, no two
    /// reports share a query and timestamp, every recorded time lies in
    /// the past, and the event log holds exactly one tally dispatch per
    /// dispute past `Voting`.
    pub open spec fn wf(self) -> bool {
        &&& unique_keys(self.stakes@, stake_key())
        &&& unique_keys(self.withdrawals@, |r: WithdrawalRequest| r.reporter@)
        &&& unique_keys(self.tips@, |r: TipRecord| r.tipper@)
        &&& unique_keys(self.disputes@, dispute_key())
        &&& forall|i: int, j: int|
            0 <= i < j < self.reports@.len() ==> !((#[trigger] self.reports@[i]).query_id@ == (
            #[trigger] self.reports@[j]).query_id@ && self.reports@[i].timestamp
                == self.reports@[j].timestamp)
        &&& forall|i: int|
            0 <= i < self.reports@.len() ==> (#[trigger] self.reports@[i]).timestamp <= self.now
                && self.reports@[i].query_id@.len() == 32
        &&& forall|i: int|
            0 <= i < self.withdrawals@.len() ==> (#[trigger] self.withdrawals@[i]).request_time
                <= self.now
        &&& forall|i: int| 0 <= i < self.disputes@.len() ==> (#[trigger] self.disputes@[i]).wf(self.now)
        &&& tally_once(self.disputes@, self.events@)
        &&& tally_covered(self.disputes@, self.events@)
    }

    /// Configuration that almost no call touches.
    pub open spec fn same_config(self, other: ConsumerChain) -> bool {
        &&& self.para_id == other.para_id
        &&& self.now == other.now
        &&& self.remote_para_id == other.remote_para_id
        &&& self.registration == other.registration
    }

    /// A fresh chain at genesis: its own id, the genesis clock, and
    /// nothing else.
    pub fn new(para_id: u32, genesis_time: u64) -> (r: ConsumerChain)
        ensures
            r.wf(),
            r.para_id == para_id,
            r.now == genesis_time,
            r.remote_para_id is None,
            r.registration is None,
            r.stakes@.len() == 0,
            r.withdrawals@.len() == 0,
            r.tips@.len() == 0,
            r.reports@.len() == 0,
            r.disputes@.len() == 0,
            r.events@.len() == 0,
            r.outbox@.len() == 0,
    {
        ConsumerChain {
            para_id,
            now: genesis_time,
            remote_para_id: None,
            registration: None,
            stakes: Vec::new(),
            withdrawals: Vec::new(),
            tips: Vec::new(),
            reports: Vec::new(),
            disputes: Vec::new(),
            events: Vec::new(),
            outbox: Vec::new(),
        }
    }

    /// Advances this chain's clock by `secs`, saturating at the end of
    /// time. The clock only ever moves forward.
    pub fn advance_time(&mut self, secs: u64)
        requires
            old(self).wf(),
        ensures
            final(self).wf(),
            final(self).now == if old(self).now + secs <= u64::MAX {
                (old(self).now + secs) as u64
            } else {
                u64::MAX
            },
            final(self).now >= old(self).now,
            final(self).para_id == old(self).para_id,
            final(self).remote_para_id == old(self).remote_para_id,
            final(self).registration == old(self).registration,
            final(self).stakes == old(self).stakes,
            final(self).withdrawals == old(self).withdrawals,
            final(self).tips == old(self).tips,
            final(self).reports == old(self).reports,
            final(self).disputes == old(self).disputes,
            final(self).events == old(self).events,
            final(self).outbox == old(self).outbox,
    {
        if self.now <= u64::MAX - secs {
            self.now = self.now + secs;
        } else {
            self.now = u64::MAX;
        }
    }

    /// Hands the queued outbound messages over, in order, and empties the
    /// outbox; the harness delivers them to the execution chain.
    pub fn take_outbox(&mut self) -> (r: Vec<ExecutionCall>)
        requires
            old(self).wf(),
        ensures
            final(self).wf(),
            r@ == old(self).outbox@,
            final(self).outbox@.len() == 0,
            final(self).same_config(*old(self)),
            final(self).stakes == old(self).stakes,
            final(self).withdrawals == old(self).withdrawals,
            final(self).tips == old(self).tips,
            final(self).reports == old(self).reports,
            final(self).disputes == old(self).disputes,
            final(self).events == old(self).events,
    {
        let r = self.outbox.split_off(0);
        proof {
            assert(r@ =~= old(self).outbox@);
            assert(final(self).outbox@ =~= Seq::<ExecutionCall>::empty());
        }
        r
    }

    /// Registers this chain with the remote chain `evm_para_id`: records
    /// the target, announces the locally known weight schedule, and queues
    /// exactly one registration message for the remote registry contract.
    /// Re-registration overwrites the target and sends again.
    pub fn register(&mut self, evm_para_id: u32)
        requires
            old(self).wf(),
        ensures
            final(self).wf(),
            final(self).remote_para_id == Some(evm_para_id),
            appended(old(self).events@, final(self).events@, 1),
            (final(self).events@.last() matches ConsumerEvent::RegistrationSent {
                para_id,
                contract_address,
                weights,
            } && para_id == evm_para_id && contract_address@
                == crate::types::spec_registry_address() && weights
                == crate::types::spec_weight_schedule()),
            appended(old(self).outbox@, final(self).outbox@, 1),
            (final(self).outbox@.last() matches ExecutionCall::Register { para_id, weights }
                && para_id == old(self).para_id && weights == crate::types::spec_weight_schedule()),
            final(self).para_id == old(self).para_id,
            final(self).now == old(self).now,
            final(self).registration == old(self).registration,
            final(self).stakes == old(self).stakes,
            final(self).withdrawals == old(self).withdrawals,
            final(self).tips == old(self).tips,
            final(self).reports == old(self).reports,
            final(self).disputes == old(self).disputes,
    {
        self.remote_para_id = Some(evm_para_id);
        let weights = crate::types::weight_schedule();
        let event = ConsumerEvent::RegistrationSent {
            para_id: evm_para_id,
            contract_address: crate::types::registry_address(),
            weights,
        };
        self.events.push(event);
        self.outbox.push(ExecutionCall::Register { para_id: self.para_id, weights });
        proof {
            lemma_tally_preserved_push(old(self).disputes@, old(self).events@, self.events@.last());
            lemma_appended_push(old(self).events@, self.events@.last());
            lemma_appended_push(old(self).outbox@, self.outbox@.last());
        }
    }

    /// Applies an inbound new-stake report: the reporter's stake becomes
    /// the reported total, held by `address`, and the chain announces it.
    /// A fresh staker simply gains a record.
    pub fn stake_reported(&mut self, reporter: Vec<u8>, address: Vec<u8>, amount: u128) -> (r:
        Result<(), Error>)
        requires
            old(self).wf(),
        ensures
            final(self).wf(),
            r is Ok,
            stakes_map(final(self).stakes@) == stakes_map(old(self).stakes@).insert(
                reporter@,
                (address@, amount),
            ),
            appended(old(self).events@, final(self).events@, 1),
            (final(self).events@.last() matches ConsumerEvent::NewStakerReported {
                staker,
                amount: a,
                address: addr,
            } && staker@ == reporter@ && a == amount && addr@ == address@),
            final(self).same_config(*old(self)),
            final(self).withdrawals == old(self).withdrawals,
            final(self).tips == old(self).tips,
            final(self).reports == old(self).reports,
            final(self).disputes == old(self).disputes,
            final(self).outbox == old(self).outbox,
    {
        let event = ConsumerEvent::NewStakerReported {
            staker: clone_bytes(&reporter),
            amount,
            address: clone_bytes(&address),
        };
        let found = find_stake(&self.stakes, &reporter);
        let record = StakeRecord { reporter, address, amount };
        match found {
            Some(i) => {
                proof {
                    lemma_unique_update(
                        old(self).stakes@,
                        stake_key(),
                        i as int,
                        record,
                    );
                    lemma_map_of_update(
                        old(self).stakes@,
                        stake_key(),
                        stake_val(),
                        i as int,
                        record,
                    );
                }
                self.stakes[i] = record;
            },
            None => {
                proof {
                    lemma_unique_push(old(self).stakes@, stake_key(), record);
                    lemma_map_of_push(
                        old(self).stakes@,
                        stake_key(),
                        stake_val(),
                        record,
                    );
                }
                self.stakes.push(record);
            },
        }
        self.events.push(event);
        proof {
            lemma_tally_preserved_push(old(self).disputes@, old(self).events@, self.events@.last());
            lemma_appended_push(old(self).events@, self.events@.last());
        }
        Ok(())
    }
}

impl ConsumerChain {
    /// Applies an inbound withdrawal-request report: the requested amount
    /// leaves the reporter's stake and a pending withdrawal with a fresh
    /// timer replaces any earlier one; the chain announces the request,
    /// queues a confirmation for the staking contract, and announces that
    /// too. A request for an unknown reporter, for more than is staked, or
    /// before any registration contradicts this chain's state: it is
    /// dropped with a diagnostic event.
    pub fn withdraw_request_reported(&mut self, reporter: Vec<u8>, address: Vec<u8>, amount: u128)
        -> (r: Result<(), Error>)
        requires
            old(self).wf(),
        ensures
            final(self).wf(),
            r == if old(self).remote_para_id is None {
                Err::<(), Error>(Error::NotRegistered)
            } else if !stakes_map(old(self).stakes@).contains_key(reporter@) || amount > stakes_map(
                old(self).stakes@,
            )[reporter@].1 {
                Err::<(), Error>(Error::InconsistentState)
            } else {
                Ok::<(), Error>(())
            },
            r is Ok ==> {
                &&& stakes_map(final(self).stakes@) == stakes_map(old(self).stakes@).insert(
                    reporter@,
                    (
                        stakes_map(old(self).stakes@)[reporter@].0,
                        (stakes_map(old(self).stakes@)[reporter@].1 - amount) as u128,
                    ),
                )
                &&& withdrawals_map(final(self).withdrawals@) == withdrawals_map(
                    old(self).withdrawals@,
                ).insert(reporter@, (amount, old(self).now))
                &&& appended(old(self).events@, final(self).events@, 2)
                &&& (final(self).events@[old(self).events@.len() as int]
                    matches ConsumerEvent::StakeWithdrawRequestReported { reporter: rep, amount: a, address: addr }
                    && rep@ == reporter@ && a == amount && addr@ == address@)
                &&& (final(self).events@.last()
                    matches ConsumerEvent::StakeWithdrawRequestConfirmationSent { para_id, contract_address }
                    && Some(para_id) == old(self).remote_para_id && contract_address@
                    == crate::types::spec_staking_address())
                &&& appended(old(self).outbox@, final(self).outbox@, 1)
                &&& (final(self).outbox@.last() matches ExecutionCall::ConfirmWithdrawRequest {
                    para_id,
                    staker,
                    amount: a,
                } && Some(para_id) == old(self).remote_para_id && staker@ == address@ && a == amount)
            },
            r is Err ==> {
                &&& final(self).stakes == old(self).stakes
                &&& final(self).withdrawals == old(self).withdrawals
                &&& final(self).outbox == old(self).outbox
                &&& appended(old(self).events@, final(self).events@, 1)
                &&& (final(self).events@.last() matches ConsumerEvent::InboundMessageDropped {
                    error,
                } && Err::<(), Error>(error) == r)
            },
            final(self).same_config(*old(self)),
            final(self).tips == old(self).tips,
            final(self).reports == old(self).reports,
            final(self).disputes == old(self).disputes,
    {
        let remote = match self.remote_para_id {
            Some(p) => p,
            None => {
                self.events.push(ConsumerEvent::InboundMessageDropped { error: Error::NotRegistered });
                proof {
                    lemma_tally_preserved_push(old(self).disputes@, old(self).events@, self.events@.last());
                    lemma_appended_push(old(self).events@, self.events@.last());
                }
                return Err(Error::NotRegistered);
            },
        };
        let found = find_stake(&self.stakes, &reporter);
        let i = match found {
            Some(i) if amount <= self.stakes[i].amount => i,
            _ => {
                proof {
                    if found is Some {
                        lemma_map_of_index(
                            old(self).stakes@,
                            stake_key(),
                            stake_val(),
                            found->0 as int,
                        );
                    } else {
                        lemma_map_of_contains(
                            old(self).stakes@,
                            stake_key(),
                            stake_val(),
                            reporter@,
                        );
                    }
                }
                self.events.push(
                    ConsumerEvent::InboundMessageDropped { error: Error::InconsistentState },
                );
                proof {
                    lemma_tally_preserved_push(old(self).disputes@, old(self).events@, self.events@.last());
                    lemma_appended_push(old(self).events@, self.events@.last());
                }
                return Err(Error::InconsistentState);
            },
        };
        proof {
            lemma_map_of_index(
                old(self).stakes@,
                stake_key(),
                stake_val(),
                i as int,
            );
        }
        self.stakes[i].amount = self.stakes[i].amount - amount;
        proof {
            lemma_unique_update(
                old(self).stakes@,
                stake_key(),
                i as int,
                self.stakes@[i as int],
            );
            lemma_map_of_update(
                old(self).stakes@,
                stake_key(),
                stake_val(),
                i as int,
                self.stakes@[i as int],
            );
        }
        let request = WithdrawalRequest {
            reporter: clone_bytes(&reporter),
            amount,
            request_time: self.now,
        };
        let found_w = find_withdrawal(&self.withdrawals, &reporter);
        match found_w {
            Some(j) => {
                proof {
                    lemma_unique_update(
                        old(self).withdrawals@,
                        withdrawal_key(),
                        j as int,
                        request,
                    );
                    lemma_map_of_update(
                        old(self).withdrawals@,
                        withdrawal_key(),
                        withdrawal_val(),
                        j as int,
                        request,
                    );
                }
                self.withdrawals[j] = request;
            },
            None => {
                proof {
                    lemma_unique_push(
                        old(self).withdrawals@,
                        withdrawal_key(),
                        request,
                    );
                    lemma_map_of_push(
                        old(self).withdrawals@,
                        withdrawal_key(),
                        withdrawal_val(),
                        request,
                    );
                }
                self.withdrawals.push(request);
            },
        }
        let ghost events_mid = self.events@;
        self.events.push(
            ConsumerEvent::StakeWithdrawRequestReported { reporter, amount, address: clone_bytes(&address) },
        );
        proof {
            lemma_tally_preserved_push(old(self).disputes@, old(self).events@, self.events@.last());
        }
        self.events.push(
            ConsumerEvent::StakeWithdrawRequestConfirmationSent {
                para_id: remote,
                contract_address: crate::types::staking_address(),
            },
        );
        self.outbox.push(ExecutionCall::ConfirmWithdrawRequest { para_id: remote, staker: address, amount });
        proof {
            lemma_tally_preserved_push(
                old(self).disputes@,
                old(self).events@.push(self.events@[old(self).events@.len() as int]),
                self.events@.last(),
            );
            lemma_appended_push2(
                old(self).events@,
                self.events@[old(self).events@.len() as int],
                self.events@.last(),
            );
            lemma_appended_push(old(self).outbox@, self.outbox@.last());
        }
        Ok(())
    }

    /// Applies an inbound withdrawal-executed report: the pending
    /// withdrawal is consumed and the chain announces it. Without a
    /// pending withdrawal, or before its lock has expired, the message
    /// contradicts this chain's state and is dropped with a diagnostic:
    /// once consumed, a repeated report is dropped too.
    pub fn withdraw_executed_reported(&mut self, reporter: Vec<u8>) -> (r: Result<(), Error>)
        requires
            old(self).wf(),
        ensures
            final(self).wf(),
            r == if !withdrawals_map(old(self).withdrawals@).contains_key(reporter@) {
                Err::<(), Error>(Error::NoWithdrawalRequested)
            } else if old(self).now < withdrawals_map(old(self).withdrawals@)[reporter@].1
                + crate::params::LOCK_PERIOD {
                Err::<(), Error>(Error::LockNotExpired)
            } else {
                Ok::<(), Error>(())
            },
            r is Ok ==> {
                &&& withdrawals_map(final(self).withdrawals@) == withdrawals_map(
                    old(self).withdrawals@,
                ).remove(reporter@)
                &&& appended(old(self).events@, final(self).events@, 1)
                &&& (final(self).events@.last() matches ConsumerEvent::StakeWithdrawnReported {
                    staker,
                } && staker@ == reporter@)
            },
            r is Err ==> {
                &&& final(self).withdrawals == old(self).withdrawals
                &&& appended(old(self).events@, final(self).events@, 1)
                &&& (final(self).events@.last() matches ConsumerEvent::InboundMessageDropped {
                    error,
                } && Err::<(), Error>(error) == r)
            },
            final(self).same_config(*old(self)),
            final(self).stakes == old(self).stakes,
            final(self).tips == old(self).tips,
            final(self).reports == old(self).reports,
            final(self).disputes == old(self).disputes,
            final(self).outbox == old(self).outbox,
    {
        let found = find_withdrawal(&self.withdrawals, &reporter);
        let i = match found {
            Some(i) => i,
            None => {
                proof {
                    lemma_map_of_contains(
                        old(self).withdrawals@,
                        withdrawal_key(),
                        withdrawal_val(),
                        reporter@,
                    );
                }
                self.events.push(
                    ConsumerEvent::InboundMessageDropped { error: Error::NoWithdrawalRequested },
                );
                proof {
                    lemma_tally_preserved_push(old(self).disputes@, old(self).events@, self.events@.last());
                    lemma_appended_push(old(self).events@, self.events@.last());
                }
                return Err(Error::NoWithdrawalRequested);
            },
        };
        proof {
            lemma_map_of_index(
                old(self).withdrawals@,
                withdrawal_key(),
                withdrawal_val(),
                i as int,
            );
        }
        if self.now - self.withdrawals[i].request_time < crate::params::LOCK_PERIOD {
            self.events.push(ConsumerEvent::InboundMessageDropped { error: Error::LockNotExpired });
            proof {
                lemma_tally_preserved_push(old(self).disputes@, old(self).events@, self.events@.last());
                lemma_appended_push(old(self).events@, self.events@.last());
            }
            return Err(Error::LockNotExpired);
        }
        proof {
            lemma_unique_remove(old(self).withdrawals@, withdrawal_key(), i as int);
            lemma_map_of_remove(
                old(self).withdrawals@,
                withdrawal_key(),
                withdrawal_val(),
                i as int,
            );
        }
        self.withdrawals.remove(i);
        proof {
            assert forall|j: int| 0 <= j < self.withdrawals@.len() implies (
            #[trigger] self.withdrawals@[j]).request_time <= self.now by {
                if j < i as int {
                    assert(self.withdrawals@[j] == old(self).withdrawals@[j]);
                } else {
                    assert(self.withdrawals@[j] == old(self).withdrawals@[j + 1]);
                }
            }
        }
        self.events.push(ConsumerEvent::StakeWithdrawnReported { staker: reporter });
        proof {
            lemma_tally_preserved_push(old(self).disputes@, old(self).events@, self.events@.last());
            lemma_appended_push(old(self).events@, self.events@.last());
        }
        Ok(())
    }

    /// Applies an inbound slash report: the reported amount leaves the
    /// reporter's stake, down to at most zero, and the chain announces it.
    /// A slash for an unknown reporter is dropped with a diagnostic.
    pub fn slash_reported(&mut self, reporter: Vec<u8>, amount: u128) -> (r: Result<(), Error>)
        requires
            old(self).wf(),
        ensures
            final(self).wf(),
            r == if stakes_map(old(self).stakes@).contains_key(reporter@) {
                Ok::<(), Error>(())
            } else {
                Err::<(), Error>(Error::InconsistentState)
            },
            r is Ok ==> {
                &&& stakes_map(final(self).stakes@) == stakes_map(old(self).stakes@).insert(
                    reporter@,
                    (
                        stakes_map(old(self).stakes@)[reporter@].0,
                        if amount <= stakes_map(old(self).stakes@)[reporter@].1 {
                            (stakes_map(old(self).stakes@)[reporter@].1 - amount) as u128
                        } else {
                            0u128
                        },
                    ),
                )
                &&& appended(old(self).events@, final(self).events@, 1)
                &&& (final(self).events@.last() matches ConsumerEvent::SlashReported {
                    reporter: rep,
                    amount: a,
                } && rep@ == reporter@ && a == amount)
            },
            r is Err ==> {
                &&& final(self).stakes == old(self).stakes
                &&& appended(old(self).events@, final(self).events@, 1)
                &&& (final(self).events@.last() matches ConsumerEvent::InboundMessageDropped {
                    error,
                } && error == Error::InconsistentState)
            },
            final(self).same_config(*old(self)),
            final(self).withdrawals == old(self).withdrawals,
            final(self).tips == old(self).tips,
            final(self).reports == old(self).reports,
            final(self).disputes == old(self).disputes,
            final(self).outbox == old(self).outbox,
    {
        let found = find_stake(&self.stakes, &reporter);
        let i = match found {
            Some(i) => i,
            None => {
                proof {
                    lemma_map_of_contains(
                        old(self).stakes@,
                        stake_key(),
                        stake_val(),
                        reporter@,
                    );
                }
                self.events.push(
                    ConsumerEvent::InboundMessageDropped { error: Error::InconsistentState },
                );
                proof {
                    lemma_tally_preserved_push(old(self).disputes@, old(self).events@, self.events@.last());
                    lemma_appended_push(old(self).events@, self.events@.last());
                }
                return Err(Error::InconsistentState);
            },
        };
        proof {
            lemma_map_of_index(
                old(self).stakes@,
                stake_key(),
                stake_val(),
                i as int,
            );
        }
        let staked = self.stakes[i].amount;
        self.stakes[i].amount = if amount <= staked {
            staked - amount
        } else {
            0
        };
        proof {
            lemma_unique_update(
                old(self).stakes@,
                stake_key(),
                i as int,
                self.stakes@[i as int],
            );
            lemma_map_of_update(
                old(self).stakes@,
                stake_key(),
                stake_val(),
                i as int,
                self.stakes@[i as int],
            );
        }
        self.events.push(ConsumerEvent::SlashReported { reporter, amount });
        proof {
            lemma_tally_preserved_push(old(self).disputes@, old(self).events@, self.events@.last());
            lemma_appended_push(old(self).events@, self.events@.last());
        }
        Ok(())
    }

    /// Applies an inbound registration acknowledgement: this chain records
    /// the remote registry's confirmed registration.
    pub fn registration_ack(&mut self, para_id: u32, contract_address: Vec<u8>, weights: Weights)
        requires
            old(self).wf(),
        ensures
            final(self).wf(),
            (final(self).registration matches Some(g) && g.para_id == para_id
                && g.contract_address@ == contract_address@ && g.weights == weights),
            final(self).para_id == old(self).para_id,
            final(self).now == old(self).now,
            final(self).remote_para_id == old(self).remote_para_id,
            final(self).stakes == old(self).stakes,
            final(self).withdrawals == old(self).withdrawals,
            final(self).tips == old(self).tips,
            final(self).reports == old(self).reports,
            final(self).disputes == old(self).disputes,
            final(self).events == old(self).events,
            final(self).outbox == old(self).outbox,
    {
        self.registration = Some(Registration { para_id, contract_address, weights });
    }

    /// Applies an inbound tally confirmation: the dispute whose tally the
    /// remote chain applied becomes `Resolved`. A confirmation for an
    /// unknown dispute, one still voting, or one already resolved is
    /// dropped with a diagnostic.
    pub fn tally_confirmed(&mut self, dispute_id: Vec<u8>) -> (r: Result<(), Error>)
        requires
            old(self).wf(),
        ensures
            final(self).wf(),
            r == if exists|i: int|
                0 <= i < old(self).disputes@.len() && (#[trigger] old(self).disputes@[i]).dispute_id@
                    == dispute_id@ && old(self).disputes@[i].status is TallySent {
                Ok::<(), Error>(())
            } else {
                Err::<(), Error>(Error::InconsistentState)
            },
            r is Ok ==> {
                &&& final(self).disputes@.len() == old(self).disputes@.len()
                &&& forall|i: int|
                    0 <= i < old(self).disputes@.len() ==> final(self).disputes@[i] == (if (
                    #[trigger] old(self).disputes@[i]).dispute_id@ == dispute_id@ {
                        Dispute { status: DisputeStatus::Resolved, ..old(self).disputes@[i] }
                    } else {
                        old(self).disputes@[i]
                    })
                &&& final(self).events == old(self).events
            },
            r is Err ==> {
                &&& final(self).disputes == old(self).disputes
                &&& appended(old(self).events@, final(self).events@, 1)
                &&& (final(self).events@.last() matches ConsumerEvent::InboundMessageDropped {
                    error,
                } && error == Error::InconsistentState)
            },
            final(self).same_config(*old(self)),
            final(self).stakes == old(self).stakes,
            final(self).withdrawals == old(self).withdrawals,
            final(self).tips == old(self).tips,
            final(self).reports == old(self).reports,
            final(self).outbox == old(self).outbox,
    {
        let found = find_dispute(&self.disputes, &dispute_id);
        match found {
            Some(i) if matches!(self.disputes[i].status, DisputeStatus::TallySent) => {
                self.disputes[i].status = DisputeStatus::Resolved;
                proof {
                    let key = dispute_key();
                    assert forall|j: int| 0 <= j < old(self).disputes@.len() implies self.disputes@[j]
                        == (if (#[trigger] old(self).disputes@[j]).dispute_id@ == dispute_id@ {
                        Dispute { status: DisputeStatus::Resolved, ..old(self).disputes@[j] }
                    } else {
                        old(self).disputes@[j]
                    }) by {
                        if j != i as int && old(self).disputes@[j].dispute_id@ == dispute_id@ {
                            assert(key(old(self).disputes@[j]) == key(old(self).disputes@[i as int]));
                        }
                    }
                    assert forall|j: int| 0 <= j < self.disputes@.len() implies tally_event_count(
                        self.events@,
                        (#[trigger] self.disputes@[j]).dispute_id@,
                    ) == (if self.disputes@[j].status is Voting {
                        0int
                    } else {
                        1int
                    }) by {
                        assert(self.disputes@[j].dispute_id@ == old(self).disputes@[j].dispute_id@);
                    }
                    assert forall|j: int| 0 <= j < self.events@.len() implies match #[trigger] self.events@[j] {
                        ConsumerEvent::VoteTallySent { dispute_id: d } => exists|k: int|
                            0 <= k < self.disputes@.len() && (#[trigger] self.disputes@[k]).dispute_id@
                                == d@,
                        _ => true,
                    } by {
                        match self.events@[j] {
                            ConsumerEvent::VoteTallySent { dispute_id: d } => {
                                let k = choose|k: int|
                                    0 <= k < old(self).disputes@.len() && (#[trigger] old(
                                        self,
                                    ).disputes@[k]).dispute_id@ == d@;
                                assert(self.disputes@[k].dispute_id@ == d@);
                            },
                            _ => {},
                        }
                    }
                }
                Ok(())
            },
            _ => {
                proof {
                    if found is Some {
                        let i = found->0 as int;
                        assert forall|j: int|
                            0 <= j < old(self).disputes@.len() && (#[trigger] old(
                                self,
                            ).disputes@[j]).dispute_id@ == dispute_id@ implies !(old(
                            self,
                        ).disputes@[j].status is TallySent) by {
                            let key = dispute_key();
                            if j != i {
                                assert(key(old(self).disputes@[j]) == key(old(self).disputes@[i]));
                            }
                        }
                    }
                }
                self.events.push(
                    ConsumerEvent::InboundMessageDropped { error: Error::InconsistentState },
                );
                proof {
                    lemma_tally_preserved_push(old(self).disputes@, old(self).events@, self.events@.last());
                    lemma_appended_push(old(self).events@, self.events@.last());
                }
                Err(Error::InconsistentState)
            },
        }
    }
}

/// Looks a reporter's pending withdrawal up.
fn find_withdrawal(withdrawals: &Vec<WithdrawalRequest>, reporter: &Vec<u8>) -> (r: Option<usize>)
    ensures
        match r {
            Some(i) => i < withdrawals@.len() && withdrawals@[i as int].reporter@ == reporter@,
            None => forall|i: int|
                0 <= i < withdrawals@.len() ==> (#[trigger] withdrawals@[i]).reporter@ != reporter@,
        },
{
    let mut i: usize = 0;
    while i < withdrawals.len()
        invariant
            i <= withdrawals@.len(),
            forall|j: int| 0 <= j < i ==> (#[trigger] withdrawals@[j]).reporter@ != reporter@,
        decreases withdrawals@.len() - i,
    {
        if bytes_eq(&withdrawals[i].reporter, reporter) {
            return Some(i);
        }
        i = i + 1;
    }
    None
}

/// Looks a dispute up by its identifier.
fn find_dispute(disputes: &Vec<Dispute>, dispute_id: &Vec<u8>) -> (r: Option<usize>)
    ensures
        match r {
            Some(i) => i < disputes@.len() && disputes@[i as int].dispute_id@ == dispute_id@,
            None => forall|i: int|
                0 <= i < disputes@.len() ==> (#[trigger] disputes@[i]).dispute_id@ != dispute_id@,
        },
{
    let mut i: usize = 0;
    while i < disputes.len()
        invariant
            i <= disputes@.len(),
            forall|j: int| 0 <= j < i ==> (#[trigger] disputes@[j]).dispute_id@ != dispute_id@,
        decreases disputes@.len() - i,
    {
        if bytes_eq(&disputes[i].dispute_id, dispute_id) {
            return Some(i);
        }
        i = i + 1;
    }
    None
}

impl ConsumerChain {
    /// Submits a value to the oracle: `query_id` must be the digest of
    /// `query_data`, the reporter must hold a nonzero stake, the nonce
    /// must count the reports already stored for the query, and no report
    /// may yet stand at this chain time. The report is stored under the
    /// current chain time, which the call returns.
    pub fn submit_value(
        &mut self,
        reporter: Vec<u8>,
        query_id: Vec<u8>,
        value: Vec<u8>,
        nonce: u64,
        query_data: Vec<u8>,
    ) -> (r: Result<u64, Error>)
        requires
            old(self).wf(),
        ensures
            final(self).wf(),
            r == if query_data@.len() > crate::params::MAX_QUERY_DATA_LENGTH {
                Err::<u64, Error>(Error::QueryDataTooLong)
            } else if value@.len() > crate::params::MAX_VALUE_LENGTH {
                Err::<u64, Error>(Error::ValueTooLong)
            } else if query_id@ != crate::hashing::keccak256_of(query_data@) {
                Err::<u64, Error>(Error::InvalidQueryId)
            } else if !has_nonzero_stake(old(self).stakes@, reporter@) {
                Err::<u64, Error>(Error::NotStaked)
            } else if nonce != report_count(old(self).reports@, query_id@) {
                Err::<u64, Error>(Error::InvalidNonce)
            } else if has_report_at(old(self).reports@, query_id@, old(self).now) {
                Err::<u64, Error>(Error::DuplicateReport)
            } else {
                Ok::<u64, Error>(old(self).now)
            },
            r is Ok ==> {
                &&& appended(old(self).reports@, final(self).reports@, 1)
                &&& final(self).reports@.last().query_id@ == query_id@
                &&& final(self).reports@.last().timestamp == old(self).now
                &&& final(self).reports@.last().value@ == value@
                &&& final(self).reports@.last().nonce == nonce
                &&& final(self).reports@.last().query_data@ == query_data@
                &&& final(self).reports@.last().reporter@ == reporter@
                &&& appended(old(self).events@, final(self).events@, 1)
                &&& (final(self).events@.last() matches ConsumerEvent::NewReport {
                    query_id: q,
                    time,
                    value: v,
                    nonce: n,
                    query_data: d,
                    reporter: rep,
                } && q@ == query_id@ && time == old(self).now && v@ == value@ && n == nonce && d@
                    == query_data@ && rep@ == reporter@)
            },
            r is Err ==> {
                &&& final(self).reports == old(self).reports
                &&& final(self).events == old(self).events
            },
            final(self).same_config(*old(self)),
            final(self).stakes == old(self).stakes,
            final(self).withdrawals == old(self).withdrawals,
            final(self).tips == old(self).tips,
            final(self).disputes == old(self).disputes,
            final(self).outbox == old(self).outbox,
    {
        if query_data.len() > crate::params::MAX_QUERY_DATA_LENGTH {
            return Err(Error::QueryDataTooLong);
        }
        if value.len() > crate::params::MAX_VALUE_LENGTH {
            return Err(Error::ValueTooLong);
        }
        let digest = crate::hashing::keccak256(&query_data);
        if !bytes_eq(&query_id, &digest) {
            return Err(Error::InvalidQueryId);
        }
        let staked = match find_stake(&self.stakes, &reporter) {
            Some(i) => {
                proof {
                    lemma_map_of_index(
                        self.stakes@,
                        stake_key(),
                        stake_val(),
                        i as int,
                    );
                }
                self.stakes[i].amount
            },
            None => {
                proof {
                    lemma_map_of_contains(
                        self.stakes@,
                        stake_key(),
                        stake_val(),
                        reporter@,
                    );
                }
                0
            },
        };
        if staked == 0 {
            return Err(Error::NotStaked);
        }
        let count = count_reports(&self.reports, &query_id);
        if !(count as u64 == nonce && nonce as usize == count) {
            proof {
                lemma_report_count_bound(self.reports@, query_id@);
            }
            return Err(Error::InvalidNonce);
        }
        if find_report_at(&self.reports, &query_id, self.now).is_some() {
            return Err(Error::DuplicateReport);
        }
        let event = ConsumerEvent::NewReport {
            query_id: clone_bytes(&query_id),
            time: self.now,
            value: clone_bytes(&value),
            nonce,
            query_data: clone_bytes(&query_data),
            reporter: clone_bytes(&reporter),
        };
        let timestamp = self.now;
        self.reports.push(
            Report { query_id, timestamp, value, nonce, query_data, reporter },
        );
        self.events.push(event);
        proof {
            lemma_tally_preserved_push(old(self).disputes@, old(self).events@, self.events@.last());
            lemma_appended_push(old(self).events@, self.events@.last());
            lemma_appended_push(old(self).reports@, self.reports@.last());
        }
        Ok(timestamp)
    }

    /// Adds a tip under the tipper's running total; the total is the
    /// account's weight in the user bucket of a tally. The query id must
    /// be the digest of the query data, and the total must not overflow.
    pub fn tip(&mut self, tipper: Vec<u8>, query_id: Vec<u8>, amount: u128, query_data: Vec<u8>)
        -> (r: Result<(), Error>)
        requires
            old(self).wf(),
        ensures
            final(self).wf(),
            r == if query_data@.len() > crate::params::MAX_QUERY_DATA_LENGTH {
                Err::<(), Error>(Error::QueryDataTooLong)
            } else if query_id@ != crate::hashing::keccak256_of(query_data@) {
                Err::<(), Error>(Error::InvalidQueryId)
            } else if tips_map(old(self).tips@).contains_key(tipper@) && tips_map(old(self).tips@)[tipper@]
                + amount > u128::MAX {
                Err::<(), Error>(Error::Overflow)
            } else {
                Ok::<(), Error>(())
            },
            r is Ok ==> tips_map(final(self).tips@) == tips_map(old(self).tips@).insert(
                tipper@,
                if tips_map(old(self).tips@).contains_key(tipper@) {
                    (tips_map(old(self).tips@)[tipper@] + amount) as u128
                } else {
                    amount
                },
            ),
            r is Err ==> final(self).tips == old(self).tips,
            final(self).same_config(*old(self)),
            final(self).stakes == old(self).stakes,
            final(self).withdrawals == old(self).withdrawals,
            final(self).reports == old(self).reports,
            final(self).disputes == old(self).disputes,
            final(self).events == old(self).events,
            final(self).outbox == old(self).outbox,
    {
        if query_data.len() > crate::params::MAX_QUERY_DATA_LENGTH {
            return Err(Error::QueryDataTooLong);
        }
        let digest = crate::hashing::keccak256(&query_data);
        if !bytes_eq(&query_id, &digest) {
            return Err(Error::InvalidQueryId);
        }
        let found = find_tip(&self.tips, &tipper);
        match found {
            Some(i) => {
                proof {
                    lemma_map_of_index(
                        self.tips@,
                        tip_key(),
                        tip_val(),
                        i as int,
                    );
                }
                let total = self.tips[i].total;
                if total > u128::MAX - amount {
                    return Err(Error::Overflow);
                }
                let record = TipRecord { tipper, total: total + amount };
                proof {
                    lemma_unique_update(self.tips@, tip_key(), i as int, record);
                    lemma_map_of_update(
                        self.tips@,
                        tip_key(),
                        tip_val(),
                        i as int,
                        record,
                    );
                }
                self.tips[i] = record;
            },
            None => {
                proof {
                    lemma_map_of_contains(
                        self.tips@,
                        tip_key(),
                        tip_val(),
                        tipper@,
                    );
                }
                let record = TipRecord { tipper, total: amount };
                proof {
                    lemma_unique_push(self.tips@, tip_key(), record);
                    lemma_map_of_push(
                        self.tips@,
                        tip_key(),
                        tip_val(),
                        record,
                    );
                }
                self.tips.push(record);
            },
        }
        Ok(())
    }

    /// The delayed read: the most recent reported value for `query_id`
    /// whose timestamp lies strictly before `before`, with its timestamp;
    /// `None` when no report does. Consumers read behind a delay so fresh,
    /// still-disputable data cannot reach them.
    pub fn get_data_before(&self, query_id: &Vec<u8>, before: u64) -> (r: Option<(Vec<u8>, u64)>)
        ensures
            match r {
                Some(p) => {
                    &&& p.1 < before
                    &&& exists|i: int|
                        0 <= i < self.reports@.len() && (#[trigger] self.reports@[i]).query_id@
                            == query_id@ && self.reports@[i].timestamp == p.1
                            && self.reports@[i].value@ == p.0@
                    &&& forall|i: int|
                        0 <= i < self.reports@.len() && (#[trigger] self.reports@[i]).query_id@
                            == query_id@ && self.reports@[i].timestamp < before
                            ==> self.reports@[i].timestamp <= p.1
                },
                None => forall|i: int|
                    0 <= i < self.reports@.len() && (#[trigger] self.reports@[i]).query_id@
                        == query_id@ ==> self.reports@[i].timestamp >= before,
            },
    {
        let mut best: Option<usize> = None;
        let mut i: usize = 0;
        while i < self.reports.len()
            invariant
                i <= self.reports@.len(),
                match best {
                    Some(b) => {
                        &&& b < i
                        &&& self.reports@[b as int].query_id@ == query_id@
                        &&& self.reports@[b as int].timestamp < before
                        &&& forall|j: int|
                            0 <= j < i && (#[trigger] self.reports@[j]).query_id@ == query_id@
                                && self.reports@[j].timestamp < before ==> self.reports@[j].timestamp
                                <= self.reports@[b as int].timestamp
                    },
                    None => forall|j: int|
                        0 <= j < i && (#[trigger] self.reports@[j]).query_id@ == query_id@
                            ==> self.reports@[j].timestamp >= before,
                },
            decreases self.reports@.len() - i,
        {
            if self.reports[i].timestamp < before && bytes_eq(&self.reports[i].query_id, query_id) {
                match best {
                    Some(b) => {
                        if self.reports[i].timestamp >= self.reports[b].timestamp {
                            best = Some(i);
                        }
                    },
                    None => {
                        best = Some(i);
                    },
                }
            }
            i = i + 1;
        }
        match best {
            Some(b) => Some((clone_bytes(&self.reports[b].value), self.reports[b].timestamp)),
            None => None,
        }
    }
}

/// The number of reports stored under a query never exceeds the store's
/// length.
proof fn lemma_report_count_bound(reports: Seq<Report>, query_id: Seq<u8>)
    ensures
        0 <= report_count(reports, query_id) <= reports.len(),
    decreases reports.len(),
{
    if reports.len() > 0 {
        lemma_report_count_bound(reports.drop_last(), query_id);
    }
}

/// Counts the reports stored under `query_id`.
fn count_reports(reports: &Vec<Report>, query_id: &Vec<u8>) -> (r: usize)
    ensures
        r == report_count(reports@, query_id@),
{
    let mut count: usize = 0;
    let mut i: usize = 0;
    proof {
        assert(reports@.subrange(0, 0) =~= Seq::<Report>::empty());
    }
    while i < reports.len()
        invariant
            i <= reports@.len(),
            count <= i,
            count == report_count(reports@.subrange(0, i as int), query_id@),
        decreases reports@.len() - i,
    {
        proof {
            let next = reports@.subrange(0, i + 1 as int);
            assert(next.drop_last() =~= reports@.subrange(0, i as int));
            assert(next.last() == reports@[i as int]);
        }
        if bytes_eq(&reports[i].query_id, query_id) {
            count = count + 1;
        }
        i = i + 1;
    }
    proof {
        assert(reports@.subrange(0, reports@.len() as int) =~= reports@);
    }
    count
}

/// Looks the report at `(query_id, timestamp)` up.
fn find_report_at(reports: &Vec<Report>, query_id: &Vec<u8>, timestamp: u64) -> (r: Option<usize>)
    ensures
        match r {
            Some(i) => i < reports@.len() && reports@[i as int].query_id@ == query_id@
                && reports@[i as int].timestamp == timestamp,
            None => !has_report_at(reports@, query_id@, timestamp),
        },
{
    let mut i: usize = 0;
    while i < reports.len()
        invariant
            i <= reports@.len(),
            forall|j: int|
                0 <= j < i ==> !((#[trigger] reports@[j]).query_id@ == query_id@
                    && reports@[j].timestamp == timestamp),
        decreases reports@.len() - i,
    {
        if reports[i].timestamp == timestamp && bytes_eq(&reports[i].query_id, query_id) {
            return Some(i);
        }
        i = i + 1;
    }
    None
}

/// Looks an account's tip record up.
fn find_tip(tips: &Vec<TipRecord>, tipper: &Vec<u8>) -> (r: Option<usize>)
    ensures
        match r {
            Some(i) => i < tips@.len() && tips@[i as int].tipper@ == tipper@,
            None => forall|i: int| 0 <= i < tips@.len() ==> (#[trigger] tips@[i]).tipper@ != tipper@,
        },
{
    let mut i: usize = 0;
    while i < tips.len()
        invariant
            i <= tips@.len(),
            forall|j: int| 0 <= j < i ==> (#[trigger] tips@[j]).tipper@ != tipper@,
        decreases tips@.len() - i,
    {
        if bytes_eq(&tips[i].tipper, tipper) {
            return Some(i);
        }
        i = i + 1;
    }
    None
}

impl ConsumerChain {
    /// Opens a dispute against the report at `(query_id, timestamp)`. The
    /// dispute id is the digest of this chain's id, the query id and the
    /// timestamp; a dispute with that id, resolved or not, bars a new one.
    /// The disputed reporter's whole current stake becomes the dispute
    /// fee: the call queues a slash instruction over it for the remote
    /// governance contract and announces both the dispute and the message.
    pub fn begin_dispute(
        &mut self,
        query_id: Vec<u8>,
        timestamp: u64,
        fee_payer: Option<Vec<u8>>,
    ) -> (r: Result<Vec<u8>, Error>)
        requires
            old(self).wf(),
        ensures
            final(self).wf(),
            match r {
                Ok(did) => did@ == crate::hashing::spec_dispute_id(
                    old(self).para_id,
                    query_id@,
                    timestamp,
                ),
                Err(e) => e == if old(self).remote_para_id is None {
                    Error::NotRegistered
                } else if !has_report_at(old(self).reports@, query_id@, timestamp) {
                    Error::NoSuchReport
                } else if !stakes_map(old(self).stakes@).contains_key(
                    report_at(old(self).reports@, query_id@, timestamp).reporter@,
                ) {
                    Error::NotStaked
                } else {
                    Error::DisputeAlreadyOpen
                },
            },
            r is Ok <==> {
                &&& old(self).remote_para_id is Some
                &&& has_report_at(old(self).reports@, query_id@, timestamp)
                &&& stakes_map(old(self).stakes@).contains_key(
                    report_at(old(self).reports@, query_id@, timestamp).reporter@,
                )
                &&& forall|i: int|
                    0 <= i < old(self).disputes@.len() ==> (#[trigger] old(
                        self,
                    ).disputes@[i]).dispute_id@ != crate::hashing::spec_dispute_id(
                        old(self).para_id,
                        query_id@,
                        timestamp,
                    )
            },
            r is Ok ==> {
                &&& appended(old(self).disputes@, final(self).disputes@, 1)
                &&& final(self).disputes@.last().dispute_id@ == crate::hashing::spec_dispute_id(
                    old(self).para_id,
                    query_id@,
                    timestamp,
                )
                &&& final(self).disputes@.last().query_id@ == query_id@
                &&& final(self).disputes@.last().timestamp == timestamp
                &&& final(self).disputes@.last().disputed_reporter@ == report_at(
                    old(self).reports@,
                    query_id@,
                    timestamp,
                ).reporter@
                &&& final(self).disputes@.last().fee == stakes_map(old(self).stakes@)[report_at(
                    old(self).reports@,
                    query_id@,
                    timestamp,
                ).reporter@].1
                &&& final(self).disputes@.last().fee_payer == fee_payer
                &&& final(self).disputes@.last().votes@.len() == 0
                &&& final(self).disputes@.last().status is Voting
                &&& final(self).disputes@.last().opened_at == old(self).now
                &&& appended(old(self).events@, final(self).events@, 2)
                &&& (final(self).events@[old(self).events@.len() as int]
                    matches ConsumerEvent::NewDispute { dispute_id, query_id: q, timestamp: t, reporter }
                    && dispute_id@ == crate::hashing::spec_dispute_id(
                    old(self).para_id,
                    query_id@,
                    timestamp,
                ) && q@ == query_id@ && t == timestamp && reporter@ == report_at(
                    old(self).reports@,
                    query_id@,
                    timestamp,
                ).reporter@)
                &&& (final(self).events@.last() matches ConsumerEvent::NewDisputeSent {
                    para_id,
                    contract_address,
                } && Some(para_id) == old(self).remote_para_id && contract_address@
                    == crate::types::spec_governance_address())
                &&& appended(old(self).outbox@, final(self).outbox@, 1)
                &&& (final(self).outbox@.last() matches ExecutionCall::NewDispute {
                    para_id,
                    query_id: q,
                    timestamp: t,
                    disputed_reporter,
                    fee,
                } && para_id == old(self).para_id && q@ == query_id@ && t == timestamp
                    && disputed_reporter@ == stakes_map(old(self).stakes@)[report_at(
                    old(self).reports@,
                    query_id@,
                    timestamp,
                ).reporter@].0 && fee == stakes_map(old(self).stakes@)[report_at(
                    old(self).reports@,
                    query_id@,
                    timestamp,
                ).reporter@].1)
            },
            r is Err ==> {
                &&& final(self).disputes == old(self).disputes
                &&& final(self).events == old(self).events
                &&& final(self).outbox == old(self).outbox
            },
            final(self).same_config(*old(self)),
            final(self).stakes == old(self).stakes,
            final(self).withdrawals == old(self).withdrawals,
            final(self).tips == old(self).tips,
            final(self).reports == old(self).reports,
    {
        let remote = match self.remote_para_id {
            Some(p) => p,
            None => {
                return Err(Error::NotRegistered);
            },
        };
        let ri = match find_report_at(&self.reports, &query_id, timestamp) {
            Some(ri) => ri,
            None => {
                return Err(Error::NoSuchReport);
            },
        };
        proof {
            assert(has_report_at(self.reports@, query_id@, timestamp));
            let c = choose|i: int|
                0 <= i < self.reports@.len() && (#[trigger] self.reports@[i]).query_id@ == query_id@
                    && self.reports@[i].timestamp == timestamp;
            assert(report_at(self.reports@, query_id@, timestamp) == self.reports@[c]);
            if c != ri as int {
                assert(false);
            }
        }
        let si = match find_stake(&self.stakes, &self.reports[ri].reporter) {
            Some(si) => si,
            None => {
                proof {
                    lemma_map_of_contains(
                        self.stakes@,
                        stake_key(),
                        stake_val(),
                        report_at(self.reports@, query_id@, timestamp).reporter@,
                    );
                }
                return Err(Error::NotStaked);
            },
        };
        proof {
            lemma_map_of_index(
                self.stakes@,
                stake_key(),
                stake_val(),
                si as int,
            );
        }
        let did = crate::hashing::dispute_id(self.para_id, &query_id, timestamp);
        if find_dispute(&self.disputes, &did).is_some() {
            return Err(Error::DisputeAlreadyOpen);
        }
        let fee = self.stakes[si].amount;
        let disputed_reporter = clone_bytes(&self.reports[ri].reporter);
        let event_new = ConsumerEvent::NewDispute {
            dispute_id: clone_bytes(&did),
            query_id: clone_bytes(&query_id),
            timestamp,
            reporter: clone_bytes(&disputed_reporter),
        };
        let message = ExecutionCall::NewDispute {
            para_id: self.para_id,
            query_id: clone_bytes(&query_id),
            timestamp,
            disputed_reporter: clone_bytes(&self.stakes[si].address),
            fee,
        };
        let dispute = Dispute {
            dispute_id: clone_bytes(&did),
            query_id,
            timestamp,
            disputed_reporter,
            fee,
            fee_payer,
            votes: Vec::new(),
            status: DisputeStatus::Voting,
            opened_at: self.now,
        };
        proof {
            lemma_unique_push(old(self).disputes@, dispute_key(), dispute);
        }
        self.disputes.push(dispute);
        let ghost mid_disputes = self.disputes@;
        self.events.push(event_new);
        self.events.push(ConsumerEvent::NewDisputeSent {
            para_id: remote,
            contract_address: crate::types::governance_address(),
        });
        self.outbox.push(message);
        proof {
            let e1 = self.events@[old(self).events@.len() as int];
            let e2 = self.events@.last();
            lemma_appended_push2(old(self).events@, e1, e2);
            lemma_appended_push(old(self).outbox@, self.outbox@.last());
            lemma_appended_push(old(self).disputes@, self.disputes@.last());
            // the old disputes keep their tally bookkeeping
            lemma_tally_preserved_push(old(self).disputes@, old(self).events@, e1);
            lemma_tally_preserved_push(old(self).disputes@, old(self).events@.push(e1), e2);
            // the new dispute has no tally entry yet
            lemma_tally_count_zero(
                old(self).disputes@,
                old(self).events@,
                self.disputes@.last().dispute_id@,
            );
            lemma_tally_count_push(old(self).events@, e1, self.disputes@.last().dispute_id@);
            lemma_tally_count_push(
                old(self).events@.push(e1),
                e2,
                self.disputes@.last().dispute_id@,
            );
            assert forall|i: int| 0 <= i < self.disputes@.len() implies tally_event_count(
                self.events@,
                (#[trigger] self.disputes@[i]).dispute_id@,
            ) == (if self.disputes@[i].status is Voting {
                0int
            } else {
                1int
            }) by {
                if i < old(self).disputes@.len() {
                    assert(self.disputes@[i] == old(self).disputes@[i]);
                }
            }
            assert forall|j: int| 0 <= j < self.events@.len() implies match #[trigger] self.events@[j] {
                ConsumerEvent::VoteTallySent { dispute_id: d } => exists|k: int|
                    0 <= k < self.disputes@.len() && (#[trigger] self.disputes@[k]).dispute_id@
                        == d@,
                _ => true,
            } by {
                if j < old(self).events@.len() {
                    assert(self.events@[j] == old(self).events@[j]);
                    match old(self).events@[j] {
                        ConsumerEvent::VoteTallySent { dispute_id: d } => {
                            let k = choose|k: int|
                                0 <= k < old(self).disputes@.len() && (#[trigger] old(
                                    self,
                                ).disputes@[k]).dispute_id@ == d@;
                            assert(self.disputes@[k].dispute_id@ == d@);
                        },
                        _ => {},
                    }
                }
            }
        }
        Ok(did)
    }

    /// Records or overwrites the caller's vote on a dispute: support,
    /// against, or an explicit abstain. Votes are accepted only while the
    /// dispute is `Voting` and strictly before the cutoff, one voting
    /// window after it was opened.
    pub fn vote(&mut self, voter: Vec<u8>, dispute_id: Vec<u8>, choice: Option<bool>) -> (r:
        Result<(), Error>)
        requires
            old(self).wf(),
        ensures
            final(self).wf(),
            r == if !(exists|i: int|
                0 <= i < old(self).disputes@.len() && (#[trigger] old(self).disputes@[i]).dispute_id@
                    == dispute_id@) {
                Err::<(), Error>(Error::DisputeNotFound)
            } else if !(dispute_at(old(self).disputes@, dispute_id@).status is Voting)
                || old(self).now >= dispute_at(old(self).disputes@, dispute_id@).opened_at
                + crate::params::VOTING_PERIOD {
                Err::<(), Error>(Error::VotingClosed)
            } else {
                Ok::<(), Error>(())
            },
            r is Ok ==> {
                &&& final(self).disputes@.len() == old(self).disputes@.len()
                &&& forall|j: int|
                    0 <= j < old(self).disputes@.len() && (#[trigger] old(
                        self,
                    ).disputes@[j]).dispute_id@ != dispute_id@ ==> final(self).disputes@[j] == old(
                        self,
                    ).disputes@[j]
                &&& forall|j: int|
                    0 <= j < old(self).disputes@.len() && (#[trigger] old(
                        self,
                    ).disputes@[j]).dispute_id@ == dispute_id@ ==> {
                        let d0 = old(self).disputes@[j];
                        let d1 = final(self).disputes@[j];
                        &&& d1.dispute_id == d0.dispute_id
                        &&& d1.query_id == d0.query_id
                        &&& d1.timestamp == d0.timestamp
                        &&& d1.disputed_reporter == d0.disputed_reporter
                        &&& d1.fee == d0.fee
                        &&& d1.fee_payer == d0.fee_payer
                        &&& d1.status == d0.status
                        &&& d1.opened_at == d0.opened_at
                        &&& votes_map(d1.votes@) == votes_map(d0.votes@).insert(voter@, choice)
                    }
            },
            r is Err ==> final(self).disputes == old(self).disputes,
            final(self).same_config(*old(self)),
            final(self).stakes == old(self).stakes,
            final(self).withdrawals == old(self).withdrawals,
            final(self).tips == old(self).tips,
            final(self).reports == old(self).reports,
            final(self).events == old(self).events,
            final(self).outbox == old(self).outbox,
    {
        let i = match find_dispute(&self.disputes, &dispute_id) {
            Some(i) => i,
            None => {
                return Err(Error::DisputeNotFound);
            },
        };
        proof {
            lemma_dispute_at(self.disputes@, dispute_id@, i as int);
        }
        let open = matches!(self.disputes[i].status, DisputeStatus::Voting);
        if !open || self.now - self.disputes[i].opened_at >= crate::params::VOTING_PERIOD {
            return Err(Error::VotingClosed);
        }
        let vote = Vote { voter, choice };
        let found = find_vote(&self.disputes[i].votes, &vote.voter);
        let ghost votes0 = self.disputes@[i as int].votes@;
        match found {
            Some(j) => {
                proof {
                    lemma_unique_update(votes0, vote_key(), j as int, vote);
                    lemma_map_of_update(
                        votes0,
                        vote_key(),
                        vote_val(),
                        j as int,
                        vote,
                    );
                }
                self.disputes[i].votes[j] = vote;
            },
            None => {
                proof {
                    lemma_unique_push(votes0, vote_key(), vote);
                    lemma_map_of_push(votes0, vote_key(), vote_val(), vote);
                }
                self.disputes[i].votes.push(vote);
            },
        }
        proof {
            let key = dispute_key();
            assert forall|j: int|
                0 <= j < old(self).disputes@.len() && (#[trigger] old(self).disputes@[j]).dispute_id@
                    == dispute_id@ implies j == i as int by {
                if j != i as int {
                    assert(key(old(self).disputes@[j]) == key(old(self).disputes@[i as int]));
                }
            }
            assert forall|j: int| 0 <= j < self.disputes@.len() implies tally_event_count(
                self.events@,
                (#[trigger] self.disputes@[j]).dispute_id@,
            ) == (if self.disputes@[j].status is Voting {
                0int
            } else {
                1int
            }) by {
                assert(self.disputes@[j].dispute_id@ == old(self).disputes@[j].dispute_id@);
                assert(self.disputes@[j].status == old(self).disputes@[j].status);
            }
            assert forall|j: int| 0 <= j < self.events@.len() implies match #[trigger] self.events@[j] {
                ConsumerEvent::VoteTallySent { dispute_id: d } => exists|k: int|
                    0 <= k < self.disputes@.len() && (#[trigger] self.disputes@[k]).dispute_id@
                        == d@,
                _ => true,
            } by {
                match self.events@[j] {
                    ConsumerEvent::VoteTallySent { dispute_id: d } => {
                        let k = choose|k: int|
                            0 <= k < old(self).disputes@.len() && (#[trigger] old(
                                self,
                            ).disputes@[k]).dispute_id@ == d@;
                        assert(self.disputes@[k].dispute_id@ == d@);
                    },
                    _ => {},
                }
            }
        }
        Ok(())
    }
}

/// The dispute carrying `dispute_id`, where one exists.
pub open spec fn dispute_at(disputes: Seq<Dispute>, dispute_id: Seq<u8>) -> Dispute {
    disputes[choose|i: int|
        0 <= i < disputes.len() && (#[trigger] disputes[i]).dispute_id@ == dispute_id]
}

/// With distinct dispute ids, the record at a matching index is the
/// dispute carrying that id.
proof fn lemma_dispute_at(disputes: Seq<Dispute>, dispute_id: Seq<u8>, i: int)
    requires
        unique_keys(disputes, dispute_key()),
        0 <= i < disputes.len(),
        disputes[i].dispute_id@ == dispute_id,
    ensures
        dispute_at(disputes, dispute_id) == disputes[i],
{
    let key = dispute_key();
    let c = choose|k: int|
        0 <= k < disputes.len() && (#[trigger] disputes[k]).dispute_id@ == dispute_id;
    if c != i {
        assert(key(disputes[c]) == key(disputes[i]));
    }
}

/// The report at `(query_id, timestamp)`, where one exists.
pub open spec fn report_at(reports: Seq<Report>, query_id: Seq<u8>, timestamp: u64) -> Report {
    reports[choose|i: int|
        0 <= i < reports.len() && (#[trigger] reports[i]).query_id@ == query_id
            && reports[i].timestamp == timestamp]
}

/// Appending an event adds one tally entry under its dispute where it is a
/// tally dispatch for it, and none otherwise.
proof fn lemma_tally_count_push(events: Seq<ConsumerEvent>, e: ConsumerEvent, d: Seq<u8>)
    ensures
        tally_event_count(events.push(e), d) == tally_event_count(events, d) + (match e {
            ConsumerEvent::VoteTallySent { dispute_id } => if dispute_id@ == d {
                1int
            } else {
                0int
            },
            _ => 0int,
        }),
{
    assert(events.push(e).drop_last() =~= events);
}

/// A dispute id no recorded dispute carries has no tally entry in a log
/// whose entries all belong to recorded disputes.
proof fn lemma_tally_count_zero(disputes: Seq<Dispute>, events: Seq<ConsumerEvent>, d: Seq<u8>)
    requires
        tally_covered(disputes, events),
        forall|i: int| 0 <= i < disputes.len() ==> (#[trigger] disputes[i]).dispute_id@ != d,
    ensures
        tally_event_count(events, d) == 0,
    decreases events.len(),
{
    if events.len() > 0 {
        assert forall|j: int| 0 <= j < events.drop_last().len() implies match #[trigger] events.drop_last()[j] {
            ConsumerEvent::VoteTallySent { dispute_id } => exists|i: int|
                0 <= i < disputes.len() && (#[trigger] disputes[i]).dispute_id@ == dispute_id@,
            _ => true,
        } by {
            assert(events.drop_last()[j] == events[j]);
        }
        lemma_tally_count_zero(disputes, events.drop_last(), d);
        assert(events[events.len() - 1] == events.last());
        match events.last() {
            ConsumerEvent::VoteTallySent { dispute_id } => {
                assert(dispute_id@ != d);
            },
            _ => {},
        }
    }
}

/// Looks a voter's cast vote up.
fn find_vote(votes: &Vec<Vote>, voter: &Vec<u8>) -> (r: Option<usize>)
    ensures
        match r {
            Some(i) => i < votes@.len() && votes@[i as int].voter@ == voter@,
            None => forall|i: int| 0 <= i < votes@.len() ==> (#[trigger] votes@[i]).voter@ != voter@,
        },
{
    let mut i: usize = 0;
    while i < votes.len()
        invariant
            i <= votes@.len(),
            forall|j: int| 0 <= j < i ==> (#[trigger] votes@[j]).voter@ != voter@,
        decreases votes@.len() - i,
    {
        if bytes_eq(&votes[i].voter, voter) {
            return Some(i);
        }
        i = i + 1;
    }
    None
}

impl ConsumerChain {
    /// Dispatches the tally of every dispute past its voting cutoff, up
    /// to `limit` in one call, in dispute order: each tally is computed
    /// from the dispute's votes, queued for the remote governance
    /// contract with its checksum, recorded in the event log, and the
    /// dispute becomes `TallySent`. A dispute the budget defers is simply
    /// taken up by the next call; one already `TallySent` is never sent
    /// again. A dispute without votes is sent with an all-zero tally, not
    /// skipped. With no registered remote chain nothing is sent.
    #[verifier::rlimit(100)]
    pub fn send_votes(&mut self, limit: usize) -> (r: usize)
        requires
            old(self).wf(),
        ensures
            final(self).wf(),
            old(self).remote_para_id is None ==> *final(self) == *old(self) && r == 0,
            old(self).remote_para_id is Some ==> {
                let ids = sent_ids(old(self).disputes@, limit as int, old(self).now);
                &&& r == ids.len()
                &&& final(self).disputes@.len() == old(self).disputes@.len()
                &&& forall|j: int|
                    0 <= j < old(self).disputes@.len() ==> #[trigger] final(self).disputes@[j] == (
                    if tally_due(old(self).disputes@[j], old(self).now) && sent_ids(
                        old(self).disputes@.subrange(0, j),
                        limit as int,
                        old(self).now,
                    ).len() < limit {
                        Dispute { status: DisputeStatus::TallySent, ..old(self).disputes@[j] }
                    } else {
                        old(self).disputes@[j]
                    })
                &&& appended(old(self).events@, final(self).events@, ids.len() as int)
                &&& forall|k: int|
                    0 <= k < ids.len() ==> is_tally_event(
                        final(self).events@[old(self).events@.len() + k],
                        #[trigger] sent_id_at(old(self).disputes@, limit as int, old(self).now, k),
                    )
                &&& appended(old(self).outbox@, final(self).outbox@, ids.len() as int)
                &&& forall|k: int|
                    0 <= k < ids.len() ==> is_tally_message(
                        final(self).outbox@[old(self).outbox@.len() + k],
                        old(self).remote_para_id->0,
                        #[trigger] sent_id_at(old(self).disputes@, limit as int, old(self).now, k),
                        spec_tally(
                            dispute_at(
                                old(self).disputes@,
                                sent_id_at(old(self).disputes@, limit as int, old(self).now, k),
                            ).votes@,
                            old(self).tips@,
                            old(self).reports@,
                        ),
                    )
            },
            final(self).same_config(*old(self)),
            final(self).stakes == old(self).stakes,
            final(self).withdrawals == old(self).withdrawals,
            final(self).tips == old(self).tips,
            final(self).reports == old(self).reports,
    {
        let remote = match self.remote_para_id {
            Some(p) => p,
            None => {
                return 0;
            },
        };
        let mut i: usize = 0;
        let mut sent: usize = 0;
        proof {
            assert(old(self).events@.subrange(0, old(self).events@.len() as int) =~= old(
                self,
            ).events@);
            assert(old(self).outbox@.subrange(0, old(self).outbox@.len() as int) =~= old(
                self,
            ).outbox@);
            assert(old(self).disputes@.subrange(0, 0) =~= Seq::<Dispute>::empty());
            assert(sent_ids(old(self).disputes@, limit as int, old(self).now).subrange(0, 0)
                =~= Seq::<Seq<u8>>::empty());
        }
        while i < self.disputes.len()
            invariant
                old(self).wf(),
                old(self).remote_para_id == Some(remote),
                self.para_id == old(self).para_id,
                self.now == old(self).now,
                self.remote_para_id == old(self).remote_para_id,
                self.registration == old(self).registration,
                self.stakes == old(self).stakes,
                self.withdrawals == old(self).withdrawals,
                self.tips == old(self).tips,
                self.reports == old(self).reports,
                i <= self.disputes@.len(),
                sent <= i,
                self.disputes@.len() == old(self).disputes@.len(),
                unique_keys(self.disputes@, dispute_key()),
                forall|j: int|
                    0 <= j < self.disputes@.len() ==> (#[trigger] self.disputes@[j]).wf(self.now),
                forall|j: int|
                    i <= j < self.disputes@.len() ==> #[trigger] self.disputes@[j] == old(
                        self,
                    ).disputes@[j],
                forall|j: int|
                    0 <= j < i ==> #[trigger] self.disputes@[j] == (if tally_due(
                        old(self).disputes@[j],
                        old(self).now,
                    ) && sent_ids(
                        old(self).disputes@.subrange(0, j),
                        limit as int,
                        old(self).now,
                    ).len() < limit {
                        Dispute { status: DisputeStatus::TallySent, ..old(self).disputes@[j] }
                    } else {
                        old(self).disputes@[j]
                    }),
                sent == sent_ids(
                    old(self).disputes@.subrange(0, i as int),
                    limit as int,
                    old(self).now,
                ).len(),
                sent_ids(old(self).disputes@.subrange(0, i as int), limit as int, old(self).now)
                    == sent_ids(old(self).disputes@, limit as int, old(self).now).subrange(
                    0,
                    sent as int,
                ),
                appended(old(self).events@, self.events@, sent as int),
                forall|k: int|
                    0 <= k < sent ==> is_tally_event(
                        self.events@[old(self).events@.len() + k],
                        #[trigger] sent_id_at(old(self).disputes@, limit as int, old(self).now, k),
                    ),
                appended(old(self).outbox@, self.outbox@, sent as int),
                forall|k: int|
                    0 <= k < sent ==> is_tally_message(
                        self.outbox@[old(self).outbox@.len() + k],
                        remote,
                        #[trigger] sent_id_at(old(self).disputes@, limit as int, old(self).now, k),
                        spec_tally(
                            dispute_at(
                                old(self).disputes@,
                                sent_id_at(old(self).disputes@, limit as int, old(self).now, k),
                            ).votes@,
                            old(self).tips@,
                            old(self).reports@,
                        ),
                    ),
                tally_once(self.disputes@, self.events@),
                tally_covered(self.disputes@, self.events@),
            decreases self.disputes@.len() - i,
        {
            let cur = i;
            i = i + 1;
            proof {
                let full = old(self).disputes@;
                let sub1 = full.subrange(0, i as int);
                assert(sub1.drop_last() =~= full.subrange(0, cur as int));
                assert(sub1.last() == full[cur as int]);
                lemma_sent_ids_prefix(full, limit as int, old(self).now, i as int);
            }
            let due = matches!(self.disputes[cur].status, DisputeStatus::Voting) && self.now
                - self.disputes[cur].opened_at >= crate::params::VOTING_PERIOD;
            if due && sent < limit {
                let tally = compute_tally(&self.disputes[cur].votes, &self.tips, &self.reports);
                let checksum = crate::types::tally_checksum(&tally);
                let did = clone_bytes(&self.disputes[cur].dispute_id);
                proof {
                    lemma_unique_update(
                        self.disputes@,
                        dispute_key(),
                        cur as int,
                        Dispute { status: DisputeStatus::TallySent, ..self.disputes@[cur as int] },
                    );
                    lemma_dispute_at(
                        old(self).disputes@,
                        old(self).disputes@[cur as int].dispute_id@,
                        cur as int,
                    );
                }
                let ghost pre_disputes = self.disputes@;
                self.disputes[cur].status = DisputeStatus::TallySent;
                let ghost pre_events = self.events@;
                self.events.push(ConsumerEvent::VoteTallySent { dispute_id: clone_bytes(&did) });
                let ghost pre_outbox = self.outbox@;
                self.outbox.push(
                    ExecutionCall::VoteTally { para_id: remote, dispute_id: did, tally, checksum },
                );
                sent = sent + 1;
                proof {
                    let full = old(self).disputes@;
                    let ids_full = sent_ids(full, limit as int, old(self).now);
                    let ii = cur as int;
                    let old_d = full[ii];
                    let idv = old_d.dispute_id@;
                    let sub = full.subrange(0, cur as int);
                    let sub1 = full.subrange(0, i as int);
                    assert(tally_due(old_d, old(self).now));
                    assert(sent_ids(sub1, limit as int, old(self).now) == sent_ids(
                        sub,
                        limit as int,
                        old(self).now,
                    ).push(idv));
                    assert(sent_ids(sub1, limit as int, old(self).now) == ids_full.subrange(
                        0,
                        sent as int,
                    ));
                    assert(sent_ids(sub1, limit as int, old(self).now).len() == sent);
                    assert(sent_ids(sub1, limit as int, old(self).now)[sent - 1] == idv);
                    assert(ids_full.subrange(0, sent as int)[sent - 1] == ids_full[sent - 1]);
                    assert(ids_full[sent - 1] == idv);
                    assert(sent_id_at(full, limit as int, old(self).now, sent - 1) == idv);
                    assert(self.disputes@ == pre_disputes.update(ii, self.disputes@[ii]));
                    assert(self.disputes@[ii] == (Dispute {
                        status: DisputeStatus::TallySent,
                        ..old_d
                    }));
                    let e = self.events@.last();
                    assert(self.events@ == pre_events.push(e));
                    assert forall|j: int| 0 <= j < self.disputes@.len() implies tally_event_count(
                        self.events@,
                        (#[trigger] self.disputes@[j]).dispute_id@,
                    ) == (if self.disputes@[j].status is Voting {
                        0int
                    } else {
                        1int
                    }) by {
                        lemma_tally_count_push(pre_events, e, self.disputes@[j].dispute_id@);
                        if j != ii {
                            assert(self.disputes@[j] == pre_disputes[j]);
                            assert(dispute_key()(pre_disputes[j]) != dispute_key()(
                                pre_disputes[ii],
                            ));
                            assert(self.disputes@[j].dispute_id@ != idv);
                        }
                    }
                    assert forall|j: int| 0 <= j < self.events@.len() implies match #[trigger] self.events@[j] {
                        ConsumerEvent::VoteTallySent { dispute_id } => exists|k: int|
                            0 <= k < self.disputes@.len() && (#[trigger] self.disputes@[k]).dispute_id@
                                == dispute_id@,
                        _ => true,
                    } by {
                        if j < pre_events.len() {
                            assert(self.events@[j] == pre_events[j]);
                            match pre_events[j] {
                                ConsumerEvent::VoteTallySent { dispute_id } => {
                                    let k = choose|k: int|
                                        0 <= k < pre_disputes.len() && (#[trigger] pre_disputes[k]).dispute_id@
                                            == dispute_id@;
                                    assert(self.disputes@[k].dispute_id@ == dispute_id@);
                                },
                                _ => {},
                            }
                        } else {
                            assert(self.disputes@[ii].dispute_id@ == idv);
                        }
                    }
                    assert(self.events@.subrange(0, old(self).events@.len() as int) =~= old(
                        self,
                    ).events@);
                    assert(self.outbox@.subrange(0, old(self).outbox@.len() as int) =~= old(
                        self,
                    ).outbox@);
                    assert((self.outbox@.last() matches ExecutionCall::VoteTally {
                        para_id,
                        dispute_id,
                        tally: ta,
                        checksum: ck,
                    } && para_id == remote && dispute_id@ == idv && ta == tally && ck == checksum));
                    assert forall|k: int| 0 <= k < sent implies is_tally_event(
                        self.events@[old(self).events@.len() + k],
                        #[trigger] sent_id_at(old(self).disputes@, limit as int, old(self).now, k),
                    ) by {
                        if k < sent - 1 {
                            assert(self.events@[old(self).events@.len() + k] == pre_events[old(
                                self,
                            ).events@.len() + k]);
                        } else {
                            assert(self.events@[old(self).events@.len() + k] == self.events@.last());
                        }
                    }
                    assert forall|k: int| 0 <= k < sent implies is_tally_message(
                        self.outbox@[old(self).outbox@.len() + k],
                        remote,
                        #[trigger] sent_id_at(old(self).disputes@, limit as int, old(self).now, k),
                        spec_tally(
                            dispute_at(
                                old(self).disputes@,
                                sent_id_at(old(self).disputes@, limit as int, old(self).now, k),
                            ).votes@,
                            old(self).tips@,
                            old(self).reports@,
                        ),
                    ) by {
                        if k < sent - 1 {
                            assert(self.outbox@[old(self).outbox@.len() + k] == pre_outbox[old(
                                self,
                            ).outbox@.len() + k]);
                        } else {
                            assert(self.outbox@[old(self).outbox@.len() + k] == self.outbox@.last());
                            assert(dispute_at(old(self).disputes@, idv) == old(self).disputes@[ii]);
                            assert(tally == spec_tally(
                                old(self).disputes@[ii].votes@,
                                old(self).tips@,
                                old(self).reports@,
                            ));
                        }
                    }
                }
            } else {
                proof {
                    let full = old(self).disputes@;
                    let ii = cur as int;
                    let old_d = full[ii];
                    let sub = full.subrange(0, cur as int);
                    let sub1 = full.subrange(0, i as int);
                    if tally_due(old_d, old(self).now) {
                        assert(sent >= limit);
                    }
                    assert(sent_ids(sub1, limit as int, old(self).now) == sent_ids(
                        sub,
                        limit as int,
                        old(self).now,
                    ));
                }
            }
        }
        proof {
            assert(old(self).disputes@.subrange(0, i as int) =~= old(self).disputes@);
        }
        sent
    }

    /// The scheduled tick: dispatches due tallies with the standard batch
    /// budget, exactly as `send_votes` does.
    pub fn on_initialize(&mut self) -> (r: usize)
        requires
            old(self).wf(),
        ensures
            final(self).wf(),
            old(self).remote_para_id is None ==> *final(self) == *old(self) && r == 0,
            old(self).remote_para_id is Some ==> {
                let ids = sent_ids(
                    old(self).disputes@,
                    crate::params::TALLY_BATCH_LIMIT as int,
                    old(self).now,
                );
                &&& r == ids.len()
                &&& final(self).disputes@.len() == old(self).disputes@.len()
                &&& forall|j: int|
                    0 <= j < old(self).disputes@.len() ==> #[trigger] final(self).disputes@[j] == (
                    if tally_due(old(self).disputes@[j], old(self).now) && sent_ids(
                        old(self).disputes@.subrange(0, j),
                        crate::params::TALLY_BATCH_LIMIT as int,
                        old(self).now,
                    ).len() < crate::params::TALLY_BATCH_LIMIT {
                        Dispute { status: DisputeStatus::TallySent, ..old(self).disputes@[j] }
                    } else {
                        old(self).disputes@[j]
                    })
                &&& appended(old(self).events@, final(self).events@, ids.len() as int)
                &&& forall|k: int|
                    0 <= k < ids.len() ==> is_tally_event(
                        final(self).events@[old(self).events@.len() + k],
                        #[trigger] sent_id_at(
                            old(self).disputes@,
                            crate::params::TALLY_BATCH_LIMIT as int,
                            old(self).now,
                            k,
                        ),
                    )
                &&& appended(old(self).outbox@, final(self).outbox@, ids.len() as int)
                &&& forall|k: int|
                    0 <= k < ids.len() ==> is_tally_message(
                        final(self).outbox@[old(self).outbox@.len() + k],
                        old(self).remote_para_id->0,
                        #[trigger] sent_id_at(
                            old(self).disputes@,
                            crate::params::TALLY_BATCH_LIMIT as int,
                            old(self).now,
                            k,
                        ),
                        spec_tally(
                            dispute_at(
                                old(self).disputes@,
                                sent_id_at(
                                    old(self).disputes@,
                                    crate::params::TALLY_BATCH_LIMIT as int,
                                    old(self).now,
                                    k,
                                ),
                            ).votes@,
                            old(self).tips@,
                            old(self).reports@,
                        ),
                    )
            },
            final(self).same_config(*old(self)),
            final(self).stakes == old(self).stakes,
            final(self).withdrawals == old(self).withdrawals,
            final(self).tips == old(self).tips,
            final(self).reports == old(self).reports,
    {
        self.send_votes(crate::params::TALLY_BATCH_LIMIT)
    }
}

/// Whether a dispute is due for its tally: still `Voting`, with the
/// voting window elapsed.
pub open spec fn tally_due(d: Dispute, now: u64) -> bool {
    d.status is Voting && now >= d.opened_at + crate::params::VOTING_PERIOD
}

/// A voter's weight in the user bucket: their tip total, zero without
/// tips.
pub open spec fn user_weight(tips: Seq<TipRecord>, voter: Seq<u8>) -> int {
    if tips_map(tips).contains_key(voter) {
        tips_map(tips)[voter] as int
    } else {
        0
    }
}

/// The tally of a vote list: each voter's tip total lands in the user
/// bucket and their report count in the reporter bucket of the choice
/// they cast, buckets saturating. A dispute without votes tallies to all
/// zeroes, and is still sent.
pub open spec fn spec_tally(votes: Seq<Vote>, tips: Seq<TipRecord>, reports: Seq<Report>) -> Tally
    decreases votes.len(),
{
    if votes.len() == 0 {
        Tally {
            users_support: 0,
            users_against: 0,
            users_invalid: 0,
            reporters_support: 0,
            reporters_against: 0,
            reporters_invalid: 0,
        }
    } else {
        let rest = spec_tally(votes.drop_last(), tips, reports);
        let v = votes.last();
        let uw = user_weight(tips, v.voter@);
        let rw = reports_by(reports, v.voter@);
        match v.choice {
            Some(true) => Tally {
                users_support: crate::types::sat_add(rest.users_support, uw),
                reporters_support: crate::types::sat_add(rest.reporters_support, rw),
                ..rest
            },
            Some(false) => Tally {
                users_against: crate::types::sat_add(rest.users_against, uw),
                reporters_against: crate::types::sat_add(rest.reporters_against, rw),
                ..rest
            },
            None => Tally {
                users_invalid: crate::types::sat_add(rest.users_invalid, uw),
                reporters_invalid: crate::types::sat_add(rest.reporters_invalid, rw),
                ..rest
            },
        }
    }
}

/// Which dispute ids one tick dispatches, in order: each due dispute as
/// long as the batch budget is not yet spent. What the budget defers is
/// not an error; the next tick takes it up.
pub open spec fn sent_ids(disputes: Seq<Dispute>, budget: int, now: u64) -> Seq<Seq<u8>>
    decreases disputes.len(),
{
    if disputes.len() == 0 {
        Seq::empty()
    } else {
        let rest = sent_ids(disputes.drop_last(), budget, now);
        if tally_due(disputes.last(), now) && rest.len() < budget {
            rest.push(disputes.last().dispute_id@)
        } else {
            rest
        }
    }
}

/// Counts the reports `reporter` submitted.
fn count_reports_by(reports: &Vec<Report>, reporter: &Vec<u8>) -> (r: usize)
    ensures
        r == reports_by(reports@, reporter@),
{
    let mut count: usize = 0;
    let mut i: usize = 0;
    proof {
        assert(reports@.subrange(0, 0) =~= Seq::<Report>::empty());
    }
    while i < reports.len()
        invariant
            i <= reports@.len(),
            count <= i,
            count == reports_by(reports@.subrange(0, i as int), reporter@),
        decreases reports@.len() - i,
    {
        proof {
            let next = reports@.subrange(0, i + 1 as int);
            assert(next.drop_last() =~= reports@.subrange(0, i as int));
            assert(next.last() == reports@[i as int]);
        }
        if bytes_eq(&reports[i].reporter, reporter) {
            count = count + 1;
        }
        i = i + 1;
    }
    proof {
        assert(reports@.subrange(0, reports@.len() as int) =~= reports@);
    }
    count
}

/// Computes the tally of a vote list from the tip and report stores.
fn compute_tally(votes: &Vec<Vote>, tips: &Vec<TipRecord>, reports: &Vec<Report>) -> (r: Tally)
    requires
        unique_keys(tips@, tip_key()),
    ensures
        r == spec_tally(votes@, tips@, reports@),
{
    let mut acc = Tally {
        users_support: 0,
        users_against: 0,
        users_invalid: 0,
        reporters_support: 0,
        reporters_against: 0,
        reporters_invalid: 0,
    };
    let mut i: usize = 0;
    proof {
        assert(votes@.subrange(0, 0) =~= Seq::<Vote>::empty());
    }
    while i < votes.len()
        invariant
            i <= votes@.len(),
            unique_keys(tips@, tip_key()),
            acc == spec_tally(votes@.subrange(0, i as int), tips@, reports@),
        decreases votes@.len() - i,
    {
        proof {
            let next = votes@.subrange(0, i + 1 as int);
            assert(next.drop_last() =~= votes@.subrange(0, i as int));
            assert(next.last() == votes@[i as int]);
        }
        let uw: u128 = match find_tip(tips, &votes[i].voter) {
            Some(ti) => {
                proof {
                    lemma_map_of_index(
                        tips@,
                        tip_key(),
                        tip_val(),
                        ti as int,
                    );
                }
                tips[ti].total
            },
            None => {
                proof {
                    lemma_map_of_contains(
                        tips@,
                        tip_key(),
                        tip_val(),
                        votes@[i as int].voter@,
                    );
                }
                0
            },
        };
        let rw: u128 = count_reports_by(reports, &votes[i].voter) as u128;
        match votes[i].choice {
            Some(true) => {
                acc.users_support = crate::types::sat_add_exec(acc.users_support, uw);
                acc.reporters_support = crate::types::sat_add_exec(acc.reporters_support, rw);
            },
            Some(false) => {
                acc.users_against = crate::types::sat_add_exec(acc.users_against, uw);
                acc.reporters_against = crate::types::sat_add_exec(acc.reporters_against, rw);
            },
            None => {
                acc.users_invalid = crate::types::sat_add_exec(acc.users_invalid, uw);
                acc.reporters_invalid = crate::types::sat_add_exec(acc.reporters_invalid, rw);
            },
        }
        i = i + 1;
    }
    proof {
        assert(votes@.subrange(0, votes@.len() as int) =~= votes@);
    }
    acc
}

/// The `k`-th dispute id one tick dispatches.
pub open spec fn sent_id_at(disputes: Seq<Dispute>, budget: int, now: u64, k: int) -> Seq<u8> {
    sent_ids(disputes, budget, now)[k]
}

/// Whether an event is the tally dispatch of dispute `id`.
pub open spec fn is_tally_event(e: ConsumerEvent, id: Seq<u8>) -> bool {
    match e {
        ConsumerEvent::VoteTallySent { dispute_id } => dispute_id@ == id,
        _ => false,
    }
}

/// Whether a message carries the tally `t` of dispute `id` to chain
/// `para`, with the right checksum.
pub open spec fn is_tally_message(m: ExecutionCall, para: u32, id: Seq<u8>, t: Tally) -> bool {
    match m {
        ExecutionCall::VoteTally { para_id, dispute_id, tally, checksum } => {
            &&& para_id == para
            &&& dispute_id@ == id
            &&& tally == t
            &&& checksum == crate::types::spec_tally_checksum(t)
        },
        _ => false,
    }
}

/// The dispatches of a dispute-list prefix are a prefix of the whole
/// list's dispatches.
proof fn lemma_sent_ids_prefix(s: Seq<Dispute>, budget: int, now: u64, i: int)
    requires
        0 <= i <= s.len(),
    ensures
        sent_ids(s.subrange(0, i), budget, now).len() <= sent_ids(s, budget, now).len(),
        sent_ids(s.subrange(0, i), budget, now) == sent_ids(s, budget, now).subrange(
            0,
            sent_ids(s.subrange(0, i), budget, now).len() as int,
        ),
    decreases s.len() - i,
{
    let pre = sent_ids(s.subrange(0, i), budget, now);
    let full = sent_ids(s, budget, now);
    if i == s.len() {
        assert(s.subrange(0, i) =~= s);
        assert(full.subrange(0, full.len() as int) =~= full);
    } else {
        lemma_sent_ids_prefix(s, budget, now, i + 1);
        let sub1 = s.subrange(0, i + 1);
        assert(sub1.drop_last() =~= s.subrange(0, i));
        assert(sub1.last() == s[i]);
        let pre1 = sent_ids(sub1, budget, now);
        if tally_due(s[i], now) && pre.len() < budget {
            assert(pre1 == pre.push(s[i].dispute_id@));
            assert(pre =~= full.subrange(0, pre1.len() as int).drop_last());
            assert(full.subrange(0, pre1.len() as int).drop_last() =~= full.subrange(
                0,
                pre.len() as int,
            ));
        } else {
            assert(pre1 == pre);
        }
    }
}

/// Looks a reporter's stake record up.
fn find_stake(stakes: &Vec<StakeRecord>, reporter: &Vec<u8>) -> (r: Option<usize>)
    ensures
        match r {
            Some(i) => i < stakes@.len() && stakes@[i as int].reporter@ == reporter@,
            None => forall|i: int| 0 <= i < stakes@.len() ==> (#[trigger] stakes@[i]).reporter@ != reporter@,
        },
{
    let mut i: usize = 0;
    while i < stakes.len()
        invariant
            i <= stakes@.len(),
            forall|j: int| 0 <= j < i ==> (#[trigger] stakes@[j]).reporter@ != reporter@,
        decreases stakes@.len() - i,
    {
        if bytes_eq(&stakes[i].reporter, reporter) {
            return Some(i);
        }
        i = i + 1;
    }
    None
}

/// Appending any event that is not a tally dispatch leaves the tally
/// bookkeeping of every dispute as it was.
proof fn lemma_tally_preserved_push(
    disputes: Seq<Dispute>,
    events: Seq<ConsumerEvent>,
    e: ConsumerEvent,
)
    requires
        !(e is VoteTallySent),
    ensures
        tally_once(disputes, events) ==> tally_once(disputes, events.push(e)),
        tally_covered(disputes, events) ==> tally_covered(disputes, events.push(e)),
{
    assert(events.push(e).drop_last() =~= events);
    assert forall|i: int| 0 <= i < disputes.len() implies tally_event_count(
        events.push(e),
        (#[trigger] disputes[i]).dispute_id@,
    ) == tally_event_count(events, disputes[i].dispute_id@) by {
    }
    if tally_covered(disputes, events) {
        assert forall|j: int| 0 <= j < events.push(e).len() implies match #[trigger] events.push(
            e,
        )[j] {
            ConsumerEvent::VoteTallySent { dispute_id } => exists|i: int|
                0 <= i < disputes.len() && (#[trigger] disputes[i]).dispute_id@ == dispute_id@,
            _ => true,
        } by {
            if j < events.len() {
                assert(events.push(e)[j] == events[j]);
            }
        }
    }
}

} // verus!
