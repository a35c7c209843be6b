//! The guards around stake: the withdrawal lock, the exactly-once
//! withdrawal, slashes that can never drive a stake negative, the token
//! checks behind deposits, and inbound messages that contradict local
//! state.

use tellor_protocol::consumer::{ConsumerChain, ConsumerEvent};
use tellor_protocol::execution::{ExecutionChain, ExecutionEvent};
use tellor_protocol::params::LOCK_PERIOD;
use tellor_protocol::types::{ConsumerCall, Error, ExecutionCall};

const T0: u64 = 1_700_000_000;
const EVM_PARA: u32 = 2_000;
const CONSUMER_PARA: u32 = 3_000;
const AMOUNT: u128 = tellor_protocol::params::MINIMUM_STAKE_AMOUNT;

fn bob() -> Vec<u8> {
    vec![0x02; 32]
}

fn balthazar() -> Vec<u8> {
    vec![0x3c; 20]
}

fn deliver_to_consumer(exec: &mut ExecutionChain, cons: &mut ConsumerChain) {
    for call in exec.take_outbox() {
        match call {
            ConsumerCall::StakeReported { reporter, address, amount } => {
                let _ = cons.stake_reported(reporter, address, amount);
            }
            ConsumerCall::WithdrawRequestReported { reporter, address, amount } => {
                let _ = cons.withdraw_request_reported(reporter, address, amount);
            }
            ConsumerCall::WithdrawExecutedReported { reporter } => {
                let _ = cons.withdraw_executed_reported(reporter);
            }
            ConsumerCall::SlashReported { reporter, amount } => {
                let _ = cons.slash_reported(reporter, amount);
            }
            ConsumerCall::RegistrationAck { para_id, contract_address, weights } => {
                cons.registration_ack(para_id, contract_address, weights);
            }
            ConsumerCall::TallyConfirmed { dispute_id } => {
                let _ = cons.tally_confirmed(dispute_id);
            }
        }
    }
}

fn deliver_to_execution(cons: &mut ConsumerChain, exec: &mut ExecutionChain) {
    for call in cons.take_outbox() {
        match call {
            ExecutionCall::Register { para_id, weights } => {
                exec.register_parachain(para_id, weights);
            }
            ExecutionCall::NewDispute { para_id, query_id, timestamp, disputed_reporter, fee } => {
                let _ = exec.begin_parachain_dispute(
                    para_id,
                    query_id,
                    timestamp,
                    disputed_reporter,
                    fee,
                );
            }
            ExecutionCall::VoteTally { para_id: _, dispute_id, tally, checksum } => {
                let _ = exec.apply_vote_tally(dispute_id, tally, checksum);
            }
            ExecutionCall::ConfirmWithdrawRequest { para_id, staker, amount } => {
                exec.confirm_withdraw_request(para_id, staker, amount);
            }
        }
    }
}

fn staked_chains() -> (ConsumerChain, ExecutionChain) {
    let mut cons = ConsumerChain::new(CONSUMER_PARA, T0);
    let mut exec = ExecutionChain::new(EVM_PARA, T0);
    cons.register(EVM_PARA);
    deliver_to_execution(&mut cons, &mut exec);
    deliver_to_consumer(&mut exec, &mut cons);
    assert!(exec.mint(balthazar(), AMOUNT).is_ok());
    exec.approve(balthazar(), tellor_protocol::types::staking_address(), AMOUNT);
    assert!(exec
        .deposit_parachain_stake(balthazar(), CONSUMER_PARA, bob(), AMOUNT)
        .is_ok());
    deliver_to_consumer(&mut exec, &mut cons);
    (cons, exec)
}

#[test]
fn a_deposit_needs_registration_funds_and_approval() {
    let mut exec = ExecutionChain::new(EVM_PARA, T0);
    assert_eq!(
        exec.deposit_parachain_stake(balthazar(), CONSUMER_PARA, bob(), AMOUNT),
        Err(Error::NotRegistered)
    );
    exec.register_parachain(CONSUMER_PARA, tellor_protocol::types::weight_schedule());
    assert_eq!(
        exec.deposit_parachain_stake(balthazar(), CONSUMER_PARA, bob(), AMOUNT),
        Err(Error::InsufficientAllowance)
    );
    exec.approve(balthazar(), tellor_protocol::types::staking_address(), AMOUNT);
    assert_eq!(
        exec.deposit_parachain_stake(balthazar(), CONSUMER_PARA, bob(), AMOUNT),
        Err(Error::InsufficientBalance)
    );
    assert!(exec.mint(balthazar(), AMOUNT).is_ok());
    assert!(exec
        .deposit_parachain_stake(balthazar(), CONSUMER_PARA, bob(), AMOUNT)
        .is_ok());
    // the contract now custodies the tokens
    assert_eq!(
        exec.withdraw_parachain_stake(balthazar(), CONSUMER_PARA),
        Err(Error::NoWithdrawalRequested)
    );
}

#[test]
fn minting_beyond_the_asset_range_is_rejected() {
    let mut exec = ExecutionChain::new(EVM_PARA, T0);
    assert!(exec.mint(balthazar(), u128::MAX).is_ok());
    assert_eq!(exec.mint(balthazar(), 1), Err(Error::Overflow));
}

#[test]
fn a_withdrawal_before_the_lock_expires_always_fails() {
    let (_cons, mut exec) = staked_chains();
    assert!(exec
        .request_parachain_stake_withdraw(balthazar(), CONSUMER_PARA, AMOUNT)
        .is_ok());
    // immediately, and one second short of the lock
    assert_eq!(
        exec.withdraw_parachain_stake(balthazar(), CONSUMER_PARA),
        Err(Error::LockNotExpired)
    );
    exec.advance_time(LOCK_PERIOD - 1);
    assert_eq!(
        exec.withdraw_parachain_stake(balthazar(), CONSUMER_PARA),
        Err(Error::LockNotExpired)
    );
}

#[test]
fn a_withdrawal_after_the_lock_succeeds_exactly_once() {
    let (mut cons, mut exec) = staked_chains();
    assert!(exec
        .request_parachain_stake_withdraw(balthazar(), CONSUMER_PARA, AMOUNT)
        .is_ok());
    deliver_to_consumer(&mut exec, &mut cons);
    deliver_to_execution(&mut cons, &mut exec);

    // advance time by exactly one second past the lock period
    exec.advance_time(LOCK_PERIOD + 1);
    cons.advance_time(LOCK_PERIOD + 1);
    assert_eq!(
        exec.withdraw_parachain_stake(balthazar(), CONSUMER_PARA),
        Ok(AMOUNT)
    );
    // repeating the call fails: success consumed the request
    assert_eq!(
        exec.withdraw_parachain_stake(balthazar(), CONSUMER_PARA),
        Err(Error::NoWithdrawalRequested)
    );

    deliver_to_consumer(&mut exec, &mut cons);
    assert!(cons
        .events
        .contains(&ConsumerEvent::StakeWithdrawnReported { staker: bob() }));
}

#[test]
fn a_new_request_overwrites_the_pending_one_with_a_fresh_timer() {
    let (_cons, mut exec) = staked_chains();
    assert!(exec
        .request_parachain_stake_withdraw(balthazar(), CONSUMER_PARA, AMOUNT)
        .is_ok());
    exec.advance_time(LOCK_PERIOD);
    // a new, smaller request: the earlier locked amount returns to the
    // stake and the timer starts over
    assert!(exec
        .request_parachain_stake_withdraw(balthazar(), CONSUMER_PARA, 40)
        .is_ok());
    assert_eq!(
        exec.withdraw_parachain_stake(balthazar(), CONSUMER_PARA),
        Err(Error::LockNotExpired)
    );
    exec.advance_time(LOCK_PERIOD);
    assert_eq!(exec.withdraw_parachain_stake(balthazar(), CONSUMER_PARA), Ok(40));
    assert_eq!(exec.stakes[0].staked, 60);
    // more than is staked cannot be requested
    assert_eq!(
        exec.request_parachain_stake_withdraw(balthazar(), CONSUMER_PARA, 61),
        Err(Error::InsufficientStake)
    );
}

#[test]
fn a_slash_never_drives_a_stake_negative() {
    let (mut cons, mut exec) = staked_chains();
    // lock part of the stake, then slash for far more than is there
    assert!(exec
        .request_parachain_stake_withdraw(balthazar(), CONSUMER_PARA, 40)
        .is_ok());
    deliver_to_consumer(&mut exec, &mut cons);
    deliver_to_execution(&mut cons, &mut exec);
    let query_id = vec![0x11; 32];
    assert!(exec
        .begin_parachain_dispute(CONSUMER_PARA, query_id, T0, balthazar(), 10 * AMOUNT)
        .is_ok());
    // only what was there is slashed, from the active stake first
    assert_eq!(exec.stakes[0].staked, 0);
    assert_eq!(exec.stakes[0].locked, 0);
    assert!(exec.events.contains(&ExecutionEvent::ParachainReporterSlashed {
        para_id: CONSUMER_PARA,
        reporter: balthazar(),
        recipient: tellor_protocol::types::governance_address(),
        amount: AMOUNT,
    }));
    // the consumer chain's mirror also floors at zero
    deliver_to_consumer(&mut exec, &mut cons);
    assert_eq!(cons.stakes[0].amount, 0);
}

#[test]
fn inbound_messages_that_contradict_local_state_are_dropped() {
    let mut cons = ConsumerChain::new(CONSUMER_PARA, T0);
    cons.register(EVM_PARA);

    // a withdrawal request for a reporter this chain never saw staked
    assert_eq!(
        cons.withdraw_request_reported(bob(), balthazar(), AMOUNT),
        Err(Error::InconsistentState)
    );
    assert!(cons.events.contains(&ConsumerEvent::InboundMessageDropped {
        error: Error::InconsistentState,
    }));
    // an executed withdrawal nobody requested
    assert_eq!(
        cons.withdraw_executed_reported(bob()),
        Err(Error::NoWithdrawalRequested)
    );
    // a slash for an unknown reporter
    assert_eq!(
        cons.slash_reported(bob(), AMOUNT),
        Err(Error::InconsistentState)
    );
    // nothing was mutated beyond the diagnostics
    assert!(cons.stakes.is_empty());
    assert!(cons.withdrawals.is_empty());
}

#[test]
fn a_mirrored_withdrawal_respects_the_lock_and_happens_once() {
    let (mut cons, mut exec) = staked_chains();
    assert!(exec
        .request_parachain_stake_withdraw(balthazar(), CONSUMER_PARA, AMOUNT)
        .is_ok());
    deliver_to_consumer(&mut exec, &mut cons);

    // an executed-withdrawal report before the mirrored lock expired
    // contradicts the chain's own record and is dropped
    assert_eq!(
        cons.withdraw_executed_reported(bob()),
        Err(Error::LockNotExpired)
    );
    cons.advance_time(LOCK_PERIOD + 1);
    assert!(cons.withdraw_executed_reported(bob()).is_ok());
    // the consumed request cannot be consumed twice
    assert_eq!(
        cons.withdraw_executed_reported(bob()),
        Err(Error::NoWithdrawalRequested)
    );
}
