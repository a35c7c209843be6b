//! The staking lifecycle across the two chains: registration, deposit,
//! withdrawal request and withdrawal, each reflected on the other chain by
//! message delivery.

use tellor_protocol::consumer::{ConsumerChain, ConsumerEvent};
use tellor_protocol::execution::{ExecutionChain, ExecutionEvent};
use tellor_protocol::params::DAYS;
use tellor_protocol::types::{ConsumerCall, ExecutionCall};

const T0: u64 = 1_700_000_000;
const EVM_PARA: u32 = 2_000;
const CONSUMER_PARA: u32 = 3_000;
const AMOUNT: u128 = tellor_protocol::params::MINIMUM_STAKE_AMOUNT;

fn bob() -> Vec<u8> {
    vec![0x02; 32]
}

fn balthazar() -> Vec<u8> {
    vec![0x3c; 20]
}

fn deliver_to_consumer(exec: &mut ExecutionChain, cons: &mut ConsumerChain) {
    for call in exec.take_outbox() {
        match call {
            ConsumerCall::StakeReported { reporter, address, amount } => {
                let _ = cons.stake_reported(reporter, address, amount);
            }
            ConsumerCall::WithdrawRequestReported { reporter, address, amount } => {
                let _ = cons.withdraw_request_reported(reporter, address, amount);
            }
            ConsumerCall::WithdrawExecutedReported { reporter } => {
                let _ = cons.withdraw_executed_reported(reporter);
            }
            ConsumerCall::SlashReported { reporter, amount } => {
                let _ = cons.slash_reported(reporter, amount);
            }
            ConsumerCall::RegistrationAck { para_id, contract_address, weights } => {
                cons.registration_ack(para_id, contract_address, weights);
            }
            ConsumerCall::TallyConfirmed { dispute_id } => {
                let _ = cons.tally_confirmed(dispute_id);
            }
        }
    }
}

fn deliver_to_execution(cons: &mut ConsumerChain, exec: &mut ExecutionChain) {
    for call in cons.take_outbox() {
        match call {
            ExecutionCall::Register { para_id, weights } => {
                exec.register_parachain(para_id, weights);
            }
            ExecutionCall::NewDispute { para_id, query_id, timestamp, disputed_reporter, fee } => {
                let _ = exec.begin_parachain_dispute(
                    para_id,
                    query_id,
                    timestamp,
                    disputed_reporter,
                    fee,
                );
            }
            ExecutionCall::VoteTally { para_id: _, dispute_id, tally, checksum } => {
                let _ = exec.apply_vote_tally(dispute_id, tally, checksum);
            }
            ExecutionCall::ConfirmWithdrawRequest { para_id, staker, amount } => {
                exec.confirm_withdraw_request(para_id, staker, amount);
            }
        }
    }
}

/// Registers the consumer chain with the execution chain and delivers the
/// messages both ways.
fn register(cons: &mut ConsumerChain, exec: &mut ExecutionChain) {
    cons.register(EVM_PARA);
    deliver_to_execution(cons, exec);
    deliver_to_consumer(exec, cons);
}

/// Mints, approves and deposits a stake for `bob` via `balthazar`, and
/// delivers the report to the consumer chain.
fn stake(cons: &mut ConsumerChain, exec: &mut ExecutionChain) {
    assert!(exec.mint(balthazar(), AMOUNT).is_ok());
    exec.approve(
        balthazar(),
        tellor_protocol::types::staking_address(),
        AMOUNT,
    );
    assert!(exec
        .deposit_parachain_stake(balthazar(), CONSUMER_PARA, bob(), AMOUNT)
        .is_ok());
    deliver_to_consumer(exec, cons);
}

#[test]
fn deploying_contracts_to_evm_parachain_works() {
    let exec = ExecutionChain::new(EVM_PARA, T0);
    // the three contracts are part of the chain's genesis state, at
    // distinct accounts, with nothing recorded yet
    let registry = tellor_protocol::types::registry_address();
    let staking = tellor_protocol::types::staking_address();
    let governance = tellor_protocol::types::governance_address();
    assert_eq!(registry.len(), 20);
    assert_eq!(staking.len(), 20);
    assert_eq!(governance.len(), 20);
    assert_ne!(registry, staking);
    assert_ne!(staking, governance);
    assert_ne!(registry, governance);
    assert_eq!(exec.para_id, EVM_PARA);
    assert!(exec.stakes.is_empty());
    assert!(exec.registered.is_empty());
    assert!(exec.events.is_empty());
    assert!(exec.outbox.is_empty());
}

#[test]
fn register_on_consumer_parachain_registers_with_contracts_on_evm_parachain() {
    let mut cons = ConsumerChain::new(CONSUMER_PARA, T0);
    let mut exec = ExecutionChain::new(EVM_PARA, T0);

    cons.register(EVM_PARA);
    assert!(cons.events.contains(&ConsumerEvent::RegistrationSent {
        para_id: EVM_PARA,
        contract_address: tellor_protocol::types::registry_address(),
        weights: tellor_protocol::types::weight_schedule(),
    }));

    deliver_to_execution(&mut cons, &mut exec);
    assert!(exec
        .events
        .contains(&ExecutionEvent::ParachainRegistered { para_id: CONSUMER_PARA }));

    // the acknowledgement round trip records the registration locally
    deliver_to_consumer(&mut exec, &mut cons);
    let reg = cons.registration.as_ref().expect("registration acknowledged");
    assert_eq!(reg.para_id, EVM_PARA);
    assert_eq!(reg.contract_address, tellor_protocol::types::registry_address());
}

#[test]
fn deposit_stake_on_evm_parachain_reports_to_consumer_parachain() {
    let mut cons = ConsumerChain::new(CONSUMER_PARA, T0);
    let mut exec = ExecutionChain::new(EVM_PARA, T0);
    register(&mut cons, &mut exec);

    assert!(exec.mint(balthazar(), AMOUNT).is_ok());
    exec.approve(balthazar(), tellor_protocol::types::staking_address(), AMOUNT);
    assert!(exec
        .deposit_parachain_stake(balthazar(), CONSUMER_PARA, bob(), AMOUNT)
        .is_ok());
    assert!(exec.events.contains(&ExecutionEvent::NewStaker {
        staker: balthazar(),
        amount: AMOUNT,
    }));
    assert!(exec.events.contains(&ExecutionEvent::NewParachainStaker {
        para_id: CONSUMER_PARA,
        staker: balthazar(),
        reporter: bob(),
        amount: AMOUNT,
    }));

    deliver_to_consumer(&mut exec, &mut cons);
    assert!(cons.events.contains(&ConsumerEvent::NewStakerReported {
        staker: bob(),
        amount: AMOUNT,
        address: balthazar(),
    }));
    // exactly once
    let seen = cons
        .events
        .iter()
        .filter(|e| {
            matches!(e, ConsumerEvent::NewStakerReported { staker, .. } if *staker == bob())
        })
        .count();
    assert_eq!(seen, 1);
}

#[test]
fn requesting_stake_withdraw_on_evm_parachain_reports_to_consumer_parachain() {
    let mut cons = ConsumerChain::new(CONSUMER_PARA, T0);
    let mut exec = ExecutionChain::new(EVM_PARA, T0);
    register(&mut cons, &mut exec);
    stake(&mut cons, &mut exec);

    assert!(exec
        .request_parachain_stake_withdraw(balthazar(), CONSUMER_PARA, AMOUNT)
        .is_ok());
    assert!(exec.events.contains(&ExecutionEvent::StakeWithdrawRequested {
        staker: balthazar(),
        amount: AMOUNT,
    }));
    assert!(exec
        .events
        .contains(&ExecutionEvent::ParachainStakeWithdrawRequested {
            para_id: CONSUMER_PARA,
            reporter: bob(),
            amount: AMOUNT,
        }));

    deliver_to_consumer(&mut exec, &mut cons);
    assert!(cons
        .events
        .contains(&ConsumerEvent::StakeWithdrawRequestReported {
            reporter: bob(),
            amount: AMOUNT,
            address: balthazar(),
        }));
    assert!(cons
        .events
        .contains(&ConsumerEvent::StakeWithdrawRequestConfirmationSent {
            para_id: EVM_PARA,
            contract_address: tellor_protocol::types::staking_address(),
        }));

    // the confirmation goes back to the staking contract
    deliver_to_execution(&mut cons, &mut exec);
    assert!(exec
        .events
        .contains(&ExecutionEvent::ParachainStakeWithdrawRequestConfirmed {
            para_id: EVM_PARA,
            staker: balthazar(),
            amount: AMOUNT,
        }));
}

#[test]
fn withdraw_stake_on_evm_parachain_reports_to_consumer_parachain() {
    let mut cons = ConsumerChain::new(CONSUMER_PARA, T0);
    let mut exec = ExecutionChain::new(EVM_PARA, T0);
    register(&mut cons, &mut exec);
    stake(&mut cons, &mut exec);

    assert!(exec
        .request_parachain_stake_withdraw(balthazar(), CONSUMER_PARA, AMOUNT)
        .is_ok());
    deliver_to_consumer(&mut exec, &mut cons);
    deliver_to_execution(&mut cons, &mut exec);

    // advance time beyond the lock period on both chains
    exec.advance_time(7 * DAYS + 1);
    cons.advance_time(7 * DAYS + 1);

    assert_eq!(
        exec.withdraw_parachain_stake(balthazar(), CONSUMER_PARA),
        Ok(AMOUNT)
    );
    assert!(exec
        .events
        .contains(&ExecutionEvent::StakeWithdrawn { staker: balthazar() }));
    assert!(exec.events.contains(&ExecutionEvent::ParachainStakeWithdrawn {
        para_id: CONSUMER_PARA,
        staker: balthazar(),
    }));

    deliver_to_consumer(&mut exec, &mut cons);
    assert!(cons
        .events
        .contains(&ConsumerEvent::StakeWithdrawnReported { staker: bob() }));
}

#[test]
fn re_registration_overwrites_and_sends_again() {
    let mut cons = ConsumerChain::new(CONSUMER_PARA, T0);
    let mut exec = ExecutionChain::new(EVM_PARA, T0);
    register(&mut cons, &mut exec);
    // registering again is not an error: the registration is overwritten
    // and exactly one more message goes out
    cons.register(EVM_PARA);
    assert_eq!(cons.outbox.len(), 1);
    deliver_to_execution(&mut cons, &mut exec);
    assert_eq!(exec.registered.len(), 1);
    let registered = exec
        .events
        .iter()
        .filter(|e| matches!(e, ExecutionEvent::ParachainRegistered { .. }))
        .count();
    assert_eq!(registered, 2);
}
