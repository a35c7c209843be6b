//! The dispute lifecycle: opening a dispute slashes the reporter on the
//! execution chain, votes accumulate until the cutoff, and the tally goes
//! out exactly once, by explicit call or by the scheduled tick.

use sha3::Digest;
use tellor_protocol::consumer::{ConsumerChain, ConsumerEvent, DisputeStatus};
use tellor_protocol::execution::{ExecutionChain, ExecutionEvent};
use tellor_protocol::params::HOURS;
use tellor_protocol::types::{ConsumerCall, Error, ExecutionCall, Tally};

const T0: u64 = 1_700_000_000;
const EVM_PARA: u32 = 2_000;
const CONSUMER_PARA: u32 = 3_000;
const AMOUNT: u128 = tellor_protocol::params::MINIMUM_STAKE_AMOUNT;
const TIP: u128 = 1_000_000_000_000;

fn bob() -> Vec<u8> {
    vec![0x02; 32]
}

fn dave() -> Vec<u8> {
    vec![0x04; 32]
}

fn balthazar() -> Vec<u8> {
    vec![0x3c; 20]
}

fn dorothy() -> Vec<u8> {
    vec![0x77; 20]
}

fn keccak(data: &[u8]) -> Vec<u8> {
    sha3::Keccak256::digest(data).to_vec()
}

fn expected_dispute_id(query_id: &[u8], timestamp: u64) -> Vec<u8> {
    keccak(&ethabi::encode(&[
        ethabi::Token::Uint(CONSUMER_PARA.into()),
        ethabi::Token::FixedBytes(query_id.to_vec()),
        ethabi::Token::Uint(timestamp.into()),
    ]))
}

fn deliver_to_consumer(exec: &mut ExecutionChain, cons: &mut ConsumerChain) {
    for call in exec.take_outbox() {
        match call {
            ConsumerCall::StakeReported { reporter, address, amount } => {
                let _ = cons.stake_reported(reporter, address, amount);
            }
            ConsumerCall::WithdrawRequestReported { reporter, address, amount } => {
                let _ = cons.withdraw_request_reported(reporter, address, amount);
            }
            ConsumerCall::WithdrawExecutedReported { reporter } => {
                let _ = cons.withdraw_executed_reported(reporter);
            }
            ConsumerCall::SlashReported { reporter, amount } => {
                let _ = cons.slash_reported(reporter, amount);
            }
            ConsumerCall::RegistrationAck { para_id, contract_address, weights } => {
                cons.registration_ack(para_id, contract_address, weights);
            }
            ConsumerCall::TallyConfirmed { dispute_id } => {
                let _ = cons.tally_confirmed(dispute_id);
            }
        }
    }
}

fn deliver_to_execution(cons: &mut ConsumerChain, exec: &mut ExecutionChain) {
    for call in cons.take_outbox() {
        match call {
            ExecutionCall::Register { para_id, weights } => {
                exec.register_parachain(para_id, weights);
            }
            ExecutionCall::NewDispute { para_id, query_id, timestamp, disputed_reporter, fee } => {
                let _ = exec.begin_parachain_dispute(
                    para_id,
                    query_id,
                    timestamp,
                    disputed_reporter,
                    fee,
                );
            }
            ExecutionCall::VoteTally { para_id: _, dispute_id, tally, checksum } => {
                let _ = exec.apply_vote_tally(dispute_id, tally, checksum);
            }
            ExecutionCall::ConfirmWithdrawRequest { para_id, staker, amount } => {
                exec.confirm_withdraw_request(para_id, staker, amount);
            }
        }
    }
}

/// Registered chains with a stake for `bob` and one submitted report.
fn chains_with_report() -> (ConsumerChain, ExecutionChain, Vec<u8>, u64) {
    let mut cons = ConsumerChain::new(CONSUMER_PARA, T0);
    let mut exec = ExecutionChain::new(EVM_PARA, T0);
    cons.register(EVM_PARA);
    deliver_to_execution(&mut cons, &mut exec);
    deliver_to_consumer(&mut exec, &mut cons);
    assert!(exec.mint(balthazar(), AMOUNT).is_ok());
    exec.approve(balthazar(), tellor_protocol::types::staking_address(), AMOUNT);
    assert!(exec
        .deposit_parachain_stake(balthazar(), CONSUMER_PARA, bob(), AMOUNT)
        .is_ok());
    deliver_to_consumer(&mut exec, &mut cons);
    let query_data = b"hello tellor".to_vec();
    let query_id = keccak(&query_data);
    let timestamp = cons
        .submit_value(bob(), query_id.clone(), b"hey!".to_vec(), 0, query_data)
        .expect("submission accepted");
    (cons, exec, query_id, timestamp)
}

#[test]
fn begin_dispute_on_consumer_parachain_begins_dispute_on_evm_parachain() {
    let (mut cons, mut exec, query_id, timestamp) = chains_with_report();

    let dispute_id = cons
        .begin_dispute(query_id.clone(), timestamp, Some(dorothy()))
        .expect("dispute opened");
    assert_eq!(dispute_id, expected_dispute_id(&query_id, timestamp));
    assert!(cons.events.contains(&ConsumerEvent::NewDispute {
        dispute_id: dispute_id.clone(),
        query_id: query_id.clone(),
        timestamp,
        reporter: bob(),
    }));
    assert!(cons.events.contains(&ConsumerEvent::NewDisputeSent {
        para_id: EVM_PARA,
        contract_address: tellor_protocol::types::governance_address(),
    }));

    deliver_to_execution(&mut cons, &mut exec);
    assert!(exec.events.contains(&ExecutionEvent::ParachainReporterSlashed {
        para_id: CONSUMER_PARA,
        reporter: balthazar(),
        recipient: tellor_protocol::types::governance_address(),
        amount: AMOUNT,
    }));
    assert!(exec.events.contains(&ExecutionEvent::NewParachainDispute {
        para_id: CONSUMER_PARA,
        query_id: query_id.clone(),
        timestamp,
        reporter: balthazar(),
    }));

    deliver_to_consumer(&mut exec, &mut cons);
    assert!(cons.events.contains(&ConsumerEvent::SlashReported {
        reporter: bob(),
        amount: AMOUNT,
    }));
    // the slash is reflected on the reporter's mirrored stake
    assert_eq!(cons.stakes[0].amount, 0);

    // the same report instance cannot be disputed twice
    assert_eq!(
        cons.begin_dispute(query_id, timestamp, None),
        Err(Error::DisputeAlreadyOpen)
    );
}

/// Opens a dispute over the standard report and casts one vote for and one
/// against.
fn disputed_chains_with_votes() -> (ConsumerChain, ExecutionChain, Vec<u8>) {
    let (mut cons, mut exec, query_id, timestamp) = chains_with_report();
    assert!(cons
        .tip(dave(), query_id.clone(), TIP, b"hello tellor".to_vec())
        .is_ok());
    let dispute_id = cons
        .begin_dispute(query_id, timestamp, Some(dorothy()))
        .expect("dispute opened");
    assert!(cons.vote(dave(), dispute_id.clone(), Some(true)).is_ok());
    assert!(cons.vote(bob(), dispute_id.clone(), Some(false)).is_ok());
    deliver_to_execution(&mut cons, &mut exec);
    deliver_to_consumer(&mut exec, &mut cons);
    (cons, exec, dispute_id)
}

fn expected_tally() -> Tally {
    // one vote in support weighted by the voter's tips, one against
    // weighted by the voter's single report
    Tally {
        users_support: TIP,
        users_against: 0,
        users_invalid: 0,
        reporters_support: 0,
        reporters_against: 1,
        reporters_invalid: 0,
    }
}

#[test]
fn on_initialize_hook_on_consumer_parachain_sends_votes_to_evm_parachain() {
    let (mut cons, mut exec, dispute_id) = disputed_chains_with_votes();

    // advance time until the parachain voting cutoff, then run the tick
    cons.advance_time(11 * HOURS + 1);
    assert_eq!(cons.on_initialize(), 1);

    deliver_to_execution(&mut cons, &mut exec);
    assert!(exec.events.contains(&ExecutionEvent::ParachainVoted {
        dispute_id: dispute_id.clone(),
        tally: expected_tally(),
    }));

    // the confirmation round trip resolves the dispute
    deliver_to_consumer(&mut exec, &mut cons);
    assert_eq!(cons.disputes[0].status, DisputeStatus::Resolved);
}

#[test]
fn send_votes_from_consumer_parachain_to_evm_parachain_works() {
    let (mut cons, mut exec, dispute_id) = disputed_chains_with_votes();

    cons.advance_time(11 * HOURS + 1);
    assert_eq!(cons.send_votes(5), 1);

    deliver_to_execution(&mut cons, &mut exec);
    assert!(exec.events.contains(&ExecutionEvent::ParachainVoted {
        dispute_id,
        tally: expected_tally(),
    }));
}

#[test]
fn tally_is_sent_exactly_once_even_if_the_tick_repeats() {
    let (mut cons, mut exec, dispute_id) = disputed_chains_with_votes();

    cons.advance_time(11 * HOURS + 1);
    assert_eq!(cons.send_votes(5), 1);
    // the tick runs again and again after the cutoff: nothing more goes out
    assert_eq!(cons.send_votes(5), 0);
    assert_eq!(cons.on_initialize(), 0);
    let dispatches = cons
        .events
        .iter()
        .filter(|e| matches!(e, ConsumerEvent::VoteTallySent { dispute_id: d } if *d == dispute_id))
        .count();
    assert_eq!(dispatches, 1);

    deliver_to_execution(&mut cons, &mut exec);
    let applied = exec
        .events
        .iter()
        .filter(|e| matches!(e, ExecutionEvent::ParachainVoted { dispute_id: d, .. } if *d == dispute_id))
        .count();
    assert_eq!(applied, 1);
}

#[test]
fn voting_is_closed_after_the_cutoff_and_for_unknown_disputes() {
    let (mut cons, _exec, dispute_id) = disputed_chains_with_votes();

    assert_eq!(
        cons.vote(dave(), vec![9u8; 32], Some(true)),
        Err(Error::DisputeNotFound)
    );
    // a vote may be changed while the window is open
    assert!(cons.vote(dave(), dispute_id.clone(), None).is_ok());
    assert!(cons.vote(dave(), dispute_id.clone(), Some(true)).is_ok());
    cons.advance_time(11 * HOURS + 1);
    assert_eq!(
        cons.vote(dave(), dispute_id.clone(), Some(true)),
        Err(Error::VotingClosed)
    );
    // once the tally went out, the dispute stays closed
    assert_eq!(cons.send_votes(5), 1);
    assert_eq!(cons.vote(dave(), dispute_id, Some(true)), Err(Error::VotingClosed));
}

#[test]
fn a_dispute_needs_a_report_and_a_registered_remote_chain() {
    let mut cons = ConsumerChain::new(CONSUMER_PARA, T0);
    assert_eq!(
        cons.begin_dispute(vec![0u8; 32], T0, None),
        Err(Error::NotRegistered)
    );
    cons.register(EVM_PARA);
    assert_eq!(
        cons.begin_dispute(vec![0u8; 32], T0, None),
        Err(Error::NoSuchReport)
    );
}

#[test]
fn a_dispute_without_votes_still_sends_a_zero_tally() {
    let (mut cons, mut exec, query_id, timestamp) = chains_with_report();
    let dispute_id = cons
        .begin_dispute(query_id, timestamp, None)
        .expect("dispute opened");
    deliver_to_execution(&mut cons, &mut exec);

    cons.advance_time(11 * HOURS + 1);
    assert_eq!(cons.send_votes(5), 1);
    deliver_to_execution(&mut cons, &mut exec);
    assert!(exec.events.contains(&ExecutionEvent::ParachainVoted {
        dispute_id,
        tally: Tally {
            users_support: 0,
            users_against: 0,
            users_invalid: 0,
            reporters_support: 0,
            reporters_against: 0,
            reporters_invalid: 0,
        },
    }));
}

#[test]
fn a_tampered_tally_checksum_fails_closed() {
    let (mut cons, mut exec, _dispute_id) = disputed_chains_with_votes();
    cons.advance_time(11 * HOURS + 1);
    assert_eq!(cons.send_votes(5), 1);

    for call in cons.take_outbox() {
        match call {
            ExecutionCall::VoteTally { para_id: _, dispute_id, tally, checksum } => {
                // encoding drift: the declared checksum no longer matches
                assert_eq!(
                    exec.apply_vote_tally(dispute_id, tally, checksum ^ 1),
                    Err(Error::TallyEncodingMismatch)
                );
            }
            _ => panic!("only the tally was pending"),
        }
    }
    assert!(!exec
        .events
        .iter()
        .any(|e| matches!(e, ExecutionEvent::ParachainVoted { .. })));
}

#[test]
fn the_batch_limit_defers_tallies_to_the_next_tick() {
    // two reports, two disputes, but a budget of one per call: the second
    // tally is deferred, not dropped
    let (mut cons, mut exec, query_id, timestamp) = chains_with_report();
    cons.advance_time(1);
    assert!(cons
        .submit_value(bob(), query_id.clone(), b"ho!".to_vec(), 1, b"hello tellor".to_vec())
        .is_ok());
    let first = cons
        .begin_dispute(query_id.clone(), timestamp, None)
        .expect("first dispute opened");
    let second = cons
        .begin_dispute(query_id, timestamp + 1, None)
        .expect("second dispute opened");
    assert_ne!(first, second);
    deliver_to_execution(&mut cons, &mut exec);

    cons.advance_time(11 * HOURS + 1);
    assert_eq!(cons.send_votes(1), 1);
    assert_eq!(cons.send_votes(1), 1);
    assert_eq!(cons.send_votes(1), 0);
    deliver_to_execution(&mut cons, &mut exec);
    let applied = exec
        .events
        .iter()
        .filter(|e| matches!(e, ExecutionEvent::ParachainVoted { .. }))
        .count();
    assert_eq!(applied, 2);
}
