//! The oracle report store: submitting values after staking, the checks a
//! submission must pass, and the delayed read a downstream consumer of
//! oracle data uses.

use sha3::Digest;
use tellor_protocol::consumer::{ConsumerChain, ConsumerEvent};
use tellor_protocol::execution::ExecutionChain;
use tellor_protocol::params::{MAX_QUERY_DATA_LENGTH, MAX_VALUE_LENGTH, MINUTES};
use tellor_protocol::sample::{SampleConsumer, SampleEvent};
use tellor_protocol::types::{ConsumerCall, Error, ExecutionCall};

const T0: u64 = 1_700_000_000;
const EVM_PARA: u32 = 2_000;
const CONSUMER_PARA: u32 = 3_000;
const AMOUNT: u128 = tellor_protocol::params::MINIMUM_STAKE_AMOUNT;

fn bob() -> Vec<u8> {
    vec![0x02; 32]
}

fn charlie() -> Vec<u8> {
    vec![0x03; 32]
}

fn balthazar() -> Vec<u8> {
    vec![0x3c; 20]
}

fn keccak(data: &[u8]) -> Vec<u8> {
    sha3::Keccak256::digest(data).to_vec()
}

fn deliver_to_consumer(exec: &mut ExecutionChain, cons: &mut ConsumerChain) {
    for call in exec.take_outbox() {
        match call {
            ConsumerCall::StakeReported { reporter, address, amount } => {
                let _ = cons.stake_reported(reporter, address, amount);
            }
            ConsumerCall::WithdrawRequestReported { reporter, address, amount } => {
                let _ = cons.withdraw_request_reported(reporter, address, amount);
            }
            ConsumerCall::WithdrawExecutedReported { reporter } => {
                let _ = cons.withdraw_executed_reported(reporter);
            }
            ConsumerCall::SlashReported { reporter, amount } => {
                let _ = cons.slash_reported(reporter, amount);
            }
            ConsumerCall::RegistrationAck { para_id, contract_address, weights } => {
                cons.registration_ack(para_id, contract_address, weights);
            }
            ConsumerCall::TallyConfirmed { dispute_id } => {
                let _ = cons.tally_confirmed(dispute_id);
            }
        }
    }
}

fn deliver_to_execution(cons: &mut ConsumerChain, exec: &mut ExecutionChain) {
    for call in cons.take_outbox() {
        match call {
            ExecutionCall::Register { para_id, weights } => {
                exec.register_parachain(para_id, weights);
            }
            ExecutionCall::NewDispute { para_id, query_id, timestamp, disputed_reporter, fee } => {
                let _ = exec.begin_parachain_dispute(
                    para_id,
                    query_id,
                    timestamp,
                    disputed_reporter,
                    fee,
                );
            }
            ExecutionCall::VoteTally { para_id: _, dispute_id, tally, checksum } => {
                let _ = exec.apply_vote_tally(dispute_id, tally, checksum);
            }
            ExecutionCall::ConfirmWithdrawRequest { para_id, staker, amount } => {
                exec.confirm_withdraw_request(para_id, staker, amount);
            }
        }
    }
}

/// A consumer chain with a registered remote chain and a stake for `bob`.
fn staked_chains() -> (ConsumerChain, ExecutionChain) {
    let mut cons = ConsumerChain::new(CONSUMER_PARA, T0);
    let mut exec = ExecutionChain::new(EVM_PARA, T0);
    cons.register(EVM_PARA);
    deliver_to_execution(&mut cons, &mut exec);
    deliver_to_consumer(&mut exec, &mut cons);
    assert!(exec.mint(balthazar(), AMOUNT).is_ok());
    exec.approve(balthazar(), tellor_protocol::types::staking_address(), AMOUNT);
    assert!(exec
        .deposit_parachain_stake(balthazar(), CONSUMER_PARA, bob(), AMOUNT)
        .is_ok());
    deliver_to_consumer(&mut exec, &mut cons);
    (cons, exec)
}

#[test]
fn submit_value_to_consumer_parachain_after_staking_works() {
    let (mut cons, _exec) = staked_chains();
    assert!(cons.events.contains(&ConsumerEvent::NewStakerReported {
        staker: bob(),
        amount: AMOUNT,
        address: balthazar(),
    }));

    let query_data = b"hello tellor".to_vec();
    let query_id = keccak(&query_data);
    let timestamp = cons
        .submit_value(bob(), query_id.clone(), b"hey!".to_vec(), 0, query_data.clone())
        .expect("submission accepted");
    assert_eq!(timestamp, T0);
    assert!(cons.events.contains(&ConsumerEvent::NewReport {
        query_id,
        time: timestamp,
        value: b"hey!".to_vec(),
        nonce: 0,
        query_data,
        reporter: bob(),
    }));
}

#[test]
fn submit_value_requires_a_staked_reporter() {
    let mut cons = ConsumerChain::new(CONSUMER_PARA, T0);
    let query_data = b"hello tellor".to_vec();
    let query_id = keccak(&query_data);
    assert_eq!(
        cons.submit_value(bob(), query_id, b"hey!".to_vec(), 0, query_data),
        Err(Error::NotStaked)
    );
}

#[test]
fn submit_value_rejects_malformed_submissions() {
    let (mut cons, _exec) = staked_chains();
    let query_data = b"hello tellor".to_vec();
    let query_id = keccak(&query_data);

    // a query id that is not the digest of the query data
    assert_eq!(
        cons.submit_value(bob(), vec![0u8; 32], b"hey!".to_vec(), 0, query_data.clone()),
        Err(Error::InvalidQueryId)
    );
    // over-long query data and values
    assert_eq!(
        cons.submit_value(
            bob(),
            query_id.clone(),
            b"hey!".to_vec(),
            0,
            vec![0u8; MAX_QUERY_DATA_LENGTH + 1],
        ),
        Err(Error::QueryDataTooLong)
    );
    assert_eq!(
        cons.submit_value(
            bob(),
            query_id.clone(),
            vec![0u8; MAX_VALUE_LENGTH + 1],
            0,
            query_data.clone(),
        ),
        Err(Error::ValueTooLong)
    );
    // the nonce must count the reports stored for the query
    assert_eq!(
        cons.submit_value(bob(), query_id.clone(), b"hey!".to_vec(), 7, query_data.clone()),
        Err(Error::InvalidNonce)
    );
    // no two reports may share a query and a timestamp
    assert!(cons
        .submit_value(bob(), query_id.clone(), b"hey!".to_vec(), 0, query_data.clone())
        .is_ok());
    assert_eq!(
        cons.submit_value(bob(), query_id.clone(), b"ho!".to_vec(), 1, query_data.clone()),
        Err(Error::DuplicateReport)
    );
    // at a later chain time, the next nonce is accepted
    cons.advance_time(1);
    assert!(cons
        .submit_value(bob(), query_id, b"ho!".to_vec(), 1, query_data)
        .is_ok());
}

#[test]
fn get_data_before_returns_the_latest_old_enough_report() {
    let (mut cons, _exec) = staked_chains();
    let query_data = b"hello tellor".to_vec();
    let query_id = keccak(&query_data);

    assert!(cons
        .submit_value(bob(), query_id.clone(), vec![1], 0, query_data.clone())
        .is_ok());
    cons.advance_time(10);
    assert!(cons
        .submit_value(bob(), query_id.clone(), vec![2], 1, query_data.clone())
        .is_ok());
    cons.advance_time(10);

    // everything strictly before now: the second report wins
    assert_eq!(cons.get_data_before(&query_id, T0 + 20), Some((vec![2], T0 + 10)));
    // a cutoff between the two: only the first is old enough
    assert_eq!(cons.get_data_before(&query_id, T0 + 10), Some((vec![1], T0)));
    // nothing is older than the genesis report
    assert_eq!(cons.get_data_before(&query_id, T0), None);
}

#[test]
fn using_tellor_sample_works() {
    let (mut cons, _exec) = staked_chains();

    // configure the sample consumer with its price source
    let query_data = b"DOT/USD".to_vec();
    let query_id = keccak(&query_data);
    let mut sample = SampleConsumer::new();
    sample.configure(query_id.clone());
    assert!(sample
        .events
        .contains(&SampleEvent::Configured { query_id: query_id.clone() }));

    // submit a price to the oracle, as one 32-byte word
    let price = (4.39 * 10u64.pow(18) as f64) as u128;
    let value = ethabi::encode(&[ethabi::Token::Uint(price.into())]);
    assert!(cons
        .submit_value(bob(), query_id.clone(), value, 0, query_data)
        .is_ok());

    // too fresh to read: the sample waits out the dispute delay
    assert_eq!(
        sample.do_something(&cons, charlie(), 10),
        Err(Error::NoValueAvailable)
    );

    // advance time, as the sample uses a delayed price to allow time for
    // disputes
    cons.advance_time(15 * MINUTES + 1);

    // do something using the previously submitted oracle price
    let factor: u128 = 10;
    assert_eq!(sample.do_something(&cons, charlie(), factor), Ok(price * factor));
    assert_eq!(
        sample.events.last(),
        Some(&SampleEvent::ValueStored { value: price * factor, who: charlie() })
    );
}

#[test]
fn sample_consumer_rejects_what_it_cannot_read() {
    let (mut cons, _exec) = staked_chains();
    let mut sample = SampleConsumer::new();

    // nothing configured yet
    assert_eq!(sample.do_something(&cons, charlie(), 10), Err(Error::NotConfigured));

    // a stored value that is not one 32-byte word
    let query_data = b"DOT/USD".to_vec();
    let query_id = keccak(&query_data);
    sample.configure(query_id.clone());
    assert!(cons
        .submit_value(bob(), query_id.clone(), vec![1, 2, 3], 0, query_data.clone())
        .is_ok());
    cons.advance_time(15 * MINUTES + 1);
    assert_eq!(sample.do_something(&cons, charlie(), 10), Err(Error::MalformedValue));

    // a product that overflows
    cons.advance_time(1);
    let value = ethabi::encode(&[ethabi::Token::Uint(u128::MAX.into())]);
    assert!(cons
        .submit_value(bob(), query_id.clone(), value, 1, query_data)
        .is_ok());
    cons.advance_time(15 * MINUTES + 1);
    assert_eq!(sample.do_something(&cons, charlie(), 2), Err(Error::Overflow));
}

#[test]
fn tip_accumulates_per_account_and_checks_its_inputs() {
    let mut cons = ConsumerChain::new(CONSUMER_PARA, T0);
    let query_data = b"hello tellor".to_vec();
    let query_id = keccak(&query_data);

    assert_eq!(
        cons.tip(charlie(), vec![0u8; 32], 5, query_data.clone()),
        Err(Error::InvalidQueryId)
    );
    assert!(cons.tip(charlie(), query_id.clone(), 5, query_data.clone()).is_ok());
    assert!(cons.tip(charlie(), query_id.clone(), 7, query_data.clone()).is_ok());
    assert_eq!(cons.tips.len(), 1);
    assert_eq!(cons.tips[0].total, 12);
    assert_eq!(
        cons.tip(charlie(), query_id, u128::MAX, query_data),
        Err(Error::Overflow)
    );
}
