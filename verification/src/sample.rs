//! A sample consumer of oracle data: it is configured with one query and,
//! on demand, reads the most recent price reported for it that is at
//! least one dispute delay old — fresh, still-disputable data never
//! reaches it — multiplies it by a caller-supplied factor and announces
//! the product. This is the "delayed read" pattern downstream users of
//! the oracle follow.

use vstd::prelude::*;
use crate::codec::decode_abi_word;
use crate::codec::decoded_abi_word;
use crate::consumer::ConsumerChain;
use crate::consumer::Report;
use crate::codec::clone_bytes;
use crate::store::appended;
use crate::store::lemma_appended_push;
use crate::types::Error;

verus! {

/// What the sample consumer announces.
#[derive(Clone, PartialEq, Eq, Debug)]
pub enum SampleEvent {
    /// A query was configured as this consumer's price source.
    Configured { query_id: Vec<u8> },
    /// A delayed price was read and multiplied: the product, and who asked.
    ValueStored { value: u128, who: Vec<u8> },
}

/// The sample consumer's state: its configured query and its event log.
pub struct SampleConsumer {
    pub query_id: Option<Vec<u8>>,
    pub events: Vec<SampleEvent>,
}

/// How old a value must be before this consumer reads it.
pub const READ_DELAY: u64 = 15 * 60;

/// Whether report `i` is for `query_id` and old enough to read.
pub open spec fn readable(reports: Seq<Report>, query_id: Seq<u8>, cutoff: u64, i: int) -> bool {
    &&& 0 <= i < reports.len()
    &&& reports[i].query_id@ == query_id
    &&& reports[i].timestamp < cutoff
}

/// The index of the most recent readable report, where one exists.
pub open spec fn chosen_report(reports: Seq<Report>, query_id: Seq<u8>, cutoff: u64) -> Option<
    int,
> {
    if exists|i: int|
        readable(reports, query_id, cutoff, i) && (forall|j: int|
            readable(reports, query_id, cutoff, j) ==> reports[j].timestamp
                <= reports[i].timestamp) {
        Some(
            choose|i: int|
                readable(reports, query_id, cutoff, i) && (forall|j: int|
                    readable(reports, query_id, cutoff, j) ==> reports[j].timestamp
                        <= reports[i].timestamp),
        )
    } else {
        None
    }
}

/// The read cutoff for a chain clock: one delay into the past, or the
/// beginning of time early on.
pub open spec fn spec_cutoff(now: u64) -> u64 {
    if now >= READ_DELAY {
        (now - READ_DELAY) as u64
    } else {
        0
    }
}

impl SampleConsumer {
    /// A fresh, unconfigured consumer.
    pub fn new() -> (r: SampleConsumer)
        ensures
            r.query_id is None,
            r.events@.len() == 0,
    {
        SampleConsumer { query_id: None, events: Vec::new() }
    }

    /// Configures the query whose values this consumer reads, announcing
    /// it; reconfiguration overwrites.
    pub fn configure(&mut self, query_id: Vec<u8>)
        ensures
            (final(self).query_id matches Some(q) && q@ == query_id@),
            appended(old(self).events@, final(self).events@, 1),
            (final(self).events@.last() matches SampleEvent::Configured { query_id: q } && q@
                == query_id@),
    {
        self.events.push(SampleEvent::Configured { query_id: clone_bytes(&query_id) });
        self.query_id = Some(query_id);
        proof {
            lemma_appended_push(old(self).events@, self.events@.last());
        }
    }

    /// Reads the most recent price for the configured query that is at
    /// least one delay old, multiplies it by `factor`, stores the product
    /// in the event log and returns it. Fails when nothing is configured,
    /// when no value is old enough, when the stored value is not one
    /// price word, or when the product overflows.
    pub fn do_something(&mut self, oracle: &ConsumerChain, who: Vec<u8>, factor: u128) -> (r:
        Result<u128, Error>)
        requires
            oracle.wf(),
        ensures
            final(self).query_id == old(self).query_id,
            old(self).query_id is None ==> r == Err::<u128, Error>(Error::NotConfigured),
            old(self).query_id matches Some(q) ==> r == (match chosen_report(
                oracle.reports@,
                q@,
                spec_cutoff(oracle.now),
            ) {
                Some(i) => match decoded_abi_word(oracle.reports@[i].value@) {
                    Some(price) => if price * factor <= u128::MAX {
                        Ok::<u128, Error>((price * factor) as u128)
                    } else {
                        Err::<u128, Error>(Error::Overflow)
                    },
                    None => Err::<u128, Error>(Error::MalformedValue),
                },
                None => Err::<u128, Error>(Error::NoValueAvailable),
            }),
            r matches Ok(v) ==> {
                &&& appended(old(self).events@, final(self).events@, 1)
                &&& (final(self).events@.last() matches SampleEvent::ValueStored { value, who: w }
                    && value == v && w@ == who@)
            },
            r is Err ==> final(self).events == old(self).events,
    {
        let query_id = match &self.query_id {
            Some(q) => clone_bytes(q),
            None => {
                return Err(Error::NotConfigured);
            },
        };
        let cutoff = if oracle.now >= READ_DELAY {
            oracle.now - READ_DELAY
        } else {
            0
        };
        let (bytes, ts) = match oracle.get_data_before(&query_id, cutoff) {
            Some(p) => p,
            None => {
                proof {
                    let ghost q = old(self).query_id->0;
                    assert(forall|i: int| !readable(oracle.reports@, q@, spec_cutoff(oracle.now), i));
                }
                return Err(Error::NoValueAvailable);
            },
        };
        proof {
            let q = old(self).query_id->0;
            let c = spec_cutoff(oracle.now);
            let w = choose|i: int|
                0 <= i < oracle.reports@.len() && (#[trigger] oracle.reports@[i]).query_id@ == q@
                    && oracle.reports@[i].timestamp == ts && oracle.reports@[i].value@ == bytes@;
            assert(readable(oracle.reports@, q@, c, w));
            assert(forall|j: int|
                readable(oracle.reports@, q@, c, j) ==> oracle.reports@[j].timestamp
                    <= oracle.reports@[w].timestamp);
            assert(chosen_report(oracle.reports@, q@, c) is Some);
            let i = chosen_report(oracle.reports@, q@, c)->0;
            assert(readable(oracle.reports@, q@, c, i) && (forall|j: int|
                readable(oracle.reports@, q@, c, j) ==> oracle.reports@[j].timestamp
                    <= oracle.reports@[i].timestamp));
            assert(oracle.reports@[i].timestamp == ts);
            if i != w {
                assert(!(oracle.reports@[i].query_id@ == oracle.reports@[w].query_id@
                    && oracle.reports@[i].timestamp == oracle.reports@[w].timestamp));
                assert(false);
            }
            assert(oracle.reports@[i].value@ == bytes@);
        }
        let price = match decode_abi_word(&bytes) {
            Some(p) => p,
            None => {
                return Err(Error::MalformedValue);
            },
        };
        let product = match price.checked_mul(factor) {
            Some(p) => p,
            None => {
                return Err(Error::Overflow);
            },
        };
        self.events.push(SampleEvent::ValueStored { value: product, who });
        proof {
            lemma_appended_push(old(self).events@, self.events@.last());
        }
        Ok(product)
    }
}

} // verus!
