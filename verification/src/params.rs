//! Protocol constants: clock units, the withdrawal lock, the voting window
//! and the bounds on submitted data.

use vstd::prelude::*;

verus! {

/// Seconds in a minute; chain clocks count seconds.
pub const MINUTES: u64 = 60;

/// Seconds in an hour.
pub const HOURS: u64 = 3600;

/// Seconds in a day.
pub const DAYS: u64 = 86400;

/// A requested withdrawal may execute only once this many seconds have
/// passed since the request.
pub const LOCK_PERIOD: u64 = 7 * DAYS;

/// Votes on a dispute are accepted strictly before `opened_at + VOTING_PERIOD`;
/// from that cutoff on the dispute is ready for its tally.
pub const VOTING_PERIOD: u64 = 11 * HOURS;

/// Longest accepted `query_data` byte sequence.
pub const MAX_QUERY_DATA_LENGTH: usize = 1024;

/// Longest accepted reported value.
pub const MAX_VALUE_LENGTH: usize = 256;

/// Stake expected of a reporter, in units of the bridged asset.
pub const MINIMUM_STAKE_AMOUNT: u128 = 100;

/// How many pending tallies one scheduled tick dispatches at most.
pub const TALLY_BATCH_LIMIT: usize = 10;

} // verus!
