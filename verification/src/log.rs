//! The figures of a log record, taken from the sum of the long window.

use vstd::prelude::*;
use crate::sample::{Sample, CHOICES};

verus! {

/// Length of the long window, in milliseconds.
pub const GLOBAL_SAMPLE_MILLIS: u64 = 10_000;

/// The figures of one log record. The rates of a record are its counts over
/// the length of the long window, and the share of a command is its votes
/// over `commands`.
#[derive(Debug, Clone, Copy)]
pub struct LogRecord {
    /// Seconds since the Unix epoch at which the record was taken.
    pub timestamp: i64,
    /// Messages seen in the long window.
    pub messages: u16,
    /// Commands seen in the long window.
    pub commands: u16,
    /// Votes for each command, in the order up, left, down, right, a, b, x,
    /// y, democracy, anarchy, start; all zero where no command was seen.
    pub votes: [u16; 11],
}

/// The votes that a record shows for command number `i`.
pub open spec fn votes_shown(sum: Sample, i: int) -> int {
    if sum.tpp_command_count > 0 {
        sum.count(i + 2)
    } else {
        0
    }
}

/// Takes the figures of a log record from the sum of the long window.
pub fn log_record(timestamp: i64, sum: &Sample) -> (record: LogRecord)
    ensures
        record.timestamp == timestamp,
        record.messages == sum.message_count,
        record.commands == sum.tpp_command_count,
        forall|i: int| 0 <= i < CHOICES ==> #[trigger] record.votes@[i] == votes_shown(*sum, i),
{
    let votes: [u16; 11] = if sum.tpp_command_count > 0 {
        [
            sum.up,
            sum.left,
            sum.down,
            sum.right,
            sum.a,
            sum.b,
            sum.x,
            sum.y,
            sum.demo,
            sum.anar,
            sum.start,
        ]
    } else {
        [0, 0, 0, 0, 0, 0, 0, 0, 0, 0, 0]
    };
    LogRecord { timestamp, messages: sum.message_count, commands: sum.tpp_command_count, votes }
}

} // verus!
