//! The decision policy: when a message may be sent, how long to wait after
//! one, and how its text is varied.
//!
//! Rates are kept as exact integer relations between counters and
//! milliseconds, so that every threshold is decided without rounding.

use vstd::prelude::*;
use crate::sample::{label, same_text, Sample};

verus! {

/// Length of the short window, in milliseconds.
pub const TPP_SAMPLE_MILLIS: u64 = 2000;

/// The wait after a message when no command is seen, in milliseconds.
pub const BASE_INTERVAL_MILLIS: u64 = 8000;

/// The shortest wait after a message, in milliseconds: the time that the
/// rate limit of twenty messages in thirty seconds gives each message, and
/// a margin of three tenths of a second.
pub const MIN_INTERVAL_MILLIS: u64 = 1800;

/// The least number of commands per second at which a message is sent.
pub const MIN_COMMANDS_PER_SECOND: u64 = 2;

/// The least share of commands among messages at which a message is sent,
/// in percent.
pub const MIN_COMMAND_PERCENT: u64 = 60;

/// Milliseconds that each command seen in the short window takes off the
/// wait: one second for each command per second, and the short window
/// lasts two seconds.
pub const MILLIS_PER_COMMAND: u64 = 500;

/// The wait that the short-window sum asks for after a message, in
/// milliseconds: eight seconds less one second for each command per second,
/// and never less than the shortest wait.
pub open spec fn interval_millis(sum: Sample) -> int {
    let wanted = BASE_INTERVAL_MILLIS - sum.tpp_command_count * MILLIS_PER_COMMAND;
    if wanted >= MIN_INTERVAL_MILLIS {
        wanted
    } else {
        MIN_INTERVAL_MILLIS as int
    }
}

/// Whether the short window saw enough commands per second.
pub open spec fn busy_enough(sum: Sample) -> bool {
    sum.tpp_command_count * 1000 >= MIN_COMMANDS_PER_SECOND * TPP_SAMPLE_MILLIS
}

/// Whether enough of the messages of the short window were commands. A
/// window without messages has a share of nothing.
pub open spec fn focused_enough(sum: Sample) -> bool {
    sum.message_count > 0 && sum.tpp_command_count * 100 >= MIN_COMMAND_PERCENT
        * sum.message_count
}

/// Whether the wait after the last message is over: the time since it was
/// sent, in milliseconds, has reached the wait that the short-window sum
/// asks for now.
pub open spec fn wait_over(elapsed_millis: u128, sum: Sample) -> bool {
    elapsed_millis >= interval_millis(sum)
}

/// Whether a message is sent now: sending is enabled, the long window is
/// fully populated, the wait since the last message is over, and the short
/// window is focused and busy enough.
pub open spec fn eligible(enabled: bool, full: bool, elapsed_millis: u128, sum: Sample) -> bool {
    enabled && full && wait_over(elapsed_millis, sum) && focused_enough(sum) && busy_enough(sum)
}

/// A character in ASCII upper case: the letters `a` to `z` become `A` to
/// `Z`, every other character stays.
pub open spec fn upper(c: char) -> char {
    if 'a' <= c && c <= 'z' {
        ((c as u32) - 32) as char
    } else {
        c
    }
}

/// A text in ASCII upper case.
pub open spec fn upper_text(text: Seq<char>) -> Seq<char> {
    Seq::new(text.len(), |i: int| upper(text[i]))
}

/// The text of the next message: the chosen label, in upper case where the
/// last message was that very label.
pub open spec fn varied(last: Seq<char>, chosen: Seq<char>) -> Seq<char> {
    if last == chosen {
        upper_text(last)
    } else {
        chosen
    }
}

/// `str::to_ascii_uppercase` returns a copy of the text in which each of
/// the letters `a` to `z` is replaced by its upper-case letter and every
/// other character is kept.
pub assume_specification[ str::to_ascii_uppercase ](text: &str) -> (shouted: String)
    ensures
        shouted@ == upper_text(text@),
;

/// Computes `interval_millis`.
pub fn send_interval_millis(sum: &Sample) -> (millis: u64)
    ensures
        millis == interval_millis(*sum),
{
    let used: u64 = sum.tpp_command_count as u64 * MILLIS_PER_COMMAND;
    if used <= BASE_INTERVAL_MILLIS - MIN_INTERVAL_MILLIS {
        BASE_INTERVAL_MILLIS - used
    } else {
        MIN_INTERVAL_MILLIS
    }
}

/// Decides `wait_over`, given the milliseconds since the last message was
/// sent.
pub fn wait_is_over(elapsed_millis: u128, sum: &Sample) -> (over: bool)
    ensures
        over == wait_over(elapsed_millis, *sum),
{
    let interval: u64 = send_interval_millis(sum);
    elapsed_millis >= interval as u128
}

/// Decides `eligible`.
pub fn should_send(enabled: bool, full: bool, elapsed_millis: u128, sum: &Sample) -> (send: bool)
    ensures
        send == eligible(enabled, full, elapsed_millis, *sum),
{
    let commands: u64 = sum.tpp_command_count as u64;
    let messages: u64 = sum.message_count as u64;
    enabled && full && wait_is_over(elapsed_millis, sum) && messages > 0 && commands * 100
        >= MIN_COMMAND_PERCENT * messages && commands * 1000 >= MIN_COMMANDS_PER_SECOND
        * TPP_SAMPLE_MILLIS
}

/// Computes `varied`.
pub fn next_message(last: &str, chosen: &str) -> (message: String)
    ensures
        message@ == varied(last@, chosen@),
{
    if same_text(last, chosen) {
        last.to_ascii_uppercase()
    } else {
        chosen.to_owned()
    }
}

/// The step of the policy: where a message is to be sent, its text is the
/// label of the command to follow, varied against the last message.
pub fn decide(enabled: bool, full: bool, elapsed_millis: u128, sum: &Sample, last: &str) -> (step:
    Option<String>)
    ensures
        step is Some == eligible(enabled, full, elapsed_millis, *sum),
        step matches Some(message) ==> message@ == varied(last@, label(sum.second_highest())),
{
    if should_send(enabled, full, elapsed_millis, sum) {
        Some(next_message(last, sum.most_used()))
    } else {
        None
    }
}

} // verus!
