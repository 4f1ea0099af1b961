use tpp_bot::log::{log_record, GLOBAL_SAMPLE_MILLIS};
use tpp_bot::policy::{
    decide, next_message, send_interval_millis, should_send, wait_is_over, BASE_INTERVAL_MILLIS,
    MILLIS_PER_COMMAND, MIN_COMMANDS_PER_SECOND, MIN_COMMAND_PERCENT, MIN_INTERVAL_MILLIS,
    TPP_SAMPLE_MILLIS,
};
use tpp_bot::sample::Sample;

fn sum(messages: u16, commands: u16) -> Sample {
    Sample { message_count: messages, tpp_command_count: commands, ..Sample::default() }
}

#[test]
fn constants_of_the_policy() {
    assert_eq!(TPP_SAMPLE_MILLIS, 2000);
    assert_eq!(BASE_INTERVAL_MILLIS, 8000);
    assert_eq!(MIN_INTERVAL_MILLIS, 1800);
    assert_eq!(MILLIS_PER_COMMAND, 500);
    assert_eq!(MIN_COMMANDS_PER_SECOND, 2);
    assert_eq!(MIN_COMMAND_PERCENT, 60);
}

#[test]
fn interval_shrinks_with_the_command_rate() {
    assert_eq!(send_interval_millis(&sum(0, 0)), 8000);
    assert_eq!(send_interval_millis(&sum(9, 1)), 7500);
    assert_eq!(send_interval_millis(&sum(9, 4)), 6000);
    assert_eq!(send_interval_millis(&sum(9, 12)), 2000);
    assert_eq!(send_interval_millis(&sum(0, 12)), 2000);
}

#[test]
fn interval_has_a_floor() {
    assert_eq!(send_interval_millis(&sum(20, 13)), 1800);
    assert_eq!(send_interval_millis(&sum(20, 16)), 1800);
    assert_eq!(send_interval_millis(&sum(20, 17)), 1800);
    assert_eq!(send_interval_millis(&sum(u16::MAX, u16::MAX)), 1800);
}

#[test]
fn sending_needs_every_condition() {
    let good = sum(10, 8);
    assert!(should_send(true, true, 4000, &good));
    assert!(!should_send(false, true, 4000, &good));
    assert!(!should_send(true, false, 4000, &good));
    assert!(!should_send(true, true, 3999, &good));
    assert!(!should_send(true, true, 8000, &sum(10, 5)));
    assert!(!should_send(true, true, 8000, &sum(4, 3)));
}

#[test]
fn wait_is_over_when_the_interval_has_passed() {
    assert!(!wait_is_over(0, &sum(0, 0)));
    assert!(!wait_is_over(7999, &sum(0, 0)));
    assert!(wait_is_over(8000, &sum(0, 0)));
    assert!(!wait_is_over(5999, &sum(9, 4)));
    assert!(wait_is_over(6000, &sum(9, 4)));
    assert!(!wait_is_over(1799, &sum(20, 16)));
    assert!(wait_is_over(1800, &sum(20, 16)));
    assert!(!wait_is_over(1799, &sum(u16::MAX, u16::MAX)));
    assert!(wait_is_over(u128::MAX, &sum(0, 0)));
}

#[test]
fn share_threshold_is_three_in_five() {
    assert!(should_send(true, true, 8000, &sum(10, 6)));
    assert!(!should_send(true, true, 8000, &sum(11, 6)));
    assert!(should_send(true, true, 8000, &sum(5, 4)));
    assert!(should_send(true, true, 8000, &sum(5, 5)));
    assert!(should_send(true, true, 8000, &sum(65535, 39321)));
    assert!(!should_send(true, true, 8000, &sum(65535, 39320)));
    assert!(!should_send(true, true, 8000, &sum(0, 0)));
    assert!(!should_send(true, true, 8000, &sum(0, 8)));
}

#[test]
fn rate_threshold_is_two_commands_a_second() {
    assert!(!should_send(true, true, 8000, &sum(3, 3)));
    assert!(should_send(true, true, 8000, &sum(4, 4)));
    assert!(should_send(true, true, 8000, &sum(6, 4)));
    assert!(!should_send(true, true, 8000, &sum(7, 4)));
}

#[test]
fn repeated_label_is_sent_in_upper_case() {
    assert_eq!(next_message("", "n"), "n");
    assert_eq!(next_message("n", "n"), "N");
    assert_eq!(next_message("N", "n"), "n");
    assert_eq!(next_message("n", "w"), "w");
    assert_eq!(next_message("democratie", "democratie"), "DEMOCRATIE");
    assert_eq!(next_message("DEMOCRATIE", "democratie"), "democratie");
    assert_eq!(next_message("anarchie", "start"), "start");
}

#[test]
fn upper_case_touches_only_ascii_letters() {
    assert_eq!(next_message("a-z_9 \u{e9}\u{df}{`", "a-z_9 \u{e9}\u{df}{`"), "A-Z_9 \u{e9}\u{df}{`");
    assert_eq!(next_message("@[", "@["), "@[");
}

#[test]
fn decide_sends_the_second_ranked_label() {
    let s = Sample { message_count: 10, tpp_command_count: 8, up: 5, left: 3, ..Sample::default() };
    assert_eq!(decide(true, true, 4000, &s, ""), Some("w".to_string()));
    assert_eq!(decide(true, true, 4000, &s, "w"), Some("W".to_string()));
    assert_eq!(decide(true, true, 4000, &s, "W"), Some("w".to_string()));
    assert_eq!(decide(true, true, 3999, &s, ""), None);
    assert_eq!(decide(false, true, 4000, &s, ""), None);
    assert_eq!(decide(true, false, 4000, &s, ""), None);
    let quiet = Sample { message_count: 10, tpp_command_count: 3, up: 3, ..Sample::default() };
    assert_eq!(decide(true, true, 8000, &quiet, ""), None);
}

#[test]
fn log_record_shows_votes_in_column_order() {
    assert_eq!(GLOBAL_SAMPLE_MILLIS, 10_000);
    let s = Sample {
        message_count: 40,
        tpp_command_count: 30,
        up: 1,
        left: 2,
        down: 3,
        right: 4,
        a: 5,
        b: 6,
        x: 7,
        y: 8,
        demo: 9,
        anar: 10,
        start: 11,
    };
    let record = log_record(1_700_000_000, &s);
    assert_eq!(record.timestamp, 1_700_000_000);
    assert_eq!(record.messages, 40);
    assert_eq!(record.commands, 30);
    assert_eq!(record.votes, [1, 2, 3, 4, 5, 6, 7, 8, 9, 10, 11]);
}

#[test]
fn log_record_without_commands_shows_no_votes() {
    let s = Sample { message_count: 12, up: 3, start: 4, ..Sample::default() };
    let record = log_record(-5, &s);
    assert_eq!(record.timestamp, -5);
    assert_eq!(record.messages, 12);
    assert_eq!(record.commands, 0);
    assert_eq!(record.votes, [0; 11]);
}
