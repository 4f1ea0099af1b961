use tpp_bot::sample::{recognize, same_text, Sample, Vote};

fn zero() -> Sample {
    Sample::default()
}

#[test]
fn default_sample_is_empty() {
    let s = zero();
    assert_eq!(
        s,
        Sample {
            message_count: 0,
            tpp_command_count: 0,
            up: 0,
            left: 0,
            down: 0,
            right: 0,
            a: 0,
            b: 0,
            x: 0,
            y: 0,
            demo: 0,
            anar: 0,
            start: 0,
        }
    );
}

#[test]
fn single_letters_in_either_case() {
    let table = [
        ("u", Vote::Up),
        ("n", Vote::Up),
        ("l", Vote::Left),
        ("w", Vote::Left),
        ("d", Vote::Down),
        ("s", Vote::Down),
        ("r", Vote::Right),
        ("e", Vote::Right),
        ("a", Vote::A),
        ("b", Vote::B),
        ("x", Vote::X),
        ("y", Vote::Y),
    ];
    for (text, vote) in table {
        assert_eq!(recognize(text), Some(vote), "{}", text);
        assert_eq!(recognize(&text.to_uppercase()), Some(vote), "{}", text);
    }
}

#[test]
fn whole_words_in_two_cases() {
    let table = [
        ("haut", Vote::Up),
        ("HAUT", Vote::Up),
        ("gauche", Vote::Left),
        ("GAUCHE", Vote::Left),
        ("bas", Vote::Down),
        ("BAS", Vote::Down),
        ("droite", Vote::Right),
        ("DROITE", Vote::Right),
        ("D\u{c9}MOCRATIE", Vote::Demo),
        ("DEMOCRATIE", Vote::Demo),
        ("d\u{e9}mocratie", Vote::Demo),
        ("democratie", Vote::Demo),
        ("ANARCHIE", Vote::Anar),
        ("anarchie", Vote::Anar),
        ("start", Vote::Start),
        ("START", Vote::Start),
    ];
    for (text, vote) in table {
        assert_eq!(recognize(text), Some(vote), "{}", text);
    }
}

#[test]
fn other_payloads_vote_for_nothing() {
    for text in [
        "", " ", "u ", " u", "uu", "z", "1", "Haut", "hauT", "up", "left", "Start", "select",
        "democracy", "D\u{e9}mocratie", "d\u{c9}mocratie", "\u{e9}", "anarchy", "haut!",
    ] {
        assert_eq!(recognize(text), None, "{:?}", text);
    }
}

#[test]
fn same_text_compares_whole_texts() {
    assert!(same_text("", ""));
    assert!(same_text("abc", "abc"));
    assert!(same_text("d\u{e9}", "d\u{e9}"));
    assert!(!same_text("abc", "abd"));
    assert!(!same_text("abc", "ab"));
    assert!(!same_text("", "a"));
    assert!(!same_text("d\u{e9}", "de"));
}

#[test]
fn record_counts_message_command_and_vote() {
    let mut s = zero();
    assert!(s.can_record(Some(Vote::Up)));
    s.record(Some(Vote::Up));
    assert_eq!(s, Sample { message_count: 1, tpp_command_count: 1, up: 1, ..zero() });
    s.record(None);
    assert_eq!(s, Sample { message_count: 2, tpp_command_count: 1, up: 1, ..zero() });
    s.record(Some(Vote::Anar));
    s.record(Some(Vote::Up));
    assert_eq!(s, Sample { message_count: 4, tpp_command_count: 3, up: 2, anar: 1, ..zero() });
}

#[test]
fn record_reaches_each_counter() {
    let votes = [
        Vote::Up,
        Vote::Left,
        Vote::Down,
        Vote::Right,
        Vote::A,
        Vote::B,
        Vote::X,
        Vote::Y,
        Vote::Demo,
        Vote::Anar,
        Vote::Start,
    ];
    let mut s = zero();
    for (i, vote) in votes.iter().enumerate() {
        for _ in 0..=i {
            s.record(Some(*vote));
        }
    }
    assert_eq!(
        s,
        Sample {
            message_count: 66,
            tpp_command_count: 66,
            up: 1,
            left: 2,
            down: 3,
            right: 4,
            a: 5,
            b: 6,
            x: 7,
            y: 8,
            demo: 9,
            anar: 10,
            start: 11,
        }
    );
}

#[test]
fn unit_is_one_message() {
    assert_eq!(Sample::unit(None), Sample { message_count: 1, ..zero() });
    assert_eq!(
        Sample::unit(Some(Vote::Start)),
        Sample { message_count: 1, tpp_command_count: 1, start: 1, ..zero() }
    );
}

#[test]
fn can_record_sees_full_counters() {
    let full_messages = Sample { message_count: u16::MAX, ..zero() };
    assert!(!full_messages.can_record(None));
    assert!(!full_messages.can_record(Some(Vote::A)));
    let full_commands = Sample { tpp_command_count: u16::MAX, ..zero() };
    assert!(full_commands.can_record(None));
    assert!(!full_commands.can_record(Some(Vote::A)));
    let full_a = Sample { a: u16::MAX, ..zero() };
    assert!(full_a.can_record(None));
    assert!(full_a.can_record(Some(Vote::B)));
    assert!(!full_a.can_record(Some(Vote::A)));
}

fn numbered(base: u16) -> Sample {
    Sample {
        message_count: base,
        tpp_command_count: base + 1,
        up: base + 2,
        left: base + 3,
        down: base + 4,
        right: base + 5,
        a: base + 6,
        b: base + 7,
        x: base + 8,
        y: base + 9,
        demo: base + 10,
        anar: base + 11,
        start: base + 12,
    }
}

#[test]
fn add_and_sub_work_counter_by_counter() {
    let mut s = numbered(100);
    let other = numbered(7);
    assert!(s.can_add(&other));
    s.add_assign(&other);
    assert_eq!(
        s,
        Sample {
            message_count: 107,
            tpp_command_count: 109,
            up: 111,
            left: 113,
            down: 115,
            right: 117,
            a: 119,
            b: 121,
            x: 123,
            y: 125,
            demo: 127,
            anar: 129,
            start: 131,
        }
    );
    assert!(s.can_sub(&other));
    s.sub_assign(&other);
    assert_eq!(s, numbered(100));
    s.sub_assign(&numbered(100));
    assert_eq!(s, Sample { ..zero() });
}

#[test]
fn can_add_and_can_sub_test_every_counter() {
    let base = numbered(10);
    let setters: [fn(&mut Sample, u16); 13] = [
        |s, v| s.message_count = v,
        |s, v| s.tpp_command_count = v,
        |s, v| s.up = v,
        |s, v| s.left = v,
        |s, v| s.down = v,
        |s, v| s.right = v,
        |s, v| s.a = v,
        |s, v| s.b = v,
        |s, v| s.x = v,
        |s, v| s.y = v,
        |s, v| s.demo = v,
        |s, v| s.anar = v,
        |s, v| s.start = v,
    ];
    assert!(base.can_add(&base));
    assert!(base.can_sub(&base));
    assert!(base.can_sub(&zero()));
    for set in setters {
        let mut big = base;
        set(&mut big, u16::MAX);
        assert!(!big.can_add(&base));
        assert!(big.can_add(&zero()));
        assert!(!base.can_sub(&big));
        assert!(big.can_sub(&base));
        let mut one = zero();
        set(&mut one, 1);
        assert!(!big.can_add(&one));
        assert!(!zero().can_sub(&one));
    }
}

#[test]
fn most_used_with_nothing_counted_is_fixed() {
    assert_eq!(zero().most_used(), "anarchie");
    assert_eq!(Sample { message_count: 9, tpp_command_count: 3, ..zero() }.most_used(), "anarchie");
}

#[test]
fn most_used_is_second_from_the_top() {
    let s = Sample { up: 5, left: 3, ..zero() };
    assert_eq!(s.most_used(), "w");
    let s = Sample { up: 5, ..zero() };
    assert_eq!(s.most_used(), "start");
    let s = Sample { start: 5, ..zero() };
    assert_eq!(s.most_used(), "anarchie");
    let s = Sample { start: 5, anar: 4, ..zero() };
    assert_eq!(s.most_used(), "anarchie");
    let s = Sample { up: 2, left: 2, ..zero() };
    assert_eq!(s.most_used(), "n");
    let s = Sample { up: 1, left: 2, down: 3, right: 4, a: 5, b: 6, x: 7, y: 8, ..zero() };
    assert_eq!(s.most_used(), "x");
}

#[test]
fn most_used_weighs_democracy_double_and_anarchy_a_quarter() {
    let s = Sample { demo: 3, up: 5, left: 4, ..zero() };
    assert_eq!(s.most_used(), "n");
    let s = Sample { demo: 2, up: 5, left: 4, ..zero() };
    assert_eq!(s.most_used(), "democratie");
    let s = Sample { anar: 15, up: 5, left: 4, ..zero() };
    assert_eq!(s.most_used(), "w");
    let s = Sample { anar: 16, up: 5, left: 4, ..zero() };
    assert_eq!(s.most_used(), "anarchie");
    let s = Sample { anar: 19, up: 5, left: 4, ..zero() };
    assert_eq!(s.most_used(), "anarchie");
    let s = Sample { anar: 20, up: 5, left: 4, ..zero() };
    assert_eq!(s.most_used(), "n");
    let s = Sample { anar: 24, up: 5, left: 4, ..zero() };
    assert_eq!(s.most_used(), "n");
    let s = Sample { anar: 3, ..zero() };
    assert_eq!(s.most_used(), "anarchie");
}

#[test]
fn most_used_does_not_overflow_on_large_counts() {
    let s = Sample { demo: u16::MAX, up: u16::MAX, ..zero() };
    assert_eq!(s.most_used(), "n");
    let s = Sample { demo: 40000, up: 65535, left: 65534, ..zero() };
    assert_eq!(s.most_used(), "n");
}
