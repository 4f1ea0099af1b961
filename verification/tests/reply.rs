use tpp_bot::reply::{IrcReply, IrcReplyCommand};

fn classify(line: &str) -> IrcReply {
    IrcReply::from_str(line).unwrap()
}

#[test]
fn privmsg_with_full_origin() {
    let reply = classify(":nick!user@host PRIVMSG #chan :u");
    assert!(matches!(reply.command(), IrcReplyCommand::PrivMsg));
    let sender = reply.sender().unwrap();
    assert_eq!(sender.nickname, Some("nick"));
    assert_eq!(sender.user, Some("user"));
    assert_eq!(sender.server, "host");
    assert_eq!(reply.target(), Some("#chan"));
    assert_eq!(reply.text(), Some("u"));
    assert_eq!(reply.metadata(), None);
    assert_eq!(reply.raw(), ":nick!user@host PRIVMSG #chan :u");
}

#[test]
fn ping_has_payload_and_no_target() {
    let reply = classify("PING :tmi.twitch.tv");
    assert!(matches!(reply.command(), IrcReplyCommand::Ping));
    assert_eq!(reply.text(), Some("tmi.twitch.tv"));
    assert_eq!(reply.target(), None);
    assert!(reply.sender().is_none());
    assert_eq!(reply.metadata(), None);
}

#[test]
fn ping_without_marker_has_no_payload() {
    let reply = classify("PING tmi.twitch.tv");
    assert!(matches!(reply.command(), IrcReplyCommand::Ping));
    assert_eq!(reply.text(), None);
    assert_eq!(reply.target(), None);
}

#[test]
fn no_line_is_rejected() {
    for line in ["", " ", ":", "@", ": :", "x", "   ", ":a :b :c :d :e f", "\u{e9}\u{e9} \u{e9}"] {
        assert!(IrcReply::from_str(line).is_some(), "{:?}", line);
    }
}

#[test]
fn empty_line_is_an_unrecognized_empty_token() {
    let reply = classify("");
    match reply.command() {
        IrcReplyCommand::Raw(token) => assert_eq!(token, ""),
        other => panic!("{:?}", other),
    }
    assert_eq!(reply.metadata(), None);
    assert!(reply.sender().is_none());
    assert_eq!(reply.target(), None);
    assert_eq!(reply.text(), None);
}

#[test]
fn unmatched_token_is_kept_as_it_stood() {
    let reply = classify(":tmi.twitch.tv CAP * ACK :twitch.tv/tags");
    match reply.command() {
        IrcReplyCommand::Raw(token) => assert_eq!(token, "CAP"),
        other => panic!("{:?}", other),
    }
    assert_eq!(reply.target(), None);
    assert_eq!(reply.text(), None);
    let sender = reply.sender().unwrap();
    assert_eq!(sender.nickname, None);
    assert_eq!(sender.user, None);
    assert_eq!(sender.server, "tmi.twitch.tv");
}

#[test]
fn lower_case_word_is_not_in_the_table() {
    let reply = classify("privmsg #chan :u");
    match reply.command() {
        IrcReplyCommand::Raw(token) => assert_eq!(token, "privmsg"),
        other => panic!("{:?}", other),
    }
    assert_eq!(reply.target(), None);
    assert_eq!(reply.text(), None);
}

#[test]
fn numeric_tokens_map_to_their_categories() {
    assert!(matches!(classify("001 bot :hi").command(), IrcReplyCommand::Welcome));
    assert!(matches!(classify("002 bot :hi").command(), IrcReplyCommand::YourHost));
    assert!(matches!(classify("003 bot :hi").command(), IrcReplyCommand::Created));
    assert!(matches!(classify("004 bot :hi").command(), IrcReplyCommand::MyInfo));
    assert!(matches!(classify("375 bot :hi").command(), IrcReplyCommand::MotdStart));
    assert!(matches!(classify("372 bot :hi").command(), IrcReplyCommand::MotdText));
    assert!(matches!(classify("376 bot :hi").command(), IrcReplyCommand::MotdStop));
    assert!(matches!(classify("353 bot :hi").command(), IrcReplyCommand::Name));
    assert!(matches!(classify("366 bot :hi").command(), IrcReplyCommand::EndOfNames));
    assert!(matches!(classify("JOIN #chan").command(), IrcReplyCommand::Join));
    assert!(matches!(classify("0010 bot :hi").command(), IrcReplyCommand::Raw(_)));
    assert!(matches!(classify("00 bot :hi").command(), IrcReplyCommand::Raw(_)));
}

#[test]
fn welcome_carries_target_and_payload() {
    let reply = classify(":tmi.twitch.tv 001 bot :Welcome, GLHF!");
    assert!(matches!(reply.command(), IrcReplyCommand::Welcome));
    assert_eq!(reply.target(), Some("bot"));
    assert_eq!(reply.text(), Some("Welcome, GLHF!"));
}

#[test]
fn every_payload_category_reads_target_and_payload() {
    for word in ["001", "002", "003", "004", "375", "372", "376", "PRIVMSG"] {
        let line = format!(":srv {} who :some text here", word);
        let reply = classify(&line);
        assert_eq!(reply.target(), Some("who"), "{}", word);
        assert_eq!(reply.text(), Some("some text here"), "{}", word);
    }
}

#[test]
fn other_categories_read_no_further_field() {
    for word in ["353", "366", "NOTICE"] {
        let line = format!(":srv {} who :some text", word);
        let reply = classify(&line);
        assert_eq!(reply.target(), None, "{}", word);
        assert_eq!(reply.text(), None, "{}", word);
        assert_eq!(reply.sender().unwrap().server, "srv");
    }
}

#[test]
fn server_info_carries_target_and_payload() {
    let reply = classify(":srv 004 me :info text");
    assert!(matches!(reply.command(), IrcReplyCommand::MyInfo));
    assert_eq!(reply.target(), Some("me"));
    assert_eq!(reply.text(), Some("info text"));
    assert_eq!(reply.sender().unwrap().server, "srv");
}

#[test]
fn join_has_target_and_no_payload() {
    let reply = classify(":bot!bot@bot.tmi.twitch.tv JOIN #chan :ignored");
    assert!(matches!(reply.command(), IrcReplyCommand::Join));
    assert_eq!(reply.target(), Some("#chan"));
    assert_eq!(reply.text(), None);
}

#[test]
fn metadata_and_origin_shift_the_fields() {
    let reply = classify("@badge=1;color=red :nick!user@host PRIVMSG #chan :hello there world");
    assert!(matches!(reply.command(), IrcReplyCommand::PrivMsg));
    assert_eq!(reply.metadata(), Some("badge=1;color=red"));
    let sender = reply.sender().unwrap();
    assert_eq!(sender.nickname, Some("nick"));
    assert_eq!(sender.user, Some("user"));
    assert_eq!(sender.server, "host");
    assert_eq!(reply.target(), Some("#chan"));
    assert_eq!(reply.text(), Some("hello there world"));
}

#[test]
fn payload_keeps_its_spaces() {
    let reply = classify("PRIVMSG #chan :a  b   c ");
    assert_eq!(reply.text(), Some("a  b   c "));
}

#[test]
fn empty_payload_is_present() {
    let reply = classify("PRIVMSG #chan :");
    assert_eq!(reply.target(), Some("#chan"));
    assert_eq!(reply.text(), Some(""));
}

#[test]
fn payload_without_marker_is_absent() {
    let reply = classify("PRIVMSG #chan hello");
    assert_eq!(reply.target(), Some("#chan"));
    assert_eq!(reply.text(), None);
}

#[test]
fn second_space_makes_an_empty_target() {
    let reply = classify("PRIVMSG  :u");
    assert_eq!(reply.target(), None);
    assert_eq!(reply.text(), Some("u"));
}

#[test]
fn command_alone_has_no_fields() {
    let reply = classify("PRIVMSG");
    assert!(matches!(reply.command(), IrcReplyCommand::PrivMsg));
    assert_eq!(reply.target(), None);
    assert_eq!(reply.text(), None);
}

#[test]
fn bare_markers_are_empty_prefixes() {
    let reply = classify(": PING :x");
    assert!(reply.sender().is_none());
    assert!(matches!(reply.command(), IrcReplyCommand::Ping));
    assert_eq!(reply.text(), Some("x"));
    let reply = classify("@ PING :x");
    assert_eq!(reply.metadata(), None);
    assert_eq!(reply.text(), Some("x"));
}

#[test]
fn prefix_alone_leaves_the_first_category() {
    let reply = classify(":only.an.origin");
    assert!(matches!(reply.command(), IrcReplyCommand::Welcome));
    assert_eq!(reply.sender().unwrap().server, "only.an.origin");
    assert_eq!(reply.target(), None);
    assert_eq!(reply.text(), None);
}

#[test]
fn later_prefix_replaces_earlier_one() {
    let reply = classify(":first :second PING :x");
    assert_eq!(reply.sender().unwrap().server, "second");
    assert!(matches!(reply.command(), IrcReplyCommand::Ping));
    assert_eq!(reply.text(), Some("x"));
}

#[test]
fn fifth_part_is_the_rest_of_the_line() {
    let reply = classify("@m :a :b PRIVMSG #chan :hello world");
    assert!(matches!(reply.command(), IrcReplyCommand::PrivMsg));
    assert_eq!(reply.metadata(), Some("m"));
    assert_eq!(reply.sender().unwrap().server, "b");
    assert_eq!(reply.target(), Some("#chan :hello world"));
    assert_eq!(reply.text(), None);
}

#[test]
fn five_prefixes_leave_no_command() {
    let reply = classify(":a :b :c :d :e f");
    assert!(matches!(reply.command(), IrcReplyCommand::Welcome));
    assert_eq!(reply.sender().unwrap().server, "e f");
    assert_eq!(reply.target(), None);
    assert_eq!(reply.text(), None);
}

#[test]
fn origin_shapes() {
    let reply = classify(":nick@host JOIN #c");
    let sender = reply.sender().unwrap();
    assert_eq!(sender.nickname, Some("nick"));
    assert_eq!(sender.user, None);
    assert_eq!(sender.server, "host");

    let reply = classify(":host.only JOIN #c");
    let sender = reply.sender().unwrap();
    assert_eq!(sender.nickname, None);
    assert_eq!(sender.user, None);
    assert_eq!(sender.server, "host.only");

    let reply = classify(":a!b!c@d@e JOIN #c");
    let sender = reply.sender().unwrap();
    assert_eq!(sender.nickname, Some("a"));
    assert_eq!(sender.user, Some("b!c"));
    assert_eq!(sender.server, "d@e");

    let reply = classify(":nick!user JOIN #c");
    let sender = reply.sender().unwrap();
    assert_eq!(sender.nickname, None);
    assert_eq!(sender.user, None);
    assert_eq!(sender.server, "nick!user");

    let reply = classify(":!@ JOIN #c");
    let sender = reply.sender().unwrap();
    assert_eq!(sender.nickname, Some(""));
    assert_eq!(sender.user, Some(""));
    assert_eq!(sender.server, "");
}

#[test]
fn text_beyond_ascii_is_cut_at_character_boundaries() {
    let reply = classify(":n\u{e9}!\u{fc}@h\u{f4}te PRIVMSG #\u{e7}a :d\u{e9}mocratie \u{1f600}");
    let sender = reply.sender().unwrap();
    assert_eq!(sender.nickname, Some("n\u{e9}"));
    assert_eq!(sender.user, Some("\u{fc}"));
    assert_eq!(sender.server, "h\u{f4}te");
    assert_eq!(reply.target(), Some("#\u{e7}a"));
    assert_eq!(reply.text(), Some("d\u{e9}mocratie \u{1f600}"));
}

#[test]
fn round_trip_of_constructed_lines() {
    let origins = ["nick!user@host", "srv.example", "n@h"];
    let targets = ["#chan", "bot", "#a:b"];
    let payloads = ["u", "hello world", "", ":colon first", "  spaced  "];
    for word in ["001", "002", "003", "004", "375", "372", "376", "PRIVMSG"] {
        for origin in origins {
            for target in targets {
                for payload in payloads {
                    let line = format!(":{} {} {} :{}", origin, word, target, payload);
                    let reply = classify(&line);
                    assert_eq!(reply.raw(), line);
                    assert_eq!(reply.target(), Some(target));
                    assert_eq!(reply.text(), Some(payload));
                    assert_eq!(reply.metadata(), None);
                    let sender = reply.sender().unwrap();
                    let rebuilt = match (sender.nickname, sender.user) {
                        (Some(n), Some(u)) => format!("{}!{}@{}", n, u, sender.server),
                        (Some(n), None) => format!("{}@{}", n, sender.server),
                        _ => sender.server.to_string(),
                    };
                    assert_eq!(rebuilt, origin);
                }
            }
        }
    }
}
