use tpp_bot::decoder::LineDecoder;
use tpp_bot::outbound::{auth_lines, join_line, pong_line, privmsg_line};
use tpp_bot::reply::IrcReplyCommand;

#[test]
fn authentication_pair() {
    let (pass, nick) = auth_lines("bot", "abc123");
    assert_eq!(pass, "PASS oauth:abc123\r\n");
    assert_eq!(nick, "NICK bot\r\n");
}

#[test]
fn join_pong_and_message_lines() {
    assert_eq!(join_line("chan"), "JOIN #chan\r\n");
    assert_eq!(pong_line("tmi.twitch.tv"), "PONG :tmi.twitch.tv\r\n");
    assert_eq!(pong_line(""), "PONG :\r\n");
    assert_eq!(privmsg_line("chan", "N"), "PRIVMSG #chan :N\r\n");
    assert_eq!(privmsg_line("chan", "d\u{e9}mocratie"), "PRIVMSG #chan :d\u{e9}mocratie\r\n");
}

#[test]
fn sent_lines_decode_as_what_they_say() {
    let mut decoder = LineDecoder::new();
    decoder.feed(privmsg_line("chan", "start").as_bytes());
    decoder.feed(join_line("chan").as_bytes());
    let first = decoder.decode_reply().unwrap();
    assert!(matches!(first.command(), IrcReplyCommand::PrivMsg));
    assert_eq!(first.target(), Some("#chan"));
    assert_eq!(first.text(), Some("start"));
    let second = decoder.decode_reply().unwrap();
    assert!(matches!(second.command(), IrcReplyCommand::Join));
    assert_eq!(second.target(), Some("#chan"));
    assert!(decoder.decode_reply().is_none());
    assert_eq!(decoder.pending(), 0);
}
