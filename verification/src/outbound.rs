//! The lines that the bot sends. Each ends with the two-byte line ending.

use vstd::prelude::*;
use vstd::string::StringExecFns;

verus! {

/// The credential line for `token`.
pub open spec fn pass_text(token: Seq<char>) -> Seq<char> {
    "PASS oauth:"@ + token + "\r\n"@
}

/// The identity line for `user`.
pub open spec fn nick_text(user: Seq<char>) -> Seq<char> {
    "NICK "@ + user + "\r\n"@
}

/// The line that joins `channel`.
pub open spec fn join_text(channel: Seq<char>) -> Seq<char> {
    "JOIN #"@ + channel + "\r\n"@
}

/// The line that answers a keep-alive request with its `payload`.
pub open spec fn pong_text(payload: Seq<char>) -> Seq<char> {
    "PONG :"@ + payload + "\r\n"@
}

/// The line that says `message` in `channel`.
pub open spec fn privmsg_text(channel: Seq<char>, message: Seq<char>) -> Seq<char> {
    "PRIVMSG #"@ + channel + " :"@ + message + "\r\n"@
}

/// The two lines that authenticate the bot: the credential line, then the
/// identity line.
pub fn auth_lines(user: &str, token: &str) -> (lines: (String, String))
    ensures
        lines.0@ == pass_text(token@),
        lines.1@ == nick_text(user@),
{
    let pass = String::from_str("PASS oauth:").concat(token).concat("\r\n");
    let nick = String::from_str("NICK ").concat(user).concat("\r\n");
    (pass, nick)
}

/// Builds `join_text`.
pub fn join_line(channel: &str) -> (line: String)
    ensures
        line@ == join_text(channel@),
{
    String::from_str("JOIN #").concat(channel).concat("\r\n")
}

/// Builds `pong_text`.
pub fn pong_line(payload: &str) -> (line: String)
    ensures
        line@ == pong_text(payload@),
{
    String::from_str("PONG :").concat(payload).concat("\r\n")
}

/// Builds `privmsg_text`.
pub fn privmsg_line(channel: &str, message: &str) -> (line: String)
    ensures
        line@ == privmsg_text(channel@, message@),
{
    String::from_str("PRIVMSG #").concat(channel).concat(" :").concat(message).concat("\r\n")
}

} // verus!
