//! Classified protocol lines: a record owns the text of its line and keeps
//! the byte offsets of its fields, which the accessors cut out on demand.

use vstd::prelude::*;
use vstd::string::StringSliceAdditionalSpecFns;
use vstd::utf8::*;
use crate::grammar::{
    carries_payload, category_of, has_part, is_prefix_part, lemma_parse_fits, lemma_part_fits,
    marked_span, parse, part_end, part_start, prefix_count, span_fits, split_origin,
    word_created, word_end_of_names, word_join, word_motd_start, word_motd_stop, word_motd_text,
    word_my_info, word_name, word_ping, word_privmsg, word_welcome, word_your_host, Category,
    ReplyView, SenderView, AT, BANG, COLON, MAX_PARTS, SPACE,
};
use crate::text::{find_byte, lemma_ascii_boundaries, lemma_find_from, slice_str};

verus! {

/// The category of a line.
#[derive(Debug)]
pub enum IrcReplyCommand {
    /// A command token outside the table, kept as it stood.
    Raw(String),
    Welcome,
    YourHost,
    Created,
    MyInfo,
    MotdStart,
    MotdText,
    MotdStop,
    PrivMsg,
    Ping,
    Join,
    Name,
    EndOfNames,
}

impl View for IrcReplyCommand {
    type V = Category;

    open spec fn view(&self) -> Category {
        match self {
            IrcReplyCommand::Raw(token) => Category::Raw(token@),
            IrcReplyCommand::Welcome => Category::Welcome,
            IrcReplyCommand::YourHost => Category::YourHost,
            IrcReplyCommand::Created => Category::Created,
            IrcReplyCommand::MyInfo => Category::MyInfo,
            IrcReplyCommand::MotdStart => Category::MotdStart,
            IrcReplyCommand::MotdText => Category::MotdText,
            IrcReplyCommand::MotdStop => Category::MotdStop,
            IrcReplyCommand::PrivMsg => Category::PrivMsg,
            IrcReplyCommand::Ping => Category::Ping,
            IrcReplyCommand::Join => Category::Join,
            IrcReplyCommand::Name => Category::Name,
            IrcReplyCommand::EndOfNames => Category::EndOfNames,
        }
    }
}

/// The parsed origin of a line, borrowed from its record.
#[derive(Debug)]
pub struct IrcSender<'a> {
    pub nickname: Option<&'a str>,
    pub user: Option<&'a str>,
    pub server: &'a str,
}

impl<'a> View for IrcSender<'a> {
    type V = SenderView;

    open spec fn view(&self) -> SenderView {
        SenderView {
            nickname: match self.nickname {
                Some(t) => Some(t@),
                None => None,
            },
            user: match self.user {
                Some(t) => Some(t@),
                None => None,
            },
            server: self.server@,
        }
    }
}

/// One classified line.
#[derive(Debug)]
pub struct IrcReply {
    raw: String,
    command: IrcReplyCommand,
    metadata_range: (usize, usize),
    sender_range: (usize, usize),
    target_range: (usize, usize),
    text_start: usize,
}

impl View for IrcReply {
    type V = ReplyView;

    closed spec fn view(&self) -> ReplyView {
        ReplyView {
            raw: self.raw@,
            command: self.command@,
            metadata: (self.metadata_range.0 as int, self.metadata_range.1 as int),
            sender: (self.sender_range.0 as int, self.sender_range.1 as int),
            target: (self.target_range.0 as int, self.target_range.1 as int),
            text_start: self.text_start as int,
        }
    }
}

/// The view of an optional piece of text.
pub open spec fn text_view(t: Option<&str>) -> Option<Seq<char>> {
    match t {
        Some(t) => Some(t@),
        None => None,
    }
}

/// The view of an optional origin.
pub open spec fn sender_view(s: Option<IrcSender>) -> Option<SenderView> {
    match s {
        Some(s) => Some(s@),
        None => None,
    }
}

/// Whether the bytes `start..end` of `b` spell `word`.
fn spells(b: &[u8], start: usize, end: usize, word: &[u8]) -> (same: bool)
    requires
        start <= end <= b@.len(),
    ensures
        same == (b@.subrange(start as int, end as int) == word@),
{
    if end - start != word.len() {
        return false;
    }
    let mut i: usize = 0;
    while i < word.len()
        invariant
            start <= end <= b@.len(),
            end - start == word@.len(),
            i <= word@.len(),
            forall|j: int| 0 <= j < i ==> b@[start + j] == word@[j],
        decreases word@.len() - i,
    {
        if b[start + i] != word[i] {
            assert(b@.subrange(start as int, end as int)[i as int] != word@[i as int]);
            return false;
        }
        i += 1;
    }
    assert(b@.subrange(start as int, end as int) =~= word@);
    true
}

/// Looks the command token `start..end` of `line` up in the table.
fn classify_token(line: &str, start: usize, end: usize) -> (command: IrcReplyCommand)
    requires
        span_fits(line.spec_bytes(), (start as int, end as int)),
    ensures
        command@ == category_of(line.spec_bytes().subrange(start as int, end as int)),
{
    let b = line.as_bytes();
    let ghost token = b@.subrange(start as int, end as int);
    let welcome: [u8; 3] = [0x30, 0x30, 0x31];
    let your_host: [u8; 3] = [0x30, 0x30, 0x32];
    let created: [u8; 3] = [0x30, 0x30, 0x33];
    let my_info: [u8; 3] = [0x30, 0x30, 0x34];
    let motd_start: [u8; 3] = [0x33, 0x37, 0x35];
    let motd_text: [u8; 3] = [0x33, 0x37, 0x32];
    let motd_stop: [u8; 3] = [0x33, 0x37, 0x36];
    let name: [u8; 3] = [0x33, 0x35, 0x33];
    let end_of_names: [u8; 3] = [0x33, 0x36, 0x36];
    let privmsg: [u8; 7] = [0x50, 0x52, 0x49, 0x56, 0x4d, 0x53, 0x47];
    let ping: [u8; 4] = [0x50, 0x49, 0x4e, 0x47];
    let join: [u8; 4] = [0x4a, 0x4f, 0x49, 0x4e];
    assert(welcome@ =~= word_welcome());
    assert(your_host@ =~= word_your_host());
    assert(created@ =~= word_created());
    assert(my_info@ =~= word_my_info());
    assert(motd_start@ =~= word_motd_start());
    assert(motd_text@ =~= word_motd_text());
    assert(motd_stop@ =~= word_motd_stop());
    assert(name@ =~= word_name());
    assert(end_of_names@ =~= word_end_of_names());
    assert(privmsg@ =~= word_privmsg());
    assert(ping@ =~= word_ping());
    assert(join@ =~= word_join());
    if spells(b, start, end, welcome.as_slice()) {
        IrcReplyCommand::Welcome
    } else if spells(b, start, end, your_host.as_slice()) {
        IrcReplyCommand::YourHost
    } else if spells(b, start, end, created.as_slice()) {
        IrcReplyCommand::Created
    } else if spells(b, start, end, my_info.as_slice()) {
        IrcReplyCommand::MyInfo
    } else if spells(b, start, end, motd_start.as_slice()) {
        IrcReplyCommand::MotdStart
    } else if spells(b, start, end, motd_text.as_slice()) {
        IrcReplyCommand::MotdText
    } else if spells(b, start, end, motd_stop.as_slice()) {
        IrcReplyCommand::MotdStop
    } else if spells(b, start, end, name.as_slice()) {
        IrcReplyCommand::Name
    } else if spells(b, start, end, end_of_names.as_slice()) {
        IrcReplyCommand::EndOfNames
    } else if spells(b, start, end, privmsg.as_slice()) {
        IrcReplyCommand::PrivMsg
    } else if spells(b, start, end, ping.as_slice()) {
        IrcReplyCommand::Ping
    } else if spells(b, start, end, join.as_slice()) {
        IrcReplyCommand::Join
    } else {
        IrcReplyCommand::Raw(slice_str(line, start, end).to_owned())
    }
}

/// Where part `k` ends, given where it begins.
fn end_of_part(b: &[u8], k: usize, start: usize) -> (end: usize)
    requires
        k < MAX_PARTS,
        start == part_start(b@, k as nat),
        start <= b@.len(),
    ensures
        end == part_end(b@, k as nat),
        start <= end <= b@.len(),
        end < b@.len() ==> k + 1 < MAX_PARTS && b@[end as int] == SPACE,
{
    if k + 1 >= MAX_PARTS {
        b.len()
    } else {
        proof {
            lemma_find_from(b@, SPACE, start as int);
        }
        find_byte(b, SPACE, start)
    }
}

/// Cuts an origin into nickname, account and host.
fn split_sender<'a>(origin: &'a str) -> (sender: IrcSender<'a>)
    ensures
        sender@ == split_origin(origin.spec_bytes()),
{
    broadcast use {encode_utf8_valid_utf8, encode_utf8_decode_utf8};

    let b = origin.as_bytes();
    let at = find_byte(b, AT, 0);
    proof {
        lemma_find_from(b@, AT, 0);
        is_char_boundary_start_end_of_seq(b@);
    }
    if at < b.len() {
        proof {
            lemma_ascii_boundaries(b@, at as int);
        }
        let left = slice_str(origin, 0, at);
        let server = slice_str(origin, at + 1, b.len());
        let lb = left.as_bytes();
        let bang = find_byte(lb, BANG, 0);
        proof {
            lemma_find_from(lb@, BANG, 0);
            is_char_boundary_start_end_of_seq(lb@);
        }
        if bang < lb.len() {
            proof {
                lemma_ascii_boundaries(lb@, bang as int);
            }
            let nickname = slice_str(left, 0, bang);
            let user = slice_str(left, bang + 1, lb.len());
            IrcSender { nickname: Some(nickname), user: Some(user), server }
        } else {
            IrcSender { nickname: Some(left), user: None, server }
        }
    } else {
        IrcSender { nickname: None, user: None, server: origin }
    }
}

impl IrcReply {
    #[verifier::type_invariant]
    spec fn classified(self) -> bool {
        self@ == parse(self.raw@)
    }

    /// Classifies a line. No line is rejected: the result is always `Some`.
    pub fn from_str(line: &str) -> (reply: Option<IrcReply>)
        ensures
            reply matches Some(r) && r@ == parse(line@),
    {
        let b = line.as_bytes();
        let len = b.len();
        let ghost s = b@;
        proof {
            lemma_parse_fits(line@);
        }

        let mut metadata_range: (usize, usize) = (0, 0);
        let mut sender_range: (usize, usize) = (0, 0);
        let mut k: usize = 0;
        let mut start: usize = 0;
        let mut present = true;
        let mut end: usize = 0;
        while k < MAX_PARTS && present
            invariant_except_break
                end == 0,
            invariant
                s == b@,
                len == s.len(),
                k <= MAX_PARTS,
                present == has_part(s, k as nat) || k == MAX_PARTS,
                present ==> start == part_start(s, k as nat) && start <= len,
                !present ==> part_start(s, k as nat) > len,
                prefix_count(s, 0) == prefix_count(s, k as nat),
                metadata_range.0 == marked_span(s, AT, k as nat).0,
                metadata_range.1 == marked_span(s, AT, k as nat).1,
                sender_range.0 == marked_span(s, COLON, k as nat).0,
                sender_range.1 == marked_span(s, COLON, k as nat).1,
            ensures
                k < MAX_PARTS && present ==> !is_prefix_part(s, k as nat) && end == part_end(
                    s,
                    k as nat,
                ) && start <= end <= len && (end < len ==> k + 1 < MAX_PARTS),
            decreases MAX_PARTS - k,
        {
            let part_end = end_of_part(b, k, start);
            if start < part_end && b[start] == COLON {
                sender_range = (start + 1, part_end);
            } else if start < part_end && b[start] == AT {
                metadata_range = (start + 1, part_end);
            } else {
                end = part_end;
                break ;
            }
            k += 1;
            if part_end < len {
                start = part_end + 1;
            } else {
                present = false;
            }
        }
        assert(k == prefix_count(s, 0));

        let mut command = IrcReplyCommand::Welcome;
        let mut target_range: (usize, usize) = (0, 0);
        let mut text_start: usize = 0;
        if k < MAX_PARTS && present {
            proof {
                lemma_part_fits(line@, k as nat);
            }
            command = classify_token(line, start, end);
            let with_payload = match command {
                IrcReplyCommand::Welcome
                | IrcReplyCommand::YourHost
                | IrcReplyCommand::Created
                | IrcReplyCommand::MyInfo
                | IrcReplyCommand::MotdStart
                | IrcReplyCommand::MotdText
                | IrcReplyCommand::MotdStop
                | IrcReplyCommand::PrivMsg => true,
                _ => false,
            };
            let is_join = match command {
                IrcReplyCommand::Join => true,
                _ => false,
            };
            let is_ping = match command {
                IrcReplyCommand::Ping => true,
                _ => false,
            };
            assert(with_payload == carries_payload(command@));
            if end < len {
                let first = end + 1;
                let first_end = end_of_part(b, k + 1, first);
                if with_payload || is_join {
                    target_range = (first, first_end);
                }
                if is_ping && first < first_end && b[first] == COLON {
                    text_start = first + 1;
                }
                if with_payload && first_end < len {
                    let second = first_end + 1;
                    let second_end = end_of_part(b, k + 2, second);
                    if second < second_end && b[second] == COLON {
                        text_start = second + 1;
                    }
                }
            }
        }
        let reply = IrcReply {
            raw: line.to_owned(),
            command,
            metadata_range,
            sender_range,
            target_range,
            text_start,
        };
        assert(reply@ == parse(line@));
        Some(reply)
    }

    /// The text of the line.
    pub fn raw(&self) -> (text: &str)
        ensures
            text@ == self@.raw,
    {
        self.raw.as_str()
    }

    /// The category of the line.
    pub fn command(&self) -> (command: &IrcReplyCommand)
        ensures
            command@ == self@.command,
    {
        &self.command
    }

    /// The metadata of the line, if it has any.
    pub fn metadata(&self) -> (text: Option<&str>)
        ensures
            text_view(text) == self@.metadata_text(),
    {
        proof {
            use_type_invariant(self);
            lemma_parse_fits(self.raw@);
        }
        if self.metadata_range.0 < self.metadata_range.1 {
            Some(slice_str(self.raw.as_str(), self.metadata_range.0, self.metadata_range.1))
        } else {
            None
        }
    }

    /// The origin of the line, if it has one, cut into its parts.
    pub fn sender(&self) -> (origin: Option<IrcSender<'_>>)
        ensures
            sender_view(origin) == self@.origin(),
    {
        proof {
            use_type_invariant(self);
            lemma_parse_fits(self.raw@);
        }
        if self.sender_range.0 < self.sender_range.1 {
            let origin = slice_str(self.raw.as_str(), self.sender_range.0, self.sender_range.1);
            Some(split_sender(origin))
        } else {
            None
        }
    }

    /// The target of the line, if it has one.
    pub fn target(&self) -> (text: Option<&str>)
        ensures
            text_view(text) == self@.target_text(),
    {
        proof {
            use_type_invariant(self);
            lemma_parse_fits(self.raw@);
        }
        if self.target_range.0 < self.target_range.1 {
            Some(slice_str(self.raw.as_str(), self.target_range.0, self.target_range.1))
        } else {
            None
        }
    }

    /// The payload of the line, if it has one.
    pub fn text(&self) -> (text: Option<&str>)
        ensures
            text_view(text) == self@.payload_text(),
    {
        proof {
            use_type_invariant(self);
            lemma_parse_fits(self.raw@);
        }
        if self.text_start == 0 {
            None
        } else {
            let line = self.raw.as_str();
            Some(slice_str(line, self.text_start, line.as_bytes().len()))
        }
    }
}

} // verus!
