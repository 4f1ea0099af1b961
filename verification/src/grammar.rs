//! The grammar of a protocol line, as a mathematical model over its bytes.
//!
//! A line is cut at single spaces into at most five parts; the fifth part is
//! whatever remains. Leading parts that begin with `:` or `@` are prefixes
//! (origin and metadata). The first part that is no prefix is the command
//! token, and decides which of the following parts are read.

use vstd::prelude::*;
use vstd::utf8::*;
use crate::text::{find_from, lemma_ascii_boundaries, lemma_find_from, text_between};

verus! {

pub const SPACE: u8 = 0x20;

pub const COLON: u8 = 0x3a;

pub const AT: u8 = 0x40;

pub const BANG: u8 = 0x21;

/// The greatest number of parts that a line is cut into.
pub const MAX_PARTS: usize = 5;

/// The category of a line, as its command token gives it.
pub enum Category {
    /// A token outside the table, kept as it stood.
    Raw(Seq<char>),
    Welcome,
    YourHost,
    Created,
    MyInfo,
    MotdStart,
    MotdText,
    MotdStop,
    PrivMsg,
    Ping,
    Join,
    Name,
    EndOfNames,
}

/// `001`
pub open spec fn word_welcome() -> Seq<u8> {
    seq![0x30u8, 0x30, 0x31]
}

/// `002`
pub open spec fn word_your_host() -> Seq<u8> {
    seq![0x30u8, 0x30, 0x32]
}

/// `003`
pub open spec fn word_created() -> Seq<u8> {
    seq![0x30u8, 0x30, 0x33]
}

/// `004`
pub open spec fn word_my_info() -> Seq<u8> {
    seq![0x30u8, 0x30, 0x34]
}

/// `375`
pub open spec fn word_motd_start() -> Seq<u8> {
    seq![0x33u8, 0x37, 0x35]
}

/// `372`
pub open spec fn word_motd_text() -> Seq<u8> {
    seq![0x33u8, 0x37, 0x32]
}

/// `376`
pub open spec fn word_motd_stop() -> Seq<u8> {
    seq![0x33u8, 0x37, 0x36]
}

/// `353`
pub open spec fn word_name() -> Seq<u8> {
    seq![0x33u8, 0x35, 0x33]
}

/// `366`
pub open spec fn word_end_of_names() -> Seq<u8> {
    seq![0x33u8, 0x36, 0x36]
}

/// `PRIVMSG`
pub open spec fn word_privmsg() -> Seq<u8> {
    seq![0x50u8, 0x52, 0x49, 0x56, 0x4d, 0x53, 0x47]
}

/// `PING`
pub open spec fn word_ping() -> Seq<u8> {
    seq![0x50u8, 0x49, 0x4e, 0x47]
}

/// `JOIN`
pub open spec fn word_join() -> Seq<u8> {
    seq![0x4au8, 0x4f, 0x49, 0x4e]
}

/// The category that a command token stands for.
pub open spec fn category_of(token: Seq<u8>) -> Category {
    if token == word_welcome() {
        Category::Welcome
    } else if token == word_your_host() {
        Category::YourHost
    } else if token == word_created() {
        Category::Created
    } else if token == word_my_info() {
        Category::MyInfo
    } else if token == word_motd_start() {
        Category::MotdStart
    } else if token == word_motd_text() {
        Category::MotdText
    } else if token == word_motd_stop() {
        Category::MotdStop
    } else if token == word_name() {
        Category::Name
    } else if token == word_end_of_names() {
        Category::EndOfNames
    } else if token == word_privmsg() {
        Category::PrivMsg
    } else if token == word_ping() {
        Category::Ping
    } else if token == word_join() {
        Category::Join
    } else {
        Category::Raw(decode_utf8(token))
    }
}

/// Categories whose lines carry a target and then a free-text payload.
pub open spec fn carries_payload(c: Category) -> bool {
    c is Welcome || c is YourHost || c is Created || c is MyInfo || c is MotdStart
        || c is MotdText || c is MotdStop || c is PrivMsg
}

/// Offset at which part `k` of the line begins. A part that lies beyond the
/// end of the line begins after `s.len()`.
pub open spec fn part_start(s: Seq<u8>, k: nat) -> int
    decreases k, 0nat,
{
    if k == 0 {
        0
    } else {
        part_end(s, (k - 1) as nat) + 1
    }
}

/// Offset at which part `k` ends: at the next space, or at the end of the
/// line for the last part that a line can have.
pub open spec fn part_end(s: Seq<u8>, k: nat) -> int
    decreases k, 1nat,
{
    if k + 1 >= MAX_PARTS {
        s.len() as int
    } else {
        find_from(s, SPACE, part_start(s, k))
    }
}

/// Whether the line has a part number `k`.
pub open spec fn has_part(s: Seq<u8>, k: nat) -> bool {
    k < MAX_PARTS && part_start(s, k) <= s.len()
}

/// Whether part `k` exists, is not empty and begins with `marker`.
pub open spec fn starts_with(s: Seq<u8>, k: nat, marker: u8) -> bool {
    has_part(s, k) && part_start(s, k) < part_end(s, k) && s[part_start(s, k)] == marker
}

/// Whether part `k` is an origin or a metadata prefix.
pub open spec fn is_prefix_part(s: Seq<u8>, k: nat) -> bool {
    starts_with(s, k, COLON) || starts_with(s, k, AT)
}

/// Number of the first part, from `k` on, that is no prefix.
pub open spec fn prefix_count(s: Seq<u8>, k: nat) -> nat
    decreases MAX_PARTS - k,
{
    if k < MAX_PARTS && is_prefix_part(s, k) {
        prefix_count(s, k + 1)
    } else {
        k
    }
}

/// The span that follows the marker of the last of the parts before `count`
/// that begin with `marker`; the empty span `(0, 0)` when there is none.
pub open spec fn marked_span(s: Seq<u8>, marker: u8, count: nat) -> (int, int)
    decreases count,
{
    if count == 0 {
        (0, 0)
    } else if starts_with(s, (count - 1) as nat, marker) {
        (part_start(s, (count - 1) as nat) + 1, part_end(s, (count - 1) as nat))
    } else {
        marked_span(s, marker, (count - 1) as nat)
    }
}

/// The span of part `k`, or the empty span `(0, 0)` when the line has no
/// such part.
pub open spec fn part_span(s: Seq<u8>, k: nat) -> (int, int) {
    if has_part(s, k) {
        (part_start(s, k), part_end(s, k))
    } else {
        (0, 0)
    }
}

/// Offset of the payload that part `k` opens with a `:`, or 0 when it opens
/// none.
pub open spec fn payload_start(s: Seq<u8>, k: nat) -> int {
    if starts_with(s, k, COLON) {
        part_start(s, k) + 1
    } else {
        0
    }
}

/// A classified line: its text, its category, and where its fields lie in
/// the bytes of the text. A span `(from, to)` with `from >= to` stands for
/// a field that is absent, and so does a `text_start` of 0.
pub struct ReplyView {
    pub raw: Seq<char>,
    pub command: Category,
    pub metadata: (int, int),
    pub sender: (int, int),
    pub target: (int, int),
    pub text_start: int,
}

/// The parsed form of an origin.
pub struct SenderView {
    pub nickname: Option<Seq<char>>,
    pub user: Option<Seq<char>>,
    pub server: Seq<char>,
}

/// The classification of a line.
pub open spec fn parse(line: Seq<char>) -> ReplyView {
    let s = encode_utf8(line);
    let c = prefix_count(s, 0);
    if has_part(s, c) {
        let command = category_of(s.subrange(part_start(s, c), part_end(s, c)));
        ReplyView {
            raw: line,
            command,
            metadata: marked_span(s, AT, c),
            sender: marked_span(s, COLON, c),
            target: if carries_payload(command) || command is Join {
                part_span(s, c + 1)
            } else {
                (0, 0)
            },
            text_start: if carries_payload(command) {
                payload_start(s, c + 2)
            } else if command is Ping {
                payload_start(s, c + 1)
            } else {
                0
            },
        }
    } else {
        ReplyView {
            raw: line,
            command: Category::Welcome,
            metadata: marked_span(s, AT, c),
            sender: marked_span(s, COLON, c),
            target: (0, 0),
            text_start: 0,
        }
    }
}

/// An origin cut at its first `@`, and what stands before that at its first
/// `!`.
pub open spec fn split_origin(origin: Seq<u8>) -> SenderView {
    let at = find_from(origin, AT, 0);
    if at < origin.len() {
        let left = origin.subrange(0, at);
        let server = decode_utf8(origin.subrange(at + 1, origin.len() as int));
        let bang = find_from(left, BANG, 0);
        if bang < left.len() {
            SenderView {
                nickname: Some(decode_utf8(left.subrange(0, bang))),
                user: Some(decode_utf8(left.subrange(bang + 1, left.len() as int))),
                server,
            }
        } else {
            SenderView { nickname: Some(decode_utf8(left)), user: None, server }
        }
    } else {
        SenderView { nickname: None, user: None, server: decode_utf8(origin) }
    }
}

impl ReplyView {
    /// The bytes of the line.
    pub open spec fn bytes(self) -> Seq<u8> {
        encode_utf8(self.raw)
    }

    /// The text of a span, or `None` for an empty span.
    pub open spec fn span_text(self, span: (int, int)) -> Option<Seq<char>> {
        if span.0 < span.1 {
            Some(text_between(self.bytes(), span.0, span.1))
        } else {
            None
        }
    }

    /// The metadata of the line, without its `@`.
    pub open spec fn metadata_text(self) -> Option<Seq<char>> {
        self.span_text(self.metadata)
    }

    /// The origin of the line, without its `:`.
    pub open spec fn sender_text(self) -> Option<Seq<char>> {
        self.span_text(self.sender)
    }

    /// The origin of the line, parsed.
    pub open spec fn origin(self) -> Option<SenderView> {
        if self.sender.0 < self.sender.1 {
            Some(split_origin(self.bytes().subrange(self.sender.0, self.sender.1)))
        } else {
            None
        }
    }

    /// The target of the line.
    pub open spec fn target_text(self) -> Option<Seq<char>> {
        self.span_text(self.target)
    }

    /// The payload of the line: everything from `text_start` to its end.
    pub open spec fn payload_text(self) -> Option<Seq<char>> {
        if self.text_start == 0 {
            None
        } else {
            Some(text_between(self.bytes(), self.text_start, self.bytes().len() as int))
        }
    }
}

/// A span that can be cut out of `s`: it lies inside `s` and both its ends
/// are character boundaries.
pub open spec fn span_fits(s: Seq<u8>, span: (int, int)) -> bool {
    &&& 0 <= span.0 <= span.1 <= s.len()
    &&& is_char_boundary(s, span.0)
    &&& is_char_boundary(s, span.1)
}

/// Every part of a line begins before it ends, lies inside the line, and
/// begins and ends on a character boundary.
pub proof fn lemma_part_fits(line: Seq<char>, k: nat)
    requires
        has_part(encode_utf8(line), k),
    ensures
        span_fits(encode_utf8(line), (part_start(encode_utf8(line), k), part_end(encode_utf8(line), k))),
        k + 1 < MAX_PARTS && part_end(encode_utf8(line), k) < encode_utf8(line).len()
            ==> encode_utf8(line)[part_end(encode_utf8(line), k)] == SPACE,
    decreases k,
{
    let s = encode_utf8(line);
    encode_utf8_valid_utf8(line);
    is_char_boundary_start_end_of_seq(s);
    if k > 0 {
        let j = (k - 1) as nat;
        if part_start(s, j) > s.len() {
            assert(find_from(s, SPACE, part_start(s, j)) == s.len());
        }
        lemma_part_fits(line, j);
        lemma_ascii_boundaries(s, part_end(s, j));
    }
    if k + 1 < MAX_PARTS {
        lemma_find_from(s, SPACE, part_start(s, k));
        if part_end(s, k) < s.len() {
            lemma_ascii_boundaries(s, part_end(s, k));
        }
    }
}

/// What a marker leaves of a part that begins with it fits the line.
pub proof fn lemma_marked_span_fits(line: Seq<char>, marker: u8, count: nat)
    requires
        marker <= 0x7f,
    ensures
        span_fits(encode_utf8(line), marked_span(encode_utf8(line), marker, count)),
    decreases count,
{
    let s = encode_utf8(line);
    encode_utf8_valid_utf8(line);
    is_char_boundary_start_end_of_seq(s);
    if count > 0 {
        let j = (count - 1) as nat;
        if starts_with(s, j, marker) {
            lemma_part_fits(line, j);
            lemma_ascii_boundaries(s, part_start(s, j));
        } else {
            lemma_marked_span_fits(line, marker, j);
        }
    }
}

/// Every field of a classified line can be cut out of it.
pub proof fn lemma_parse_fits(line: Seq<char>)
    ensures
        span_fits(encode_utf8(line), parse(line).metadata),
        span_fits(encode_utf8(line), parse(line).sender),
        span_fits(encode_utf8(line), parse(line).target),
        span_fits(encode_utf8(line), (parse(line).text_start, encode_utf8(line).len() as int)),
{
    let s = encode_utf8(line);
    let c = prefix_count(s, 0);
    encode_utf8_valid_utf8(line);
    is_char_boundary_start_end_of_seq(s);
    lemma_marked_span_fits(line, AT, c);
    lemma_marked_span_fits(line, COLON, c);
    if has_part(s, c + 1) {
        lemma_part_fits(line, c + 1);
        if starts_with(s, c + 1, COLON) {
            lemma_ascii_boundaries(s, part_start(s, c + 1));
        }
    }
    if has_part(s, c + 2) {
        lemma_part_fits(line, c + 2);
        if starts_with(s, c + 2, COLON) {
            lemma_ascii_boundaries(s, part_start(s, c + 2));
        }
    }
}

} // verus!
