//! The line decoder: a buffer that received bytes are appended to and that
//! complete lines are taken from, one at a time.

use std::string::FromUtf8Error;
use vstd::prelude::*;
use vstd::utf8::*;
use crate::grammar::{parse, ReplyView};
use crate::reply::IrcReply;
use crate::text::{find_byte, find_from, lemma_find_from};

verus! {

/// The byte that ends a line.
pub const CR: u8 = 0x0d;

/// The byte that may follow `CR` as the second byte of a line ending.
pub const LF: u8 = 0x0a;

/// Offset of the first line ending in the buffer, or its length when it
/// holds none.
pub open spec fn line_end(buf: Seq<u8>) -> int {
    find_from(buf, CR, 0)
}

/// Whether the buffer holds a complete line.
pub open spec fn has_line(buf: Seq<u8>) -> bool {
    line_end(buf) < buf.len()
}

/// The first line of the buffer, without its ending.
pub open spec fn first_line(buf: Seq<u8>) -> Seq<u8> {
    buf.subrange(0, line_end(buf))
}

/// Number of bytes that the first line takes with its ending: one byte for
/// `CR`, two where `LF` follows it at once.
pub open spec fn line_span(buf: Seq<u8>) -> int {
    if line_end(buf) + 1 < buf.len() && buf[line_end(buf) + 1] == LF {
        line_end(buf) + 2
    } else {
        line_end(buf) + 1
    }
}

/// What is left of the buffer once its first line is taken.
pub open spec fn after_line(buf: Seq<u8>) -> Seq<u8> {
    buf.subrange(line_span(buf), buf.len() as int)
}

/// The first line of the buffer that is well-formed text, with what is left
/// of the buffer after it; lines that are not well-formed text are passed
/// over. Without such a line: `None`, with what is left after every
/// complete line.
pub open spec fn next_text(buf: Seq<u8>) -> (Option<Seq<char>>, Seq<u8>)
    decreases buf.len(),
{
    if !has_line(buf) {
        (None, buf)
    } else if valid_utf8(first_line(buf)) {
        (Some(decode_utf8(first_line(buf))), after_line(buf))
    } else {
        proof {
            lemma_find_from(buf, CR, 0);
        }
        next_text(after_line(buf))
    }
}

/// The buffer after each of `fragments` has been fed to it in turn.
pub open spec fn fed(buf: Seq<u8>, fragments: Seq<Seq<u8>>) -> Seq<u8>
    decreases fragments.len(),
{
    if fragments.len() == 0 {
        buf
    } else {
        fed(buf + fragments[0], fragments.drop_first())
    }
}

/// The fragments put together, in their order.
pub open spec fn joined(fragments: Seq<Seq<u8>>) -> Seq<u8>
    decreases fragments.len(),
{
    if fragments.len() == 0 {
        Seq::empty()
    } else {
        fragments[0] + joined(fragments.drop_first())
    }
}

/// Feeding fragments one by one leaves the buffer as feeding all their
/// bytes at once does.
pub proof fn lemma_fed_is_joined(buf: Seq<u8>, fragments: Seq<Seq<u8>>)
    ensures
        fed(buf, fragments) == buf + joined(fragments),
    decreases fragments.len(),
{
    if fragments.len() == 0 {
        assert(buf + Seq::<u8>::empty() =~= buf);
    } else {
        lemma_fed_is_joined(buf + fragments[0], fragments.drop_first());
        assert((buf + fragments[0]) + joined(fragments.drop_first()) =~= buf + joined(fragments));
    }
}

/// However a stream of bytes is cut into fragments, the decoder finds the
/// same lines in it: two ways of cutting the same bytes leave the same
/// buffer, and so the same first line, the same rest, and the same next
/// record.
pub proof fn lemma_any_split_decodes_alike(
    buf: Seq<u8>,
    one_way: Seq<Seq<u8>>,
    another: Seq<Seq<u8>>,
)
    requires
        joined(one_way) == joined(another),
    ensures
        fed(buf, one_way) == fed(buf, another),
        has_line(fed(buf, one_way)) == has_line(fed(buf, another)),
        first_line(fed(buf, one_way)) == first_line(fed(buf, another)),
        after_line(fed(buf, one_way)) == after_line(fed(buf, another)),
        next_text(fed(buf, one_way)) == next_text(fed(buf, another)),
{
    lemma_fed_is_joined(buf, one_way);
    lemma_fed_is_joined(buf, another);
}

/// The view of an optional record.
pub open spec fn reply_view(reply: Option<IrcReply>) -> Option<ReplyView> {
    match reply {
        Some(r) => Some(r@),
        None => None,
    }
}

/// The classification of an optional line.
pub open spec fn parse_text(text: Option<Seq<char>>) -> Option<ReplyView> {
    match text {
        Some(t) => Some(parse(t)),
        None => None,
    }
}

/// The error of `String::from_utf8`, which the decoder only tells apart
/// from success.
#[verifier::external_type_specification]
#[verifier::external_body]
pub struct ExFromUtf8Error(FromUtf8Error);

/// `String::from_utf8` succeeds on exactly the byte vectors that are
/// well-formed UTF-8, and then returns the text that the bytes encode.
pub assume_specification[ String::from_utf8 ](vec: Vec<u8>) -> (text: Result<String, FromUtf8Error>)
    ensures
        text is Ok <==> valid_utf8(vec@),
        text matches Ok(s) ==> s@ == decode_utf8(vec@),
;

/// What one complete line of the buffer turned out to be.
#[derive(Debug)]
pub enum Decoded {
    /// The line is well-formed text: its record.
    Reply(IrcReply),
    /// The line is no well-formed text: its bytes.
    Malformed(Vec<u8>),
}

/// What the first line of the buffer decodes to, where it has one.
pub open spec fn decodes_to(buf: Seq<u8>, decoded: Option<Decoded>) -> bool {
    match decoded {
        None => !has_line(buf),
        Some(Decoded::Reply(reply)) => has_line(buf) && valid_utf8(first_line(buf)) && reply@
            == parse(decode_utf8(first_line(buf))),
        Some(Decoded::Malformed(bytes)) => has_line(buf) && !valid_utf8(first_line(buf))
            && bytes@ == first_line(buf),
    }
}

/// The receiving side of a connection: bytes go in as they arrive, lines
/// come out once they are complete.
pub struct LineDecoder {
    data: Vec<u8>,
}

impl View for LineDecoder {
    type V = Seq<u8>;

    closed spec fn view(&self) -> Seq<u8> {
        self.data@
    }
}

impl LineDecoder {
    /// A decoder with an empty buffer.
    pub fn new() -> (decoder: LineDecoder)
        ensures
            decoder@ == Seq::<u8>::empty(),
    {
        LineDecoder { data: Vec::new() }
    }

    /// Number of bytes that wait in the buffer.
    pub fn pending(&self) -> (n: usize)
        ensures
            n == self@.len(),
    {
        self.data.len()
    }

    /// Appends received bytes to the buffer. Nothing is decoded yet.
    pub fn feed(&mut self, bytes: &[u8])
        ensures
            final(self)@ == old(self)@ + bytes@,
    {
        self.data.extend_from_slice(bytes);
        assert(self.data@ =~= old(self).data@ + bytes@);
    }

    /// Takes the first complete line out of the buffer, without its ending.
    /// A buffer without a line ending is left as it is.
    pub fn next_line(&mut self) -> (line: Option<Vec<u8>>)
        ensures
            match line {
                Some(l) => has_line(old(self)@) && l@ == first_line(old(self)@) && final(self)@
                    == after_line(old(self)@),
                None => !has_line(old(self)@) && final(self)@ == old(self)@,
            },
    {
        let len = self.data.len();
        let cr = find_byte(self.data.as_slice(), CR, 0);
        if cr >= len {
            return None;
        }
        let span = if cr + 1 < len && self.data[cr + 1] == LF {
            cr + 2
        } else {
            cr + 1
        };
        let mut line = self.data.split_off(span);
        std::mem::swap(&mut line, &mut self.data);
        line.truncate(cr);
        assert(line@ =~= first_line(old(self)@));
        Some(line)
    }

    /// Takes the first complete line out of the buffer and classifies it;
    /// a line that is no well-formed text is handed back as bytes.
    pub fn decode_line(&mut self) -> (decoded: Option<Decoded>)
        ensures
            decodes_to(old(self)@, decoded),
            final(self)@ == if has_line(old(self)@) {
                after_line(old(self)@)
            } else {
                old(self)@
            },
    {
        match self.next_line() {
            None => None,
            Some(bytes) => {
                let kept = bytes.clone();
                assert(kept@ =~= bytes@);
                match String::from_utf8(bytes) {
                    Ok(text) => {
                        match IrcReply::from_str(text.as_str()) {
                            Some(reply) => Some(Decoded::Reply(reply)),
                            None => Some(Decoded::Malformed(kept)),
                        }
                    },
                    Err(_) => Some(Decoded::Malformed(kept)),
                }
            },
        }
    }

    /// Takes lines out of the buffer up to the first that is well-formed
    /// text, and classifies that one. Lines that are not well-formed text
    /// are dropped; `decode_line` hands them out instead.
    pub fn decode_reply(&mut self) -> (reply: Option<IrcReply>)
        ensures
            reply_view(reply) == parse_text(next_text(old(self)@).0),
            final(self)@ == next_text(old(self)@).1,
    {
        loop
            invariant
                next_text(self@) == next_text(old(self)@),
            decreases self@.len(),
        {
            proof {
                lemma_find_from(self@, CR, 0);
            }
            match self.next_line() {
                None => {
                    return None;
                },
                Some(bytes) => {
                    match String::from_utf8(bytes) {
                        Ok(text) => {
                            return IrcReply::from_str(text.as_str());
                        },
                        Err(_) => {},
                    }
                },
            }
        }
    }
}

} // verus!
