//! Laws that tie the grammar to the text of a line: a line that is put
//! together from its fields is classified back into those fields.

use vstd::prelude::*;
use vstd::utf8::*;
use crate::grammar::{
    carries_payload, category_of, has_part, is_prefix_part, marked_span, parse, part_end,
    part_span, part_start, payload_start, prefix_count, split_origin, starts_with, word_created,
    word_join, word_motd_start, word_motd_stop, word_motd_text, word_my_info, word_ping,
    word_privmsg, word_welcome, word_your_host, Category, SenderView, AT, BANG, COLON, MAX_PARTS,
    SPACE,
};
use crate::text::{lemma_find_from, lemma_find_from_unique};

verus! {

/// A field with its marker before it and a space after it; nothing for a
/// field that is absent.
pub open spec fn prefixed(marker: char, field: Option<Seq<char>>) -> Seq<char> {
    match field {
        Some(f) => seq![marker] + f + seq![' '],
        None => Seq::empty(),
    }
}

/// A line that carries a payload: optional metadata, optional origin, the
/// command word, the target, and the payload behind its marker.
pub open spec fn payload_line(
    metadata: Option<Seq<char>>,
    origin: Option<Seq<char>>,
    word: Seq<char>,
    target: Seq<char>,
    payload: Seq<char>,
) -> Seq<char> {
    prefixed('@', metadata) + prefixed(':', origin) + word + seq![' '] + target + seq![' ', ':']
        + payload
}

/// A text that can stand as one part of a line: it is not empty and holds
/// no space.
pub open spec fn is_token(text: Seq<char>) -> bool {
    text.len() > 0 && forall|i: int| 0 <= i < text.len() ==> text[i] != ' '
}

/// An optional field that, where present, can stand as one part of a line.
pub open spec fn is_optional_token(field: Option<Seq<char>>) -> bool {
    match field {
        Some(f) => is_token(f),
        None => true,
    }
}

/// An origin put together from a nickname, an account and a host.
pub open spec fn full_origin(nickname: Seq<char>, user: Seq<char>, server: Seq<char>) -> Seq<
    char,
> {
    nickname + seq!['!'] + user + seq!['@'] + server
}

/// The encoding of a text made of two pieces is made of their encodings.
pub proof fn lemma_encode_concat(a: Seq<char>, b: Seq<char>)
    ensures
        encode_utf8(a + b) == encode_utf8(a) + encode_utf8(b),
    decreases a.len(),
{
    if a.len() == 0 {
        assert(a + b =~= b);
        assert(encode_utf8(a) + encode_utf8(b) =~= encode_utf8(b));
    } else {
        assert((a + b).drop_first() =~= a.drop_first() + b);
        lemma_encode_concat(a.drop_first(), b);
        assert(encode_scalar(a[0] as u32) + (encode_utf8(a.drop_first()) + encode_utf8(b)) =~= (
        encode_scalar(a[0] as u32) + encode_utf8(a.drop_first())) + encode_utf8(b));
    }
}

proof fn lemma_low_byte(v: u32, m: u8)
    by (bit_vector)
    requires
        v <= 0x7f,
        v != m as u32,
    ensures
        (v & 0x7F) as u8 != m,
{
}

proof fn lemma_high_bytes(v: u32)
    by (bit_vector)
    ensures
        0xC0 | ((v >> 6) & 0x1F) as u8 >= 0x80u8,
        0xE0 | ((v >> 12) & 0x0F) as u8 >= 0x80u8,
        0xF0 | ((v >> 18) & 0x7) as u8 >= 0x80u8,
        0x80 | (v & 0x3F) as u8 >= 0x80u8,
        0x80 | ((v >> 6) & 0x3F) as u8 >= 0x80u8,
        0x80 | ((v >> 12) & 0x3F) as u8 >= 0x80u8,
{
}

/// The encoding of a character holds a one-byte value only where the
/// character is that value.
pub proof fn lemma_scalar_avoids(c: char, m: u8)
    requires
        m <= 0x7f,
        c != m as char,
    ensures
        forall|k: int|
            0 <= k < encode_scalar(c as u32).len() ==> #[trigger] encode_scalar(c as u32)[k] != m,
{
    let v = c as u32;
    char_u32_cast(c, v);
    assert(v != m as u32);
    if has_width_1_encoding(v) {
        lemma_low_byte(v, m);
    } else {
        lemma_high_bytes(v);
    }
}

/// The encoding of a text holds a one-byte value only where the text holds
/// the character of that value.
pub proof fn lemma_encode_avoids(text: Seq<char>, m: u8)
    requires
        m <= 0x7f,
        forall|i: int| 0 <= i < text.len() ==> text[i] != m as char,
    ensures
        forall|k: int| 0 <= k < encode_utf8(text).len() ==> #[trigger] encode_utf8(text)[k] != m,
    decreases text.len(),
{
    if text.len() > 0 {
        let head = encode_scalar(text[0] as u32);
        let rest = text.drop_first();
        let tail = encode_utf8(rest);
        lemma_scalar_avoids(text[0], m);
        assert forall|i: int| 0 <= i < rest.len() implies rest[i] != m as char by {
            assert(rest[i] == text[i + 1]);
        }
        lemma_encode_avoids(rest, m);
        assert forall|k: int| 0 <= k < encode_utf8(text).len() implies #[trigger] encode_utf8(
            text,
        )[k] != m by {
            if k < head.len() {
                assert(head[k] != m);
            } else {
                assert(tail[k - head.len()] != m);
            }
        }
    }
}

/// The encoding of a single one-byte character is that byte.
pub proof fn lemma_encode_marker(c: char)
    requires
        c as u32 <= 0x7f,
    ensures
        encode_utf8(seq![c]) == seq![c as u8],
{
    is_ascii_chars_encode_utf8(seq![c]);
    assert(encode_utf8(seq![c]) =~= seq![c as u8]);
}

/// A part that holds `token`, which has no space in it, and is followed by
/// a space ends where the token ends, and the next part begins after that
/// space.
proof fn lemma_token_part(s: Seq<u8>, k: nat, p: int, token: Seq<u8>)
    requires
        k + 1 < MAX_PARTS,
        part_start(s, k) == p,
        0 <= p,
        p + token.len() < s.len(),
        s.subrange(p, p + token.len()) == token,
        forall|j: int| 0 <= j < token.len() ==> #[trigger] token[j] != SPACE,
        s[p + token.len()] == SPACE,
    ensures
        part_end(s, k) == p + token.len(),
        part_start(s, k + 1) == p + token.len() + 1,
        has_part(s, k),
        has_part(s, k + 1),
{
    let q = p + token.len();
    assert forall|j: int| p <= j < q implies s[j] != SPACE by {
        assert(s[j] == s.subrange(p, q)[j - p]);
        assert(token[j - p] != SPACE);
    }
    lemma_find_from_unique(s, SPACE, p, q);
}

/// A part that begins with a byte other than a space is not empty.
proof fn lemma_part_not_empty(s: Seq<u8>, k: nat)
    requires
        has_part(s, k),
        0 <= part_start(s, k) < s.len(),
        s[part_start(s, k)] != SPACE,
    ensures
        part_start(s, k) < part_end(s, k),
{
    if k + 1 < MAX_PARTS {
        lemma_find_from(s, SPACE, part_start(s, k));
    }
}

/// The words of the categories that carry a payload are not empty, hold no
/// space and begin with no marker.
proof fn lemma_payload_word(word: Seq<u8>)
    requires
        carries_payload(category_of(word)),
    ensures
        word.len() > 0,
        forall|j: int| 0 <= j < word.len() ==> #[trigger] word[j] != SPACE,
        word[0] != COLON,
        word[0] != AT,
{
    if word == word_welcome() {
    } else if word == word_your_host() {
    } else if word == word_created() {
    } else if word == word_my_info() {
    } else if word == word_motd_start() {
    } else if word == word_motd_text() {
    } else if word == word_motd_stop() {
    } else if word == word_privmsg() {
    }
}

/// The span of a field in a line.
pub open spec fn field_span(before: int, field: Option<Seq<u8>>) -> (int, int) {
    match field {
        Some(f) => (before + 1, before + 1 + f.len()),
        None => (0, 0),
    }
}

/// Number of bytes that a field takes in a line with its marker and the
/// space after it.
pub open spec fn field_room(field: Option<Seq<u8>>) -> int {
    match field {
        Some(f) => f.len() as int + 2,
        None => 0,
    }
}

/// The bytes of a field with its marker before it and a space after it.
pub open spec fn prefixed_bytes(marker: u8, field: Option<Seq<u8>>) -> Seq<u8> {
    match field {
        Some(f) => seq![marker] + f + seq![SPACE],
        None => Seq::empty(),
    }
}

/// Whether the bytes can stand as one part of a line.
pub open spec fn is_token_bytes(bytes: Seq<u8>) -> bool {
    bytes.len() > 0 && forall|j: int| 0 <= j < bytes.len() ==> #[trigger] bytes[j] != SPACE
}

/// Whether the optional bytes, where present, can stand as one part.
pub open spec fn is_optional_token_bytes(field: Option<Seq<u8>>) -> bool {
    match field {
        Some(f) => is_token_bytes(f),
        None => true,
    }
}

/// Where the fields of a line of bytes lie, as the grammar finds them.
proof fn lemma_layout(
    s: Seq<u8>,
    metadata: Option<Seq<u8>>,
    origin: Option<Seq<u8>>,
    word: Seq<u8>,
    target: Seq<u8>,
    payload: Seq<u8>,
)
    requires
        s == prefixed_bytes(AT, metadata) + prefixed_bytes(COLON, origin) + word + seq![SPACE]
            + target + seq![SPACE, COLON] + payload,
        is_optional_token_bytes(metadata),
        is_optional_token_bytes(origin),
        carries_payload(category_of(word)),
        is_token_bytes(target),
    ensures
        has_part(s, prefix_count(s, 0)),
        s.subrange(
            part_start(s, prefix_count(s, 0)),
            part_end(s, prefix_count(s, 0)),
        ) == word,
        marked_span(s, AT, prefix_count(s, 0)) == field_span(0, metadata),
        marked_span(s, COLON, prefix_count(s, 0)) == field_span(field_room(metadata), origin),
        part_span(s, prefix_count(s, 0) + 1) == (
            field_room(metadata) + field_room(origin) + word.len() + 1,
            field_room(metadata) + field_room(origin) + word.len() + 1 + target.len(),
        ),
        payload_start(s, prefix_count(s, 0) + 2) == s.len() - payload.len(),
        s.len() == field_room(metadata) + field_room(origin) + word.len() + target.len()
            + payload.len() + 3,
        metadata matches Some(m) ==> s.subrange(1, 1 + m.len() as int) == m,
        origin matches Some(o) ==> s.subrange(
            field_room(metadata) + 1,
            field_room(metadata) + 1 + o.len(),
        ) == o,
        s.subrange(
            field_room(metadata) + field_room(origin) + word.len() + 1,
            field_room(metadata) + field_room(origin) + word.len() + 1 + target.len(),
        ) == target,
        s.subrange(s.len() - payload.len(), s.len() as int) == payload,
{
    lemma_payload_word(word);
    let pm = prefixed_bytes(AT, metadata);
    let po = prefixed_bytes(COLON, origin);
    let a = field_room(metadata);
    let b = a + field_room(origin);
    let c = b + word.len() + 1;
    let d = c + target.len() + 1;
    assert(pm.len() == a);
    assert(po.len() == b - a);
    assert(s.len() == d + 1 + payload.len());
    assert(s.subrange(b, b + word.len()) =~= word);
    assert(s.subrange(c, c + target.len()) =~= target);
    assert(s.subrange(d + 1, s.len() as int) =~= payload);
    assert(s[b + word.len()] == SPACE);
    assert(s[c + target.len()] == SPACE);
    assert(s[d] == COLON);

    // The prefixes.
    let nm: nat = if metadata is Some {
        1
    } else {
        0
    };
    let no: nat = if origin is Some {
        1
    } else {
        0
    };
    if let Some(m) = metadata {
        let token = seq![AT] + m;
        assert(s.subrange(0, 1 + m.len() as int) =~= token);
        assert(s.subrange(1, 1 + m.len() as int) =~= m);
        assert(s[1 + m.len() as int] == SPACE);
        assert(s[0] == AT);
        assert forall|j: int| 0 <= j < token.len() implies #[trigger] token[j] != SPACE by {
            if j > 0 {
                assert(token[j] == m[j - 1]);
            }
        }
        lemma_token_part(s, 0, 0, token);
        assert(starts_with(s, 0, AT));
        assert(!starts_with(s, 0, COLON));
    }
    assert(part_start(s, nm) == a);
    if let Some(o) = origin {
        let token = seq![COLON] + o;
        assert(s.subrange(a, a + 1 + o.len()) =~= token);
        assert(s.subrange(a + 1, a + 1 + o.len()) =~= o);
        assert(s[a + 1 + o.len()] == SPACE);
        assert(s[a] == COLON);
        assert forall|j: int| 0 <= j < token.len() implies #[trigger] token[j] != SPACE by {
            if j > 0 {
                assert(token[j] == o[j - 1]);
            }
        }
        lemma_token_part(s, nm, a, token);
        assert(starts_with(s, nm, COLON));
        assert(!starts_with(s, nm, AT));
    }
    let n: nat = nm + no;
    assert(part_start(s, n) == b);

    // The command word, the target and the payload.
    lemma_token_part(s, n, b, word);
    assert(s[b] == word[0]);
    assert(!is_prefix_part(s, n));
    lemma_token_part(s, n + 1, c, target);
    assert(part_start(s, n + 2) == d);
    assert(has_part(s, n + 2));
    lemma_part_not_empty(s, n + 2);
    assert(starts_with(s, n + 2, COLON));

    // The count of the prefixes.
    assert(prefix_count(s, n) == n);
    if no == 1 {
        assert(is_prefix_part(s, nm));
        assert(prefix_count(s, nm) == prefix_count(s, nm + 1));
    }
    if nm == 1 {
        assert(is_prefix_part(s, 0));
        assert(prefix_count(s, 0) == prefix_count(s, 1));
    }
    assert(prefix_count(s, 0) == n);

    // The spans that the markers leave.
    assert(marked_span(s, AT, 0) == (0int, 0int));
    assert(marked_span(s, COLON, 0) == (0int, 0int));
    if nm == 1 {
        assert(marked_span(s, AT, 1) == field_span(0, metadata));
        assert(marked_span(s, COLON, 1) == (0int, 0int));
    }
    if no == 1 {
        assert(marked_span(s, COLON, n) == field_span(a, origin));
        assert(marked_span(s, AT, n) == marked_span(s, AT, nm));
    }
}

/// The encoding of an optional text.
pub open spec fn encoded(field: Option<Seq<char>>) -> Option<Seq<u8>> {
    match field {
        Some(f) => Some(encode_utf8(f)),
        None => None,
    }
}

/// The encoding of a token is a token.
proof fn lemma_token_bytes(text: Seq<char>)
    requires
        is_token(text),
    ensures
        is_token_bytes(encode_utf8(text)),
{
    assert(encode_scalar(text[0] as u32).len() > 0);
    lemma_encode_avoids(text, SPACE);
}

/// The encoding of a field with its marker and the space after it.
proof fn lemma_encode_prefixed(marker: char, field: Option<Seq<char>>)
    requires
        marker as u32 <= 0x7f,
    ensures
        encode_utf8(prefixed(marker, field)) == prefixed_bytes(marker as u8, encoded(field)),
{
    match field {
        Some(f) => {
            lemma_encode_concat(seq![marker] + f, seq![' ']);
            lemma_encode_concat(seq![marker], f);
            lemma_encode_marker(marker);
            lemma_encode_marker(' ');
        },
        None => {},
    }
}

/// The encoding of a line that carries a payload, piece by piece.
proof fn lemma_encode_payload_line(
    metadata: Option<Seq<char>>,
    origin: Option<Seq<char>>,
    word: Seq<char>,
    target: Seq<char>,
    payload: Seq<char>,
)
    ensures
        encode_utf8(payload_line(metadata, origin, word, target, payload)) == prefixed_bytes(
            AT,
            encoded(metadata),
        ) + prefixed_bytes(COLON, encoded(origin)) + encode_utf8(word) + seq![SPACE] + encode_utf8(
            target,
        ) + seq![SPACE, COLON] + encode_utf8(payload),
{
    let pm = prefixed('@', metadata);
    let po = prefixed(':', origin);
    lemma_encode_prefixed('@', metadata);
    lemma_encode_prefixed(':', origin);
    lemma_encode_concat(pm, po);
    lemma_encode_concat(pm + po, word);
    lemma_encode_concat(pm + po + word, seq![' ']);
    lemma_encode_concat(pm + po + word + seq![' '], target);
    lemma_encode_concat(pm + po + word + seq![' '] + target, seq![' ', ':']);
    lemma_encode_concat(pm + po + word + seq![' '] + target + seq![' ', ':'], payload);
    lemma_encode_marker(' ');
    is_ascii_chars_encode_utf8(seq![' ', ':']);
    assert(encode_utf8(seq![' ', ':']) =~= seq![SPACE, COLON]);
}

/// A line that is put together from optional metadata, an optional origin,
/// the word of a category that carries a payload, a target and a payload is
/// classified as that category, and the fields that went into it are what
/// the accessors of its record return.
pub proof fn lemma_payload_line_round_trip(
    metadata: Option<Seq<char>>,
    origin: Option<Seq<char>>,
    word: Seq<char>,
    target: Seq<char>,
    payload: Seq<char>,
)
    requires
        is_optional_token(metadata),
        is_optional_token(origin),
        carries_payload(category_of(encode_utf8(word))),
        is_token(target),
    ensures
        ({
            let reply = parse(payload_line(metadata, origin, word, target, payload));
            &&& reply.command == category_of(encode_utf8(word))
            &&& reply.metadata_text() == metadata
            &&& reply.sender_text() == origin
            &&& reply.origin() == match origin {
                Some(o) => Some(split_origin(encode_utf8(o))),
                None => None,
            }
            &&& reply.target_text() == Some(target)
            &&& reply.payload_text() == Some(payload)
        }),
{
    broadcast use encode_utf8_decode_utf8;

    let line = payload_line(metadata, origin, word, target, payload);
    let s = encode_utf8(line);
    lemma_encode_payload_line(metadata, origin, word, target, payload);
    if let Some(m) = metadata {
        lemma_token_bytes(m);
    }
    if let Some(o) = origin {
        lemma_token_bytes(o);
    }
    lemma_token_bytes(target);
    lemma_layout(
        s,
        encoded(metadata),
        encoded(origin),
        encode_utf8(word),
        encode_utf8(target),
        encode_utf8(payload),
    );
}

/// A keep-alive line that is put together from a payload is classified as
/// one, with that payload and no target.
pub proof fn lemma_keep_alive_round_trip(payload: Seq<char>)
    ensures
        ({
            let reply = parse("PING"@ + seq![' ', ':'] + payload);
            &&& reply.command == Category::Ping
            &&& reply.metadata_text() is None
            &&& reply.sender_text() is None
            &&& reply.target_text() is None
            &&& reply.payload_text() == Some(payload)
        }),
{
    broadcast use encode_utf8_decode_utf8;

    reveal_strlit("PING");
    let word = word_ping();
    let line = "PING"@ + seq![' ', ':'] + payload;
    let s = encode_utf8(line);
    is_ascii_chars_encode_utf8("PING"@);
    assert(encode_utf8("PING"@) =~= word);
    is_ascii_chars_encode_utf8(seq![' ', ':']);
    assert(encode_utf8(seq![' ', ':']) =~= seq![SPACE, COLON]);
    lemma_encode_concat("PING"@ + seq![' ', ':'], payload);
    lemma_encode_concat("PING"@, seq![' ', ':']);
    let y = encode_utf8(payload);
    assert(s == word + seq![SPACE, COLON] + y);
    assert(s.subrange(0, 4) =~= word);
    assert(s.subrange(6, s.len() as int) =~= y);
    lemma_token_part(s, 0, 0, word);
    assert(!is_prefix_part(s, 0));
    assert(s[5] == COLON);
    lemma_part_not_empty(s, 1);
    assert(starts_with(s, 1, COLON));
    assert(category_of(word) == Category::Ping);
}

/// A part that holds `token`, which has no space in it, up to the end of
/// the line ends where the line ends.
proof fn lemma_last_token_part(s: Seq<u8>, k: nat, p: int, token: Seq<u8>)
    requires
        k < MAX_PARTS,
        part_start(s, k) == p,
        0 <= p,
        p + token.len() == s.len(),
        s.subrange(p, s.len() as int) == token,
        forall|j: int| 0 <= j < token.len() ==> #[trigger] token[j] != SPACE,
    ensures
        part_end(s, k) == s.len(),
        has_part(s, k),
{
    assert forall|j: int| p <= j < s.len() implies s[j] != SPACE by {
        assert(s[j] == s.subrange(p, s.len() as int)[j - p]);
        assert(token[j - p] != SPACE);
    }
    lemma_find_from_unique(s, SPACE, p, s.len() as int);
}

/// A join line that is put together from an optional origin and a target
/// is classified as one, with that origin, that target and no payload.
pub proof fn lemma_join_round_trip(origin: Option<Seq<char>>, target: Seq<char>)
    requires
        is_optional_token(origin),
        is_token(target),
    ensures
        ({
            let reply = parse(prefixed(':', origin) + "JOIN"@ + seq![' '] + target);
            &&& reply.command == Category::Join
            &&& reply.metadata_text() is None
            &&& reply.sender_text() == origin
            &&& reply.target_text() == Some(target)
            &&& reply.payload_text() is None
        }),
{
    broadcast use encode_utf8_decode_utf8;

    reveal_strlit("JOIN");
    let word = word_join();
    let po = prefixed(':', origin);
    let s = encode_utf8(po + "JOIN"@ + seq![' '] + target);
    let t = encode_utf8(target);
    is_ascii_chars_encode_utf8("JOIN"@);
    assert(encode_utf8("JOIN"@) =~= word);
    lemma_encode_marker(' ');
    lemma_encode_prefixed(':', origin);
    lemma_encode_concat(po + "JOIN"@ + seq![' '], target);
    lemma_encode_concat(po + "JOIN"@, seq![' ']);
    lemma_encode_concat(po, "JOIN"@);
    lemma_token_bytes(target);
    let a = field_room(encoded(origin));
    assert(s == prefixed_bytes(COLON, encoded(origin)) + word + seq![SPACE] + t);
    assert(s.subrange(a, a + 4) =~= word);
    assert(s.subrange(a + 5, s.len() as int) =~= t);
    assert(s[a + 4] == SPACE);
    let n: nat = if origin is Some {
        1
    } else {
        0
    };
    if let Some(o) = origin {
        lemma_token_bytes(o);
        let ob = encode_utf8(o);
        let token = seq![COLON] + ob;
        assert(s.subrange(0, 1 + ob.len() as int) =~= token);
        assert(s.subrange(1, 1 + ob.len() as int) =~= ob);
        assert(s[1 + ob.len() as int] == SPACE);
        assert forall|j: int| 0 <= j < token.len() implies #[trigger] token[j] != SPACE by {
            if j > 0 {
                assert(token[j] == ob[j - 1]);
            }
        }
        lemma_token_part(s, 0, 0, token);
        assert(starts_with(s, 0, COLON));
        assert(!starts_with(s, 0, AT));
        assert(is_prefix_part(s, 0));
        assert(prefix_count(s, 0) == prefix_count(s, 1));
    }
    lemma_token_part(s, n, a, word);
    assert(s[a] == word[0]);
    assert(!is_prefix_part(s, n));
    assert(prefix_count(s, 0) == n);
    lemma_last_token_part(s, n + 1, a + 5, t);
    assert(category_of(word) == Category::Join);
    assert(marked_span(s, AT, 0) == (0int, 0int));
    assert(marked_span(s, COLON, 0) == (0int, 0int));
}

/// An origin that is put together from a nickname, an account and a host
/// is cut back into these three.
pub proof fn lemma_full_origin_round_trip(nickname: Seq<char>, user: Seq<char>, server: Seq<char>)
    requires
        forall|i: int| 0 <= i < nickname.len() ==> nickname[i] != '!' && nickname[i] != '@',
        forall|i: int| 0 <= i < user.len() ==> user[i] != '@',
    ensures
        split_origin(encode_utf8(full_origin(nickname, user, server))) == (SenderView {
            nickname: Some(nickname),
            user: Some(user),
            server,
        }),
{
    broadcast use encode_utf8_decode_utf8;

    let n = encode_utf8(nickname);
    let u = encode_utf8(user);
    let h = encode_utf8(server);
    let o = encode_utf8(full_origin(nickname, user, server));
    lemma_encode_concat(nickname + seq!['!'] + user + seq!['@'], server);
    lemma_encode_concat(nickname + seq!['!'] + user, seq!['@']);
    lemma_encode_concat(nickname + seq!['!'], user);
    lemma_encode_concat(nickname, seq!['!']);
    lemma_encode_marker('!');
    lemma_encode_marker('@');
    assert(o == n + seq![BANG] + u + seq![AT] + h);
    lemma_encode_avoids(nickname, AT);
    lemma_encode_avoids(nickname, BANG);
    lemma_encode_avoids(user, AT);
    let at = n.len() + 1 + u.len();
    assert forall|j: int| 0 <= j < at implies o[j] != AT by {
        if j < n.len() {
            assert(o[j] == n[j]);
        } else if j > n.len() {
            assert(o[j] == u[j - n.len() - 1]);
        }
    }
    lemma_find_from_unique(o, AT, 0, at as int);
    let left = o.subrange(0, at as int);
    assert(left =~= n + seq![BANG] + u);
    assert forall|j: int| 0 <= j < n.len() implies left[j] != BANG by {
        assert(left[j] == n[j]);
    }
    lemma_find_from_unique(left, BANG, 0, n.len() as int);
    assert(left.subrange(0, n.len() as int) =~= n);
    assert(left.subrange(n.len() as int + 1, left.len() as int) =~= u);
    assert(o.subrange(at as int + 1, o.len() as int) =~= h);
}

/// An origin that is put together from a nickname and a host is cut back
/// into these two.
pub proof fn lemma_short_origin_round_trip(nickname: Seq<char>, server: Seq<char>)
    requires
        forall|i: int| 0 <= i < nickname.len() ==> nickname[i] != '!' && nickname[i] != '@',
    ensures
        split_origin(encode_utf8(nickname + seq!['@'] + server)) == (SenderView {
            nickname: Some(nickname),
            user: None,
            server,
        }),
{
    broadcast use encode_utf8_decode_utf8;

    let n = encode_utf8(nickname);
    let h = encode_utf8(server);
    let o = encode_utf8(nickname + seq!['@'] + server);
    lemma_encode_concat(nickname + seq!['@'], server);
    lemma_encode_concat(nickname, seq!['@']);
    lemma_encode_marker('@');
    assert(o == n + seq![AT] + h);
    lemma_encode_avoids(nickname, AT);
    lemma_encode_avoids(nickname, BANG);
    assert forall|j: int| 0 <= j < n.len() implies o[j] != AT by {
        assert(o[j] == n[j]);
    }
    lemma_find_from_unique(o, AT, 0, n.len() as int);
    let left = o.subrange(0, n.len() as int);
    assert(left =~= n);
    lemma_find_from_unique(left, BANG, 0, n.len() as int);
    assert(o.subrange(n.len() as int + 1, o.len() as int) =~= h);
}

/// An origin without an `@` is a host and nothing else.
pub proof fn lemma_host_origin_round_trip(server: Seq<char>)
    requires
        forall|i: int| 0 <= i < server.len() ==> server[i] != '@',
    ensures
        split_origin(encode_utf8(server)) == (SenderView {
            nickname: None,
            user: None,
            server,
        }),
{
    broadcast use encode_utf8_decode_utf8;

    let h = encode_utf8(server);
    lemma_encode_avoids(server, AT);
    lemma_find_from_unique(h, AT, 0, h.len() as int);
}

} // verus!
