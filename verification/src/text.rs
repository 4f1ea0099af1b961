//! Byte-level helpers shared by the line decoder and the record classifier:
//! searching for a delimiter and cutting a string at byte offsets.

use vstd::prelude::*;
use vstd::string::StringSliceAdditionalSpecFns;
use vstd::utf8::*;

verus! {

/// Index of the first `byte` in `s` at or after `from`, or `s.len()` when
/// there is none.
pub open spec fn find_from(s: Seq<u8>, byte: u8, from: int) -> int
    decreases s.len() - from,
{
    if from >= s.len() {
        s.len() as int
    } else if s[from] == byte {
        from
    } else {
        find_from(s, byte, from + 1)
    }
}

/// `find_from` returns the least index at or after `from` that holds `byte`.
pub proof fn lemma_find_from(s: Seq<u8>, byte: u8, from: int)
    requires
        0 <= from <= s.len(),
    ensures
        from <= find_from(s, byte, from) <= s.len(),
        find_from(s, byte, from) < s.len() ==> s[find_from(s, byte, from)] == byte,
        forall|j: int| from <= j < find_from(s, byte, from) ==> s[j] != byte,
    decreases s.len() - from,
{
    if from < s.len() && s[from] != byte {
        lemma_find_from(s, byte, from + 1);
    }
}

/// An index that satisfies the three properties of `lemma_find_from` is the
/// one that `find_from` returns.
pub proof fn lemma_find_from_unique(s: Seq<u8>, byte: u8, from: int, at: int)
    requires
        0 <= from <= at <= s.len(),
        at < s.len() ==> s[at] == byte,
        forall|j: int| from <= j < at ==> s[j] != byte,
    ensures
        find_from(s, byte, from) == at,
    decreases at - from,
{
    if from < at {
        lemma_find_from_unique(s, byte, from + 1, at);
    }
}

/// Searches `b` for `byte`, starting at `from`.
pub fn find_byte(b: &[u8], byte: u8, from: usize) -> (at: usize)
    requires
        from <= b@.len(),
    ensures
        at == find_from(b@, byte, from as int),
        from <= at <= b@.len(),
{
    let mut i: usize = from;
    while i < b.len() && b[i] != byte
        invariant
            from <= i <= b@.len(),
            find_from(b@, byte, from as int) == find_from(b@, byte, i as int),
        decreases b@.len() - i,
    {
        i += 1;
    }
    proof {
        lemma_find_from(b@, byte, from as int);
    }
    i
}

/// In well-formed UTF-8, the position after a one-byte character that starts
/// on a character boundary is a character boundary too.
pub proof fn lemma_boundary_after_ascii(bytes: Seq<u8>, index: int)
    requires
        valid_utf8(bytes),
        0 <= index < bytes.len(),
        is_char_boundary(bytes, index),
        bytes[index] <= 0x7f,
    ensures
        is_char_boundary(bytes, index + 1),
    decreases bytes.len(),
{
    reveal_with_fuel(is_char_boundary, 2);
    if index == 0 {
        assert(length_of_first_scalar(bytes) == 1);
        assert(is_char_boundary(pop_first_scalar(bytes), 0));
    } else {
        let rest = pop_first_scalar(bytes);
        let width = length_of_first_scalar(bytes);
        assert(is_char_boundary(rest, index - width));
        assert(0 <= index - width < rest.len());
        assert(rest[index - width] == bytes[index]);
        lemma_boundary_after_ascii(rest, index - width);
    }
}

/// In well-formed UTF-8, every one-byte character starts on a character
/// boundary and ends on one.
pub proof fn lemma_ascii_boundaries(bytes: Seq<u8>, index: int)
    requires
        valid_utf8(bytes),
        0 <= index < bytes.len(),
        bytes[index] <= 0x7f,
    ensures
        is_char_boundary(bytes, index),
        is_char_boundary(bytes, index + 1),
{
    is_char_boundary_iff_not_is_continuation_byte(bytes, index);
    lemma_boundary_after_ascii(bytes, index);
}

/// A character boundary of a string stays one in the prefix that ends at a
/// later boundary.
pub proof fn lemma_boundary_in_prefix(bytes: Seq<u8>, from: int, to: int)
    requires
        valid_utf8(bytes),
        0 <= from <= to <= bytes.len(),
        is_char_boundary(bytes, from),
        is_char_boundary(bytes, to),
    ensures
        valid_utf8(bytes.subrange(0, to)),
        is_char_boundary(bytes.subrange(0, to), from),
{
    valid_utf8_split(bytes, to);
    let prefix = bytes.subrange(0, to);
    if from < to {
        is_char_boundary_iff_not_is_continuation_byte(bytes, from);
        is_char_boundary_iff_not_is_continuation_byte(prefix, from);
    } else {
        is_char_boundary_start_end_of_seq(prefix);
    }
}

/// The characters that the bytes `from..to` of `bytes` spell.
pub open spec fn text_between(bytes: Seq<u8>, from: int, to: int) -> Seq<char> {
    decode_utf8(bytes.subrange(from, to))
}

/// The part of `s` between the byte offsets `from` and `to`.
pub fn slice_str<'a>(s: &'a str, from: usize, to: usize) -> (part: &'a str)
    requires
        from <= to <= s.spec_bytes().len(),
        is_char_boundary(s.spec_bytes(), from as int),
        is_char_boundary(s.spec_bytes(), to as int),
    ensures
        part.spec_bytes() == s.spec_bytes().subrange(from as int, to as int),
        part@ == text_between(s.spec_bytes(), from as int, to as int),
{
    broadcast use {encode_utf8_valid_utf8, encode_utf8_decode_utf8};

    proof {
        lemma_boundary_in_prefix(s.spec_bytes(), from as int, to as int);
    }
    let (head, _) = s.split_at(to);
    let (_, part) = head.split_at(from);
    assert(part.spec_bytes() =~= s.spec_bytes().subrange(from as int, to as int));
    part
}

} // verus!
