//! Source text as bytes: ranges, stripping, and the way back to a string.

use vstd::prelude::*;
use vstd::utf8::*;

verus! {

/// The bytes of `text` in `start..end`, where that range lies within it.
pub open spec fn slice(text: Seq<u8>, start: int, end: int) -> Option<Seq<u8>> {
    if 0 <= start <= end <= text.len() {
        Some(text.subrange(start, end))
    } else {
        None
    }
}

/// `text` without the bytes that occur in `unwanted`.
pub open spec fn without(text: Seq<u8>, unwanted: Seq<u8>) -> Seq<u8> {
    text.filter(|b: u8| !unwanted.contains(b))
}

/// A list of strings as a mathematical value.
pub open spec fn texts(list: Seq<String>) -> Seq<Seq<char>> {
    list.map_values(|t: String| t@)
}

/// A string that may be missing, as a mathematical value.
pub open spec fn text_of(text: Option<String>) -> Option<Seq<char>> {
    match text {
        Some(t) => Some(t@),
        None => None,
    }
}

/// The text that `bytes` encode in UTF-8, if they encode one.
pub open spec fn decoded(bytes: Seq<u8>) -> Option<Seq<char>> {
    if valid_utf8(bytes) {
        Some(decode_utf8(bytes))
    } else {
        None
    }
}

/// White space between statements: space, tab, line feed, carriage return.
pub open spec fn is_blank(b: u8) -> bool {
    b == 0x20 || b == 0x09 || b == 0x0a || b == 0x0d
}

/// The first index from `from` on, below `to`, whose byte is not blank; `to`
/// if there is none.
pub open spec fn skip_blank(text: Seq<u8>, from: int, to: int) -> int
    decreases to - from,
{
    if 0 <= from < to <= text.len() && is_blank(text[from]) {
        skip_blank(text, from + 1, to)
    } else {
        from
    }
}

/// Whether `b` occurs in `set`.
pub fn has_byte(set: &[u8], b: u8) -> (found: bool)
    ensures
        found == set@.contains(b),
{
    let mut i: usize = 0;
    while i < set.len()
        invariant
            i <= set@.len(),
            forall|j: int| 0 <= j < i ==> set@[j] != b,
        decreases set@.len() - i,
    {
        if set[i] == b {
            return true;
        }
        i += 1;
    }
    false
}

/// Appends `text` to `out`.
pub fn push_all(out: &mut Vec<u8>, text: &[u8])
    ensures
        final(out)@ == old(out)@ + text@,
{
    let mut i: usize = 0;
    while i < text.len()
        invariant
            i <= text@.len(),
            out@ == old(out)@ + text@.subrange(0, i as int),
        decreases text@.len() - i,
    {
        out.push(text[i]);
        assert(text@.subrange(0, i + 1) =~= text@.subrange(0, i as int).push(text@[i as int]));
        i += 1;
    }
    assert(text@.subrange(0, i as int) =~= text@);
}

/// Appends the bytes of `text` in `start..end` to `out`.
pub(crate) fn push_range(out: &mut Vec<u8>, text: &[u8], start: usize, end: usize)
    requires
        start <= end <= text@.len(),
    ensures
        final(out)@ == old(out)@ + text@.subrange(start as int, end as int),
{
    let mut i: usize = start;
    while i < end
        invariant
            start <= i <= end <= text@.len(),
            out@ == old(out)@ + text@.subrange(start as int, i as int),
        decreases end - i,
    {
        out.push(text[i]);
        assert(text@.subrange(start as int, i + 1) =~= text@.subrange(
            start as int,
            i as int,
        ).push(text@[i as int]));
        i += 1;
    }
}

/// Appends to `out` the bytes of `text` in `start..end` that do not occur in
/// `unwanted`.
pub(crate) fn push_without(out: &mut Vec<u8>, text: &[u8], start: usize, end: usize, unwanted: &[u8])
    requires
        start <= end <= text@.len(),
    ensures
        final(out)@ == old(out)@ + without(text@.subrange(start as int, end as int), unwanted@),
{
    let ghost keep = |b: u8| !unwanted@.contains(b);
    let mut i: usize = start;
    proof {
        reveal(Seq::filter);
        assert(text@.subrange(start as int, start as int).filter(keep) =~= Seq::<u8>::empty());
    }
    while i < end
        invariant
            start <= i <= end <= text@.len(),
            keep == |b: u8| !unwanted@.contains(b),
            out@ == old(out)@ + text@.subrange(start as int, i as int).filter(keep),
        decreases end - i,
    {
        let b = text[i];
        proof {
            let before = text@.subrange(start as int, i as int);
            assert(text@.subrange(start as int, i + 1) =~= before.push(b));
            before.lemma_filter_push(b, keep);
        }
        if !has_byte(unwanted, b) {
            out.push(b);
        }
        i += 1;
    }
}

/// The first index from `from` on, below `to`, whose byte is not blank.
pub(crate) fn skip_blank_bytes(text: &[u8], from: usize, to: usize) -> (at: usize)
    requires
        from <= to <= text@.len(),
    ensures
        at == skip_blank(text@, from as int, to as int),
        from <= at <= to,
{
    let mut at: usize = from;
    while at < to && (text[at] == 0x20 || text[at] == 0x09 || text[at] == 0x0a || text[at] == 0x0d)
        invariant
            from <= at <= to <= text@.len(),
            skip_blank(text@, from as int, to as int) == skip_blank(text@, at as int, to as int),
        decreases to - at,
    {
        at += 1;
    }
    at
}

/// Calls `String::from_utf8`, which gives the string whose UTF-8 encoding is
/// `bytes`, and fails exactly where `bytes` are not valid UTF-8.
#[verifier::external_body]
pub(crate) fn string_from_utf8(bytes: Vec<u8>) -> (text: Option<String>)
    ensures
        match text {
            Some(t) => encode_utf8(t@) == bytes@,
            None => !valid_utf8(bytes@),
        },
{
    String::from_utf8(bytes).ok()
}

/// The text that `bytes` encode, if they encode one.
pub fn decode(bytes: Vec<u8>) -> (text: Option<String>)
    ensures
        text_of(text) == decoded(bytes@),
{
    broadcast use {encode_utf8_valid_utf8, encode_utf8_decode_utf8};

    string_from_utf8(bytes)
}

/// The length in bytes of the character at `at`, if it is one of the
/// characters outside ASCII that count as white space in a script: the
/// no-break spaces, the spaces of fixed width, the line and paragraph
/// separators, and the byte order mark. Else 0.
pub open spec fn wide_blank(text: Seq<u8>, at: int) -> int {
    if 0 <= at && at + 1 < text.len() && text[at] == 0xc2 && text[at + 1] == 0xa0 {
        2
    } else if 0 <= at && at + 2 < text.len() && {
        ||| text[at] == 0xe1 && text[at + 1] == 0x9a && text[at + 2] == 0x80
        ||| text[at] == 0xe2 && text[at + 1] == 0x80 && (0x80 <= text[at + 2] <= 0x8a
            || text[at + 2] == 0xa8 || text[at + 2] == 0xa9 || text[at + 2] == 0xaf)
        ||| text[at] == 0xe2 && text[at + 1] == 0x81 && text[at + 2] == 0x9f
        ||| text[at] == 0xe3 && text[at + 1] == 0x80 && text[at + 2] == 0x80
        ||| text[at] == 0xef && text[at + 1] == 0xbb && text[at + 2] == 0xbf
    } {
        3
    } else {
        0
    }
}

/// The ASCII byte that stands for the byte at `at`: the byte itself if it is
/// ASCII, a space for a byte of white space outside ASCII, an underscore for
/// any other byte.
pub open spec fn shadow_byte(text: Seq<u8>, at: int) -> u8 {
    if text[at] < 0x80 {
        text[at]
    } else if wide_blank(text, at) >= 1 || wide_blank(text, at - 1) >= 2 || wide_blank(
        text,
        at - 2,
    ) >= 3 {
        0x20
    } else {
        0x5f
    }
}

/// The text in ASCII that stands for `text`, byte for byte: names, strings
/// and comments keep their extent, and white space stays white space.
pub open spec fn shadow(text: Seq<u8>) -> Seq<u8> {
    Seq::new(text.len(), |at: int| shadow_byte(text, at))
}

/// Whether every byte of `text` is ASCII.
pub open spec fn all_ascii(text: Seq<u8>) -> bool {
    forall|i: int| 0 <= i < text.len() ==> #[trigger] text[i] < 0x80
}

/// Bytes that are all ASCII are valid UTF-8.
pub proof fn lemma_ascii_is_utf8(text: Seq<u8>)
    requires
        all_ascii(text),
    ensures
        valid_utf8(text),
{
    assert(text.subrange(0, 0) =~= Seq::<u8>::empty());
    assert(partial_valid_utf8(text, 0));
    assert forall|i: int| 0 <= i < text.len() implies #[trigger] is_leading_byte_width_1(
        text[i],
    ) by {
        assert(text[i] < 0x80);
    }
    partial_valid_utf8_extend_ascii_block(text, 0, text.len() as int);
    assert(text.subrange(0, text.len() as int) =~= text);
}

/// Tells whether a character of white space outside ASCII starts at `at`,
/// by its length in bytes.
pub fn wide_blank_at(text: &[u8], at: usize) -> (len: usize)
    ensures
        len == wide_blank(text@, at as int),
{
    if at >= text.len() || text.len() - at < 2 {
        return 0;
    }
    let a = text[at];
    let b = text[at + 1];
    if a == 0xc2 && b == 0xa0 {
        return 2;
    }
    if text.len() - at < 3 {
        return 0;
    }
    let c = text[at + 2];
    if (a == 0xe1 && b == 0x9a && c == 0x80) || (a == 0xe2 && b == 0x80 && ((0x80 <= c && c
        <= 0x8a) || c == 0xa8 || c == 0xa9 || c == 0xaf)) || (a == 0xe2 && b == 0x81 && c == 0x9f)
        || (a == 0xe3 && b == 0x80 && c == 0x80) || (a == 0xef && b == 0xbb && c == 0xbf) {
        3
    } else {
        0
    }
}

/// Writes the ASCII text that stands for `text`.
pub fn shadow_bytes(text: &[u8]) -> (out: Vec<u8>)
    ensures
        out@ == shadow(text@),
        all_ascii(out@),
{
    let mut out: Vec<u8> = Vec::new();
    let mut at: usize = 0;
    while at < text.len()
        invariant
            at <= text@.len(),
            out@.len() == at,
            forall|i: int| 0 <= i < at ==> #[trigger] out@[i] == shadow_byte(text@, i),
        decreases text@.len() - at,
    {
        let b = text[at];
        if b < 0x80 {
            out.push(b);
        } else if wide_blank_at(text, at) >= 1 || (at >= 1 && wide_blank_at(text, at - 1) >= 2)
            || (at >= 2 && wide_blank_at(text, at - 2) >= 3) {
            out.push(0x20);
        } else {
            out.push(0x5f);
        }
        at += 1;
    }
    assert(out@ =~= shadow(text@));
    out
}

/// Writes the ASCII text that stands for `content`, as a string: what to
/// hand to a parser that takes no other text. A range of bytes in the one
/// text is the same range in the other.
pub fn shadow_text(content: &str) -> (text: String)
    ensures
        encode_utf8(text@) == shadow(encode_utf8(content@)),
        text@ == decode_utf8(shadow(encode_utf8(content@))),
{
    broadcast use encode_utf8_decode_utf8;

    let bytes = shadow_bytes(content.as_bytes());
    proof {
        lemma_ascii_is_utf8(bytes@);
    }
    string_from_utf8(bytes).unwrap()
}

} // verus!
