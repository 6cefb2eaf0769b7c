//! Encoding a payload behind a base character, extracting it back, and
//! counting what an encoded text holds.

use vstd::prelude::*;

verus! {

use crate::mapper::byte_to_selector_char;
use crate::mapper::byte_to_variation_selector;
use crate::mapper::is_selector_char;
use crate::mapper::lemma_byte_round_trip;
use crate::mapper::selector_to_byte;
use crate::mapper::variation_selector_to_byte;
use vstd::string::StrSliceExecFns;
use vstd::utf8::encode_utf8;

/// The selector characters that carry the bytes of `payload`, in order.
pub open spec fn selector_chars(payload: Seq<u8>) -> Seq<char> {
    Seq::new(payload.len(), |i: int| byte_to_selector_char(payload[i]))
}

/// The full character sequence produced for `base` and `payload`: the
/// base character followed by one selector per payload byte.
pub open spec fn encoded_chars(base: char, payload: Seq<u8>) -> Seq<char> {
    seq![base] + selector_chars(payload)
}

/// The bytes carried by the selector characters of `text`, in order;
/// every character outside the selector ranges contributes nothing.
pub open spec fn decoded_bytes(text: Seq<char>) -> Seq<u8>
    decreases text.len(),
{
    if text.len() == 0 {
        Seq::empty()
    } else {
        let rest = decoded_bytes(text.drop_last());
        match selector_to_byte(text.last()) {
            Some(b) => rest.push(b),
            None => rest,
        }
    }
}

/// Relies on String::push: appends the character at the end.
pub assume_specification[ String::push ](s: &mut String, ch: char)
    ensures
        final(s)@ == old(s)@.push(ch),
;

/// Builds the encoded text: the base character, then one selector
/// character per payload byte, in payload order.
pub fn encode(base: char, bytes: &[u8]) -> (s: String)
    ensures
        s@ == encoded_chars(base, bytes@),
{
    let mut s = String::new();
    s.push(base);
    let n = bytes.len();
    let mut i: usize = 0;
    while i < n
        invariant
            n == bytes@.len(),
            i <= n,
            s@ == encoded_chars(base, bytes@.take(i as int)),
        decreases n - i,
    {
        let c = byte_to_variation_selector(bytes[i]);
        s.push(c);
        proof {
            assert(encoded_chars(base, bytes@.take(i + 1)) =~= encoded_chars(
                base,
                bytes@.take(i as int),
            ).push(byte_to_selector_char(bytes@[i as int])));
        }
        i += 1;
    }
    proof {
        assert(bytes@.take(n as int) =~= bytes@);
    }
    s
}

/// One scan step: extending the scanned prefix by one character either
/// appends that character's byte or leaves the extracted bytes as they
/// were, depending on whether it is a selector.
proof fn lemma_decoded_bytes_take_succ(text: Seq<char>, i: int)
    requires
        0 <= i < text.len(),
    ensures
        selector_to_byte(text[i]) is Some ==> decoded_bytes(text.take(i + 1)) == decoded_bytes(
            text.take(i),
        ).push(selector_to_byte(text[i])->0),
        selector_to_byte(text[i]) is None ==> decoded_bytes(text.take(i + 1)) == decoded_bytes(
            text.take(i),
        ),
{
    assert(text.take(i + 1).drop_last() =~= text.take(i));
    assert(text.take(i + 1).last() == text[i]);
}

/// Extracts the payload hidden in `input`: every character in one of
/// the two selector ranges yields its byte, in the order encountered;
/// everything else, the base character included, is skipped.
pub fn decode(input: &str) -> (r: Vec<u8>)
    ensures
        r@ == decoded_bytes(input@),
{
    let n = input.unicode_len();
    let mut r: Vec<u8> = Vec::new();
    let mut i: usize = 0;
    while i < n
        invariant
            n == input@.len(),
            i <= n,
            r@ == decoded_bytes(input@.take(i as int)),
        decreases n - i,
    {
        let c = input.get_char(i);
        proof {
            lemma_decoded_bytes_take_succ(input@, i as int);
        }
        match variation_selector_to_byte(c) {
            Some(b) => r.push(b),
            None => (),
        }
        i += 1;
    }
    proof {
        assert(input@.take(n as int) =~= input@);
    }
    r
}

/// Counts what `input` holds: its character count, the count of
/// characters in the selector ranges (the length of the hidden
/// payload), and its length in 8-bit storage units, where characters
/// beyond the 7-bit range occupy several units each.
pub fn analyze_encoded(input: &str) -> (stats: Vec<usize>)
    ensures
        stats@.len() == 3,
        stats@[0] == input@.len(),
        stats@[1] == decoded_bytes(input@).len(),
        stats@[2] == encode_utf8(input@).len() as usize,
{
    let char_count = input.unicode_len();
    let n = char_count;
    let mut vs_count: usize = 0;
    let mut i: usize = 0;
    while i < n
        invariant
            n == input@.len(),
            i <= n,
            vs_count <= i,
            vs_count == decoded_bytes(input@.take(i as int)).len(),
        decreases n - i,
    {
        let c = input.get_char(i);
        proof {
            lemma_decoded_bytes_take_succ(input@, i as int);
        }
        if variation_selector_to_byte(c).is_some() {
            vs_count += 1;
        }
        i += 1;
    }
    proof {
        assert(input@.take(n as int) =~= input@);
    }
    let byte_length = input.len();
    let mut stats: Vec<usize> = Vec::new();
    stats.push(char_count);
    stats.push(vs_count);
    stats.push(byte_length);
    stats
}

/// Round trip: decoding an encoded text yields the payload unchanged,
/// for every base character outside the selector ranges. (A base
/// inside them would itself be extracted as one extra leading byte.)
pub proof fn lemma_encode_decode_round_trip(base: char, payload: Seq<u8>)
    requires
        !is_selector_char(base),
    ensures
        decoded_bytes(encoded_chars(base, payload)) == payload,
    decreases payload.len(),
{
    let text = encoded_chars(base, payload);
    if payload.len() == 0 {
        assert(text.len() == 1);
        assert(text.last() == base);
        assert(text.drop_last().len() == 0);
        assert(decoded_bytes(text.drop_last()) == Seq::<u8>::empty());
        assert(decoded_bytes(text) == Seq::<u8>::empty());
        assert(payload =~= Seq::<u8>::empty());
    } else {
        let prefix = payload.drop_last();
        lemma_encode_decode_round_trip(base, prefix);
        lemma_byte_round_trip(payload.last());
        assert(text.drop_last() =~= encoded_chars(base, prefix));
        assert(text.last() == byte_to_selector_char(payload.last()));
        assert(decoded_bytes(text) =~= payload);
    }
}

/// Counts of an encoded text: one selector per payload byte, and one
/// character more than the payload is long, for every base character
/// outside the selector ranges.
pub proof fn lemma_encoded_counts(base: char, payload: Seq<u8>)
    requires
        !is_selector_char(base),
    ensures
        decoded_bytes(encoded_chars(base, payload)).len() == payload.len(),
        encoded_chars(base, payload).len() == payload.len() + 1,
{
    lemma_encode_decode_round_trip(base, payload);
}

/// Text with no character in either selector range decodes to nothing.
pub proof fn lemma_selector_free_no_payload(text: Seq<char>)
    requires
        forall|i: int| 0 <= i < text.len() ==> !is_selector_char(#[trigger] text[i]),
    ensures
        decoded_bytes(text) == Seq::<u8>::empty(),
    decreases text.len(),
{
    if text.len() > 0 {
        lemma_selector_free_no_payload(text.drop_last());
        assert(!is_selector_char(text[text.len() - 1]));
    }
    assert(decoded_bytes(text) =~= Seq::<u8>::empty());
}

} // verus!

