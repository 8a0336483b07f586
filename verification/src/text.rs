//! Raw names as text.

use vstd::prelude::*;
use vstd::utf8::{
    decode_first_scalar, decode_utf8, decode_utf8_first_scalar, encode_scalar, pop_first_scalar,
    take_first_scalar, valid_utf8,
};
use crate::raw::{is_hidden, DOT};

verus! {

/// The texts that a vector of strings holds.
pub open spec fn texts(strings: Seq<String>) -> Seq<Seq<char>> {
    Seq::new(strings.len(), |k: int| strings[k]@)
}

/// The text that a raw name spells: its decoding where its bytes are
/// well-formed UTF-8, and none otherwise.
pub open spec fn text_of(raw: Seq<u8>) -> Option<Seq<char>> {
    if valid_utf8(raw) {
        Some(decode_utf8(raw))
    } else {
        None
    }
}

/// The name under which an entry is listed: its text, or the empty text
/// where the raw name spells none.
pub open spec fn shown_text(raw: Seq<u8>) -> Seq<char> {
    match text_of(raw) {
        Some(text) => text,
        None => Seq::empty(),
    }
}

/// `std::str::from_utf8`, with its error dropped. It is believed to accept
/// exactly the byte strings that are well-formed UTF-8, and to hand back the
/// characters that they encode.
#[verifier::external_body]
fn decoded(raw: &[u8]) -> (text: Option<&str>)
    ensures
        text is Some <==> valid_utf8(raw@),
        text matches Some(s) ==> s@ == decode_utf8(raw@),
{
    std::str::from_utf8(raw).ok()
}

/// Reads a raw name as text.
pub fn to_text(raw: &Vec<u8>) -> (text: Option<String>)
    ensures
        text is Some <==> text_of(raw@) is Some,
        text matches Some(s) ==> Some(s@) == text_of(raw@),
{
    match decoded(raw.as_slice()) {
        Some(s) => Some(s.to_owned()),
        None => None,
    }
}

/// The name under which an entry with this raw name is listed.
pub fn shown_name(raw: &Vec<u8>) -> (name: String)
    ensures
        name@ == shown_text(raw@),
{
    match decoded(raw.as_slice()) {
        Some(s) => s.to_owned(),
        None => String::new(),
    }
}

/// A seven-bit byte is its own low seven bits.
proof fn lemma_low_bits(byte: u8)
    by (bit_vector)
    requires
        byte <= 0x7f,
    ensures
        byte & 0x7f == byte,
{
}

/// The low seven bits of the full stop are the full stop.
proof fn lemma_full_stop_bits()
    by (bit_vector)
    ensures
        0x2eu32 & 0x7f == 0x2e,
{
}

/// The shown name of an entry begins with a full stop exactly if its raw
/// name is text and hidden.
pub proof fn lemma_shown_hidden(raw: Seq<u8>)
    ensures
        (shown_text(raw).len() > 0 && shown_text(raw)[0] == '.') <==> (valid_utf8(raw)
            && is_hidden(raw)),
{
    if valid_utf8(raw) && raw.len() > 0 {
        let first = decode_first_scalar(raw);
        let head = #[verifier::truncate] (first as char);
        assert(decode_utf8(raw) =~= seq![head] + decode_utf8(pop_first_scalar(raw)));
        assert(decode_utf8(raw)[0] == head);
        if raw[0] == DOT {
            lemma_low_bits(raw[0]);
            assert(first == 0x2e);
        }
        if head == '.' {
            decode_utf8_first_scalar(raw);
            lemma_full_stop_bits();
            assert(head as u32 == 0x2e);
            assert(encode_scalar(0x2e)[0] == 0x2e);
            assert(take_first_scalar(raw)[0] == raw[0]);
        }
    } else if valid_utf8(raw) {
        assert(decode_utf8(raw) =~= Seq::<char>::empty());
    }
}

} // verus!
