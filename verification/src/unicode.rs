//! Conversions between bytes and strings that std performs.
use vstd::prelude::*;
use vstd::utf8::{decode_utf8, decode_utf8_encode_utf8, encode_utf8, partial_valid_utf8_extend_ascii_block, valid_utf8};

verus! {

/// The characters that `String::from_utf8_lossy` makes of `data`.
pub uninterp spec fn lossy_utf8(data: Seq<u8>) -> Seq<char>;

/// The text lossy conversion gives: valid UTF-8 decoded as it is; for other input, what
/// std's replacement of invalid sequences by U+FFFD makes of it.
pub open spec fn lossy_text(data: Seq<u8>) -> Seq<char> {
    if valid_utf8(data) {
        decode_utf8(data)
    } else {
        lossy_utf8(data)
    }
}

/// `String::from_utf8_lossy`: decodes `data` as UTF-8, putting U+FFFD in place of every
/// invalid sequence. The contract names the result and states, as std documents, that
/// valid UTF-8 comes back unchanged; what replaces invalid input is left unsaid.
#[verifier::external_body]
pub(crate) fn utf8_lossy_string(data: &[u8]) -> (s: String)
    ensures
        s@ == lossy_utf8(data@),
        valid_utf8(data@) ==> s@ == decode_utf8(data@),
        s@ == lossy_text(data@),
{
    String::from_utf8_lossy(data).into_owned()
}

/// ASCII bytes are valid UTF-8, and decoding and encoding them again gives them back.
pub proof fn lemma_ascii_utf8(data: Seq<u8>)
    requires
        crate::text::ascii(data),
    ensures
        valid_utf8(data),
        encode_utf8(decode_utf8(data)) == data,
{
    assert(data.subrange(0, 0) =~= Seq::<u8>::empty());
    partial_valid_utf8_extend_ascii_block(data, 0, data.len() as int);
    assert(data.subrange(0, data.len() as int) =~= data);
    decode_utf8_encode_utf8(data);
}

/// Valid UTF-8 comes back unchanged from lossy conversion: its text is its decoding,
/// whose bytes are the input.
pub proof fn lemma_lossy_text_valid(data: Seq<u8>)
    requires
        valid_utf8(data),
    ensures
        lossy_text(data) == decode_utf8(data),
        encode_utf8(lossy_text(data)) == data,
{
    decode_utf8_encode_utf8(data);
}

/// ASCII comes back unchanged from lossy conversion.
pub proof fn lemma_lossy_text_ascii(data: Seq<u8>)
    requires
        crate::text::ascii(data),
    ensures
        valid_utf8(data),
        lossy_text(data) == decode_utf8(data),
        encode_utf8(lossy_text(data)) == data,
{
    lemma_ascii_utf8(data);
    lemma_lossy_text_valid(data);
}

/// `String::push`: appends one character.
#[verifier::external_body]
pub(crate) fn push_char(s: &mut String, c: char)
    ensures
        final(s)@ == old(s)@.push(c),
{
    s.push(c)
}

} // verus!
