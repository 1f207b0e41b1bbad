//! Reading bytes as text.

use vstd::prelude::*;
use vstd::utf8::{
    decode_utf8, is_char_boundary, is_char_boundary_iff_not_is_continuation_byte,
    is_char_boundary_start_end_of_seq, is_continuation_byte, length_of_first_scalar,
    pop_first_scalar, valid_first_scalar, valid_utf8, valid_utf8_split,
};
use crate::error::TailError;
use crate::lines::NEWLINE;

verus! {

/// Reads `bytes` as text. Stands on `std::str::from_utf8`, which accepts exactly the
/// well-formed UTF-8 byte sequences and returns the text that they encode.
#[verifier::external_body]
fn as_text(bytes: &[u8]) -> (text: Option<&str>)
    ensures
        text is Some <==> valid_utf8(bytes@),
        text matches Some(t) ==> t@ == decode_utf8(bytes@),
{
    std::str::from_utf8(bytes).ok()
}

/// Tells whether `bytes` are valid text.
pub fn is_text(bytes: &[u8]) -> (valid: bool)
    ensures
        valid == valid_utf8(bytes@),
{
    as_text(bytes).is_some()
}

/// What reading `bytes` as text gives: the text they encode, or `EncodingError`
/// where they encode none.
pub open spec fn decoded(bytes: Seq<u8>) -> Result<Seq<char>, TailError> {
    if valid_utf8(bytes) {
        Ok(decode_utf8(bytes))
    } else {
        Err(TailError::EncodingError)
    }
}

/// A text or a failure, with the text as a sequence of characters.
pub open spec fn text_outcome(result: Result<String, TailError>) -> Result<Seq<char>, TailError> {
    match result {
        Ok(text) => Ok(text@),
        Err(error) => Err(error),
    }
}

/// Reads `bytes` as text, or fails with `EncodingError` where they are none.
pub fn decode_text(bytes: &[u8]) -> (result: Result<String, TailError>)
    ensures
        text_outcome(result) == decoded(bytes@),
{
    match as_text(bytes) {
        Some(text) => Ok(text.to_owned()),
        None => Err(TailError::EncodingError),
    }
}

/// Text ends at a character boundary of any longer text that begins with it.
pub proof fn lemma_boundary_after_text(a: Seq<u8>, b: Seq<u8>)
    requires
        valid_utf8(a),
        valid_utf8(a + b),
    ensures
        is_char_boundary(a + b, a.len() as int),
    decreases a.len(),
{
    let whole = a + b;
    if a.len() > 0 {
        assert(whole[0] == a[0]);
        let k = length_of_first_scalar(a);
        assert(k == length_of_first_scalar(whole));
        assert(pop_first_scalar(whole) =~= pop_first_scalar(a) + b);
        lemma_boundary_after_text(pop_first_scalar(a), b);
    }
}

/// What follows text in a longer text is text.
pub proof fn lemma_text_after_text(a: Seq<u8>, b: Seq<u8>)
    requires
        valid_utf8(a),
        valid_utf8(a + b),
    ensures
        valid_utf8(b),
{
    lemma_boundary_after_text(a, b);
    valid_utf8_split(a + b, a.len() as int);
    assert((a + b).subrange(a.len() as int, (a + b).len() as int) =~= b);
}

/// A byte of text that opens a character, or the end of the text, is a character
/// boundary.
pub proof fn lemma_boundary_at(text: Seq<u8>, at: int)
    requires
        valid_utf8(text),
        0 <= at <= text.len(),
        at < text.len() ==> !is_continuation_byte(text[at]),
    ensures
        is_char_boundary(text, at),
{
    if at < text.len() {
        is_char_boundary_iff_not_is_continuation_byte(text, at);
    } else {
        is_char_boundary_start_end_of_seq(text);
    }
}

/// Text cut at a character boundary falls into two texts, and the second begins at
/// a character boundary again.
pub proof fn lemma_text_cut(text: Seq<u8>, at: int)
    requires
        valid_utf8(text),
        is_char_boundary(text, at),
        0 <= at <= text.len(),
    ensures
        valid_utf8(text.take(at)),
        valid_utf8(text.skip(at)),
        at < text.len() ==> !is_continuation_byte(text[at]),
{
    valid_utf8_split(text, at);
    assert(text.subrange(0, at) =~= text.take(at));
    assert(text.subrange(at, text.len() as int) =~= text.skip(at));
    if at < text.len() {
        is_char_boundary_iff_not_is_continuation_byte(text, at);
    }
}

/// Around a line break text falls into texts: what stands in front of the break, the
/// same with the break, and what follows the break.
pub proof fn lemma_text_around_break(text: Seq<u8>, at: int)
    requires
        valid_utf8(text),
        0 <= at < text.len(),
        text[at] == NEWLINE,
    ensures
        valid_utf8(text.take(at)),
        valid_utf8(text.take(at + 1)),
        valid_utf8(text.skip(at + 1)),
        is_char_boundary(text, at),
        is_char_boundary(text, at + 1),
{
    lemma_boundary_at(text, at);
    lemma_text_cut(text, at);
    let rest = text.skip(at);
    assert(rest[0] == NEWLINE);
    assert(pop_first_scalar(rest) =~= text.skip(at + 1));
    let after = text.skip(at + 1);
    assert(valid_utf8(after));
    if after.len() > 0 {
        assert(valid_first_scalar(after));
        assert(after[0] == text[at + 1]);
    }
    lemma_boundary_at(text, at + 1);
    lemma_text_cut(text, at + 1);
}

/// A line break alone is text.
pub proof fn lemma_break_is_text()
    ensures
        valid_utf8(seq![NEWLINE]),
{
    let one = seq![NEWLINE];
    assert(10u8 & 0x7f == 10u8) by (bit_vector);
    assert(pop_first_scalar(one) =~= Seq::<u8>::empty());
    assert(valid_utf8(pop_first_scalar(one)));
}

} // verus!
