//! Text stored on disk.

use vstd::prelude::*;
use vstd::utf8::*;

use crate::bytes;

verus! {

/// The text that UTF-8 decoding with replacement characters gives for `bytes`.
pub uninterp spec fn utf8_lossy(bytes: Seq<u8>) -> Seq<char>;

/// Decodes bytes as UTF-8, replacing invalid sequences, with
/// `String::from_utf8_lossy`.
///
/// The result is a function of the bytes. Bytes that are valid UTF-8 decode to
/// the text they encode; which replacement characters stand for invalid bytes
/// is not described further.
#[verifier::external_body]
fn decode_lossy(bytes: &[u8]) -> (text: String)
    ensures
        text@ == utf8_lossy(bytes@),
        valid_utf8(bytes@) ==> text@ == decode_utf8(bytes@),
{
    String::from_utf8_lossy(bytes).into_owned()
}

/// The text that stored bytes stand for: the one they encode if they are valid
/// UTF-8, and otherwise one with replacement characters.
pub open spec fn decoded(bytes: Seq<u8>) -> Seq<char> {
    if valid_utf8(bytes) {
        decode_utf8(bytes)
    } else {
        utf8_lossy(bytes)
    }
}

/// Text that was stored as UTF-8 is read back as it was.
pub proof fn law_stored_text_is_read_back(text: Seq<char>)
    ensures
        decoded(encode_utf8(text)) == text,
{
    encode_utf8_valid_utf8(text);
    encode_utf8_decode_utf8(text);
}

/// Text without a NUL that was stored as UTF-8 before one is read back as it was,
/// whatever follows.
pub proof fn law_terminated_text_is_read_back(text: Seq<char>, rest: Seq<u8>)
    requires
        !encode_utf8(text).contains(0u8),
    ensures
        decoded(bytes::before_nul(encode_utf8(text))) == text,
        decoded(bytes::before_nul(encode_utf8(text).push(0u8) + rest)) == text,
{
    let stored = encode_utf8(text);
    let n = stored.len() as int;
    let all = stored.push(0u8) + rest;
    assert forall|i: int| 0 <= i < n implies stored[i] != 0 by {
        assert(stored.contains(stored[i]));
    }
    assert forall|i: int| 0 <= i < n implies all[i] != 0 by {
        assert(all[i] == stored[i]);
    }
    bytes::lemma_before_nul_is(stored, n);
    bytes::lemma_before_nul_is(all, n);
    assert(stored.take(n) =~= stored);
    assert(all.take(n) =~= stored);
    law_stored_text_is_read_back(text);
}

/// Decodes stored text, replacing what is not valid UTF-8.
pub(crate) fn decode(bytes: &[u8]) -> (text: String)
    ensures
        text@ == decoded(bytes@),
{
    decode_lossy(bytes)
}

} // verus!
