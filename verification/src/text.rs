//! Text as bytes: the check that bytes are UTF-8.

use vstd::prelude::*;
use vstd::utf8::{
    encode_utf8, is_leading_byte_width_1, partial_valid_utf8,
    partial_valid_utf8_extend_ascii_block, valid_utf8,
};

verus! {

/// Reads bytes as text with `core::str::from_utf8`. The contract claims
/// what the function's documentation says: that it gives a string
/// exactly where the bytes are valid UTF-8, and that the string is made
/// of those bytes.
#[verifier::external_body]
pub(crate) fn utf8_text(bytes: &[u8]) -> (r: Option<&str>)
    ensures
        r is Some <==> valid_utf8(bytes@),
        r matches Some(t) ==> encode_utf8(t@) == bytes@,
{
    match core::str::from_utf8(bytes) {
        Ok(t) => Some(t),
        Err(_) => None,
    }
}

/// Bytes below 128 are text: each of them is a character of its own.
pub proof fn lemma_ascii_is_utf8(s: Seq<u8>)
    requires
        forall|i: int| 0 <= i < s.len() ==> (#[trigger] s[i]) < 128,
    ensures
        valid_utf8(s),
{
    assert forall|i: int| 0 <= i < s.len() implies #[trigger] is_leading_byte_width_1(s[i]) by {
        let b = s[i];
        assert(b < 128 ==> 0x00 <= b <= 0x7f);
    }
    assert(s.subrange(0, 0) =~= Seq::<u8>::empty());
    assert(partial_valid_utf8(s, 0));
    partial_valid_utf8_extend_ascii_block(s, 0, s.len() as int);
    assert(s.subrange(0, s.len() as int) =~= s);
}

} // verus!
