//! Identity keys: 36-character random identifiers bound to producer and
//! consumer registry records.

use vstd::prelude::*;
use vstd::utf8::{encode_utf8, is_ascii_chars, is_ascii_chars_encode_utf8};
use crate::registry::{zero_key, KEY_LEN};

verus! {

/// What every generated key satisfies: 36 ASCII characters, none of them
/// the zero character, so its stored form can never equal a tombstone's
/// zeroed key field.
pub open spec fn key_valid(k: Seq<char>) -> bool {
    &&& k.len() == KEY_LEN
    &&& is_ascii_chars(k)
    &&& forall|i: int| 0 <= i < k.len() ==> k[i] != '\u{0}'
}

/// Relies on uuid::Uuid::new_v4 and its hyphenated rendering: 36 ASCII
/// characters, each a lowercase hex digit or a hyphen, never the zero
/// character. The value itself is random; nothing more is claimed of it.
#[verifier::external_body]
pub fn generate_key() -> (r: String)
    ensures
        key_valid(r@),
{
    uuid::Uuid::new_v4().to_string()
}

/// A valid key's stored bytes are its characters one for one.
pub proof fn lemma_key_bytes(k: Seq<char>)
    requires
        key_valid(k),
    ensures
        encode_utf8(k).len() == KEY_LEN,
        forall|i: int| 0 <= i < KEY_LEN ==> encode_utf8(k)[i] == k[i] as u8,
        encode_utf8(k) != zero_key(),
{
    is_ascii_chars_encode_utf8(k);
    assert(k[0] != '\u{0}');
    assert('\u{0}' <= k[0] <= '\u{7f}');
    assert(k[0] as u8 != 0u8) by {
        assert(k[0] as u32 != 0);
        assert(k[0] as u32 <= 0x7f);
    }
    assert(encode_utf8(k)[0] != zero_key()[0]);
}

} // verus!
