//! Deriving handles from blob contents.
//!
//! A clipboard's full hash is the lowercase hexadecimal rendering of the
//! SHA-256 digest of its bytes; the HTTP adapter advertises the first
//! [`crate::MIN_PREFIX_LEN`] characters of it as the initial handle.

use crate::clipboard::Clipboard;
use sha2::Digest;
use sha2::Sha256;
use vstd::prelude::*;
use vstd::string::*;

verus! {

/// The lowercase hex rendering of the SHA-256 digest of `bytes`: a function
/// of the bytes alone, named rather than spelled out.
pub uninterp spec fn sha256_hex_of(bytes: Seq<u8>) -> Seq<char>;

/// Whether `c` is a lowercase hexadecimal digit.
pub open spec fn is_lower_hex_char(c: char) -> bool {
    ('0' <= c && c <= '9') || ('a' <= c && c <= 'f')
}

/// Relies on sha2's `Sha256::digest` and the `LowerHex` rendering of its
/// output: a 256-bit digest of the input bytes alone, shown as 64 lowercase
/// hexadecimal characters.
#[verifier::external_body]
fn sha256_hex(bytes: &[u8]) -> (r: String)
    ensures
        r@ == sha256_hex_of(bytes@),
        r@.len() == 64,
        forall|i: int| 0 <= i < r@.len() ==> is_lower_hex_char(#[trigger] r@[i]),
{
    format!("{:x}", Sha256::digest(bytes))
}

/// The full hash of a clipboard: the lowercase hex digest of its bytes.
pub fn clipboard_hash(clip: &Clipboard) -> (r: String)
    ensures
        r@ == sha256_hex_of(clip.data()),
        r@.len() == 64,
        forall|i: int| 0 <= i < r@.len() ==> is_lower_hex_char(#[trigger] r@[i]),
{
    sha256_hex(clip.bytes())
}

/// The initial handle the HTTP adapter shows for a clipboard: its full hash
/// cut to the first [`crate::MIN_PREFIX_LEN`] characters.
pub fn clipboard_handle(clip: &Clipboard) -> (r: String)
    ensures
        r@ == sha256_hex_of(clip.data()).take(crate::MIN_PREFIX_LEN as int),
        r@.len() == crate::MIN_PREFIX_LEN,
{
    let full = clipboard_hash(clip);
    proof {
        assert(vstd::utf8::is_ascii_chars(full@)) by {
            assert forall|i: int| 0 <= i < full@.len() implies '\0' <= #[trigger] full@[i]
                <= '\u{7f}' by {
                assert(is_lower_hex_char(full@[i]));
            }
        }
    }
    let cut = full.as_str().substring_ascii(0, crate::MIN_PREFIX_LEN);
    cut.to_owned()
}

} // verus!
