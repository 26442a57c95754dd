//! The block digest: a SHA-256 hash over a block's fields, rendered as a
//! lowercase hexadecimal string, together with the wall-clock source used to
//! timestamp new blocks. The digest's preimage — the concatenated decimal and
//! text renderings of the fields — is built in verified code; only the hash
//! itself is an outside call.

use vstd::prelude::*;
use vstd::string::StringSliceAdditionalSpecFns;
use crate::codec::{chars_to_string, dec_of, push_dec, push_str_chars};

verus! {

/// The digest string that hashing a byte sequence yields: the lowercase
/// hexadecimal rendering of its SHA-256 hash. The value depends on the bytes
/// alone, so two calls on equal input yield equal digests.
pub uninterp spec fn sha256_hex_of(bytes: Seq<u8>) -> Seq<char>;

/// Whether `c` is a lowercase hexadecimal digit.
pub open spec fn lower_hex_digit(c: char) -> bool {
    ||| 48 <= c as u32 <= 57
    ||| 97 <= c as u32 <= 102
}

/// Whether every character of `s` is a lowercase hexadecimal digit.
pub open spec fn all_lower_hex(s: Seq<char>) -> bool {
    forall|k: int| 0 <= k < s.len() ==> lower_hex_digit(#[trigger] s[k])
}

/// The digest of a block's fields: the lowercase-hex SHA-256 hash of the
/// UTF-8 bytes of the fields' concatenated decimal and text renderings.
pub open spec fn block_digest(
    index: u32,
    timestamp: u128,
    data: Seq<char>,
    previous_hash: Seq<char>,
    nonce: u64,
) -> Seq<char> {
    sha256_hex_of(
        vstd::utf8::encode_utf8(
            dec_of(index as nat) + dec_of(timestamp as nat) + data + previous_hash + dec_of(
                nonce as nat,
            ),
        ),
    )
}

/// Relies on sha2::Sha256::digest, a 32-byte hash of the input bytes, and on
/// the lowercase-hex formatter, which writes exactly two digits per byte from
/// the lowercase hexadecimal alphabet: 64 lowercase hex characters, a
/// function of the input alone.
#[verifier::external_body]
fn sha256_hex(s: &str) -> (r: String)
    ensures
        r@ == sha256_hex_of(s.spec_bytes()),
        r@.len() == 64,
        all_lower_hex(r@),
{
    format!("{:x}", <sha2::Sha256 as sha2::Digest>::digest(s.as_bytes()))
}

/// The digest of the given block fields, as [`block_digest`] states it: the
/// preimage is assembled here, verified; the hash is [`sha256_hex`].
pub fn digest_of_fields(
    index: u32,
    timestamp: u128,
    data: &str,
    previous_hash: &str,
    nonce: u64,
) -> (r: String)
    ensures
        r@ == block_digest(index, timestamp, data@, previous_hash@, nonce),
        r@.len() == 64,
        all_lower_hex(r@),
{
    let mut v: Vec<char> = Vec::new();
    push_dec(&mut v, index as u128);
    push_dec(&mut v, timestamp);
    push_str_chars(&mut v, data);
    push_str_chars(&mut v, previous_hash);
    push_dec(&mut v, nonce as u128);
    let text = chars_to_string(&v);
    proof {
        assert(text@ =~= dec_of(index as nat) + dec_of(timestamp as nat) + data@ + previous_hash@
            + dec_of(nonce as nat));
    }
    sha256_hex(text.as_str())
}

/// Hashing is deterministic: two digests of identical fields are identical,
/// whatever process or machine computed them.
pub proof fn lemma_digest_deterministic(
    h1: Seq<char>,
    h2: Seq<char>,
    index: u32,
    timestamp: u128,
    data: Seq<char>,
    previous_hash: Seq<char>,
    nonce: u64,
)
    requires
        h1 == block_digest(index, timestamp, data, previous_hash, nonce),
        h2 == block_digest(index, timestamp, data, previous_hash, nonce),
    ensures
        h1 == h2,
{
}

/// Relies on std::time::SystemTime::now and duration_since: milliseconds since
/// the Unix epoch, or `None` when the clock reads earlier than the epoch.
/// Nothing is promised of the value: it is the machine's clock.
#[verifier::external_body]
pub fn now_millis() -> (r: Option<u128>)
{
    match std::time::SystemTime::now().duration_since(std::time::UNIX_EPOCH) {
        Ok(d) => Some(d.as_millis()),
        Err(_) => None,
    }
}

} // verus!
