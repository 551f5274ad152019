//! Hexadecimal text and SHA-256 digests, from the `hex` and `sha2` crates.
use vstd::prelude::*;
use sha2::Digest;

verus! {

/// The lower-case hexadecimal digit for a value below 16.
pub open spec fn hex_digit(n: u8) -> char {
    if n < 10 {
        (48 + n) as char
    } else {
        (87 + n) as char
    }
}

/// Two lower-case hexadecimal digits per byte, high nibble first.
pub open spec fn hex_chars(b: Seq<u8>) -> Seq<char>
    decreases b.len(),
{
    if b.len() == 0 {
        Seq::empty()
    } else {
        hex_chars(b.drop_last()) + seq![hex_digit(b.last() / 16), hex_digit(b.last() % 16)]
    }
}

/// Hex text is two characters per byte.
pub proof fn lemma_hex_chars_len(b: Seq<u8>)
    ensures
        hex_chars(b).len() == 2 * b.len(),
    decreases b.len(),
{
    if b.len() > 0 {
        lemma_hex_chars_len(b.drop_last());
    }
}

/// The hex text of a prefix is a prefix of the hex text.
pub proof fn lemma_hex_chars_prefix(b: Seq<u8>, n: int)
    requires
        0 <= n <= b.len(),
    ensures
        hex_chars(b.take(n)) == hex_chars(b).take(2 * n),
    decreases b.len(),
{
    lemma_hex_chars_len(b);
    lemma_hex_chars_len(b.take(n));
    if n < b.len() {
        assert(b.drop_last().take(n) =~= b.take(n));
        lemma_hex_chars_prefix(b.drop_last(), n);
        lemma_hex_chars_len(b.drop_last());
        assert(hex_chars(b).take(2 * n) =~= hex_chars(b.drop_last()).take(2 * n));
    } else {
        assert(b.take(n) =~= b);
        assert(hex_chars(b).take(2 * n) =~= hex_chars(b));
    }
}

/// `hex::encode`: the bytes as lower-case hexadecimal text, two digits per
/// byte, high nibble first (the crate's `HEX_CHARS_LOWER` table).
#[verifier::external_body]
pub(crate) fn hex_encode(bytes: &[u8]) -> (r: String)
    ensures
        r@ == hex_chars(bytes@),
{
    hex::encode(bytes)
}

/// The SHA-256 digest of a byte string.
pub uninterp spec fn sha256_digest(data: Seq<u8>) -> Seq<u8>;

/// `Sha256::digest` from `sha2`: the SHA-256 digest of `data`, which is 32
/// bytes long.
#[verifier::external_body]
pub(crate) fn sha256(data: &[u8]) -> (r: Vec<u8>)
    ensures
        r@ == sha256_digest(data@),
        r@.len() == 32,
{
    sha2::Sha256::digest(data).to_vec()
}

} // verus!
