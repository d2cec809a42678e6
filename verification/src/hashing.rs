use vstd::prelude::*;

verus! {

/// What `blake3::hash` returns for a given byte buffer. The hash is a
/// pure function of the input bytes, so the result has a name and
/// nothing more is assumed of it.
pub uninterp spec fn blake3_of(b: Seq<u8>) -> Seq<u8>;

/// What `data_encoding::BASE32HEX_NOPAD.encode` returns for a given
/// byte buffer: a pure function of the input bytes.
pub uninterp spec fn base32hex_of(b: Seq<u8>) -> Seq<char>;

/// A character of the base-32-hex alphabet: a digit or one of `A`..`V`.
/// Such characters are safe inside a filesystem entry name.
pub open spec fn is_digest_char(c: char) -> bool {
    (('0' as u32) <= (c as u32) && (c as u32) <= ('9' as u32)) || (('A' as u32) <= (c as u32)
        && (c as u32) <= ('V' as u32))
}

/// Relies on `blake3::hash`: deterministic in the input bytes, with a
/// 32-byte output (`blake3::OUT_LEN`).
#[verifier::external_body]
fn blake3_hash(contents: &[u8]) -> (r: Vec<u8>)
    ensures
        r@ == blake3_of(contents@),
        r@.len() == 32,
{
    blake3::hash(contents).as_bytes().to_vec()
}

/// Relies on `data_encoding::Encoding::encode` on `BASE32HEX_NOPAD`:
/// deterministic in the input bytes; one symbol of the base-32-hex
/// alphabet per five bits of input, no padding, so the output length is
/// the input bit length divided by five, rounded up. Its length
/// computation may panic above `usize::MAX / 512` input bytes, hence
/// the bound.
#[verifier::external_body]
fn base32hex_encode(b: &[u8]) -> (r: String)
    requires
        b@.len() * 512 <= usize::MAX as nat,
    ensures
        r@ == base32hex_of(b@),
        r@.len() == (b@.len() * 8 + 4) / 5,
        forall|i: int| 0 <= i < r@.len() ==> is_digest_char(#[trigger] r@[i]),
{
    data_encoding::BASE32HEX_NOPAD.encode(b)
}

/// The content key of a byte buffer: the base-32-hex rendering of its
/// BLAKE3 digest.
pub open spec fn digest_of(b: Seq<u8>) -> Seq<char> {
    base32hex_of(blake3_of(b))
}

/// The content key of text: the digest of its UTF-8 bytes.
pub open spec fn digest_of_str(s: Seq<char>) -> Seq<char> {
    digest_of(vstd::utf8::encode_utf8(s))
}

/// Computes the textual content key of a byte buffer: 52 path-safe
/// characters from a case-insensitive alphabet, without padding.
pub fn digest(contents: &[u8]) -> (r: String)
    ensures
        r@ == digest_of(contents@),
        r@.len() == 52,
        forall|i: int| 0 <= i < r@.len() ==> is_digest_char(#[trigger] r@[i]),
{
    let h = blake3_hash(contents);
    base32hex_encode(h.as_slice())
}

/// Computes the textual content key of a text buffer (its UTF-8 bytes).
pub fn digest_str(contents: &str) -> (r: String)
    ensures
        r@ == digest_of_str(contents@),
        r@.len() == 52,
{
    digest(contents.as_bytes())
}

/// Determinism of content addressing: the digest is a function of the
/// content bytes alone, so equal buffers always yield equal keys, in
/// one call or across calls.
pub proof fn lemma_digest_deterministic(a: Seq<u8>, b: Seq<u8>)
    requires
        a == b,
    ensures
        digest_of(a) == digest_of(b),
{
}

} // verus!
