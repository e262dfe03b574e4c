//! Message digests (MD5 from the `md5` crate, SHA-256 from `sha2`) and their
//! lowercase hexadecimal text.
use sha2::Digest;
use vstd::prelude::*;

verus! {

/// The MD5 digest that `md5::compute` returns for the given bytes.
pub uninterp spec fn md5_digest(data: Seq<u8>) -> Seq<u8>;

/// The SHA-256 digest that `sha2::Sha256::digest` returns for the given bytes.
pub uninterp spec fn sha256_digest(data: Seq<u8>) -> Seq<u8>;

/// Calls `md5::compute`; the contract ties the 16 digest bytes to the name
/// `md5_digest` of the input (the length is that of the crate's `Digest([u8; 16])`).
#[verifier::external_body]
pub(crate) fn md5_bytes(data: &[u8]) -> (r: Vec<u8>)
    ensures
        r@ == md5_digest(data@),
        r@.len() == 16,
{
    md5::compute(data).0.to_vec()
}

/// Calls `sha2::Sha256::digest`; the contract ties the 32 digest bytes to the name
/// `sha256_digest` of the input (the length is the output size `U32` of `Sha256`).
#[verifier::external_body]
pub(crate) fn sha256_bytes(data: &[u8]) -> (r: Vec<u8>)
    ensures
        r@ == sha256_digest(data@),
        r@.len() == 32,
{
    sha2::Sha256::digest(data).to_vec()
}

/// Lowercase hexadecimal digit for a value below 16.
pub open spec fn hex_digit(n: u8) -> char {
    if n < 10 {
        (('0' as u8) + n) as char
    } else {
        (('a' as u8) + n - 10) as char
    }
}

/// Two lowercase hexadecimal digits per byte, most significant first (`{:02x}` each).
pub open spec fn hex_lower(b: Seq<u8>) -> Seq<char>
    decreases b.len(),
{
    if b.len() == 0 {
        seq![]
    } else {
        hex_lower(b.drop_last()) + seq![hex_digit(b.last() / 16), hex_digit(b.last() % 16)]
    }
}

/// A lowercase hexadecimal digit: `0`–`9` or `a`–`f`.
pub open spec fn is_lower_hex(c: char) -> bool {
    ('0' <= c <= '9') || ('a' <= c <= 'f')
}

/// The hexadecimal text of `n` bytes has `2 n` characters, each a lowercase
/// hexadecimal digit.
pub proof fn lemma_hex_lower_shape(b: Seq<u8>)
    ensures
        hex_lower(b).len() == 2 * b.len(),
        forall|i: int| 0 <= i < hex_lower(b).len() ==> is_lower_hex(#[trigger] hex_lower(b)[i]),
    decreases b.len(),
{
    if b.len() > 0 {
        lemma_hex_lower_shape(b.drop_last());
        let x = b.last();
        lemma_hex_digit_is_lower_hex(x / 16);
        lemma_hex_digit_is_lower_hex(x % 16);
        let pre = hex_lower(b.drop_last());
        assert forall|i: int| 0 <= i < hex_lower(b).len() implies is_lower_hex(#[trigger] hex_lower(b)[i]) by {
            if i < pre.len() {
                assert(hex_lower(b)[i] == pre[i]);
            }
        }
    }
}

proof fn lemma_hex_digit_is_lower_hex(n: u8)
    requires
        n < 16,
    ensures
        is_lower_hex(hex_digit(n)),
{
    if n < 10 {
        assert((('0' as u8) + n) as char as u32 == 48 + n);
    } else {
        assert((('a' as u8) + n - 10) as char as u32 == 87 + n);
    }
}

pub fn hex_digit_exec(n: u8) -> (r: char)
    requires
        n < 16,
    ensures
        r == hex_digit(n),
{
    if n < 10 {
        (('0' as u8) + n) as char
    } else {
        (('a' as u8) + n - 10) as char
    }
}

/// Lowercase hexadecimal text of the bytes.
pub fn hex_lower_chars(b: &[u8]) -> (r: Vec<char>)
    ensures
        r@ == hex_lower(b@),
{
    let mut out: Vec<char> = Vec::new();
    let mut i: usize = 0;
    while i < b.len()
        invariant
            i <= b.len(),
            out@ == hex_lower(b@.take(i as int)),
        decreases b.len() - i,
    {
        assert(b@.take(i + 1).drop_last() =~= b@.take(i as int));
        let x = b[i];
        out.push(hex_digit_exec(x / 16));
        out.push(hex_digit_exec(x % 16));
        i += 1;
        assert(out@ =~= hex_lower(b@.take(i as int)));
    }
    assert(b@.take(b.len() as int) =~= b@);
    out
}

}
