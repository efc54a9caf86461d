//! SHA-256 digests rendered as lowercase hexadecimal.

use vstd::prelude::*;
use sha2::Digest;
use vstd::string::StringSliceAdditionalSpecFns;
use crate::text::{digit_char, push_char};

verus! {

/// The SHA-256 digest of `data`, as computed by the `sha2` crate.
pub uninterp spec fn sha256(data: Seq<u8>) -> Seq<u8>;

/// Trusted wrapper around `<sha2::Sha256 as Digest>::digest`: the result is the digest of
/// `data`, which is 32 bytes long (the output size of SHA-256).
#[verifier::external_body]
fn sha256_digest(data: &[u8]) -> (r: Vec<u8>)
    ensures
        r@ == sha256(data@),
        r@.len() == 32,
{
    sha2::Sha256::digest(data).to_vec()
}

/// Two lowercase hex digits per byte, high nibble first (what `{:x}` prints for a digest).
pub open spec fn spec_hex_bytes(b: Seq<u8>) -> Seq<char>
    decreases b.len(),
{
    if b.len() == 0 {
        Seq::empty()
    } else {
        spec_hex_bytes(b.drop_last()) + seq![
            digit_char((b.last() / 16) as nat),
            digit_char((b.last() % 16) as nat),
        ]
    }
}

fn nibble(d: u8) -> (c: char)
    requires
        d < 16,
    ensures
        c == digit_char(d as nat),
{
    if d < 10 {
        (d + 48) as char
    } else {
        (d + 87) as char
    }
}

/// Lowercase hexadecimal rendering of a byte string.
pub fn hex_bytes(b: &Vec<u8>) -> (r: String)
    ensures
        r@ == spec_hex_bytes(b@),
{
    let mut r = String::new();
    let mut i: usize = 0;
    while i < b.len()
        invariant
            i <= b.len(),
            r@ == spec_hex_bytes(b@.take(i as int)),
        decreases b.len() - i,
    {
        let x = b[i];
        push_char(&mut r, nibble(x / 16));
        push_char(&mut r, nibble(x % 16));
        proof {
            let t = b@.take(i + 1);
            assert(t.drop_last() =~= b@.take(i as int));
            assert(t.last() == x);
            assert(r@ =~= spec_hex_bytes(t));
        }
        i += 1;
    }
    assert(b@.take(i as int) =~= b@);
    r
}

/// Two hex digits per byte.
pub proof fn lemma_hex_bytes_len(b: Seq<u8>)
    ensures
        spec_hex_bytes(b).len() == 2 * b.len(),
    decreases b.len(),
{
    if b.len() > 0 {
        lemma_hex_bytes_len(b.drop_last());
    }
}

/// SHA-256 of the UTF-8 bytes of `text`, as 64 lowercase hex digits.
pub fn sha256_hex(text: &str) -> (r: String)
    ensures
        r@ == spec_hex_bytes(sha256(text.spec_bytes())),
        r@.len() == 64,
{
    let d = sha256_digest(text.as_bytes());
    proof {
        lemma_hex_bytes_len(d@);
    }
    hex_bytes(&d)
}

} // verus!
