//! Keccak-256 digests and their lower-case hex encoding.
//!
//! The digest itself comes from an outside implementation and is only named
//! here: `keccak256_of` stands for the 32-byte digest of a byte sequence,
//! a function of that sequence alone. The hex encoding is verified code.

use sha3::Digest;
use vstd::prelude::*;
use vstd::utf8::encode_utf8;

verus! {

/// The Keccak-256 digest of a byte sequence.
pub uninterp spec fn keccak256_of(data: Seq<u8>) -> Seq<u8>;

/// Relies on sha3::Keccak256: the 32-byte digest depends on the input bytes
/// alone.
#[verifier::external_body]
fn keccak256(data: &[u8]) -> (r: Vec<u8>)
    ensures
        r@ == keccak256_of(data@),
        r@.len() == 32,
{
    sha3::Keccak256::digest(data).to_vec()
}

/// Relies on String::push: appends exactly the given character.
#[verifier::external_body]
fn push_char(s: &mut String, c: char)
    ensures
        final(s)@ == old(s)@.push(c),
{
    s.push(c);
}

/// The lower-case hex digit for a value below 16.
pub open spec fn hex_char(n: u8) -> char {
    if n < 10 {
        ((n + 48) as char)
    } else {
        ((n + 87) as char)
    }
}

/// Two lower-case hex digits for every byte, high nibble first.
pub open spec fn hex_chars_of(data: Seq<u8>) -> Seq<char>
    decreases data.len(),
{
    if data.len() == 0 {
        Seq::empty()
    } else {
        hex_chars_of(data.drop_last()).push(hex_char(data.last() / 16)).push(
            hex_char(data.last() % 16),
        )
    }
}

/// The hex string a commitment must equal for a given ballot: the digest of
/// the ballot's UTF-8 bytes, written as lower-case hex digits.
pub open spec fn commit_digest(vote: Seq<char>) -> Seq<char> {
    hex_chars_of(keccak256_of(encode_utf8(vote)))
}

fn hex_char_exec(n: u8) -> (c: char)
    requires
        n < 16,
    ensures
        c == hex_char(n),
{
    if n < 10 {
        (n + 48) as char
    } else {
        (n + 87) as char
    }
}

/// The lower-case hex encoding of a byte string.
pub fn to_hex(data: &Vec<u8>) -> (r: String)
    ensures
        r@ == hex_chars_of(data@),
{
    let mut r = String::new();
    let n = data.len();
    let mut i: usize = 0;
    while i < n
        invariant
            i <= n,
            r@ == hex_chars_of(data@.take(i as int)),
        decreases n - i,
    {
        let b = data[i];
        push_char(&mut r, hex_char_exec(b / 16));
        push_char(&mut r, hex_char_exec(b % 16));
        proof {
            let t = data@.take(i + 1);
            assert(t.drop_last() =~= data@.take(i as int));
            assert(t.last() == data@[i as int]);
        }
        i += 1;
    }
    proof {
        assert(data@.take(n as int) =~= data@);
    }
    r
}

/// The commitment string for a ballot: the lower-case hex encoding of its
/// Keccak-256 digest. A vote commits to `hash_hex(ballot)` and reveals by
/// presenting the ballot again.
pub fn hash_hex(vote: &str) -> (r: String)
    ensures
        r@ == commit_digest(vote@),
{
    let digest = keccak256(vote.as_bytes());
    to_hex(&digest)
}

} // verus!
