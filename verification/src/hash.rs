//! Object ids: the SHA-256 digest of an object's bytes, written as sixty-four
//! lower-case hexadecimal digits.

use sha2::{Digest, Sha256};
use vstd::prelude::*;

verus! {

/// The SHA-256 digest of a byte sequence.
pub uninterp spec fn sha256(data: Seq<u8>) -> Seq<u8>;

/// Calls `sha2::Sha256::digest`. Trusted: the result is the SHA-256 digest of
/// `data`, a function of the bytes alone, and it is thirty-two bytes long.
#[verifier::external_body]
fn sha256_digest(data: &[u8]) -> (digest: Vec<u8>)
    ensures
        digest@ == sha256(data@),
        digest@.len() == 32,
{
    Sha256::digest(data).to_vec()
}

/// The lower-case hexadecimal digit for a value below sixteen.
pub open spec fn hex_digit(d: int) -> char {
    if d < 10 {
        ('0' as int + d) as char
    } else {
        ('a' as int + d - 10) as char
    }
}

/// Bytes in hexadecimal: two digits for each byte, the high half first.
pub open spec fn hex(bytes: Seq<u8>) -> Seq<char>
    decreases bytes.len(),
{
    if bytes.len() == 0 {
        Seq::empty()
    } else {
        hex(bytes.drop_last()).push(hex_digit(bytes.last() as int / 16)).push(
            hex_digit(bytes.last() as int % 16),
        )
    }
}

/// The id under which an object with these bytes is stored.
pub open spec fn object_id(data: Seq<u8>) -> Seq<char> {
    hex(sha256(data))
}

/// Whether a character is one of `0` to `9` or `a` to `f`.
pub open spec fn is_hex_char(c: char) -> bool {
    ('0' <= c && c <= '9') || ('a' <= c && c <= 'f')
}

/// The hexadecimal form has two characters for each byte, all of them
/// hexadecimal digits.
pub proof fn lemma_hex_shape(bytes: Seq<u8>)
    ensures
        hex(bytes).len() == 2 * bytes.len(),
        forall|i: int| 0 <= i < hex(bytes).len() ==> is_hex_char(#[trigger] hex(bytes)[i]),
    decreases bytes.len(),
{
    if bytes.len() > 0 {
        lemma_hex_shape(bytes.drop_last());
    }
}

/// Different byte sequences have different hexadecimal forms.
pub proof fn lemma_hex_is_injective(a: Seq<u8>, b: Seq<u8>)
    requires
        hex(a) == hex(b),
    ensures
        a == b,
    decreases a.len(),
{
    lemma_hex_shape(a);
    lemma_hex_shape(b);
    if a.len() > 0 {
        let ha = hex(a.drop_last());
        let hb = hex(b.drop_last());
        let n = hex(a).len() as int;
        assert(hex(a)[n - 1] == hex_digit(a.last() as int % 16));
        assert(hex(b)[n - 1] == hex_digit(b.last() as int % 16));
        assert(hex(a)[n - 2] == hex_digit(a.last() as int / 16));
        assert(hex(b)[n - 2] == hex_digit(b.last() as int / 16));
        assert(a.last() == b.last());
        lemma_hex_shape(a.drop_last());
        lemma_hex_shape(b.drop_last());
        assert(ha =~= hex(a).subrange(0, n - 2));
        assert(hb =~= hex(b).subrange(0, n - 2));
        lemma_hex_is_injective(a.drop_last(), b.drop_last());
        assert(a =~= a.drop_last().push(a.last()));
        assert(b =~= b.drop_last().push(b.last()));
    } else {
        assert(a =~= b);
    }
}

/// Writes a value below sixteen as a hexadecimal digit.
fn hex_digit_of(d: u8) -> (c: char)
    requires
        d < 16,
    ensures
        c == hex_digit(d as int),
{
    if d < 10 {
        (48u8 + d) as char
    } else {
        (87u8 + d) as char
    }
}

/// Writes bytes in lower-case hexadecimal.
pub fn to_hex(bytes: &[u8]) -> (text: String)
    ensures
        text@ == hex(bytes@),
{
    let mut text = String::new();
    let mut i: usize = 0;
    while i < bytes.len()
        invariant
            i <= bytes@.len(),
            text@ == hex(bytes@.subrange(0, i as int)),
        decreases bytes@.len() - i,
    {
        let b: u8 = bytes[i];
        assert(bytes@.subrange(0, i + 1).drop_last() =~= bytes@.subrange(0, i as int));
        text.push(hex_digit_of(b / 16));
        text.push(hex_digit_of(b % 16));
        i += 1;
    }
    assert(bytes@.subrange(0, i as int) =~= bytes@);
    text
}

/// The id of an object: the SHA-256 digest of its bytes in hexadecimal.
pub fn hash_object(data: &[u8]) -> (id: String)
    ensures
        id@ == object_id(data@),
        id@.len() == 64,
        forall|i: int| 0 <= i < 64 ==> is_hex_char(#[trigger] id@[i]),
{
    let digest = sha256_digest(data);
    proof {
        lemma_hex_shape(sha256(data@));
    }
    to_hex(digest.as_slice())
}

/// Equal bytes have equal ids, and two ids are equal exactly where the
/// SHA-256 digests are: on bytes on which SHA-256 does not collide, equal
/// ids mean equal bytes.
pub proof fn lemma_ids_tell_objects_apart(a: Seq<u8>, b: Seq<u8>)
    ensures
        a == b ==> object_id(a) == object_id(b),
        object_id(a) == object_id(b) <==> sha256(a) == sha256(b),
        (sha256(a) == sha256(b) ==> a == b) ==> (object_id(a) == object_id(b) <==> a == b),
{
    if object_id(a) == object_id(b) {
        lemma_hex_is_injective(sha256(a), sha256(b));
    }
}

} // verus!
