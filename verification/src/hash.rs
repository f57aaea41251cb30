//! The hash that transactions use to tell whether data has changed: SHA-256 over the
//! canonical JSON text, written in hexadecimal.
use crate::json;
use crate::json::export_json;
use crate::plain;
use crate::plain::Plain;
use crate::value::JsonValue;
use vstd::prelude::*;

verus! {

/// Names the canonical JSON text of a value, as `serde_json_canonicalizer` writes it.
pub uninterp spec fn canonical_text(v: Plain) -> Option<Seq<u8>>;

/// `serde_json_canonicalizer::to_vec`: the canonical text (RFC 8785) depends on the data
/// alone, not on the order in which members are held.
#[verifier::external_body]
fn canonical_bytes(v: &serde_json::Value) -> (r: Option<Vec<u8>>)
    ensures
        match r {
            Some(b) => canonical_text(json::held_json(*v)) == Some(b@),
            None => canonical_text(json::held_json(*v)) is None,
        },
{
    serde_json_canonicalizer::to_vec(v).ok()
}

/// Names the SHA-256 digest of a byte string.
pub uninterp spec fn sha256(data: Seq<u8>) -> Seq<u8>;

/// `sha2::Sha256::digest`: the digest depends on the bytes alone.
#[verifier::external_body]
fn sha256_digest(data: &Vec<u8>) -> (r: Vec<u8>)
    ensures
        r@ == sha256(data@),
{
    <sha2::Sha256 as sha2::Digest>::digest(data).to_vec()
}

/// The hexadecimal digit of a number below sixteen.
pub open spec fn hex_digit(n: int) -> char {
    if n < 10 {
        (('0' as int) + n) as char
    } else {
        (('a' as int) + n - 10) as char
    }
}

/// Bytes in hexadecimal, two lowercase digits each.
pub open spec fn hex_text(data: Seq<u8>) -> Seq<char> {
    Seq::new(
        2 * data.len(),
        |i: int| hex_digit(if i % 2 == 0 { data[i / 2] as int / 16 } else { data[i / 2] as int % 16 }),
    )
}

/// `hex::encode`: every byte becomes two lowercase digits, the higher one first.
#[verifier::external_body]
fn hex_encode(data: &Vec<u8>) -> (r: String)
    ensures
        r@ == hex_text(data@),
{
    hex::encode(data)
}

/// The hash of some data.
pub open spec fn data_hash(v: Plain) -> Seq<char> {
    hex_text(
        sha256(
            match canonical_text(v) {
                Some(b) => b,
                None => Seq::empty(),
            },
        ),
    )
}

/// The hash of canonical bytes; without any, that of the empty text.
pub fn hash_bytes(canonical: Option<Vec<u8>>) -> (r: String)
    ensures
        r@ == hex_text(
            sha256(
                match canonical {
                    Some(b) => b@,
                    None => Seq::empty(),
                },
            ),
        ),
{
    let bytes: Vec<u8> = match canonical {
        Some(b) => b,
        None => Vec::new(),
    };
    hex_encode(&sha256_digest(&bytes))
}

/// The hash of a value for transaction conditions.
pub fn compute_value_hash(value: &JsonValue) -> (r: String)
    ensures
        r@ == data_hash(plain::plain(value@)),
{
    let exported = export_json(value);
    hash_bytes(canonical_bytes(&exported))
}

/// The number that a hexadecimal digit stands for.
pub open spec fn digit_value(c: char) -> int {
    if '0' <= c <= '9' {
        c as int - '0' as int
    } else {
        10 + (c as int - 'a' as int)
    }
}

/// A hash is the digest of the canonical text of the data in hexadecimal: two digits, zero to
/// nine and a to f, for each byte, the higher one in front.
pub proof fn law_hash_spells_the_digest(v: Plain, i: int)
    requires
        canonical_text(v) is Some,
        0 <= i < sha256(canonical_text(v)->0).len(),
    ensures
        data_hash(v).len() == 2 * sha256(canonical_text(v)->0).len(),
        ({
            let h = data_hash(v);
            &&& '0' <= h[2 * i] <= '9' || 'a' <= h[2 * i] <= 'f'
            &&& '0' <= h[2 * i + 1] <= '9' || 'a' <= h[2 * i + 1] <= 'f'
            &&& 16 * digit_value(h[2 * i]) + digit_value(h[2 * i + 1])
                == sha256(canonical_text(v)->0)[i]
        }),
{
    let d = sha256(canonical_text(v)->0);
    let b = d[i] as int;
    let h = data_hash(v);
    assert((2 * i) / 2 == i && (2 * i) % 2 == 0);
    assert((2 * i + 1) / 2 == i && (2 * i + 1) % 2 == 1);
    assert(0 <= b / 16 < 16 && 0 <= b % 16 < 16);
    assert(h[2 * i] == hex_digit(b / 16));
    assert(h[2 * i + 1] == hex_digit(b % 16));
}

/// Data with different digests has different hashes.
pub proof fn law_hashes_tell_digests_apart(v: Plain, w: Plain)
    requires
        canonical_text(v) is Some,
        canonical_text(w) is Some,
        data_hash(v) == data_hash(w),
    ensures
        sha256(canonical_text(v)->0) == sha256(canonical_text(w)->0),
{
    let a = sha256(canonical_text(v)->0);
    let b = sha256(canonical_text(w)->0);
    assert(data_hash(v).len() == 2 * a.len());
    assert(data_hash(w).len() == 2 * b.len());
    assert forall|i: int| 0 <= i < a.len() implies a[i] == b[i] by {
        law_hash_spells_the_digest(v, i);
        law_hash_spells_the_digest(w, i);
    }
    assert(a =~= b);
}

/// Data that cannot be written out hashes like nothing at all.
pub proof fn law_unwritable_data_hashes_like_nothing(v: Plain, i: int)
    requires
        canonical_text(v) is None,
        0 <= i < sha256(Seq::empty()).len(),
    ensures
        data_hash(v).len() == 2 * sha256(Seq::empty()).len(),
        16 * digit_value(data_hash(v)[2 * i]) + digit_value(data_hash(v)[2 * i + 1]) == sha256(
            Seq::empty(),
        )[i],
{
    let b = sha256(Seq::empty())[i] as int;
    let h = data_hash(v);
    assert((2 * i) / 2 == i && (2 * i) % 2 == 0);
    assert((2 * i + 1) / 2 == i && (2 * i + 1) % 2 == 1);
    assert(0 <= b / 16 < 16 && 0 <= b % 16 < 16);
    assert(h[2 * i] == hex_digit(b / 16));
    assert(h[2 * i + 1] == hex_digit(b % 16));
}

} // verus!
