//! Outside encodings and digests that the core relies on.

use vstd::prelude::*;
use vstd::utf8::valid_utf8;

use sha2::Digest;
use subtle::ConstantTimeEq;

verus! {

/// A number as postcard writes it: seven bits per byte, least significant first, the
/// high bit set on every byte but the last.
pub open spec fn varint(n: nat) -> Seq<u8>
    decreases n,
{
    if n < 128 {
        seq![n as u8]
    } else {
        seq![(n % 128 + 128) as u8] + varint(n / 128)
    }
}

/// A byte string as postcard writes it: its length, then its bytes.
pub open spec fn byte_string(bytes: Seq<u8>) -> Seq<u8> {
    varint(bytes.len()) + bytes
}

/// The number at the front of `bytes` in that form, with what is left over. It takes at most
/// `most` bytes, of which the last is at most `last`.
pub open spec fn read_varint(bytes: Seq<u8>, most: nat, last: nat) -> Option<(nat, Seq<u8>)>
    decreases most,
{
    if most == 0 || bytes.len() == 0 {
        None
    } else if bytes[0] < 128 {
        if most == 1 && bytes[0] > last {
            None
        } else {
            Some((bytes[0] as nat, bytes.skip(1)))
        }
    } else {
        match read_varint(bytes.skip(1), (most - 1) as nat, last) {
            Some((n, rest)) => Some(((bytes[0] % 128 + 128 * n) as nat, rest)),
            None => None,
        }
    }
}

/// The `u32` at the front of `bytes`, with what is left over.
pub open spec fn taken_index(bytes: Seq<u8>) -> Option<(u32, Seq<u8>)> {
    match read_varint(bytes, 5, 15) {
        Some((n, rest)) => Some((n as u32, rest)),
        None => None,
    }
}

/// The length at the front of `bytes`, with what is left over. It is read at the pointer width
/// of the target.
pub open spec fn taken_length(bytes: Seq<u8>, pointer_bits: nat) -> Option<(nat, Seq<u8>)> {
    if pointer_bits == 64 {
        read_varint(bytes, 10, 1)
    } else {
        read_varint(bytes, 5, 15)
    }
}

/// The byte string at the front of `bytes`, with what is left over.
pub open spec fn taken_string(bytes: Seq<u8>, pointer_bits: nat) -> Option<(Seq<u8>, Seq<u8>)> {
    match taken_length(bytes, pointer_bits) {
        Some((n, rest)) => if n <= rest.len() {
            Some((rest.take(n as int), rest.skip(n as int)))
        } else {
            None
        },
        None => None,
    }
}

/// The pair of byte strings at the front of `bytes`, with what is left over.
pub open spec fn taken_pair(
    bytes: Seq<u8>,
    pointer_bits: nat,
) -> Option<((Seq<u8>, Seq<u8>), Seq<u8>)> {
    match taken_string(bytes, pointer_bits) {
        Some((first, more)) => match taken_string(more, pointer_bits) {
            Some((second, rest)) => Some(((first, second), rest)),
            None => None,
        },
        None => None,
    }
}

/// `postcard::to_allocvec` of a pair of byte strings. Claimed: the result is the two
/// byte strings one after the other, each behind its length.
#[verifier::external_body]
pub(crate) fn encode_pair(first: &Vec<u8>, second: &Vec<u8>) -> (res: Vec<u8>)
    ensures
        res@ == byte_string(first@) + byte_string(second@),
{
    postcard::to_allocvec(&(first, second)).expect("byte strings always encode")
}

/// `postcard::take_from_bytes` of a pair of byte strings. Claimed: it reads two byte strings,
/// each behind its length, and hands back what follows; it fails where a length is not written
/// as it should be or the bytes run out.
#[verifier::external_body]
pub(crate) fn take_pair(bytes: &[u8]) -> (res: Option<((Vec<u8>, Vec<u8>), Vec<u8>)>)
    ensures
        (match res {
            Some(((first, second), rest)) => Some(((first@, second@), rest@)),
            None => None,
        }) == taken_pair(bytes@, usize::BITS as nat),
{
    match postcard::take_from_bytes::<(Vec<u8>, Vec<u8>)>(bytes) {
        Ok((pair, rest)) => Some((pair, rest.to_vec())),
        Err(_) => None,
    }
}

/// `postcard::to_allocvec` of a `u32`. Claimed: the result is the number in postcard's
/// variable-length form.
#[verifier::external_body]
pub(crate) fn encode_index(index: u32) -> (res: Vec<u8>)
    ensures
        res@ == varint(index as nat),
{
    postcard::to_allocvec(&index).expect("an integer always encodes")
}

/// `postcard::take_from_bytes` of a `u32`. Claimed: it reads a number in postcard's
/// variable-length form, of at most five bytes and 32 bits, and hands back what follows; it
/// fails on anything else.
#[verifier::external_body]
pub(crate) fn take_index(bytes: &[u8]) -> (res: Option<(u32, Vec<u8>)>)
    ensures
        (match res {
            Some((index, rest)) => Some((index, rest@)),
            None => None,
        }) == taken_index(bytes@),
{
    match postcard::take_from_bytes::<u32>(bytes) {
        Ok((index, rest)) => Some((index, rest.to_vec())),
        Err(_) => None,
    }
}

/// Numbers below this fit into `most` bytes of which the last is at most `last`.
spec fn varint_limit(most: nat, last: nat) -> nat
    decreases most,
{
    if most <= 1 {
        last + 1
    } else {
        128 * varint_limit((most - 1) as nat, last)
    }
}

proof fn lemma_varint_read_back(n: nat, rest: Seq<u8>, most: nat, last: nat)
    requires
        most >= 1,
        last < 128,
        n < varint_limit(most, last),
    ensures
        read_varint(varint(n) + rest, most, last) == Some((n, rest)),
    decreases n,
{
    let bytes = varint(n) + rest;
    if n < 128 {
        assert(bytes[0] == n as u8);
        assert(bytes.skip(1) =~= rest);
    } else {
        let digit = (n % 128 + 128) as u8;
        assert(most >= 2);
        assert(n / 128 < varint_limit((most - 1) as nat, last));
        lemma_varint_read_back(n / 128, rest, (most - 1) as nat, last);
        assert(bytes[0] == digit);
        assert(bytes.skip(1) =~= varint(n / 128) + rest);
        assert(digit % 128 == n % 128);
        assert(n == n % 128 + 128 * (n / 128));
    }
}

/// A number can be read back, whatever follows it.
pub proof fn law_indices_read_back(index: u32, rest: Seq<u8>)
    ensures
        taken_index(varint(index as nat) + rest) == Some((index, rest)),
{
    reveal_with_fuel(varint_limit, 6);
    lemma_varint_read_back(index as nat, rest, 5, 15);
}

/// A length can be read back, whatever follows it.
pub proof fn law_lengths_read_back(length: usize, rest: Seq<u8>)
    ensures
        taken_length(varint(length as nat) + rest, usize::BITS as nat) == Some(
            (length as nat, rest),
        ),
{
    reveal_with_fuel(varint_limit, 11);
    if usize::BITS == 64 {
        lemma_varint_read_back(length as nat, rest, 10, 1);
    } else {
        lemma_varint_read_back(length as nat, rest, 5, 15);
    }
}

/// A byte string can be read back, whatever follows it.
pub proof fn law_strings_read_back(bytes: Seq<u8>, rest: Seq<u8>)
    requires
        bytes.len() <= usize::MAX,
    ensures
        taken_string(byte_string(bytes) + rest, usize::BITS as nat) == Some((bytes, rest)),
{
    law_lengths_read_back(bytes.len() as usize, bytes + rest);
    assert(byte_string(bytes) + rest =~= varint(bytes.len()) + (bytes + rest));
    assert((bytes + rest).take(bytes.len() as int) =~= bytes);
    assert((bytes + rest).skip(bytes.len() as int) =~= rest);
}

/// A pair of byte strings can be read back, whatever follows it.
pub proof fn law_pairs_read_back(first: Seq<u8>, second: Seq<u8>, rest: Seq<u8>)
    requires
        first.len() <= usize::MAX,
        second.len() <= usize::MAX,
    ensures
        taken_pair(byte_string(first) + byte_string(second) + rest, usize::BITS as nat) == Some(
            ((first, second), rest),
        ),
{
    let more = byte_string(second) + rest;
    law_strings_read_back(first, more);
    law_strings_read_back(second, rest);
    assert(byte_string(first) + byte_string(second) + rest =~= byte_string(first) + more);
}

/// The SHA-256 digest of `bytes`.
pub uninterp spec fn sha256(bytes: Seq<u8>) -> Seq<u8>;

/// `sha2::Sha256::digest`. Claimed: the result is a function of the bytes.
#[verifier::external_body]
pub(crate) fn digest(bytes: &[u8]) -> (res: [u8; 32])
    ensures
        res@ == sha256(bytes@),
{
    sha2::Sha256::digest(bytes).into()
}

/// `subtle::ConstantTimeEq::ct_eq` on byte slices. Claimed: it answers whether the
/// slices hold the same bytes.
#[verifier::external_body]
pub(crate) fn constant_time_same(a: &[u8], b: &[u8]) -> (res: bool)
    ensures
        res == (a@ == b@),
{
    a.ct_eq(b).into()
}

/// `core::str::from_utf8`. Claimed: it succeeds exactly on bytes that are valid UTF-8.
#[verifier::external_body]
pub(crate) fn is_utf8(bytes: &[u8]) -> (res: bool)
    ensures
        res == valid_utf8(bytes@),
{
    match core::str::from_utf8(bytes) {
        Ok(_) => true,
        Err(_) => false,
    }
}

} // verus!
