//! The byte scrambling that wraps the key block directory of a version 2
//! dictionary.
//!
//! Each byte has its nibbles swapped and is then combined by XOR with the
//! scrambled byte before it, with its own index, and with a byte of a key
//! of sixteen bytes. The key is the RIPEMD-128 digest of a checksum that
//! the file carries, followed by a constant.

use byteorder::LittleEndian;
use byteorder::WriteBytesExt;
use crate::bytes::le_bytes32;
use ripemd128::Digest;
use ripemd128::Ripemd128;
use vstd::prelude::*;

verus! {

/// The RIPEMD-128 digest of a message, as the `ripemd128` crate computes it.
pub uninterp spec fn ripemd128_digest(message: Seq<u8>) -> Seq<u8>;

/// Feeds `message` to a fresh `ripemd128::Ripemd128` and takes its result.
/// The sixteen bytes that come out are named by [`ripemd128_digest`].
#[verifier::external_body]
pub(crate) fn ripemd128(message: &[u8]) -> (digest: [u8; 16])
    ensures
        digest@ == ripemd128_digest(message@),
{
    let mut hasher = Ripemd128::new();
    hasher.input(message);
    hasher.result().into()
}

/// Calls `byteorder::WriteBytesExt::write_u32` with `LittleEndian` on a
/// vector, which appends the four bytes of `value`, lowest first.
#[verifier::external_body]
pub(crate) fn push_u32_le(out: &mut Vec<u8>, value: u32)
    ensures
        final(out)@ == old(out)@ + le_bytes32(value),
{
    let _ = out.write_u32::<LittleEndian>(value);
}

/// The constant that follows the checksum in the message that is hashed.
pub const KEY_SALT: u32 = 0x3695;

/// The value that stands in for the scrambled byte before the first one.
pub const FIRST_PREVIOUS: u8 = 0x36;

/// The message whose digest is the key: the checksum and the constant, each
/// as four little-endian bytes.
pub open spec fn key_message(checksum: u32) -> Seq<u8> {
    le_bytes32(checksum) + le_bytes32(KEY_SALT)
}

/// The key that belongs to a checksum.
pub open spec fn key_of(checksum: u32) -> Seq<u8> {
    ripemd128_digest(key_message(checksum))
}

/// Derives the key that belongs to a checksum.
pub fn derive_key(checksum: u32) -> (key: [u8; 16])
    ensures
        key@ == key_of(checksum),
{
    let mut message: Vec<u8> = Vec::new();
    push_u32_le(&mut message, checksum);
    push_u32_le(&mut message, KEY_SALT);
    ripemd128(message.as_slice())
}

/// A byte with its two nibbles swapped.
pub open spec fn swap_nibbles(b: u8) -> u8 {
    (b >> 4) | (b << 4)
}

/// The byte that is mixed into position `i`: the scrambled byte before it,
/// its index and its key byte, combined by XOR.
pub open spec fn mask(previous: u8, i: int, key: Seq<u8>) -> u8 {
    previous ^ ((i % 0x100) as u8) ^ key[i % 16]
}

/// The scrambled byte before position `i`.
pub open spec fn previous_of(cipher: Seq<u8>, i: int) -> u8 {
    if i == 0 {
        FIRST_PREVIOUS
    } else {
        cipher[i - 1]
    }
}

/// The plain byte at position `i` of a scrambled text.
pub open spec fn plain_byte(cipher: Seq<u8>, key: Seq<u8>, i: int) -> u8 {
    swap_nibbles(cipher[i]) ^ mask(previous_of(cipher, i), i, key)
}

/// The plain text of a scrambled text.
pub open spec fn deobfuscated(cipher: Seq<u8>, key: Seq<u8>) -> Seq<u8> {
    Seq::new(cipher.len(), |i: int| plain_byte(cipher, key, i))
}

/// The scrambled text of a plain text.
pub open spec fn obfuscated(plain: Seq<u8>, key: Seq<u8>) -> Seq<u8>
    decreases plain.len(),
{
    if plain.len() == 0 {
        Seq::empty()
    } else {
        let head = obfuscated(plain.drop_last(), key);
        let i = plain.len() - 1;
        head.push(swap_nibbles(plain[i] ^ mask(previous_of(head, i), i, key)))
    }
}

/// Swaps the nibbles of a byte.
pub fn swap(b: u8) -> (r: u8)
    ensures
        r == swap_nibbles(b),
{
    (b >> 4) | (b << 4)
}

/// Computes the byte that is mixed into position `i`.
fn mask_at(previous: u8, i: usize, key: &[u8; 16]) -> (r: u8)
    ensures
        r == mask(previous, i as int, key@),
{
    previous ^ ((i % 0x100) as u8) ^ key[i % 16]
}

/// Unscrambles `cipher` with `key`.
pub fn deobfuscate(cipher: &[u8], key: &[u8; 16]) -> (plain: Vec<u8>)
    ensures
        plain@ == deobfuscated(cipher@, key@),
{
    let mut plain: Vec<u8> = Vec::new();
    let mut previous: u8 = FIRST_PREVIOUS;
    let mut i: usize = 0;
    while i < cipher.len()
        invariant
            i <= cipher@.len(),
            previous == previous_of(cipher@, i as int),
            plain@ == deobfuscated(cipher@, key@).take(i as int),
        decreases cipher@.len() - i,
    {
        let c: u8 = cipher[i];
        plain.push(swap(c) ^ mask_at(previous, i, key));
        previous = c;
        i += 1;
        assert(plain@ =~= deobfuscated(cipher@, key@).take(i as int));
    }
    assert(plain@ =~= deobfuscated(cipher@, key@));
    plain
}

/// Scrambles `plain` with `key`: the reverse of [`deobfuscate`].
pub fn obfuscate(plain: &[u8], key: &[u8; 16]) -> (cipher: Vec<u8>)
    ensures
        cipher@ == obfuscated(plain@, key@),
{
    let mut cipher: Vec<u8> = Vec::new();
    let mut previous: u8 = FIRST_PREVIOUS;
    let mut i: usize = 0;
    while i < plain.len()
        invariant
            i <= plain@.len(),
            cipher@.len() == i,
            previous == previous_of(cipher@, i as int),
            cipher@ == obfuscated(plain@.take(i as int), key@),
        decreases plain@.len() - i,
    {
        let c: u8 = swap(plain[i] ^ mask_at(previous, i, key));
        proof {
            let next = plain@.take(i + 1);
            assert(next.drop_last() =~= plain@.take(i as int));
        }
        cipher.push(c);
        previous = c;
        i += 1;
    }
    assert(plain@.take(i as int) =~= plain@);
    cipher
}

/// Swapping the nibbles of a byte twice gives the byte back.
pub proof fn lemma_swap_twice(b: u8)
    ensures
        swap_nibbles(swap_nibbles(b)) == b,
{
    assert(((((b >> 4) | (b << 4)) >> 4) | (((b >> 4) | (b << 4)) << 4)) == b) by (bit_vector);
}

/// Mixing the same byte in twice gives the first byte back.
pub proof fn lemma_xor_twice(b: u8, m: u8)
    ensures
        b ^ m ^ m == b,
{
    assert(b ^ m ^ m == b) by (bit_vector);
}

/// A scrambled text is as long as its plain text, and each of its bytes is
/// the plain byte, mixed and swapped.
pub proof fn lemma_obfuscated_byte(plain: Seq<u8>, key: Seq<u8>, i: int)
    requires
        0 <= i < plain.len(),
    ensures
        obfuscated(plain, key).len() == plain.len(),
        obfuscated(plain, key)[i] == swap_nibbles(
            plain[i] ^ mask(previous_of(obfuscated(plain, key), i), i, key),
        ),
    decreases plain.len(),
{
    let head = obfuscated(plain.drop_last(), key);
    if plain.len() > 1 {
        lemma_obfuscated_byte(plain.drop_last(), key, 0);
    }
    if i < plain.len() - 1 {
        lemma_obfuscated_byte(plain.drop_last(), key, i);
    }
}

/// Unscrambling what was scrambled gives the plain text back.
pub proof fn lemma_deobfuscate_obfuscate(plain: Seq<u8>, key: Seq<u8>)
    ensures
        deobfuscated(obfuscated(plain, key), key) == plain,
{
    let cipher = obfuscated(plain, key);
    if plain.len() > 0 {
        lemma_obfuscated_byte(plain, key, 0);
    }
    assert forall|i: int| 0 <= i < plain.len() implies plain_byte(cipher, key, i) == plain[i] by {
        lemma_obfuscated_byte(plain, key, i);
        let m = mask(previous_of(cipher, i), i, key);
        lemma_swap_twice(plain[i] ^ m);
        lemma_xor_twice(plain[i], m);
    }
    assert(deobfuscated(cipher, key) =~= plain);
}

/// Scrambling what was unscrambled gives the scrambled text back.
pub proof fn lemma_obfuscate_deobfuscate(cipher: Seq<u8>, key: Seq<u8>)
    ensures
        obfuscated(deobfuscated(cipher, key), key) == cipher,
    decreases cipher.len(),
{
    let plain = deobfuscated(cipher, key);
    if cipher.len() > 0 {
        let i = cipher.len() - 1;
        lemma_obfuscate_deobfuscate(cipher.drop_last(), key);
        assert(plain.drop_last() =~= deobfuscated(cipher.drop_last(), key));
        let head = obfuscated(plain.drop_last(), key);
        assert(head == cipher.drop_last());
        let m = mask(previous_of(head, i), i, key);
        assert(m == mask(previous_of(cipher, i), i, key));
        lemma_xor_twice(swap_nibbles(cipher[i]), m);
        lemma_swap_twice(cipher[i]);
        assert(obfuscated(plain, key) =~= cipher);
    } else {
        assert(obfuscated(plain, key) =~= cipher);
    }
}

} // verus!
