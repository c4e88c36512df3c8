//! The 64-bit FNV-1a hash over a sequence of words.

use vstd::prelude::*;

verus! {

/// The value that a hash starts from.
pub const FNV_OFFSET: u64 = 0xcbf2_9ce4_8422_2325;

/// The multiplier of each step.
pub const FNV_PRIME: u64 = 0x100_0000_01b3;

/// One step: the word is mixed in, then the hash is multiplied.
pub open spec fn fnv_step(hash: u64, word: u64) -> u64 {
    (hash ^ word).wrapping_mul(FNV_PRIME)
}

/// The hash after a sequence of words.
pub open spec fn fnv(hash: u64, words: Seq<u64>) -> u64
    decreases words.len(),
{
    if words.len() == 0 {
        hash
    } else {
        fnv_step(fnv(hash, words.drop_last()), words.last())
    }
}

/// The bytes of a number, the least significant first.
pub open spec fn le_words(value: u64) -> Seq<u64> {
    Seq::new(8, |i: int| (value >> ((8 * i) as u32)) & 0xff)
}

/// Hashing is one pass: what comes first is hashed first.
pub proof fn lemma_fnv_append(hash: u64, a: Seq<u64>, b: Seq<u64>)
    ensures
        fnv(hash, a + b) == fnv(fnv(hash, a), b),
    decreases b.len(),
{
    if b.len() == 0 {
        assert(a + b =~= a);
    } else {
        assert((a + b).drop_last() =~= a + b.drop_last());
        lemma_fnv_append(hash, a, b.drop_last());
    }
}

/// Mixes one word in.
pub fn mix_word(hash: u64, word: u64) -> (r: u64)
    ensures
        r == fnv_step(hash, word),
        r == fnv(hash, seq![word]),
{
    assert(seq![word].drop_last() =~= Seq::<u64>::empty());
    assert(fnv(hash, Seq::<u64>::empty()) == hash);
    assert(seq![word].last() == word);
    (hash ^ word).wrapping_mul(FNV_PRIME)
}

/// Mixes the bytes of a number in.
pub fn mix_u64(hash: u64, value: u64) -> (r: u64)
    ensures
        r == fnv(hash, le_words(value)),
{
    let ghost words = le_words(value);
    let mut h: u64 = hash;
    let mut i: u32 = 0;
    assert(words.take(0) =~= Seq::<u64>::empty());
    while i < 8
        invariant
            i <= 8,
            words == le_words(value),
            h == fnv(hash, words.take(i as int)),
        decreases 8 - i,
    {
        let word: u64 = (value >> (8 * i)) & 0xff;
        proof {
            assert(words.take(i + 1) =~= words.take(i as int).push(word));
            assert(words.take(i + 1).drop_last() =~= words.take(i as int));
        }
        h = mix_word(h, word);
        i = i + 1;
    }
    assert(words.take(8) =~= words);
    h
}

/// Mixes the bytes of a string in.
pub fn mix_bytes(hash: u64, bytes: &[u8]) -> (r: u64)
    ensures
        r == fnv(hash, bytes@.map_values(|b: u8| b as u64)),
{
    let ghost words = bytes@.map_values(|b: u8| b as u64);
    let mut h: u64 = hash;
    let mut i: usize = 0;
    assert(words.take(0) =~= Seq::<u64>::empty());
    while i < bytes.len()
        invariant
            i <= bytes@.len(),
            words == bytes@.map_values(|b: u8| b as u64),
            h == fnv(hash, words.take(i as int)),
        decreases bytes@.len() - i,
    {
        let word: u64 = bytes[i] as u64;
        proof {
            assert(words.take(i + 1) =~= words.take(i as int).push(word));
            assert(words.take(i + 1).drop_last() =~= words.take(i as int));
        }
        h = mix_word(h, word);
        i = i + 1;
    }
    assert(words.take(words.len() as int) =~= words);
    h
}

/// The hash is FNV-1a of 64 bits: it starts from the standard offset, and every word is mixed in
/// before the hash is multiplied by the standard prime, modulo two to the 64.
pub proof fn lemma_fnv(hash: u64, words: Seq<u64>, word: u64)
    ensures
        FNV_OFFSET == 14_695_981_039_346_656_037,
        fnv(hash, Seq::empty()) == hash,
        fnv(hash, words.push(word)) as int == ((fnv(hash, words) ^ word) * 1_099_511_628_211)
            % 18_446_744_073_709_551_616,
{
    assert(words.push(word).drop_last() =~= words);
}

/// The words of a number are its eight bytes, the least significant first.
pub proof fn lemma_le_words(value: u64)
    ensures
        le_words(value).len() == 8,
        forall|i: int| 0 <= i < 8 ==> #[trigger] le_words(value)[i] < 256,
        value == le_words(value)[0] | le_words(value)[1] << 8 | le_words(value)[2] << 16 | le_words(
            value,
        )[3] << 24 | le_words(value)[4] << 32 | le_words(value)[5] << 40 | le_words(value)[6]
            << 48 | le_words(value)[7] << 56,
{
    let w = le_words(value);
    assert forall|i: int| 0 <= i < 8 implies #[trigger] w[i] < 256 by {
        let shift = (8 * i) as u32;
        assert((value >> shift) & 0xff < 256) by (bit_vector);
    }
    assert(value == (value >> 0u32) & 0xff | ((value >> 8u32) & 0xff) << 8 | ((value >> 16u32)
        & 0xff) << 16 | ((value >> 24u32) & 0xff) << 24 | ((value >> 32u32) & 0xff) << 32 | ((value
        >> 40u32) & 0xff) << 40 | ((value >> 48u32) & 0xff) << 48 | ((value >> 56u32) & 0xff)
        << 56) by (bit_vector);
}

} // verus!
