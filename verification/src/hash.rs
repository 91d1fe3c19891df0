//! Stable non-cryptographic hashing.
//!
//! Every node computes these values independently, so they are specified bit
//! for bit rather than through a platform hasher.
use vstd::prelude::*;

verus! {

/// FNV-1a starting value.
pub const FNV_OFFSET: u64 = 0xcbf2_9ce4_8422_2325;

/// FNV-1a multiplier.
pub const FNV_PRIME: u64 = 0x0000_0100_0000_01b3;

/// One FNV-1a step.
pub open spec fn fnv_step(hash: u64, byte: u8) -> u64 {
    (hash ^ (byte as u64)).wrapping_mul(FNV_PRIME)
}

/// FNV-1a over `bytes`, continuing from `hash`.
pub open spec fn fnv_fold(hash: u64, bytes: Seq<u8>) -> u64
    decreases bytes.len(),
{
    if bytes.len() == 0 {
        hash
    } else {
        fnv_step(fnv_fold(hash, bytes.drop_last()), bytes.last())
    }
}

/// Hashing a concatenation continues where the first part stopped.
pub proof fn lemma_fnv_fold_concat(hash: u64, left: Seq<u8>, right: Seq<u8>)
    ensures
        fnv_fold(hash, left + right) == fnv_fold(fnv_fold(hash, left), right),
    decreases right.len(),
{
    if right.len() == 0 {
        assert(left + right =~= left);
    } else {
        lemma_fnv_fold_concat(hash, left, right.drop_last());
        assert((left + right).drop_last() =~= left + right.drop_last());
    }
}

/// Steps on the same byte keep different hashes apart: the multiplier has an
/// inverse among the 64-bit numbers.
pub proof fn lemma_fnv_step_injective(one: u64, two: u64, byte: u8)
    requires
        one != two,
    ensures
        fnv_step(one, byte) != fnv_step(two, byte),
{
    let wide = byte as u64;
    assert(one ^ wide != two ^ wide) by (bit_vector)
        requires
            one != two,
    ;
    lemma_product_injective(one ^ wide, two ^ wide);
}

/// Multiplying keeps different numbers apart.
proof fn lemma_product_injective(one: u64, two: u64)
    requires
        one != two,
    ensures
        one.wrapping_mul(FNV_PRIME) != two.wrapping_mul(FNV_PRIME),
{
    let word = 0x1_0000_0000_0000_0000int;
    let prime = FNV_PRIME as int;
    let inverse = 0xce965057aff6957bint;
    let laps = 887285111055int;
    assert(prime * inverse == 1 + laps * word);
    if one.wrapping_mul(FNV_PRIME) == two.wrapping_mul(FNV_PRIME) {
        let apart = one - two;
        let a = one as int * prime;
        let b = two as int * prime;
        assert(a % word == b % word);
        vstd::arithmetic::div_mod::lemma_fundamental_div_mod(a, word);
        vstd::arithmetic::div_mod::lemma_fundamental_div_mod(b, word);
        let turns = a / word - b / word;
        assert(apart * prime == turns * word) by (nonlinear_arith)
            requires
                apart == one - two,
                a == one as int * prime,
                b == two as int * prime,
                a == word * (a / word) + a % word,
                b == word * (b / word) + b % word,
                a % word == b % word,
                turns == a / word - b / word,
        ;
        let rest = turns * inverse - apart * laps;
        assert(apart == rest * word) by (nonlinear_arith)
            requires
                prime * inverse == 1 + laps * word,
                apart * prime == turns * word,
                rest == turns * inverse - apart * laps,
        ;
        assert(rest == 0) by (nonlinear_arith)
            requires
                apart == rest * word,
                -word < apart < word,
                word > 0,
        ;
        assert(false);
    }
}

/// Hashing the same bytes keeps different hashes apart.
pub proof fn lemma_fnv_fold_injective(one: u64, two: u64, bytes: Seq<u8>)
    requires
        one != two,
    ensures
        fnv_fold(one, bytes) != fnv_fold(two, bytes),
    decreases bytes.len(),
{
    if bytes.len() > 0 {
        let rest = bytes.drop_last();
        lemma_fnv_fold_injective(one, two, rest);
        lemma_fnv_step_injective(fnv_fold(one, rest), fnv_fold(two, rest), bytes.last());
    }
}

/// A byte string and one that differs from it in one byte have different
/// hashes.
pub proof fn lemma_fnv_notices_a_change(hash: u64, bytes: Seq<u8>, at: int, byte: u8)
    requires
        0 <= at < bytes.len(),
        bytes[at] != byte,
    ensures
        fnv_fold(hash, bytes.update(at, byte)) != fnv_fold(hash, bytes),
{
    let changed = bytes.update(at, byte);
    let before = bytes.take(at);
    let behind = bytes.skip(at + 1);
    let start = fnv_fold(hash, before);
    let was = bytes[at];
    assert(bytes =~= before.push(was) + behind);
    assert(changed =~= before.push(byte) + behind);
    assert(before.push(was).drop_last() =~= before);
    assert(before.push(byte).drop_last() =~= before);
    assert(start ^ (was as u64) != start ^ (byte as u64)) by (bit_vector)
        requires
            was != byte,
    ;
    lemma_product_injective(start ^ (was as u64), start ^ (byte as u64));
    lemma_fnv_fold_concat(hash, before.push(was), behind);
    lemma_fnv_fold_concat(hash, before.push(byte), behind);
    lemma_fnv_fold_injective(
        fnv_fold(hash, before.push(byte)),
        fnv_fold(hash, before.push(was)),
        behind,
    );
}

/// Mix `bytes` into the running `hash`.
pub fn hash_bytes(hash: &mut u64, bytes: &[u8])
    ensures
        *final(hash) == fnv_fold(*old(hash), bytes@),
{
    let ghost start = *hash;
    let mut index: usize = 0;
    assert(bytes@.subrange(0, 0) =~= Seq::<u8>::empty());
    while index < bytes.len()
        invariant
            index <= bytes@.len(),
            *hash == fnv_fold(start, bytes@.subrange(0, index as int)),
        decreases bytes@.len() - index,
    {
        proof {
            let next = bytes@.subrange(0, index + 1);
            assert(next.drop_last() =~= bytes@.subrange(0, index as int));
        }
        *hash = (*hash ^ (bytes[index] as u64)).wrapping_mul(FNV_PRIME);
        index = index + 1;
    }
    assert(bytes@.subrange(0, bytes@.len() as int) =~= bytes@);
}

/// FNV-1a of a whole byte string.
pub fn fnv1a64(bytes: &[u8]) -> (hash: u64)
    ensures
        hash == fnv_fold(FNV_OFFSET, bytes@),
{
    let mut hash: u64 = FNV_OFFSET;
    hash_bytes(&mut hash, bytes);
    hash
}

/// Final bit mixing applied to a rendezvous or policy hash.
pub open spec fn avalanched(value: u64) -> u64 {
    let first = (value ^ (value >> 30)).wrapping_mul(0xbf58_476d_1ce4_e5b9);
    let second = (first ^ (first >> 27)).wrapping_mul(0x94d0_49bb_1331_11eb);
    second ^ (second >> 31)
}

/// Spread every input bit over the whole word.
pub fn avalanche(value: u64) -> (mixed: u64)
    ensures
        mixed == avalanched(value),
{
    let first: u64 = (value ^ (value >> 30)).wrapping_mul(0xbf58_476d_1ce4_e5b9);
    let second: u64 = (first ^ (first >> 27)).wrapping_mul(0x94d0_49bb_1331_11eb);
    second ^ (second >> 31)
}

/// One bit of the CRC-32 shift register.
pub open spec fn crc_shift(crc: u32) -> u32 {
    if crc % 2 == 1 {
        (crc / 2) ^ 0xedb8_8320
    } else {
        (crc / 2) as u32
    }
}

/// `count` bits of the CRC-32 shift register.
pub open spec fn crc_shifts(crc: u32, count: nat) -> u32
    decreases count,
{
    if count == 0 {
        crc
    } else {
        crc_shift(crc_shifts(crc, (count - 1) as nat))
    }
}

/// The CRC-32 register after `bytes`.
pub open spec fn crc_fold(crc: u32, bytes: Seq<u8>) -> u32
    decreases bytes.len(),
{
    if bytes.len() == 0 {
        crc
    } else {
        crc_shifts(crc_fold(crc, bytes.drop_last()) ^ (bytes.last() as u32), 8)
    }
}

/// The CRC-32 of `bytes`.
pub open spec fn crc32_of(bytes: Seq<u8>) -> u32 {
    !crc_fold(0xffff_ffff, bytes)
}

/// Compute the CRC-32 of `bytes`.
pub fn crc32(bytes: &[u8]) -> (crc: u32)
    ensures
        crc == crc32_of(bytes@),
{
    let mut crc: u32 = 0xffff_ffff;
    let mut index: usize = 0;
    assert(bytes@.take(0) =~= Seq::<u8>::empty());
    while index < bytes.len()
        invariant
            index <= bytes@.len(),
            crc == crc_fold(0xffff_ffff, bytes@.take(index as int)),
        decreases bytes@.len() - index,
    {
        let start: u32 = crc ^ (bytes[index] as u32);
        crc = start;
        let mut bit: u32 = 0;
        while bit < 8
            invariant
                bit <= 8,
                crc == crc_shifts(start, bit as nat),
            decreases 8 - bit,
        {
            crc = if crc % 2 == 1 {
                (crc / 2) ^ 0xedb8_8320
            } else {
                crc / 2
            };
            bit += 1;
        }
        proof {
            let next = bytes@.take(index + 1);
            assert(next.drop_last() =~= bytes@.take(index as int));
        }
        index += 1;
    }
    assert(bytes@.take(index as int) =~= bytes@);
    !crc
}

/// FNV-1a starts with its offset and takes in each byte by an exclusive or and a
/// multiplication by its prime.
pub proof fn law_hash_takes_in_one_byte(hash: u64, bytes: Seq<u8>, byte: u8)
    ensures
        fnv_fold(hash, Seq::empty()) == hash,
        fnv_fold(hash, bytes.push(byte)) == (fnv_fold(hash, bytes) ^ (byte as u64)) as int
            * 0x100_0000_01b3 % 0x1_0000_0000_0000_0000,
        FNV_OFFSET == 0xcbf2_9ce4_8422_2325,
{
    assert(bytes.push(byte).drop_last() =~= bytes);
}

/// Another byte anywhere in the data changes its hash.
pub proof fn law_hash_notices_a_change(hash: u64, bytes: Seq<u8>, at: int, byte: u8)
    requires
        0 <= at < bytes.len(),
        byte != bytes[at],
    ensures
        fnv_fold(hash, bytes.update(at, byte)) != fnv_fold(hash, bytes),
{
    lemma_fnv_notices_a_change(hash, bytes, at, byte);
}

/// A CRC of no bytes is zero, and its register takes in a byte by eight shifts, each
/// with the reflected polynomial where a one falls out.
pub proof fn law_crc_takes_in_one_byte(crc: u32, bytes: Seq<u8>, byte: u8)
    ensures
        crc32_of(Seq::empty()) == 0,
        crc_fold(crc, bytes.push(byte)) == crc_shifts(crc_fold(crc, bytes) ^ (byte as u32), 8),
        crc % 2 == 0 ==> crc_shift(crc) == crc / 2,
        crc % 2 == 1 ==> crc_shift(crc) == (crc / 2) ^ 0xedb8_8320,
        crc_shifts(crc, 0) == crc,
{
    assert(bytes.push(byte).drop_last() =~= bytes);
    assert(!0xffff_ffffu32 == 0u32) by (bit_vector);
}

} // verus!
