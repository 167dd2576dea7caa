//! Byte-level helpers: the internet checksum over big-endian 16-bit words.

use vstd::prelude::*;

verus! {

/// The sum of a byte string read as big-endian 16-bit words, an odd final
/// byte counting as the high half of a word.
pub open spec fn sum16(bytes: Seq<u8>) -> int
    decreases bytes.len(),
{
    if bytes.len() == 0 {
        0
    } else if bytes.len() == 1 {
        bytes[0] * 256
    } else {
        bytes[0] * 256 + bytes[1] + sum16(bytes.skip(2))
    }
}

/// Word sums are non-negative and at most one word's worth per byte pair.
pub proof fn lemma_sum16_bound(bytes: Seq<u8>)
    ensures
        0 <= sum16(bytes) <= 0x10000 * bytes.len(),
    decreases bytes.len(),
{
    if bytes.len() >= 2 {
        lemma_sum16_bound(bytes.skip(2));
    }
}

/// End-around-carry folding of a sum into sixteen bits.
pub open spec fn oc_fold(t: int) -> int
    decreases t,
{
    if t > 0xFFFF {
        oc_fold(t % 0x10000 + t / 0x10000)
    } else {
        t
    }
}

/// Folding a non-negative sum yields a sixteen-bit value.
pub proof fn lemma_oc_fold_range(t: int)
    requires
        t >= 0,
    ensures
        0 <= oc_fold(t) <= 0xFFFF,
    decreases t,
{
    if t > 0xFFFF {
        lemma_oc_fold_range(t % 0x10000 + t / 0x10000);
    }
}

/// The internet checksum (RFC 1071) of a byte string: the ones' complement
/// of the ones'-complement sum of its big-endian 16-bit words.
pub open spec fn checksum16(bytes: Seq<u8>) -> int {
    0xFFFF - oc_fold(sum16(bytes))
}

/// Compute the internet checksum of `bytes`.
pub fn internet_checksum(bytes: &Vec<u8>) -> (r: u16)
    requires
        bytes@.len() <= 0x20000,
    ensures
        r as int == checksum16(bytes@),
{
    let n = bytes.len();
    let mut acc: u64 = 0;
    let mut i: usize = 0;
    proof {
        assert(bytes@.skip(0) =~= bytes@);
    }
    while n - i >= 2
        invariant
            i <= n,
            n == bytes@.len(),
            bytes@.len() <= 0x20000,
            0 <= acc,
            acc + sum16(bytes@.skip(i as int)) == sum16(bytes@),
            acc <= 0x10000 * i,
        decreases n - i,
    {
        let word: u64 = (bytes[i] as u64) * 256 + (bytes[i + 1] as u64);
        proof {
            assert(bytes@.skip(i as int).skip(2) =~= bytes@.skip(i + 2));
            assert(bytes@.skip(i as int)[0] == bytes@[i as int]);
            assert(bytes@.skip(i as int)[1] == bytes@[i + 1]);
            lemma_sum16_bound(bytes@.skip(i as int));
            lemma_sum16_bound(bytes@.skip(i + 2));
        }
        acc = acc + word;
        i = i + 2;
    }
    if i < n {
        // One odd byte remains: it is the high half of the last word.
        proof {
            assert(bytes@.skip(i as int).len() == 1);
            assert(bytes@.skip(i as int)[0] == bytes@[i as int]);
        }
        acc = acc + (bytes[i] as u64) * 256;
    }
    assert(acc == sum16(bytes@));

    // Fold the carries back in until the sum fits sixteen bits.
    while acc > 0xFFFF
        invariant
            0 <= acc,
            oc_fold(acc as int) == oc_fold(sum16(bytes@)),
        decreases acc,
    {
        acc = acc % 0x10000 + acc / 0x10000;
    }
    proof {
        lemma_sum16_bound(bytes@);
        lemma_oc_fold_range(sum16(bytes@));
    }
    (0xFFFF - acc) as u16
}

} // verus!
