//! Facts about the individual bits of machine words.
use vstd::prelude::*;

verus! {

/// Whether bit `i` of `w` is set, bit 0 being the lowest.
pub open spec fn word_bit(w: u64, i: int) -> bool {
    (w >> (i as u64)) & 1u64 == 1u64
}

/// Whether bit `i` of `w` is set, bit 0 being the lowest.
pub open spec fn byte_bit(w: u8, i: int) -> bool {
    (w >> (i as u8)) & 1u8 == 1u8
}

/// Setting bit `k` of a word sets that bit and no other.
pub proof fn lemma_word_set(w: u64, k: u64)
    requires
        k < 64,
    ensures
        forall|i: int|
            0 <= i < 64 ==> #[trigger] word_bit(w | (1u64 << k), i) == (word_bit(w, i) || i == k),
{
    assert forall|i: int| 0 <= i < 64 implies #[trigger] word_bit(w | (1u64 << k), i) == (
    word_bit(w, i) || i == k) by {
        let j = i as u64;
        assert((((w | (1u64 << k)) >> j) & 1u64 == 1u64) == ((w >> j) & 1u64 == 1u64 || j == k))
            by (bit_vector)
            requires
                j < 64,
                k < 64,
        ;
    }
}

/// Clearing bit `k` of a word clears that bit and no other.
pub proof fn lemma_word_clear(w: u64, k: u64)
    requires
        k < 64,
    ensures
        forall|i: int|
            0 <= i < 64 ==> #[trigger] word_bit(w & !(1u64 << k), i) == (word_bit(w, i) && i != k),
{
    assert forall|i: int| 0 <= i < 64 implies #[trigger] word_bit(w & !(1u64 << k), i) == (
    word_bit(w, i) && i != k) by {
        let j = i as u64;
        assert((((w & !(1u64 << k)) >> j) & 1u64 == 1u64) == ((w >> j) & 1u64 == 1u64 && j != k))
            by (bit_vector)
            requires
                j < 64,
                k < 64,
        ;
    }
}

/// Masking a word with `1 << k` tests its bit `k`.
pub proof fn lemma_word_mask(w: u64, k: u64)
    requires
        k < 64,
    ensures
        (w & (1u64 << k) != 0) == word_bit(w, k as int),
{
    assert((w & (1u64 << k) != 0) == ((w >> k) & 1u64 == 1u64)) by (bit_vector)
        requires
            k < 64,
    ;
}

/// A word is all ones exactly when it equals `u64::MAX`; otherwise its lowest
/// clear bit is the number of trailing zeros of its complement.
pub proof fn lemma_word_first_clear(w: u64)
    ensures
        w == u64::MAX <==> (forall|i: int| 0 <= i < 64 ==> word_bit(w, i)),
        w != u64::MAX ==> {
            let t = vstd::std_specs::bits::u64_trailing_zeros(!w) as int;
            &&& 0 <= t < 64
            &&& !word_bit(w, t)
            &&& forall|i: int| 0 <= i < t ==> word_bit(w, i)
        },
{
    let t = vstd::std_specs::bits::u64_trailing_zeros(!w);
    vstd::std_specs::bits::axiom_u64_trailing_zeros(!w);
    assert(w != u64::MAX <==> !w != 0) by (bit_vector);
    if w == u64::MAX {
        assert forall|i: int| 0 <= i < 64 implies word_bit(w, i) by {
            let j = i as u64;
            assert((0xffff_ffff_ffff_ffffu64 >> j) & 1u64 == 1u64) by (bit_vector)
                requires
                    j < 64,
            ;
        }
    } else {
        let k = t as u64;
        assert((w >> k) & 1u64 == 0u64) by (bit_vector)
            requires
                k < 64,
                (!w >> k) & 1u64 == 1u64,
        ;
        assert(!word_bit(w, t as int));
        assert forall|i: int| 0 <= i < t implies word_bit(w, i) by {
            let j = i as u64;
            assert((!w >> j) & 1u64 == 0u64);
            assert((w >> j) & 1u64 == 1u64) by (bit_vector)
                requires
                    j < 64,
                    (!w >> j) & 1u64 == 0u64,
            ;
        }
    }
}

/// A word is zero exactly when no bit is set; otherwise its lowest set bit is
/// the number of its trailing zeros, and `w & (w - 1)` clears that bit alone.
pub proof fn lemma_word_first_set(w: u64)
    ensures
        w == 0 <==> (forall|i: int| 0 <= i < 64 ==> !word_bit(w, i)),
        w != 0 ==> {
            let t = vstd::std_specs::bits::u64_trailing_zeros(w) as int;
            &&& 0 <= t < 64
            &&& word_bit(w, t)
            &&& forall|i: int| 0 <= i < t ==> !word_bit(w, i)
            &&& forall|i: int|
                0 <= i < 64 ==> #[trigger] word_bit(w & ((w - 1) as u64), i) == (word_bit(w, i) && i
                    != t)
        },
{
    let t = vstd::std_specs::bits::u64_trailing_zeros(w);
    vstd::std_specs::bits::axiom_u64_trailing_zeros(w);
    if w == 0 {
        assert forall|i: int| 0 <= i < 64 implies !word_bit(w, i) by {
            let j = i as u64;
            assert((0u64 >> j) & 1u64 == 0u64) by (bit_vector);
        }
    } else {
        let k = t as u64;
        assert(word_bit(w, t as int));
        assert forall|i: int| 0 <= i < t implies !word_bit(w, i) by {
            let j = i as u64;
            assert((w >> j) & 1u64 == 0u64);
        }
        let u = (w - 1) as u64;
        assert forall|i: int| 0 <= i < 64 implies #[trigger] word_bit(w & u, i) == (word_bit(w, i)
            && i != t) by {
            let j = i as u64;
            assert((((w & u) >> j) & 1u64 == 1u64) == ((w >> j) & 1u64 == 1u64 && j != k))
                by (bit_vector)
                requires
                    j < 64,
                    k < 64,
                    w != 0,
                    u == w - 1,
                    (w >> k) & 1u64 == 1u64,
                    w << ((64 - k) as u64) == 0,
            ;
        }
    }
}

/// The byte counterparts of the word facts: setting and clearing one bit.
pub proof fn lemma_byte_set_clear(w: u8, k: u8)
    requires
        k < 8,
    ensures
        forall|i: int|
            0 <= i < 8 ==> #[trigger] byte_bit(w | (1u8 << k), i) == (byte_bit(w, i) || i == k),
        forall|i: int|
            0 <= i < 8 ==> #[trigger] byte_bit(w & !(1u8 << k), i) == (byte_bit(w, i) && i != k),
{
    assert forall|i: int| 0 <= i < 8 implies #[trigger] byte_bit(w | (1u8 << k), i) == (byte_bit(
        w,
        i,
    ) || i == k) by {
        let j = i as u8;
        assert((((w | (1u8 << k)) >> j) & 1u8 == 1u8) == ((w >> j) & 1u8 == 1u8 || j == k))
            by (bit_vector)
            requires
                j < 8,
                k < 8,
        ;
    }
    assert forall|i: int| 0 <= i < 8 implies #[trigger] byte_bit(w & !(1u8 << k), i) == (byte_bit(
        w,
        i,
    ) && i != k) by {
        let j = i as u8;
        assert((((w & !(1u8 << k)) >> j) & 1u8 == 1u8) == ((w >> j) & 1u8 == 1u8 && j != k))
            by (bit_vector)
            requires
                j < 8,
                k < 8,
        ;
    }
}

/// A byte is all ones exactly when it equals `0xFF`; otherwise its lowest
/// clear bit is the number of trailing zeros of its complement. A byte without
/// set bits is zero.
pub proof fn lemma_byte_first_clear(w: u8)
    ensures
        w == 0xFF <==> (forall|i: int| 0 <= i < 8 ==> byte_bit(w, i)),
        w == 0 <==> (forall|i: int| 0 <= i < 8 ==> !byte_bit(w, i)),
        w != 0xFF ==> {
            let t = vstd::std_specs::bits::u8_trailing_zeros(!w) as int;
            &&& 0 <= t < 8
            &&& !byte_bit(w, t)
            &&& forall|i: int| 0 <= i < t ==> byte_bit(w, i)
        },
{
    let t = vstd::std_specs::bits::u8_trailing_zeros(!w);
    vstd::std_specs::bits::axiom_u8_trailing_zeros(!w);
    vstd::std_specs::bits::axiom_u8_trailing_zeros(w);
    assert(w != 0xFF <==> !w != 0) by (bit_vector);
    if w == 0xFF {
        assert forall|i: int| 0 <= i < 8 implies byte_bit(w, i) by {
            let j = i as u8;
            assert((0xffu8 >> j) & 1u8 == 1u8) by (bit_vector)
                requires
                    j < 8,
            ;
        }
    } else {
        let k = t as u8;
        assert((w >> k) & 1u8 == 0u8) by (bit_vector)
            requires
                k < 8,
                (!w >> k) & 1u8 == 1u8,
        ;
        assert(!byte_bit(w, t as int));
        assert forall|i: int| 0 <= i < t implies byte_bit(w, i) by {
            let j = i as u8;
            assert((!w >> j) & 1u8 == 0u8);
            assert((w >> j) & 1u8 == 1u8) by (bit_vector)
                requires
                    j < 8,
                    (!w >> j) & 1u8 == 0u8,
            ;
        }
    }
    if w == 0 {
        assert forall|i: int| 0 <= i < 8 implies !byte_bit(w, i) by {
            let j = i as u8;
            assert((0u8 >> j) & 1u8 == 0u8) by (bit_vector);
        }
    } else {
        let s = vstd::std_specs::bits::u8_trailing_zeros(w);
        assert(byte_bit(w, s as int));
    }
}

} // verus!
