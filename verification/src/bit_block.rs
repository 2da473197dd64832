//! A block of 512 bits, the unit from which the bitmap hierarchy is built.
use vstd::prelude::*;

use crate::bits::{
    lemma_word_clear, lemma_word_first_clear, lemma_word_first_set, lemma_word_mask, lemma_word_set,
    word_bit,
};
use crate::counting::{
    count, lemma_count_bound, lemma_count_none, lemma_count_shift, lemma_count_split,
    lemma_int_set_count,
};

verus! {

/// The number of bits set in `w`.
pub open spec fn word_count(w: u64) -> nat {
    count(|i: int| word_bit(w, i), 0, 64)
}

/// `u64::count_ones` returns the number of ones in the binary representation
/// of its argument.
pub assume_specification[ u64::count_ones ](w: u64) -> (r: u32)
    ensures
        r == word_count(w),
;

/// 512 bits, kept as eight words: bit `i` is bit `i % 64` of word `i / 64`.
pub struct BitBlock {
    pub data: [u64; 8],
}

impl View for BitBlock {
    type V = Set<int>;

    /// The positions of the set bits.
    open spec fn view(&self) -> Set<int> {
        Set::new(|i: int| self.has(i))
    }
}

impl Default for BitBlock {
    fn default() -> (block: Self)
        ensures
            block.is_clear(),
    {
        let block = BitBlock { data: [0u64; 8] };
        proof {
            lemma_word_first_set(0);
            assert forall|i: int| !#[trigger] block.has(i) by {
                if 0 <= i < 512 {
                    assert(block.data@[i / 64] == 0u64);
                    assert(!word_bit(0u64, i % 64));
                }
            }
        }
        block
    }
}

impl BitBlock {
    /// Whether bit `i` is set.
    pub open spec fn has(&self, i: int) -> bool {
        0 <= i < 512 && word_bit(self.data@[i / 64], i % 64)
    }

    /// Whether every bit is set.
    pub open spec fn full(&self) -> bool {
        forall|i: int| 0 <= i < 512 ==> #[trigger] self.has(i)
    }

    /// Whether no bit is set.
    pub open spec fn is_clear(&self) -> bool {
        forall|i: int| !#[trigger] self.has(i)
    }

    /// The bits, as a predicate on positions.
    pub open spec fn bits(&self) -> spec_fn(int) -> bool {
        |i: int| self.has(i)
    }

    /// A full word extends a full stretch of bits by 64.
    proof fn lemma_full_word(&self, w: int)
        requires
            0 <= w < 8,
            self.data@[w] == u64::MAX,
            forall|i: int| 0 <= i < w * 64 ==> #[trigger] self.has(i),
        ensures
            forall|i: int| 0 <= i < (w + 1) * 64 ==> #[trigger] self.has(i),
    {
        lemma_word_first_clear(self.data@[w]);
        assert forall|i: int| 0 <= i < (w + 1) * 64 implies #[trigger] self.has(i) by {
            if i >= w * 64 {
                assert(i / 64 == w);
                assert(word_bit(self.data@[w], i % 64));
            }
        }
    }

    /// Whether all 512 bits are set.
    pub fn is_full(&self) -> (r: bool)
        ensures
            r == self.full(),
    {
        let mut w: usize = 0;
        while w < 8
            invariant
                w <= 8,
                forall|i: int| 0 <= i < w * 64 ==> #[trigger] self.has(i),
            decreases 8 - w,
        {
            proof {
                lemma_word_first_clear(self.data@[w as int]);
            }
            if self.data[w] != u64::MAX {
                proof {
                    let t = vstd::std_specs::bits::u64_trailing_zeros(!self.data@[w as int]) as int;
                    assert((w * 64 + t) / 64 == w && (w * 64 + t) % 64 == t);
                    assert(!self.has(w * 64 + t));
                }
                return false;
            }
            proof {
                self.lemma_full_word(w as int);
            }
            w = w + 1;
        }
        true
    }

    /// The position of the lowest clear bit, or `None` if the block is full.
    pub fn find_first_free(&self) -> (r: Option<usize>)
        ensures
            match r {
                Some(i) => {
                    &&& i < 512
                    &&& !self.has(i as int)
                    &&& forall|j: int| 0 <= j < i ==> #[trigger] self.has(j)
                },
                None => self.full(),
            },
    {
        let mut w: usize = 0;
        while w < 8
            invariant
                w <= 8,
                forall|i: int| 0 <= i < w * 64 ==> #[trigger] self.has(i),
            decreases 8 - w,
        {
            let word = self.data[w];
            proof {
                lemma_word_first_clear(word);
            }
            if word != u64::MAX {
                let bit_idx = (!word).trailing_zeros() as usize;
                let i: usize = w * 64 + bit_idx;
                proof {
                    assert(i as int / 64 == w && i as int % 64 == bit_idx);
                    assert(!self.has(i as int));
                    assert forall|j: int| 0 <= j < i implies #[trigger] self.has(j) by {
                        if j >= w * 64 {
                            assert(j / 64 == w);
                            assert(word_bit(word, j % 64));
                        }
                    }
                }
                return Some(i);
            }
            proof {
                self.lemma_full_word(w as int);
            }
            w = w + 1;
        }
        None
    }

    /// Sets a bit and tells whether the block is full afterwards.
    pub fn set_bit_and_check_full(&mut self, bit_idx: usize) -> (r: bool)
        requires
            bit_idx < 512,
        ensures
            final(self)@ == old(self)@.insert(bit_idx as int),
            forall|i: int|
                #![trigger final(self).has(i)]
                final(self).has(i) == (old(self).has(i) || i == bit_idx),
            r == final(self).full(),
    {
        let word_idx: usize = bit_idx / 64;
        let bit: u64 = (bit_idx % 64) as u64;
        let word: u64 = self.data[word_idx] | (1u64 << bit);
        self.data[word_idx] = word;
        proof {
            lemma_word_set(old(self).data@[word_idx as int], bit);
            assert forall|i: int|
                #![trigger self.has(i)]
                self.has(i) == (old(self).has(i) || i == bit_idx) by {
                if 0 <= i < 512 {
                    if i / 64 == word_idx {
                        assert(word_bit(word, i % 64) == (word_bit(
                            old(self).data@[word_idx as int],
                            i % 64,
                        ) || i % 64 == bit));
                    }
                }
            }
            assert(self@ =~= old(self)@.insert(bit_idx as int));
        }
        // A word that is not full settles the question for the whole block.
        if word != u64::MAX {
            proof {
                lemma_word_first_clear(word);
                let t = vstd::std_specs::bits::u64_trailing_zeros(!word) as int;
                assert((word_idx * 64 + t) / 64 == word_idx && (word_idx * 64 + t) % 64 == t);
                assert(!self.has(word_idx * 64 + t));
            }
            return false;
        }
        self.is_full()
    }

    /// Clears a bit and tells whether the block was full before.
    pub fn clear_bit_and_was_full(&mut self, bit_idx: usize) -> (r: bool)
        requires
            bit_idx < 512,
        ensures
            final(self)@ == old(self)@.remove(bit_idx as int),
            forall|i: int|
                #![trigger final(self).has(i)]
                final(self).has(i) == (old(self).has(i) && i != bit_idx),
            r == old(self).full(),
    {
        let word_idx: usize = bit_idx / 64;
        let bit: u64 = (bit_idx % 64) as u64;
        let was_full = self.is_full();
        let word: u64 = self.data[word_idx] & !(1u64 << bit);
        self.data[word_idx] = word;
        proof {
            lemma_word_clear(old(self).data@[word_idx as int], bit);
            assert forall|i: int|
                #![trigger self.has(i)]
                self.has(i) == (old(self).has(i) && i != bit_idx) by {
                if 0 <= i < 512 {
                    if i / 64 == word_idx {
                        assert(word_bit(word, i % 64) == (word_bit(
                            old(self).data@[word_idx as int],
                            i % 64,
                        ) && i % 64 != bit));
                    }
                }
            }
            assert(self@ =~= old(self)@.remove(bit_idx as int));
        }
        was_full
    }

    /// Whether a bit is set.
    pub fn is_set(&self, bit_idx: usize) -> (r: bool)
        requires
            bit_idx < 512,
        ensures
            r == self@.contains(bit_idx as int),
            r == self.has(bit_idx as int),
    {
        let word_idx: usize = bit_idx / 64;
        let bit: u64 = (bit_idx % 64) as u64;
        let word: u64 = self.data[word_idx];
        proof {
            lemma_word_mask(word, bit);
        }
        word & (1u64 << bit) != 0
    }

    /// The number of set bits of a word equals that of its stretch of the
    /// block.
    proof fn lemma_word_stretch(&self, w: int)
        requires
            0 <= w < 8,
        ensures
            word_count(self.data@[w]) == count(self.bits(), w * 64, w * 64 + 64),
    {
        let word = self.data@[w];
        let p = |i: int| word_bit(word, i);
        assert forall|i: int| 0 <= i < 64 implies #[trigger] p(i) == (self.bits())(i + w * 64) by {
            assert((i + w * 64) / 64 == w && (i + w * 64) % 64 == i);
        }
        lemma_count_shift(p, self.bits(), 0, 64, w * 64);
    }

    /// The size of the view is the count of the bits.
    pub proof fn lemma_view_len(&self)
        ensures
            self@.finite(),
            self@.len() == count(self.bits(), 0, 512),
    {
        lemma_int_set_count(self@, 0, 512);
        lemma_count_shift(|i: int| self@.contains(i), self.bits(), 0, 512, 0);
    }

    /// The number of set bits.
    pub fn popcnt(&self) -> (r: u32)
        ensures
            r == self@.len(),
            r == count(self.bits(), 0, 512),
            r <= 512,
    {
        let mut w: usize = 0;
        let mut total: u32 = 0;
        while w < 8
            invariant
                w <= 8,
                total == count(self.bits(), 0, w * 64),
                total <= w * 64,
            decreases 8 - w,
        {
            proof {
                self.lemma_word_stretch(w as int);
                lemma_count_split(self.bits(), 0, w * 64, w * 64 + 64);
                lemma_count_bound(self.bits(), w * 64, w * 64 + 64);
            }
            total = total + self.data[w].count_ones();
            w = w + 1;
        }
        proof {
            self.lemma_view_len();
        }
        total
    }

    /// The position of the set bit that has exactly `n` set bits below it.
    pub fn select(&self, n: u32) -> (r: usize)
        requires
            n < self@.len(),
        ensures
            r < 512,
            self.has(r as int),
            count(self.bits(), 0, r as int) == n,
    {
        let mut choice: u32 = n;
        let mut w: usize = 0;
        proof {
            self.lemma_view_len();
        }
        while w < 8
            invariant
                w <= 8,
                choice + count(self.bits(), 0, w * 64) == n,
                n < count(self.bits(), 0, 512),
            decreases 8 - w,
        {
            let word: u64 = self.data[w];
            let pop: u32 = word.count_ones();
            proof {
                self.lemma_word_stretch(w as int);
                lemma_count_split(self.bits(), 0, w * 64, w * 64 + 64);
            }
            if choice < pop {
                let bit_pos: usize = select_nth_bit_u64(word, choice);
                let r: usize = w * 64 + bit_pos;
                proof {
                    let p = |i: int| word_bit(word, i);
                    assert forall|i: int| 0 <= i < bit_pos implies #[trigger] p(i) == (self.bits())(
                        i + w * 64,
                    ) by {
                        assert((i + w * 64) / 64 == w && (i + w * 64) % 64 == i);
                    }
                    lemma_count_shift(p, self.bits(), 0, bit_pos as int, w * 64);
                    lemma_count_split(self.bits(), 0, w * 64, r as int);
                    assert(r as int / 64 == w && r as int % 64 == bit_pos);
                }
                return r;
            }
            choice = choice - pop;
            w = w + 1;
        }
        proof {
            assert(false);
        }
        0
    }
}

/// The position of the set bit of `word` that has exactly `n` set bits below
/// it.
pub fn select_nth_bit_u64(word: u64, n: u32) -> (r: usize)
    requires
        n < word_count(word),
    ensures
        r < 64,
        word_bit(word, r as int),
        count(|i: int| word_bit(word, i), 0, r as int) == n,
{
    let ghost p = |i: int| word_bit(word, i);
    let ghost mut low: int = 0;
    let mut remaining: u32 = n;
    let mut w: u64 = word;
    while w != 0
        invariant
            p == (|i: int| word_bit(word, i)),
            0 <= low <= 64,
            n < count(p, 0, 64),
            count(p, 0, low) + remaining == n,
            forall|i: int|
                0 <= i < 64 ==> #[trigger] word_bit(w, i) == (word_bit(word, i) && i >= low),
        decreases 64 - low,
    {
        let bit_pos: u32 = w.trailing_zeros();
        proof {
            lemma_word_first_set(w);
            assert forall|i: int| low <= i < bit_pos implies !#[trigger] p(i) by {
                assert(!word_bit(w, i));
            }
            assert(word_bit(w, bit_pos as int));
            assert(low <= bit_pos);
            lemma_count_none(p, low, bit_pos as int);
            lemma_count_split(p, 0, low, bit_pos as int);
        }
        if remaining == 0 {
            return bit_pos as usize;
        }
        proof {
            lemma_count_split(p, 0, bit_pos as int, bit_pos + 1);
            assert(count(p, bit_pos as int, bit_pos as int) == 0);
            assert(count(p, bit_pos as int, bit_pos + 1) == 1);
            low = bit_pos + 1;
        }
        remaining = remaining - 1;
        w = w & (w - 1);
    }
    proof {
        lemma_word_first_set(w);
        assert forall|i: int| low <= i < 64 implies !#[trigger] p(i) by {
            assert(!word_bit(w, i));
        }
        lemma_count_none(p, low, 64);
        lemma_count_split(p, 0, low, 64);
        assert(false);
    }
    0
}

} // verus!
