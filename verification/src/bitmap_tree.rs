//! A hierarchy of bitmaps that tracks which indices are taken and finds the
//! lowest free one.
use vstd::prelude::*;

use std::collections::HashSet;

use crate::bit_block::BitBlock;
use crate::calling::Calls;
use crate::bits::{
    byte_bit, lemma_byte_first_clear, lemma_byte_set_clear, lemma_word_first_set, word_bit,
};
use crate::counting::{
    ascending, count, lemma_below_count, lemma_count_gap, lemma_count_none, lemma_count_shift,
    lemma_count_split, lemma_set_count, lemma_sorted_first, lemma_sorted_lists, lists_ascending,
    member, rank, sorted,
};
use crate::random::RandomSource;

verus! {

/// How many indices the hierarchy can hand out: eight blocks of the third
/// level, each standing for `512 * 512 * 512` indices.
pub const MAX_SLOTS: u32 = 0x4000_0000;

/// Whether bit `i` is set in a level kept as a sequence of blocks. Blocks that
/// have not been allocated count as clear.
pub open spec fn level_has(blocks: Seq<BitBlock>, i: int) -> bool {
    0 <= i && i / 512 < blocks.len() && blocks[i / 512].has(i % 512)
}

/// Whether block `b` of a level is allocated and full.
pub open spec fn level_full(blocks: Seq<BitBlock>, b: int) -> bool {
    0 <= b < blocks.len() && blocks[b].full()
}

/// Whether `upper` has exactly the bits of the full blocks of `lower`.
pub open spec fn summarizes(upper: Seq<BitBlock>, lower: Seq<BitBlock>) -> bool {
    forall|b: int|
        #![trigger level_has(upper, b)]
        #![trigger level_full(lower, b)]
        0 <= b ==> level_has(upper, b) == level_full(lower, b)
}

/// The indices that share block `b` of the first level are all in `s`.
pub open spec fn block_full(s: Set<u32>, b: int) -> bool {
    forall|i: u32| i as int / 512 == b ==> #[trigger] s.contains(i)
}

/// The indices that share block `d` of the third level are all in `s`.
pub open spec fn group_full(s: Set<u32>, d: int) -> bool {
    forall|i: u32| i as int / 0x800_0000 == d ==> #[trigger] s.contains(i)
}

/// How many blocks of the first level there are once the block of index `idx` is
/// among them.
pub open spec fn blocks_for(blocks: nat, idx: u32) -> nat {
    if idx as int / 512 < blocks {
        blocks
    } else {
        (idx as int / 512 + 1) as nat
    }
}

/// `i` is the least index outside `s`.
pub open spec fn is_first_free(s: Set<u32>, i: u32) -> bool {
    !s.contains(i) && forall|j: u32| j < i ==> #[trigger] s.contains(j)
}

/// Some index that the hierarchy can hand out is outside `s`.
pub open spec fn has_free(s: Set<u32>) -> bool {
    exists|i: u32| i < MAX_SLOTS && !#[trigger] s.contains(i)
}

/// A hierarchical bitmap. Each level has one bit for each block of the level
/// below, set exactly when that block is full; the fourth level is one byte.
pub struct BitmapTree {
    lvl1: Vec<BitBlock>,
    lvl2: Vec<BitBlock>,
    lvl3: Vec<BitBlock>,
    lvl4: u8,
}

impl View for BitmapTree {
    type V = Set<u32>;

    /// The indices whose bit is set.
    closed spec fn view(&self) -> Set<u32> {
        Set::new(|i: u32| level_has(self.lvl1@, i as int))
    }
}

impl Default for BitmapTree {
    fn default() -> (tree: Self)
        ensures
            tree.wf(),
            tree@ == Set::<u32>::empty(),
            tree.blocks() == 1,
    {
        BitmapTree::new()
    }
}

/// Extends a level with clear blocks until block `idx` is allocated.
fn grow(blocks: &mut Vec<BitBlock>, idx: usize)
    ensures
        final(blocks)@.len() == if idx < old(blocks)@.len() {
            old(blocks)@.len()
        } else {
            idx as nat + 1
        },
        forall|b: int| 0 <= b < old(blocks)@.len() ==> final(blocks)@[b] == old(blocks)@[b],
        forall|b: int|
            old(blocks)@.len() <= b < final(blocks)@.len() ==> (
            #[trigger] final(blocks)@[b]).is_clear(),
        forall|i: int| #[trigger]
            level_has(final(blocks)@, i) == level_has(old(blocks)@, i),
        forall|b: int| #[trigger]
            level_full(final(blocks)@, b) == level_full(old(blocks)@, b),
{
    while blocks.len() <= idx
        invariant
            blocks@.len() >= old(blocks)@.len(),
            blocks@.len() > old(blocks)@.len() ==> blocks@.len() <= idx + 1,
            forall|b: int| 0 <= b < old(blocks)@.len() ==> blocks@[b] == old(blocks)@[b],
            forall|b: int|
                old(blocks)@.len() <= b < blocks@.len() ==> (#[trigger] blocks@[b]).is_clear(),
        decreases idx + 1 - blocks.len(),
    {
        blocks.push(BitBlock::default());
    }
    proof {
        assert forall|i: int| #[trigger] level_has(blocks@, i) == level_has(old(blocks)@, i) by {
            if 0 <= i && old(blocks)@.len() <= i / 512 < blocks@.len() {
                assert(blocks@[i / 512].is_clear());
                assert(!blocks@[i / 512].has(i % 512));
            }
        }
        assert forall|b: int| #[trigger] level_full(blocks@, b) == level_full(old(blocks)@, b) by {
            if old(blocks)@.len() <= b < blocks@.len() {
                assert(blocks@[b].is_clear());
                assert(!blocks@[b].has(0));
            }
        }
    }
}

/// Changing one bit of a level changes no other bit, and no other block's
/// fullness.
proof fn lemma_level_update(
    old_blocks: Seq<BitBlock>,
    new_blocks: Seq<BitBlock>,
    i: int,
    value: bool,
)
    requires
        0 <= i,
        i / 512 < old_blocks.len(),
        new_blocks.len() == old_blocks.len(),
        forall|b: int| 0 <= b < old_blocks.len() && b != i / 512 ==> new_blocks[b] == old_blocks[b],
        forall|k: int|
            #![trigger new_blocks[i / 512].has(k)]
            new_blocks[i / 512].has(k) == if k == i % 512 {
                value
            } else {
                old_blocks[i / 512].has(k)
            },
    ensures
        forall|j: int| #[trigger]
            level_has(new_blocks, j) == if j == i {
                value
            } else {
                level_has(old_blocks, j)
            },
        forall|b: int|
            b != i / 512 ==> #[trigger] level_full(new_blocks, b) == level_full(old_blocks, b),
{
    assert forall|j: int| #[trigger] level_has(new_blocks, j) == if j == i {
        value
    } else {
        level_has(old_blocks, j)
    } by {
        if 0 <= j && j / 512 == i / 512 {
            assert(new_blocks[i / 512].has(j % 512) == if j % 512 == i % 512 {
                value
            } else {
                old_blocks[i / 512].has(j % 512)
            });
        }
    }
}

/// A full block of the first level is full in the view.
proof fn lemma_block_full(l1: Seq<BitBlock>, b: int)
    requires
        0 <= b,
    ensures
        level_full(l1, b) <==> (forall|i: int| b * 512 <= i < b * 512 + 512 ==> level_has(l1, i)),
{
    if level_full(l1, b) {
        assert forall|i: int| b * 512 <= i < b * 512 + 512 implies level_has(l1, i) by {
            assert(i / 512 == b);
            assert(l1[b].has(i % 512));
        }
    }
    if forall|i: int| b * 512 <= i < b * 512 + 512 ==> level_has(l1, i) {
        assert(level_has(l1, b * 512));
        assert(b < l1.len());
        assert forall|k: int| 0 <= k < 512 implies #[trigger] l1[b].has(k) by {
            assert(level_has(l1, b * 512 + k));
            assert((b * 512 + k) / 512 == b && (b * 512 + k) % 512 == k);
        }
    }
}

/// A full block of the second level stands for `512 * 512` set bits.
proof fn lemma_l2_full(l1: Seq<BitBlock>, l2: Seq<BitBlock>, c: int)
    requires
        0 <= c,
        summarizes(l2, l1),
    ensures
        level_full(l2, c) <==> (forall|i: int|
            c * 0x4_0000 <= i < c * 0x4_0000 + 0x4_0000 ==> level_has(l1, i)),
{
    lemma_block_full(l2, c);
    if level_full(l2, c) {
        assert forall|i: int| c * 0x4_0000 <= i < c * 0x4_0000 + 0x4_0000 implies level_has(
            l1,
            i,
        ) by {
            let b = i / 512;
            assert(level_has(l2, b));
            assert(level_full(l1, b));
            lemma_block_full(l1, b);
        }
    }
    if forall|i: int| c * 0x4_0000 <= i < c * 0x4_0000 + 0x4_0000 ==> level_has(l1, i) {
        assert forall|b: int| c * 512 <= b < c * 512 + 512 implies level_has(l2, b) by {
            lemma_block_full(l1, b);
            assert(level_full(l1, b));
        }
    }
}

/// A full block of the third level stands for `512 * 512 * 512` set bits.
proof fn lemma_l3_full(l1: Seq<BitBlock>, l2: Seq<BitBlock>, l3: Seq<BitBlock>, d: int)
    requires
        0 <= d,
        summarizes(l2, l1),
        summarizes(l3, l2),
    ensures
        level_full(l3, d) <==> (forall|i: int|
            d * 0x800_0000 <= i < d * 0x800_0000 + 0x800_0000 ==> level_has(l1, i)),
{
    lemma_block_full(l3, d);
    if level_full(l3, d) {
        assert forall|i: int| d * 0x800_0000 <= i < d * 0x800_0000 + 0x800_0000 implies level_has(
            l1,
            i,
        ) by {
            let c = i / 0x4_0000;
            assert(level_has(l3, c));
            assert(level_full(l2, c));
            lemma_l2_full(l1, l2, c);
        }
    }
    if forall|i: int| d * 0x800_0000 <= i < d * 0x800_0000 + 0x800_0000 ==> level_has(l1, i) {
        assert forall|c: int| d * 512 <= c < d * 512 + 512 implies level_has(l3, c) by {
            lemma_l2_full(l1, l2, c);
            assert(level_full(l2, c));
        }
    }
}

impl BitmapTree {
    /// The levels agree with each other, and nothing is recorded that the
    /// upper levels have no room for.
    pub closed spec fn wf(&self) -> bool {
        &&& self.wf_upper()
        &&& summarizes(self.lvl2@, self.lvl1@)
    }

    /// `wf`, but for what the second level records of the first.
    spec fn wf_upper(&self) -> bool {
        &&& self.lvl1@.len() >= 1
        &&& self.lvl2@.len() >= 1
        &&& self.lvl3@.len() >= 1
        &&& summarizes(self.lvl3@, self.lvl2@)
        &&& forall|d: int|
            #![trigger level_full(self.lvl3@, d)]
            #![trigger byte_bit(self.lvl4, d)]
            0 <= d < 8 ==> byte_bit(self.lvl4, d) == level_full(self.lvl3@, d)
        &&& forall|d: int| d >= 8 ==> !#[trigger] level_full(self.lvl3@, d)
        &&& forall|b: int|
            0x80_0000 <= b < self.lvl1@.len() ==> (#[trigger] self.lvl1@[b]).is_clear()
    }

    /// `wf`, but for the second level's bit of block `b0`.
    spec fn wf_except(&self, b0: int) -> bool {
        &&& self.wf_upper()
        &&& forall|b: int|
            #![trigger level_has(self.lvl2@, b)]
            #![trigger level_full(self.lvl1@, b)]
            0 <= b && b != b0 ==> level_has(self.lvl2@, b) == level_full(self.lvl1@, b)
    }

    /// How many blocks of the first level are allocated.
    pub closed spec fn blocks(&self) -> nat {
        self.lvl1@.len()
    }

    /// A tree with no bit set.
    pub fn new() -> (tree: Self)
        ensures
            tree.wf(),
            tree@ == Set::<u32>::empty(),
            tree.blocks() == 1,
    {
        let mut lvl1: Vec<BitBlock> = Vec::new();
        let mut lvl2: Vec<BitBlock> = Vec::new();
        let mut lvl3: Vec<BitBlock> = Vec::new();
        lvl1.push(BitBlock::default());
        lvl2.push(BitBlock::default());
        lvl3.push(BitBlock::default());
        let tree = BitmapTree { lvl1, lvl2, lvl3, lvl4: 0 };
        proof {
            lemma_byte_first_clear(0);
            assert(!tree.lvl1@[0].has(0) && !tree.lvl2@[0].has(0) && !tree.lvl3@[0].has(0));
            assert(tree@ =~= Set::<u32>::empty());
        }
        tree
    }

    /// Whether the bit of `idx` is set.
    pub fn is_set(&self, idx: u32) -> (r: bool)
        ensures
            r == self@.contains(idx),
    {
        let b_idx: usize = (idx / 512) as usize;
        if b_idx >= self.lvl1.len() {
            return false;
        }
        self.lvl1[b_idx].is_set((idx % 512) as usize)
    }

    /// The levels see a block or a group as full exactly when the view does.
    proof fn lemma_view_full(&self)
        requires
            self.wf(),
        ensures
            forall|b: int|
                #![trigger level_full(self.lvl1@, b)]
                #![trigger block_full(self@, b)]
                0 <= b < 0x80_0000 ==> level_full(self.lvl1@, b) == block_full(self@, b),
            forall|d: int|
                #![trigger level_full(self.lvl3@, d)]
                #![trigger group_full(self@, d)]
                0 <= d < 32 ==> level_full(self.lvl3@, d) == group_full(self@, d),
    {
        assert forall|b: int| 0 <= b < 0x80_0000 implies #[trigger] level_full(self.lvl1@, b)
            == block_full(self@, b) by {
            lemma_block_full(self.lvl1@, b);
            if level_full(self.lvl1@, b) {
                assert forall|i: u32| i as int / 512 == b implies #[trigger] self@.contains(i) by {
                    assert(level_has(self.lvl1@, i as int));
                }
            }
            if block_full(self@, b) {
                assert forall|i: int| b * 512 <= i < b * 512 + 512 implies level_has(
                    self.lvl1@,
                    i,
                ) by {
                    assert(self@.contains(i as u32));
                }
            }
        }
        assert forall|d: int| 0 <= d < 32 implies #[trigger] level_full(self.lvl3@, d)
            == group_full(self@, d) by {
            lemma_l3_full(self.lvl1@, self.lvl2@, self.lvl3@, d);
            if level_full(self.lvl3@, d) {
                assert forall|i: u32| i as int / 0x800_0000 == d implies #[trigger] self@.contains(
                    i,
                ) by {
                    assert(level_has(self.lvl1@, i as int));
                }
            }
            if group_full(self@, d) {
                assert forall|i: int|
                    d * 0x800_0000 <= i < d * 0x800_0000 + 0x800_0000 implies level_has(
                    self.lvl1@,
                    i,
                ) by {
                    assert(self@.contains(i as u32));
                }
            }
        }
    }

    /// Extends the third level with clear blocks up to block `idx`.
    fn ensure_lvl3(&mut self, idx: usize)
        ensures
            old(self).wf() ==> final(self).wf(),
            final(self)@ == old(self)@,
            forall|i: int| #[trigger]
                level_has(final(self).lvl3@, i) == level_has(old(self).lvl3@, i),
            forall|b: int| #[trigger]
                level_full(final(self).lvl3@, b) == level_full(old(self).lvl3@, b),
            final(self).lvl3@.len() >= old(self).lvl3@.len(),
            final(self).lvl3@.len() > idx,
            final(self).lvl1 == old(self).lvl1,
            final(self).lvl2 == old(self).lvl2,
            final(self).lvl4 == old(self).lvl4,
    {
        grow(&mut self.lvl3, idx);
    }

    /// Extends the second level with clear blocks up to block `idx`.
    fn ensure_lvl2(&mut self, idx: usize)
        ensures
            old(self).wf() ==> final(self).wf(),
            final(self)@ == old(self)@,
            forall|i: int| #[trigger]
                level_has(final(self).lvl2@, i) == level_has(old(self).lvl2@, i),
            forall|b: int| #[trigger]
                level_full(final(self).lvl2@, b) == level_full(old(self).lvl2@, b),
            final(self).lvl2@.len() >= old(self).lvl2@.len(),
            final(self).lvl2@.len() > idx,
            final(self).lvl1 == old(self).lvl1,
            final(self).lvl3 == old(self).lvl3,
            final(self).lvl4 == old(self).lvl4,
    {
        grow(&mut self.lvl2, idx);
    }

    /// Extends the first level with clear blocks up to block `idx`. No bit
    /// changes.
    pub fn ensure_lvl1(&mut self, idx: usize)
        requires
            old(self).wf(),
            (idx + 1) * 64 <= isize::MAX,
        ensures
            final(self).wf(),
            final(self)@ == old(self)@,
            final(self).blocks() == if idx < old(self).blocks() {
                old(self).blocks()
            } else {
                idx as nat + 1
            },
    {
        grow(&mut self.lvl1, idx);
        assert(self@ =~= old(self)@);
    }

    /// The first block of the first level that has a free index. The upper
    /// levels are extended as far as the search needs.
    pub fn find_free_block(&mut self) -> (r: usize)
        requires
            old(self).wf(),
            has_free(old(self)@),
        ensures
            final(self).wf(),
            final(self)@ == old(self)@,
            final(self).blocks() == old(self).blocks(),
            r < 0x20_0000,
            !block_full(old(self)@, r as int),
            forall|b: int| 0 <= b < r ==> #[trigger] block_full(old(self)@, b),
    {
        proof {
            self.lemma_view_full();
            lemma_byte_first_clear(self.lvl4);
            let i = choose|i: u32| i < MAX_SLOTS && !#[trigger] self@.contains(i);
            assert(!group_full(self@, i as int / 0x800_0000));
            assert(!level_full(self.lvl3@, i as int / 0x800_0000));
            assert(!byte_bit(self.lvl4, i as int / 0x800_0000));
        }
        let l3_block_idx: usize = (!self.lvl4).trailing_zeros() as usize;
        self.ensure_lvl3(l3_block_idx);
        let l2_relative: usize = self.lvl3[l3_block_idx].find_first_free().unwrap();
        let l2_block_idx: usize = l3_block_idx * 512 + l2_relative;
        proof {
            assert(l2_block_idx as int / 512 == l3_block_idx);
            assert(l2_block_idx as int % 512 == l2_relative);
            assert(!level_has(self.lvl3@, l2_block_idx as int));
        }
        self.ensure_lvl2(l2_block_idx);
        assert(!level_full(self.lvl2@, l2_block_idx as int));
        let l1_relative: usize = self.lvl2[l2_block_idx].find_first_free().unwrap();
        let r: usize = l2_block_idx * 512 + l1_relative;
        proof {
            assert(r as int / 512 == l2_block_idx);
            assert(r as int % 512 == l1_relative);
            assert(!level_has(self.lvl2@, r as int));
            assert(!level_full(self.lvl1@, r as int));
            assert forall|b: int| 0 <= b < r implies #[trigger] block_full(old(self)@, b) by {
                let c = b / 512;
                if c < l2_block_idx {
                    let d = c / 512;
                    if d < l3_block_idx {
                        assert(byte_bit(self.lvl4, d));
                        assert(level_full(self.lvl3@, d));
                    }
                    assert(self.lvl3@[d].has(c % 512));
                    assert(level_has(self.lvl3@, c));
                    assert(level_full(self.lvl2@, c));
                }
                assert(self.lvl2@[c].has(b % 512));
                assert(level_has(self.lvl2@, b));
                assert(level_full(self.lvl1@, b));
            }
        }
        r
    }

    /// Records in the upper levels that block `l1_block_idx` has become full.
    fn propagate_full(&mut self, l1_block_idx: usize)
        requires
            old(self).wf_except(l1_block_idx as int),
            level_full(old(self).lvl1@, l1_block_idx as int),
            l1_block_idx < 0x80_0000,
            l1_block_idx < 0x20_0000 || exists|i: int|
                i / 0x800_0000 == l1_block_idx as int / 0x4_0000 && !#[trigger] level_has(
                    old(self).lvl1@,
                    i,
                ),
        ensures
            final(self).wf(),
            final(self).lvl1 == old(self).lvl1,
    {
        let l2_block_idx: usize = l1_block_idx / 512;
        let l2_bit_idx: usize = l1_block_idx % 512;
        self.ensure_lvl2(l2_block_idx);
        let ghost before2 = self.lvl2@;
        let l2_full = self.lvl2[l2_block_idx].set_bit_and_check_full(l2_bit_idx);
        proof {
            lemma_level_update(before2, self.lvl2@, l1_block_idx as int, true);
            assert(summarizes(self.lvl2@, self.lvl1@));
        }
        if l2_full {
            let l3_block_idx: usize = l2_block_idx / 512;
            let l3_bit_idx: usize = l2_block_idx % 512;
            self.ensure_lvl3(l3_block_idx);
            let ghost before3 = self.lvl3@;
            let l3_full = self.lvl3[l3_block_idx].set_bit_and_check_full(l3_bit_idx);
            proof {
                lemma_level_update(before3, self.lvl3@, l2_block_idx as int, true);
                assert(summarizes(self.lvl3@, self.lvl2@));
            }
            if l3_full {
                proof {
                    lemma_l3_full(self.lvl1@, self.lvl2@, self.lvl3@, l3_block_idx as int);
                    assert(level_full(self.lvl3@, l3_block_idx as int));
                    assert(l3_block_idx < 8);
                    lemma_byte_set_clear(self.lvl4, l3_block_idx as u8);
                }
                self.lvl4 = self.lvl4 | (1u8 << (l3_block_idx as u8));
            }
        }
    }

    /// Records in the upper levels that block `l1_block_idx` is no longer full.
    fn propagate_empty(&mut self, l1_block_idx: usize)
        requires
            old(self).wf_except(l1_block_idx as int),
            !level_full(old(self).lvl1@, l1_block_idx as int),
        ensures
            final(self).wf(),
            final(self).lvl1 == old(self).lvl1,
    {
        let l2_block_idx: usize = l1_block_idx / 512;
        let l2_bit_idx: usize = l1_block_idx % 512;
        if l2_block_idx >= self.lvl2.len() {
            return;
        }
        let ghost before2 = self.lvl2@;
        let l2_was_full = self.lvl2[l2_block_idx].clear_bit_and_was_full(l2_bit_idx);
        proof {
            lemma_level_update(before2, self.lvl2@, l1_block_idx as int, false);
            assert(summarizes(self.lvl2@, self.lvl1@));
            assert(!self.lvl2@[l2_block_idx as int].has(l2_bit_idx as int));
            assert(!level_full(self.lvl2@, l2_block_idx as int));
        }
        if l2_was_full {
            let l3_block_idx: usize = l2_block_idx / 512;
            let l3_bit_idx: usize = l2_block_idx % 512;
            assert(level_full(before2, l2_block_idx as int));
            if l3_block_idx >= self.lvl3.len() {
                assert(level_has(self.lvl3@, l2_block_idx as int));
                return;
            }
            let ghost before3 = self.lvl3@;
            let l3_was_full = self.lvl3[l3_block_idx].clear_bit_and_was_full(l3_bit_idx);
            proof {
                lemma_level_update(before3, self.lvl3@, l2_block_idx as int, false);
                assert(summarizes(self.lvl3@, self.lvl2@));
                assert(!self.lvl3@[l3_block_idx as int].has(l3_bit_idx as int));
                assert(!level_full(self.lvl3@, l3_block_idx as int));
            }
            if l3_was_full {
                proof {
                    assert(level_full(before3, l3_block_idx as int));
                    assert(l3_block_idx < 8);
                    lemma_byte_set_clear(self.lvl4, l3_block_idx as u8);
                }
                self.lvl4 = self.lvl4 & !(1u8 << (l3_block_idx as u8));
            }
        }
    }

    /// Sets the bit of `idx`. Beyond `MAX_SLOTS` the fourth level has no bit to
    /// record a full group with, so a group there must keep a free index.
    pub fn set_bit(&mut self, idx: u32)
        requires
            old(self).wf(),
            idx < MAX_SLOTS || !group_full(old(self)@.insert(idx), idx as int / 0x800_0000),
        ensures
            final(self).wf(),
            final(self)@ == old(self)@.insert(idx),
            final(self).blocks() == blocks_for(old(self).blocks(), idx),
    {
        let block_idx: usize = (idx / 512) as usize;
        let bit_idx: usize = (idx % 512) as usize;
        self.ensure_lvl1(block_idx);
        let ghost before1 = self.lvl1@;
        let full = self.lvl1[block_idx].set_bit_and_check_full(bit_idx);
        proof {
            lemma_level_update(before1, self.lvl1@, idx as int, true);
            assert(self@ =~= old(self)@.insert(idx));
        }
        if full {
            proof {
                if idx >= MAX_SLOTS {
                    let i = choose|i: u32|
                        i as int / 0x800_0000 == idx as int / 0x800_0000 && !(#[trigger] old(
                            self,
                        )@.insert(idx).contains(i));
                    assert(!self@.contains(i));
                    assert(!level_has(self.lvl1@, i as int));
                }
            }
            self.propagate_full(block_idx);
        }
    }

    /// Clears the bit of `idx`.
    pub fn clear_bit(&mut self, idx: u32)
        requires
            old(self).wf(),
        ensures
            final(self).wf(),
            final(self)@ == old(self)@.remove(idx),
            final(self).blocks() == old(self).blocks(),
    {
        let block_idx: usize = (idx / 512) as usize;
        let bit_idx: usize = (idx % 512) as usize;
        if block_idx >= self.lvl1.len() {
            assert(self@ =~= old(self)@.remove(idx));
            return;
        }
        let ghost before1 = self.lvl1@;
        let was_full = self.lvl1[block_idx].clear_bit_and_was_full(bit_idx);
        proof {
            lemma_level_update(before1, self.lvl1@, idx as int, false);
            assert(self@ =~= old(self)@.remove(idx));
            assert(!self.lvl1@[block_idx as int].has(bit_idx as int));
            assert(!level_full(self.lvl1@, block_idx as int));
        }
        if was_full {
            self.propagate_empty(block_idx);
        } else {
            assert(!level_full(before1, block_idx as int));
        }
    }

    /// The least free index. No bit changes.
    pub fn find_free_idx(&mut self) -> (r: u32)
        requires
            old(self).wf(),
            has_free(old(self)@),
        ensures
            final(self).wf(),
            final(self)@ == old(self)@,
            r < MAX_SLOTS,
            is_first_free(old(self)@, r),
            final(self).blocks() == blocks_for(old(self).blocks(), r),
    {
        // Fast path: the first block.
        let first = self.lvl1[0].find_first_free();
        if let Some(bit_idx) = first {
            proof {
                assert(!level_has(self.lvl1@, bit_idx as int));
                assert forall|j: u32| j < bit_idx implies #[trigger] self@.contains(j) by {
                    assert(self.lvl1@[0].has(j as int));
                }
            }
            return bit_idx as u32;
        }
        let block_idx: usize = self.find_free_block();
        self.ensure_lvl1(block_idx);
        proof {
            self.lemma_view_full();
            assert(!level_full(self.lvl1@, block_idx as int));
        }
        let bit_idx: usize = self.lvl1[block_idx].find_first_free().unwrap();
        let r: usize = block_idx * 512 + bit_idx;
        proof {
            assert(r as int / 512 == block_idx && r as int % 512 == bit_idx);
            assert(!level_has(self.lvl1@, r as int));
            assert forall|j: u32| j < r implies #[trigger] self@.contains(j) by {
                let b = j as int / 512;
                if b < block_idx {
                    assert(block_full(self@, b));
                } else {
                    assert(self.lvl1@[b].has(j as int % 512));
                }
            }
        }
        r as u32
    }

    /// Takes the least free index: sets its bit and returns it.
    pub fn reserve_free_idx(&mut self) -> (r: u32)
        requires
            old(self).wf(),
            has_free(old(self)@),
        ensures
            final(self).wf(),
            final(self)@ == old(self)@.insert(r),
            r < MAX_SLOTS,
            is_first_free(old(self)@, r),
            final(self).blocks() == blocks_for(old(self).blocks(), r),
    {
        let idx = self.find_free_idx();
        self.set_bit(idx);
        idx
    }

    /// The summary byte: bit `d` tells whether all indices of group `d` are
    /// set.
    pub fn lvl4(&self) -> (r: u8)
        requires
            self.wf(),
        ensures
            forall|d: int| 0 <= d < 8 ==> #[trigger] byte_bit(r, d) == group_full(self@, d),
    {
        proof {
            self.lemma_view_full();
        }
        self.lvl4
    }

    /// Whether no index is left to hand out.
    pub fn is_exhausted(&self) -> (r: bool)
        requires
            self.wf(),
        ensures
            r == !has_free(self@),
    {
        proof {
            self.lemma_view_full();
            lemma_byte_first_clear(self.lvl4);
            if self.lvl4 == 0xFF {
                assert forall|i: u32| i < MAX_SLOTS implies #[trigger] self@.contains(i) by {
                    let d = i as int / 0x800_0000;
                    assert(byte_bit(self.lvl4, d));
                    assert(group_full(self@, d));
                }
            } else {
                let d = vstd::std_specs::bits::u8_trailing_zeros(!self.lvl4) as int;
                assert(!byte_bit(self.lvl4, d));
                assert(!level_full(self.lvl3@, d));
                assert(!group_full(self@, d));
                let i = choose|i: u32| i as int / 0x800_0000 == d && !#[trigger] self@.contains(i);
                assert(i < MAX_SLOTS);
            }
        }
        self.lvl4 == 0xFF
    }

    /// Calls `f` with each set index, in ascending order.
    pub fn for_each_set<F>(&self, f: F) where F: FnMut(u32)
        requires
            self.wf(),
            forall|i: u32| #[trigger] self@.contains(i) ==> call_requires(f, (i,)),
        ensures
            forall|i: u32| #[trigger] self@.contains(i) ==> call_ensures(f, (i,), ()),
    {
        let mut calls = Calls::new(f, Ghost(self@));
        self.call_each_set(&mut calls);
    }

    /// Makes the calls that are due, one for each set index.
    pub(crate) fn call_each_set<F>(&self, calls: &mut Calls<F>) where F: FnMut(u32)
        requires
            self.wf(),
            old(calls).due() == sorted(self@),
            forall|i: u32| #[trigger]
                self@.contains(i) ==> call_requires(old(calls).callee(), (i,)),
        ensures
            final(calls).due() == Seq::<u32>::empty(),
            forall|i: u32| #[trigger]
                self@.contains(i) ==> call_ensures(old(calls).callee(), (i,), ()),
    {
        let ghost f = calls.callee();
        let mut cursor = BitCursor::new(self);
        loop
            invariant
                self.wf(),
                cursor.wf(self),
                calls.callee() == f,
                calls.due() == sorted(cursor.remaining(self)),
                forall|i: u32| #[trigger] self@.contains(i) ==> call_requires(f, (i,)),
                forall|i: u32| #[trigger]
                    self@.contains(i) && !cursor.remaining(self).contains(i) ==> call_ensures(
                        f,
                        (i,),
                        (),
                    ),
            ensures
                cursor.remaining(self) == Set::<u32>::empty(),
            decreases cursor.remaining(self).len(),
        {
            proof {
                lemma_set_count(cursor.remaining(self));
            }
            let ghost before = cursor.remaining(self);
            match cursor.next(self) {
                Some(idx) => {
                    proof {
                        lemma_sorted_first(before, idx);
                    }
                    calls.call_index(idx);
                },
                None => {
                    break;
                },
            }
        }
    }
}

/// The bits of a level, as a predicate on positions.
spec fn level_bits(blocks: Seq<BitBlock>) -> spec_fn(int) -> bool {
    |i: int| level_has(blocks, i)
}

/// The set bits of a block are those of its stretch of the level, up to any
/// position in it.
proof fn lemma_block_count(blocks: Seq<BitBlock>, b: int, n: int)
    requires
        0 <= b < blocks.len(),
        0 <= n <= 512,
    ensures
        count(blocks[b].bits(), 0, n) == count(level_bits(blocks), b * 512, b * 512 + n),
{
    let p = blocks[b].bits();
    let q = level_bits(blocks);
    assert forall|i: int| 0 <= i < n implies #[trigger] p(i) == q(i + b * 512) by {
        assert((i + b * 512) / 512 == b && (i + b * 512) % 512 == i);
    }
    lemma_count_shift(p, q, 0, n, b * 512);
}

impl BitmapTree {
    /// Sizes and ranks in the view are counts over the first level, and some
    /// `u32` is always free.
    proof fn lemma_view_count(&self)
        requires
            self.wf(),
        ensures
            self@.finite(),
            self@.len() == count(level_bits(self.lvl1@), 0, (self.lvl1@.len() * 512) as int),
            self@.len() <= u32::MAX,
            forall|i: u32| #[trigger]
                rank(self@, i) == count(level_bits(self.lvl1@), 0, i as int),
    {
        let p = member(self@);
        let q = level_bits(self.lvl1@);
        let n = self.lvl1@.len() * 512;
        lemma_set_count(self@);
        assert forall|i: int| 0 <= i < 0x1_0000_0000 implies #[trigger] p(i) == q(i + 0) by {}
        lemma_count_shift(p, q, 0, 0x1_0000_0000, 0);
        if n <= 0x1_0000_0000 {
            lemma_count_split(q, 0, n as int, 0x1_0000_0000);
            lemma_count_none(q, n as int, 0x1_0000_0000);
        } else {
            lemma_count_split(q, 0, 0x1_0000_0000, n as int);
            assert forall|i: int| 0x1_0000_0000 <= i < n implies !#[trigger] q(i) by {
                assert(self.lvl1@[i / 512].is_clear());
                assert(!self.lvl1@[i / 512].has(i % 512));
            }
            lemma_count_none(q, 0x1_0000_0000, n as int);
        }
        self.lemma_view_full();
        assert(!level_full(self.lvl3@, 8));
        assert(!group_full(self@, 8));
        let i = choose|i: u32| i as int / 0x800_0000 == 8 && !#[trigger] self@.contains(i);
        lemma_count_gap(p, 0, 0x1_0000_0000, i as int);
        assert forall|i: u32| #[trigger] rank(self@, i) == count(q, 0, i as int) by {
            lemma_below_count(self@, i as int);
            lemma_count_shift(p, q, 0, i as int, 0);
        }
    }

    /// `counts` holds the number of set bits of each block of the first level.
    pub closed spec fn counted_by(&self, counts: Seq<u32>) -> bool {
        &&& counts.len() == self.lvl1@.len()
        &&& forall|b: int|
            0 <= b < counts.len() ==> #[trigger] counts[b] == count(self.lvl1@[b].bits(), 0, 512)
    }

    /// The number of set bits of each block of the first level.
    pub fn block_counts(&self) -> (counts: Vec<u32>)
        ensures
            self.counted_by(counts@),
    {
        let mut counts: Vec<u32> = Vec::new();
        let mut b: usize = 0;
        while b < self.lvl1.len()
            invariant
                b <= self.lvl1@.len(),
                counts@.len() == b,
                forall|k: int|
                    0 <= k < b ==> #[trigger] counts@[k] == count(self.lvl1@[k].bits(), 0, 512),
            decreases self.lvl1@.len() - b,
        {
            counts.push(self.lvl1[b].popcnt());
            b = b + 1;
        }
        counts
    }

    /// The number of set indices.
    pub fn count_set(&self) -> (r: usize)
        requires
            self.wf(),
        ensures
            self@.finite(),
            r == self@.len(),
            r <= u32::MAX,
    {
        proof {
            self.lemma_view_count();
        }
        let ghost q = level_bits(self.lvl1@);
        let mut total: usize = 0;
        let mut b: usize = 0;
        while b < self.lvl1.len()
            invariant
                b <= self.lvl1@.len(),
                q == level_bits(self.lvl1@),
                total == count(q, 0, b * 512),
                count(q, 0, (self.lvl1@.len() * 512) as int) <= u32::MAX,
            decreases self.lvl1@.len() - b,
        {
            proof {
                lemma_block_count(self.lvl1@, b as int, 512);
                lemma_count_split(q, 0, b * 512, b * 512 + 512);
                lemma_count_split(q, 0, b * 512 + 512, (self.lvl1@.len() * 512) as int);
            }
            total = total + self.lvl1[b].popcnt() as usize;
            b = b + 1;
        }
        total
    }

    /// The set index that has exactly `choice` set indices below it, found
    /// with the help of the counts of the blocks.
    pub fn choice_to_index(&self, block_counts: &Vec<u32>, choice: u32) -> (r: u32)
        requires
            self.wf(),
            self.counted_by(block_counts@),
            choice < self@.len(),
        ensures
            self@.contains(r),
            rank(self@, r) == choice,
    {
        proof {
            self.lemma_view_count();
        }
        let ghost q = level_bits(self.lvl1@);
        let mut rest: u32 = choice;
        let mut b: usize = 0;
        while b < block_counts.len()
            invariant
                self.wf(),
                b <= self.lvl1@.len(),
                self.counted_by(block_counts@),
                q == level_bits(self.lvl1@),
                rest + count(q, 0, b * 512) == choice,
                choice < count(q, 0, (self.lvl1@.len() * 512) as int),
                forall|i: u32| #[trigger] rank(self@, i) == count(q, 0, i as int),
            decreases self.lvl1@.len() - b,
        {
            let cnt: u32 = block_counts[b];
            proof {
                lemma_block_count(self.lvl1@, b as int, 512);
                lemma_count_split(q, 0, b * 512, b * 512 + 512);
            }
            if rest < cnt {
                proof {
                    self.lvl1@[b as int].lemma_view_len();
                }
                let bit: usize = self.lvl1[b].select(rest);
                proof {
                    assert(self.lvl1@[b as int].has(bit as int));
                    assert(b < 0x80_0000);
                    lemma_block_count(self.lvl1@, b as int, bit as int);
                    lemma_count_split(q, 0, b * 512, b * 512 + bit);
                    assert(level_has(self.lvl1@, b * 512 + bit));
                }
                let idx: u32 = (b as u32) * 512 + bit as u32;
                return idx;
            }
            rest = rest - cnt;
            b = b + 1;
        }
        proof {
            assert(false);
        }
        0
    }

    /// The set index that has exactly `choice` set indices below it, or `None`
    /// if there are not that many.
    pub fn nth_set(&self, choice: u32) -> (r: Option<u32>)
        requires
            self.wf(),
        ensures
            match r {
                Some(i) => self@.contains(i) && rank(self@, i) == choice,
                None => self@.len() <= choice,
            },
    {
        let total: usize = self.count_set();
        if choice as usize >= total {
            return None;
        }
        let counts = self.block_counts();
        Some(self.choice_to_index(&counts, choice))
    }

    /// The set index whose rank is given by one draw below the number of set
    /// indices, or `None`, without a draw, if no bit is set.
    pub fn random_set<R: RandomSource>(&self, rng: &mut R) -> (r: Option<u32>)
        requires
            self.wf(),
        ensures
            match r {
                Some(i) => draws_member(self@, *old(rng), i, *final(rng)),
                None => self@ == Set::<u32>::empty() && *final(rng) == *old(rng),
            },
    {
        let total: usize = self.count_set();
        if total == 0 {
            assert(self@ =~= Set::<u32>::empty());
            return None;
        }
        let choice: u32 = rng.draw_below(total as u32);
        let counts = self.block_counts();
        Some(self.choice_to_index(&counts, choice))
    }
}

/// One draw below the size of `s`, which takes the source from `before` to
/// `after`, gives the rank of the member `i`.
pub open spec fn draws_member<R: RandomSource>(s: Set<u32>, before: R, i: u32, after: R) -> bool {
    &&& s.contains(i)
    &&& s.len() <= u32::MAX
    &&& R::drew(before, s.len() as u32, rank(s, i) as u32, after)
}

/// Draw by draw, the source goes through the states `states` and gives the
/// ranks of the members `drawn`.
pub open spec fn draw_trace<R: RandomSource>(
    s: Set<u32>,
    states: Seq<R>,
    drawn: Seq<u32>,
) -> bool {
    &&& states.len() == drawn.len() + 1
    &&& forall|k: int|
        0 <= k < drawn.len() ==> draws_member(s, states[k], #[trigger] drawn[k], states[k + 1])
}

/// One draw after the other, which take the source from `before` to `after`,
/// gives the ranks of the members `drawn`; no draw is made beside these.
pub open spec fn draws_members<R: RandomSource>(
    s: Set<u32>,
    before: R,
    drawn: Seq<u32>,
    after: R,
) -> bool {
    exists|states: Seq<R>| #[trigger]
        draw_trace(s, states, drawn) && states.first() == before && states.last() == after
}

/// The members of `x` in the order in which they first occur.
pub open spec fn first_occurrences(x: Seq<u32>) -> Seq<u32>
    decreases x.len(),
{
    if x.len() == 0 {
        Seq::empty()
    } else {
        let front = first_occurrences(x.drop_last());
        if front.contains(x.last()) {
            front
        } else {
            front.push(x.last())
        }
    }
}

/// How many draws are made at most for one sample without repetition. The bound
/// makes sampling end whatever the source gives; no fair source comes near it.
pub const MAX_DRAWS: u64 = 0xffff_ffff_ffff_ffff;

/// The members of `s` that are not in `picked`, in ascending order.
pub open spec fn unpicked(s: Set<u32>, picked: Seq<u32>) -> Seq<u32> {
    sorted(s.difference(picked.to_set()))
}

/// `v` holds the different members among `drawn`, in the order in which they
/// came up, and drawing ended with the one that made `count` of them. Only if
/// `MAX_DRAWS` draws gave fewer, the lowest of the other members of `s` make up
/// the rest.
pub open spec fn samples_drawn(s: Set<u32>, count: int, drawn: Seq<u32>, v: Seq<u32>) -> bool {
    let picked = first_occurrences(drawn);
    &&& picked.len() <= count
    &&& drawn.len() <= MAX_DRAWS
    &&& drawn.len() > 0 ==> first_occurrences(drawn.drop_last()).len() < count
    &&& picked.len() < count ==> drawn.len() == MAX_DRAWS
    &&& v == picked + unpicked(s, picked).take(count - picked.len())
}

/// `v` is a sample of `count` members of `s` made by draws that take the source
/// from `before` to `after`.
pub open spec fn draws_sample<R: RandomSource>(
    s: Set<u32>,
    count: int,
    before: R,
    v: Seq<u32>,
    after: R,
) -> bool {
    exists|drawn: Seq<u32>| #[trigger]
        draws_members(s, before, drawn, after) && samples_drawn(s, count, drawn, v)
}

/// `v` holds `n` different members of `s`.
pub open spec fn picks(v: Seq<u32>, s: Set<u32>, n: int) -> bool {
    &&& v.len() == n
    &&& v.no_duplicates()
    &&& forall|k: int| 0 <= k < v.len() ==> s.contains(#[trigger] v[k])
}

/// Another draw makes the trace longer by one.
pub proof fn lemma_draw_trace_push<R: RandomSource>(
    s: Set<u32>,
    states: Seq<R>,
    drawn: Seq<u32>,
    i: u32,
    after: R,
)
    requires
        draw_trace(s, states, drawn),
        draws_member(s, states.last(), i, after),
    ensures
        draw_trace(s, states.push(after), drawn.push(i)),
{
    let x = drawn.push(i);
    let t = states.push(after);
    assert forall|k: int| 0 <= k < x.len() implies draws_member(
        s,
        t[k],
        #[trigger] x[k],
        t[k + 1],
    ) by {
        if k < drawn.len() {
            assert(draws_member(s, states[k], drawn[k], states[k + 1]));
        }
    }
}

/// The members that have not been picked are as many as are missing.
proof fn lemma_picks_rest(v: Seq<u32>, s: Set<u32>)
    requires
        picks(v, s, v.len() as int),
    ensures
        v.len() + unpicked(s, v).len() == s.len(),
{
    let p = v.to_set();
    lemma_set_count(s);
    lemma_set_count(p);
    v.unique_seq_to_set();
    assert(p.subset_of(s));
    assert(s.intersect(p) =~= p);
    vstd::set_lib::lemma_set_intersect_union_lens(p, s.difference(p));
    assert(p.union(s.difference(p)) =~= s);
    assert(p.intersect(s.difference(p)) =~= Set::<u32>::empty());
    lemma_sorted_lists(s.difference(p));
}

/// Picks stay different from each other when members not yet picked join them.
proof fn lemma_picks_filled(v: Seq<u32>, s: Set<u32>, n: int)
    requires
        picks(v, s, v.len() as int),
        v.len() <= n <= s.len(),
    ensures
        picks(v + unpicked(s, v).take(n - v.len()), s, n),
{
    let p = v.to_set();
    let rest = unpicked(s, v);
    let d = s.difference(p);
    lemma_picks_rest(v, s);
    lemma_sorted_lists(d);
    let w = v + rest.take(n - v.len());
    assert forall|k: int| 0 <= k < w.len() implies s.contains(#[trigger] w[k]) && (k >= v.len()
        ==> !v.contains(w[k])) by {
        if k >= v.len() {
            assert(w[k] == rest[k - v.len()]);
            assert(d.contains(rest[k - v.len()]));
        }
    }
    assert forall|a: int, b: int| 0 <= a < w.len() && 0 <= b < w.len() && a != b implies w[a]
        != w[b] by {
        if a < v.len() && b < v.len() {
            assert(v[a] != v[b]);
        } else if a < v.len() {
            assert(v.contains(w[a]));
        } else if b < v.len() {
            assert(v.contains(w[b]));
        } else if a < b {
            assert(rest[a - v.len()] < rest[b - v.len()]);
        } else {
            assert(rest[b - v.len()] < rest[a - v.len()]);
        }
    }
}

impl BitmapTree {
    /// The set indices, in ascending order.
    pub fn set_indices(&self) -> (v: Vec<u32>)
        requires
            self.wf(),
        ensures
            lists_ascending(v@, self@),
    {
        let mut v: Vec<u32> = Vec::new();
        let mut cursor = BitCursor::new(self);
        proof {
            lemma_set_count(self@);
        }
        loop
            invariant
                self.wf(),
                cursor.wf(self),
                ascending(v@),
                cursor.remaining(self).subset_of(self@),
                v@.len() + cursor.remaining(self).len() == self@.len(),
                forall|k: int| 0 <= k < v@.len() ==> self@.contains(#[trigger] v@[k]),
                forall|i: u32| #[trigger]
                    self@.contains(i) ==> cursor.remaining(self).contains(i) || v@.contains(i),
                forall|k: int, j: u32|
                    0 <= k < v@.len() && #[trigger] cursor.remaining(self).contains(j)
                        ==> #[trigger] v@[k] < j,
            ensures
                cursor.remaining(self) == Set::<u32>::empty(),
            decreases cursor.remaining(self).len(),
        {
            proof {
                lemma_set_count(cursor.remaining(self));
            }
            let ghost before = v@;
            match cursor.next(self) {
                Some(idx) => {
                    v.push(idx);
                    proof {
                        assert(v@[v@.len() - 1] == idx);
                        assert forall|i: u32| before.contains(i) implies v@.contains(i) by {
                            let k = choose|k: int| 0 <= k < before.len() && before[k] == i;
                            assert(v@[k] == i);
                        }
                    }
                },
                None => {
                    break;
                },
            }
        }
        v
    }

    /// Turns one draw into a pick: the set index of rank `choice` joins
    /// `results` unless it is there already.
    pub fn take_draw(
        &self,
        block_counts: &Vec<u32>,
        choice: u32,
        selected: &mut HashSet<u32>,
        results: &mut Vec<u32>,
    ) -> (idx: u32)
        requires
            self.wf(),
            self.counted_by(block_counts@),
            choice < self@.len(),
            old(selected)@ == old(results)@.to_set(),
        ensures
            self@.contains(idx),
            rank(self@, idx) == choice,
            final(results)@ == if old(results)@.contains(idx) {
                old(results)@
            } else {
                old(results)@.push(idx)
            },
            final(selected)@ == final(results)@.to_set(),
    {
        broadcast use vstd::std_specs::hash::group_hash_axioms;

        let idx: u32 = self.choice_to_index(block_counts, choice);
        if selected.insert(idx) {
            results.push(idx);
        }
        proof {
            assert forall|i: u32| #[trigger] results@.to_set().contains(i) == old(
                results,
            )@.to_set().insert(idx).contains(i) by {
                if old(results)@.contains(i) {
                    let k = choose|k: int| 0 <= k < old(results)@.len() && old(results)@[k] == i;
                    assert(results@[k] == i);
                }
                if i == idx && !old(results)@.contains(idx) {
                    assert(results@[results@.len() - 1] == idx);
                }
            }
            assert(selected@ =~= results@.to_set());
        }
        idx
    }

    /// `count` different set indices picked by draws, or all of them, in
    /// ascending order and without a draw, if there are no more than `count`.
    ///
    /// A draw that hits an index already picked is repeated. Should `MAX_DRAWS`
    /// draws not be enough, the lowest indices not yet picked make up the rest.
    pub fn random_set_unique<R: RandomSource>(&self, rng: &mut R, count: usize) -> (v: Vec<u32>)
        requires
            self.wf(),
        ensures
            count >= self@.len() ==> lists_ascending(v@, self@) && *final(rng) == *old(rng),
            count < self@.len() ==> {
                &&& picks(v@, self@, count as int)
                &&& draws_sample(self@, count as int, *old(rng), v@, *final(rng))
            },
    {
        let total: usize = self.count_set();
        if count >= total {
            return self.set_indices();
        }
        let block_counts = self.block_counts();
        let mut selected: HashSet<u32> = HashSet::new();
        let mut results: Vec<u32> = Vec::new();
        let mut attempts: u64 = MAX_DRAWS;
        let ghost mut drawn: Seq<u32> = Seq::empty();
        let ghost mut states: Seq<R> = seq![*rng];
        assert(results@.to_set() =~= Set::<u32>::empty());
        while results.len() < count && attempts > 0
            invariant
                self.wf(),
                self.counted_by(block_counts@),
                count < total <= u32::MAX,
                total == self@.len(),
                selected@ == results@.to_set(),
                results@.len() <= count,
                picks(results@, self@, results@.len() as int),
                attempts + drawn.len() == MAX_DRAWS,
                draw_trace(self@, states, drawn),
                states.first() == *old(rng),
                states.last() == *rng,
                results@ == first_occurrences(drawn),
                drawn.len() > 0 ==> first_occurrences(drawn.drop_last()).len() < count,
            decreases attempts,
        {
            let choice: u32 = rng.draw_below(total as u32);
            let idx: u32 = self.take_draw(&block_counts, choice, &mut selected, &mut results);
            attempts = attempts - 1;
            proof {
                lemma_draw_trace_push(self@, states, drawn, idx, *rng);
                assert(drawn.push(idx).drop_last() =~= drawn);
                drawn = drawn.push(idx);
                states = states.push(*rng);
            }
        }
        assert(draws_members(self@, *old(rng), drawn, *rng));
        self.fill_lowest(&selected, count, &mut results);
        assert(samples_drawn(self@, count as int, drawn, results@));
        results
    }

    /// Adds to `results` the lowest set indices that are not in it yet, until it
    /// holds `count` of them.
    fn fill_lowest(&self, selected: &HashSet<u32>, count: usize, results: &mut Vec<u32>)
        requires
            self.wf(),
            count < self@.len(),
            old(results)@.len() <= count,
            picks(old(results)@, self@, old(results)@.len() as int),
            selected@ == old(results)@.to_set(),
        ensures
            picks(final(results)@, self@, count as int),
            final(results)@ == old(results)@ + unpicked(self@, old(results)@).take(
                count - old(results)@.len(),
            ),
    {
        let ghost picked = results@;
        let ghost rest = unpicked(self@, picked);
        let ghost others = self@.difference(picked.to_set());
        let mut cursor = BitCursor::new(self);
        proof {
            lemma_set_count(self@);
            lemma_picks_rest(picked, self@);
            lemma_sorted_lists(others);
        }
        while results.len() < count
            invariant
                self.wf(),
                cursor.wf(self),
                count < self@.len(),
                picked.len() <= results@.len() <= count,
                picks(picked, self@, picked.len() as int),
                selected@ == picked.to_set(),
                others == self@.difference(picked.to_set()),
                rest == sorted(others),
                rest.len() + picked.len() == self@.len(),
                results@ == picked + rest.take(results@.len() - picked.len()),
                sorted(cursor.remaining(self).difference(picked.to_set())) == rest.skip(
                    results@.len() - picked.len(),
                ),
            decreases cursor.remaining(self).len(),
        {
            broadcast use vstd::std_specs::hash::group_hash_axioms;

            let ghost before = cursor.remaining(self);
            let ghost left = before.difference(picked.to_set());
            let ghost k = results@.len() - picked.len();
            proof {
                lemma_set_count(before);
                lemma_sorted_lists(left);
            }
            match cursor.next(self) {
                Some(idx) => {
                    if !selected.contains(&idx) {
                        proof {
                            lemma_sorted_first(left, idx);
                            assert(rest.skip(k)[0] == rest[k]);
                            assert(rest.skip(k).drop_first() =~= rest.skip(k + 1));
                            assert(rest.take(k + 1) =~= rest.take(k).push(idx));
                            assert(cursor.remaining(self).difference(picked.to_set())
                                =~= left.remove(idx));
                        }
                        results.push(idx);
                        assert(results@ =~= picked + rest.take(k + 1));
                    } else {
                        assert(cursor.remaining(self).difference(picked.to_set()) =~= left);
                    }
                },
                None => {
                    proof {
                        assert(left =~= Set::<u32>::empty());
                        assert(false);
                    }
                },
            }
        }
        proof {
            lemma_picks_filled(picked, self@, count as int);
        }
    }
}

/// A position in a tree, from which its set indices come out in ascending
/// order.
#[derive(Clone, Copy)]
pub struct BitCursor {
    block_idx: usize,
    word_idx: usize,
    current_word: u64,
}

impl BitCursor {
    /// The cursor stands at a word of the tree, with some of its bits left.
    pub closed spec fn wf(&self, tree: &BitmapTree) -> bool {
        &&& self.word_idx < 8
        &&& self.block_idx <= tree.lvl1@.len()
        &&& self.block_idx == tree.lvl1@.len() ==> self.current_word == 0
        &&& self.block_idx < tree.lvl1@.len() ==> forall|k: int|
            0 <= k < 64 && #[trigger] word_bit(self.current_word, k) ==> word_bit(
                tree.lvl1@[self.block_idx as int].data@[self.word_idx as int],
                k,
            )
    }

    /// The set indices that are still to come.
    pub closed spec fn remaining(&self, tree: &BitmapTree) -> Set<u32> {
        let pos = self.block_idx * 8 + self.word_idx;
        Set::new(
            |i: u32|
                tree@.contains(i) && (i as int / 64 > pos || (i as int / 64 == pos && word_bit(
                    self.current_word,
                    i as int % 64,
                ))),
        )
    }

    /// A cursor before the first set index.
    pub fn new(tree: &BitmapTree) -> (cursor: Self)
        requires
            tree.wf(),
        ensures
            cursor.wf(tree),
            cursor.remaining(tree) == tree@,
    {
        let cursor = BitCursor { block_idx: 0, word_idx: 0, current_word: tree.lvl1[0].data[0] };
        assert(cursor.remaining(tree) =~= tree@);
        cursor
    }

    /// The next set index, or `None` when all have come out.
    pub fn next(&mut self, tree: &BitmapTree) -> (r: Option<u32>)
        requires
            tree.wf(),
            old(self).wf(tree),
        ensures
            final(self).wf(tree),
            match r {
                Some(i) => {
                    &&& old(self).remaining(tree).contains(i)
                    &&& tree@.contains(i)
                    &&& forall|j: u32| #[trigger]
                        old(self).remaining(tree).contains(j) ==> i <= j
                    &&& final(self).remaining(tree) == old(self).remaining(tree).remove(i)
                },
                None => {
                    &&& old(self).remaining(tree) == Set::<u32>::empty()
                    &&& final(self).remaining(tree) == Set::<u32>::empty()
                },
            },
    {
        while self.current_word == 0
            invariant
                tree.wf(),
                self.wf(tree),
                self.remaining(tree) == old(self).remaining(tree),
            decreases tree.lvl1@.len() * 8 - (self.block_idx * 8 + self.word_idx),
        {
            let ghost before = *self;
            proof {
                lemma_word_first_set(0);
            }
            if self.block_idx >= tree.lvl1.len() {
                assert(self.remaining(tree) =~= Set::<u32>::empty());
                return None;
            }
            self.word_idx = self.word_idx + 1;
            if self.word_idx >= 8 {
                self.word_idx = 0;
                self.block_idx = self.block_idx + 1;
            }
            if self.block_idx < tree.lvl1.len() {
                self.current_word = tree.lvl1[self.block_idx].data[self.word_idx];
                assert(self.remaining(tree) =~= before.remaining(tree));
            } else {
                assert(self.remaining(tree) =~= before.remaining(tree));
                assert(self.remaining(tree) =~= Set::<u32>::empty());
                return None;
            }
        }
        let bit: u32 = self.current_word.trailing_zeros();
        let ghost before = *self;
        proof {
            lemma_word_first_set(self.current_word);
            let b = self.block_idx as int;
            let k = self.word_idx * 64 + bit;
            assert(word_bit(self.current_word, bit as int));
            assert(k / 64 == self.word_idx && k % 64 == bit);
            assert(tree.lvl1@[b].has(k));
            assert(b < 0x80_0000);
            assert(level_has(tree.lvl1@, b * 512 + k));
        }
        let idx: u32 = (self.block_idx as u32) * 512 + (self.word_idx as u32) * 64 + bit;
        self.current_word = self.current_word & (self.current_word - 1);
        proof {
            assert(tree@.contains(idx));
            assert(idx as int / 64 == self.block_idx * 8 + self.word_idx);
            assert(idx as int % 64 == bit);
            assert(self.remaining(tree) =~= before.remaining(tree).remove(idx));
        }
        Some(idx)
    }
}

} // verus!
