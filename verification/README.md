# hislab

A slab allocator over a hierarchy of bitmaps, written in Rust and verified with
Verus.

- `HiSlab<T>` keeps values under stable `u32` indices. An insertion takes the
  lowest free slot, which a four-level bitmap leads to level by level; an index
  stays valid until its value is removed.
- `TaggedHiSlab<T>` adds a second bitmap, which marks some of the occupied slots
  so that they can be counted, walked and filtered on their own.
- `BufferSlab<N>` and `MonoioSlabBuffer<N>` hand out byte buffers of one size
  from a memory mapping.
- Both slabs can sample their occupied or tagged slots at random.

```rust
use hislab::HiSlab;

// Room for 65 536 slots, of which the first 1 024 are written at once.
let mut slab = HiSlab::<i32>::new(1024, 65536).unwrap();

let idx = slab.insert(42);
assert_eq!(slab[idx], 42);

assert_eq!(slab.remove(idx), Some(42));
assert!(slab.get(idx).is_none());

// Freed slots are used again.
assert_eq!(slab.insert(99), idx);
```

## Layout

| Path | What it holds |
|---|---|
| `src/bits.rs`, `src/counting.rs` | facts about bits, counts, ranks and sorted sets |
| `src/bit_block.rs` | blocks of 512 bits |
| `src/bitmap_tree.rs` | the hierarchy: lowest free index, ordered walk, selection by rank |
| `src/slab.rs`, `src/tagged.rs` | the slabs and their iterators |
| `src/buffer_slab.rs`, `src/monoio_buffer.rs` | the buffer pools |
| `src/mapping.rs`, `src/random.rs` | what is trusted of `memmap2` and `rand` |
| `src/laws.rs` | what holds across calls |
| `app/` | guards that free on drop, buffers for monoio, a mapping on huge pages |

## What is proved

The view of a slab is a map from indices to values, that of a bitmap or a pool
the set of the indices in use. Contracts say in these terms what a function
returns and what it changes. Of a random pick they say which draws it makes and
that each draw is the rank of what is picked; which numbers are drawn, how often
and in which order a callback is called, and running times are not stated. The
verified functions do not panic: where a call would
have to (an insertion beyond the capacity, an index that is not occupied), the
case is excluded by the function's precondition.

Trusted without proof are the declarations in `src/mapping.rs` and
`src/random.rs` and the meaning of `u64::count_ones` in `src/bit_block.rs`. The
code in `app/` is ordinary Rust.
